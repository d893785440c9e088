use dnssteal::assembler::{
    assemble_file, ends_with_marker, find_zero, join_fragments, normalize, seal,
    split_envelope, stamp, unpack, AssemblyError, CompletedFile,
};
use dnssteal::store::TransferStore;
use std::collections::BTreeMap;

fn checksum_of(content: &str) -> String {
    format!("{:x}", md5::compute(content.as_bytes()))
}

fn id_of(content: &str) -> String {
    checksum_of(content)[0..4].to_string()
}

fn envelope(filename: &str, kind: &str, content: &[u8]) -> Vec<u8> {
    let mut bytes = filename.as_bytes().to_vec();
    bytes.push(0);
    bytes.extend_from_slice(kind.as_bytes());
    bytes.push(0);
    bytes.extend_from_slice(content);
    bytes
}

/// Encodes a file as a sender does: base64 with `+` written as `*`, cut into
/// chunks, every chunk but the last followed by `-`.
fn transmit(filename: &str, content: &str, chunk_len: usize) -> Vec<(u32, String)> {
    let encoded = base64::encode(envelope(filename, "", content.as_bytes())).replace('+', "*");
    let chars: Vec<char> = encoded.chars().collect();
    let chunks: Vec<String> = chars.chunks(chunk_len).map(|c| c.iter().collect()).collect();
    let count = chunks.len();
    let mut fragments = Vec::new();
    for (index, chunk) in chunks.into_iter().enumerate() {
        let text = if index + 1 < count { format!("{}-", chunk) } else { chunk };
        fragments.push((index as u32, text));
    }
    fragments
}

fn fragments(parts: &[(u32, &str)]) -> BTreeMap<u32, String> {
    parts.iter().map(|(sequence, text)| (*sequence, text.to_string())).collect()
}

#[test]
fn single_fragment_assembles() {
    let content = "hello world";
    let sent = transmit("notes.txt", content, 1000);
    assert_eq!(sent.len(), 1);
    let mut data = BTreeMap::new();
    data.insert(0u32, sent[0].1.clone());
    let file = assemble_file("5eb6", &data, 1_600_000_000).unwrap();
    assert_eq!(
        file,
        CompletedFile {
            filename: "notes.txt".to_string(),
            content: content.to_string(),
            checksum_hex: "5eb63bbbe01eeed093cb22bb8f5acdc3".to_string(),
            completed_at: 1_600_000_000,
        }
    );
}

#[test]
fn round_trip_through_the_store_in_any_order() {
    let filename = "r\u{e9}sum\u{e9} 2020.txt";
    let content = "line one\n>>> two ?? \u{2603} ~~~\nline three\u{0}with a zero byte\n";
    let sent = transmit(filename, content, 7);
    assert!(sent.len() > 5);
    assert!(sent.iter().any(|(_, text)| text.contains('*')));
    let id = id_of(content);
    let count = sent.len();
    let orders: Vec<Vec<usize>> = vec![
        (0..count).collect(),
        (0..count).rev().collect(),
        (0..count).filter(|i| i % 2 == 1).chain((0..count).rev().filter(|i| i % 2 == 0)).collect(),
    ];
    for order in orders {
        let mut seen = order.clone();
        seen.sort();
        seen.dedup();
        assert_eq!(seen.len(), count);
        let mut store = TransferStore::new();
        let mut now = 0;
        for index in order {
            let (sequence, text) = sent[index].clone();
            store.upsert_fragment(id.clone(), sequence, text, now);
            now += 3;
        }
        let drained = store.drain_idle(5_000, now + 5_001);
        assert_eq!(drained.len(), 1);
        let file = assemble_file(&drained[0].id, &drained[0].fragments, 42).unwrap();
        assert_eq!(file.filename, filename);
        assert_eq!(file.content, content);
        assert_eq!(file.checksum_hex, checksum_of(content));
        assert_eq!(&file.checksum_hex[0..4], id);
        assert_eq!(file.completed_at, 42);
    }
}

#[test]
fn round_trip_of_an_empty_file() {
    let sent = transmit("", "", 4);
    let data: BTreeMap<u32, String> = sent.into_iter().collect();
    let file = assemble_file("d41d", &data, 0).unwrap();
    assert_eq!(file.filename, "");
    assert_eq!(file.content, "");
    assert_eq!(file.checksum_hex, "d41d8cd98f00b204e9800998ecf8427e");
}

#[test]
fn gap_in_sequence_numbers_is_incomplete() {
    let data = fragments(&[(0, "QUJD-"), (2, "REVG")]);
    assert_eq!(assemble_file("abcd", &data, 0), Err(AssemblyError::IncompleteTransfer));
    assert_eq!(join_fragments(&data), Err(AssemblyError::IncompleteTransfer));
}

#[test]
fn gap_at_zero_is_incomplete() {
    let data = fragments(&[(1, "QUJD")]);
    assert_eq!(assemble_file("abcd", &data, 0), Err(AssemblyError::IncompleteTransfer));
}

#[test]
fn gap_never_assembles_after_a_drain() {
    let mut store = TransferStore::new();
    store.upsert_fragment("abcd".to_string(), 0, "QUJD-".to_string(), 0);
    store.upsert_fragment("abcd".to_string(), 2, "REVG".to_string(), 10);
    let drained = store.drain_idle(5_000, 6_000);
    assert_eq!(drained.len(), 1);
    assert_eq!(
        assemble_file(&drained[0].id, &drained[0].fragments, 0),
        Err(AssemblyError::IncompleteTransfer)
    );
    assert!(store.is_empty());
}

#[test]
fn fragments_are_joined_by_number_not_by_text() {
    let data = fragments(&[(2, "a"), (0, "c-"), (1, "b-"), (10, "k"), (3, "d"), (4, "e"),
        (5, "f"), (6, "g"), (7, "h"), (8, "i"), (9, "j")]);
    assert_eq!(join_fragments(&data).unwrap(), "c-b-adefghijk");
}

#[test]
fn no_fragments_join_to_nothing() {
    let data: BTreeMap<u32, String> = BTreeMap::new();
    assert_eq!(join_fragments(&data).unwrap(), "");
    assert_eq!(assemble_file("abcd", &data, 0), Err(AssemblyError::MalformedEnvelope));
}

#[test]
fn trailing_marker_means_the_last_fragment_is_missing() {
    let content = "hello world";
    let sent = transmit("notes.txt", content, 6);
    assert!(sent.len() > 2);
    let mut data: BTreeMap<u32, String> = sent.into_iter().collect();
    let last = (data.len() - 1) as u32;
    data.remove(&last);
    assert_eq!(assemble_file(&id_of(content), &data, 0), Err(AssemblyError::MissingTerminator));
}

#[test]
fn marker_is_told_by_the_last_character() {
    assert!(ends_with_marker("QUJD-"));
    assert!(ends_with_marker("-"));
    assert!(!ends_with_marker(""));
    assert!(!ends_with_marker("QU-JD"));
    assert!(!ends_with_marker("-QUJD"));
    assert!(!ends_with_marker("QUJD-\u{e9}"));
    assert!(ends_with_marker("\u{e9}-"));
}

#[test]
fn normalize_restores_plus_and_drops_markers() {
    assert_eq!(normalize(""), "");
    assert_eq!(normalize("QUJD"), "QUJD");
    assert_eq!(normalize("Pj4*-Pj4*-Pg=="), "Pj4+Pj4+Pg==");
    assert_eq!(normalize("--**--"), "++");
    assert_eq!(normalize("a+b*c-d\u{e9}-"), "a+b+cd\u{e9}");
}

#[test]
fn payload_that_is_not_base64_fails_to_decode() {
    let data = fragments(&[(0, "this is not base64!")]);
    assert_eq!(assemble_file("abcd", &data, 0), Err(AssemblyError::PayloadDecodeError));
    let data = fragments(&[(0, "QUJ\u{e9}")]);
    assert_eq!(assemble_file("abcd", &data, 0), Err(AssemblyError::PayloadDecodeError));
    let data = fragments(&[(0, "QUJDR")]);
    assert_eq!(assemble_file("abcd", &data, 0), Err(AssemblyError::PayloadDecodeError));
}

#[test]
fn payload_without_two_separators_is_malformed() {
    let none = base64::encode(b"no separators");
    let data = fragments(&[(0, none.as_str())]);
    assert_eq!(assemble_file("abcd", &data, 0), Err(AssemblyError::MalformedEnvelope));
    let one = base64::encode(b"name\0content");
    let data = fragments(&[(0, one.as_str())]);
    assert_eq!(assemble_file("abcd", &data, 0), Err(AssemblyError::MalformedEnvelope));
    assert_eq!(unpack("abcd", b"", 0), Err(AssemblyError::MalformedEnvelope));
    assert_eq!(unpack("abcd", b"\0", 0), Err(AssemblyError::MalformedEnvelope));
}

#[test]
fn content_type_other_than_empty_is_unsupported() {
    let content = "hello world";
    let payload = base64::encode(envelope("notes.txt", "z", content.as_bytes()));
    let data = fragments(&[(0, payload.as_str())]);
    assert_eq!(
        assemble_file(&id_of(content), &data, 0),
        Err(AssemblyError::UnsupportedContentType)
    );
}

#[test]
fn id_that_is_not_the_checksum_prefix_is_a_mismatch() {
    let content = "hello world";
    let sent = transmit("notes.txt", content, 1000);
    let data: BTreeMap<u32, String> = sent.into_iter().collect();
    assert!(assemble_file("5eb6", &data, 0).is_ok());
    assert_eq!(assemble_file("5eb7", &data, 0), Err(AssemblyError::ChecksumMismatch));
    assert_eq!(assemble_file("0000", &data, 0), Err(AssemblyError::ChecksumMismatch));
    assert_eq!(assemble_file("5EB6", &data, 0), Err(AssemblyError::ChecksumMismatch));
    assert_eq!(assemble_file("5eb", &data, 0), Err(AssemblyError::ChecksumMismatch));
    assert_eq!(assemble_file("5eb63", &data, 0), Err(AssemblyError::ChecksumMismatch));
    assert_eq!(assemble_file("", &data, 0), Err(AssemblyError::ChecksumMismatch));
}

#[test]
fn corrupted_content_is_a_mismatch() {
    let sent = transmit("notes.txt", "hello world", 1000);
    let received = base64::encode(envelope("notes.txt", "", b"hello w0rld"));
    assert_ne!(sent[0].1, received);
    let data = fragments(&[(0, received.as_str())]);
    assert_eq!(assemble_file("5eb6", &data, 0), Err(AssemblyError::ChecksumMismatch));
}

#[test]
fn envelope_splits_at_the_first_two_zero_bytes() {
    let (name, kind, body) = split_envelope(b"name\0kind\0body\0with\0zeros").unwrap();
    assert_eq!(name, b"name");
    assert_eq!(kind, b"kind");
    assert_eq!(body, b"body\0with\0zeros");
    let (name, kind, body) = split_envelope(b"\0\0").unwrap();
    assert!(name.is_empty() && kind.is_empty() && body.is_empty());
    assert!(split_envelope(b"only\0one").is_none());
    assert!(split_envelope(b"none").is_none());
}

#[test]
fn zero_bytes_are_found_from_a_position_on() {
    let bytes = b"ab\0cd\0";
    assert_eq!(find_zero(bytes, 0), 2);
    assert_eq!(find_zero(bytes, 2), 2);
    assert_eq!(find_zero(bytes, 3), 5);
    assert_eq!(find_zero(bytes, 6), 6);
    assert_eq!(find_zero(bytes, 7), 6);
    assert_eq!(find_zero(bytes, usize::MAX), 6);
    assert_eq!(find_zero(b"abc", 0), 3);
    assert_eq!(find_zero(b"", 0), 0);
}

#[test]
fn bytes_that_are_not_utf8_are_read_with_replacements() {
    let body: [u8; 5] = [b'a', 0xff, b'b', 0xc3, b'c'];
    let text = "a\u{fffd}b\u{fffd}c";
    let mut payload = vec![b'f', 0x80];
    payload.extend_from_slice(&envelope("", "", &body));
    let file = unpack(&id_of(text), &payload, 5).unwrap();
    assert_eq!(file.filename, "f\u{fffd}");
    assert_eq!(file.content, text);
    assert_eq!(file.checksum_hex, checksum_of(text));
}

#[test]
fn stamp_checks_the_id_against_the_content() {
    let file = stamp("5eb6", "a".to_string(), "hello world".to_string(), 9).unwrap();
    assert_eq!(file.checksum_hex, "5eb63bbbe01eeed093cb22bb8f5acdc3");
    assert_eq!(file.completed_at, 9);
    assert_eq!(
        stamp("5eb6", "a".to_string(), "hello world!".to_string(), 9),
        Err(AssemblyError::ChecksumMismatch)
    );
}

#[test]
fn seal_compares_the_id_with_the_digest_it_is_given() {
    let digest: [u8; 16] =
        [0xab, 0xcd, 0xef, 0x01, 0, 0, 0, 0, 0, 0, 0, 0, 0, 0, 0, 0x0f];
    let file = seal("abcd", "name".to_string(), "content".to_string(), &digest, -3).unwrap();
    assert_eq!(
        file,
        CompletedFile {
            filename: "name".to_string(),
            content: "content".to_string(),
            checksum_hex: "abcdef0100000000000000000000000f".to_string(),
            completed_at: -3,
        }
    );
    assert_eq!(
        seal("abce", "name".to_string(), "content".to_string(), &digest, -3),
        Err(AssemblyError::ChecksumMismatch)
    );
}

#[test]
fn assemble_file_stamps_the_time_it_is_given() {
    let content = "hello world";
    let data: BTreeMap<u32, String> = transmit("notes.txt", content, 5).into_iter().collect();
    let times: [i64; 5] = [0, 1, -1, i64::MAX, i64::MIN];
    for time in times.iter() {
        let file = assemble_file("5eb6", &data, *time).unwrap();
        assert_eq!(file.completed_at, *time);
        assert_eq!(file.filename, "notes.txt");
        assert_eq!(file.content, content);
    }
    assert_eq!(assemble_file("0000", &data, 7), Err(AssemblyError::ChecksumMismatch));
}

#[test]
fn assembly_errors_say_what_failed() {
    assert_eq!(
        AssemblyError::IncompleteTransfer.message(),
        "incomplete transfer: the sequence numbers have a gap"
    );
    assert_eq!(
        AssemblyError::MissingTerminator.message(),
        "missing terminator: the last fragment never arrived"
    );
    assert_eq!(
        AssemblyError::PayloadDecodeError.message(),
        "payload decode error: the payload is not base64"
    );
    assert_eq!(
        AssemblyError::MalformedEnvelope.message(),
        "malformed envelope: the payload lacks its separators"
    );
    assert_eq!(
        AssemblyError::UnsupportedContentType.message(),
        "unsupported content type: only plain payloads are understood"
    );
    assert_eq!(
        AssemblyError::ChecksumMismatch.message(),
        "checksum mismatch: the id is not the start of the content's checksum"
    );
}
