use dnssteal::labels::{decode_labels, parse_sequence_number, Fragment, LabelError};

fn labels(parts: &[&str]) -> Vec<Vec<u8>> {
    parts.iter().map(|part| part.as_bytes().to_vec()).collect()
}

#[test]
fn decodes_id_sequence_and_text() {
    let fragment = decode_labels(&labels(&["QUJD-", "3", "5eb6"])).unwrap();
    assert_eq!(
        fragment,
        Fragment { id: "5eb6".to_string(), sequence: 3, text: "QUJD-".to_string() }
    );
}

#[test]
fn pieces_are_joined_in_the_order_written() {
    let fragment = decode_labels(&labels(&["one", "two", "three", "12", "abcd"])).unwrap();
    assert_eq!(fragment.id, "abcd");
    assert_eq!(fragment.sequence, 12);
    assert_eq!(fragment.text, "onetwothree");
}

#[test]
fn name_without_pieces_holds_empty_text() {
    let fragment = decode_labels(&labels(&["0", "abcd"])).unwrap();
    assert_eq!(fragment, Fragment { id: "abcd".to_string(), sequence: 0, text: String::new() });
}

#[test]
fn non_ascii_text_is_kept() {
    let fragment = decode_labels(&labels(&["gr\u{fc}\u{df}", "e", "1", "\u{e9}t\u{e9}"])).unwrap();
    assert_eq!(fragment.id, "\u{e9}t\u{e9}");
    assert_eq!(fragment.text, "gr\u{fc}\u{df}e");
}

#[test]
fn empty_name_has_no_id() {
    assert_eq!(decode_labels(&[]), Err(LabelError::MalformedId));
}

#[test]
fn id_that_is_not_utf8_is_malformed() {
    let name = vec![b"data".to_vec(), b"0".to_vec(), vec![0xff, 0xfe]];
    assert_eq!(decode_labels(&name), Err(LabelError::MalformedId));
}

#[test]
fn malformed_id_comes_before_other_errors() {
    let name = vec![vec![0xc3], b"x".to_vec(), vec![0x80]];
    assert_eq!(decode_labels(&name), Err(LabelError::MalformedId));
}

#[test]
fn missing_sequence_number_is_malformed() {
    assert_eq!(decode_labels(&labels(&["abcd"])), Err(LabelError::MalformedSequenceNumber));
}

#[test]
fn sequence_number_that_is_no_number_is_malformed() {
    assert_eq!(
        decode_labels(&labels(&["data", "seven", "abcd"])),
        Err(LabelError::MalformedSequenceNumber)
    );
    assert_eq!(
        decode_labels(&labels(&["data", "-1", "abcd"])),
        Err(LabelError::MalformedSequenceNumber)
    );
}

#[test]
fn malformed_sequence_number_comes_before_malformed_fragment() {
    let name = vec![vec![0xff], b"x1".to_vec(), b"abcd".to_vec()];
    assert_eq!(decode_labels(&name), Err(LabelError::MalformedSequenceNumber));
}

#[test]
fn piece_that_is_not_utf8_is_malformed() {
    let name = vec![b"good".to_vec(), vec![0xe2, 0x82], b"4".to_vec(), b"abcd".to_vec()];
    assert_eq!(decode_labels(&name), Err(LabelError::MalformedFragment));
}

#[test]
fn sequence_numbers_parse_as_decimal() {
    assert_eq!(parse_sequence_number(b"0"), Some(0));
    assert_eq!(parse_sequence_number(b"7"), Some(7));
    assert_eq!(parse_sequence_number(b"007"), Some(7));
    assert_eq!(parse_sequence_number(b"1234567890"), Some(1234567890));
    assert_eq!(parse_sequence_number(b"4294967295"), Some(u32::MAX));
    assert_eq!(parse_sequence_number(b"0000000004294967295"), Some(u32::MAX));
}

#[test]
fn sequence_number_may_carry_a_plus_sign() {
    assert_eq!(parse_sequence_number(b"+5"), Some(5));
    assert_eq!(parse_sequence_number(b"+0"), Some(0));
    assert_eq!(parse_sequence_number(b"+"), None);
    assert_eq!(parse_sequence_number(b"++5"), None);
    assert_eq!(parse_sequence_number(b"5+"), None);
}

#[test]
fn sequence_number_must_fit_32_bits() {
    assert_eq!(parse_sequence_number(b"4294967296"), None);
    assert_eq!(parse_sequence_number(b"99999999999999999999999999"), None);
}

#[test]
fn sequence_number_rejects_what_is_no_digit() {
    assert_eq!(parse_sequence_number(b""), None);
    assert_eq!(parse_sequence_number(b"-1"), None);
    assert_eq!(parse_sequence_number(b"12a"), None);
    assert_eq!(parse_sequence_number(b" 1"), None);
    assert_eq!(parse_sequence_number(b"1.0"), None);
    assert_eq!(parse_sequence_number(&[0x31, 0xff]), None);
    assert_eq!(parse_sequence_number("\u{664}".as_bytes()), None);
}

#[test]
fn sequence_number_agrees_with_the_standard_parser() {
    let samples: [&str; 12] =
        ["", "+", "0", "+0", "-0", "42", "+42", "042", "4294967295", "4294967296", "4x", "x4"];
    for sample in samples.iter() {
        assert_eq!(parse_sequence_number(sample.as_bytes()), sample.parse::<u32>().ok());
    }
}

#[test]
fn label_errors_say_what_failed() {
    assert_eq!(
        LabelError::MalformedId.message(),
        "malformed id: the id label is missing or not UTF-8"
    );
    assert_eq!(
        LabelError::MalformedSequenceNumber.message(),
        "malformed sequence number: the label is missing or not a 32-bit decimal number"
    );
    assert_eq!(
        LabelError::MalformedFragment.message(),
        "malformed fragment: a piece of the fragment is not UTF-8"
    );
}
