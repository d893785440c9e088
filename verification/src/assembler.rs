//! The assembler: turns the fragments of one transfer back into the file that
//! was sent.
//!
//! A transfer is a map from sequence number to fragment text. Assembly checks
//! that the sequence numbers have no gap, joins the fragments in ascending
//! order, checks that the last fragment has arrived, undoes the transmission
//! alphabet, decodes the base64 text, splits the envelope
//! `filename 0x00 content-type 0x00 content` and compares the transfer id with
//! the MD5 checksum of the content.

use crate::codec::{
    base64_decode, base64_decoding, lossy_text, lower_hex, md5_digest, md5_of, to_lower_hex,
    utf8_text_lossy, DECODER_HEADROOM,
};
use std::collections::BTreeMap;
use vstd::array::array_as_slice;
use vstd::prelude::*;
use vstd::set_lib::{lemma_len_subset, lemma_subset_equality};
use vstd::slice::slice_subrange;
use vstd::string::{StrSliceExecFns, StringExecFns};
use vstd::utf8::encode_utf8;

verus! {

/// The character a sender appends to every fragment but the last.
pub const CONTINUATION_MARKER: char = '-';

/// The character that stands in for `+` during transmission.
pub const PLUS_SUBSTITUTE: char = '*';

/// How many leading characters of the checksum make up a transfer id.
pub const ID_LENGTH: usize = 4;

/// Why a transfer could not be assembled.
#[derive(Clone, Copy, Debug, PartialEq, Eq, Structural)]
pub enum AssemblyError {
    /// The sequence numbers are not exactly `0, 1, .., n - 1`.
    IncompleteTransfer,
    /// The joined payload still ends with the continuation marker.
    MissingTerminator,
    /// The normalized payload is not base64.
    PayloadDecodeError,
    /// The decoded bytes hold fewer than two zero separators.
    MalformedEnvelope,
    /// The content type is not the empty one.
    UnsupportedContentType,
    /// The id is not the start of the content's checksum.
    ChecksumMismatch,
}

impl AssemblyError {
    /// What to tell an operator about the failure.
    pub open spec fn text(self) -> Seq<char> {
        match self {
            AssemblyError::IncompleteTransfer =>
                "incomplete transfer: the sequence numbers have a gap"@,
            AssemblyError::MissingTerminator =>
                "missing terminator: the last fragment never arrived"@,
            AssemblyError::PayloadDecodeError =>
                "payload decode error: the payload is not base64"@,
            AssemblyError::MalformedEnvelope =>
                "malformed envelope: the payload lacks its separators"@,
            AssemblyError::UnsupportedContentType =>
                "unsupported content type: only plain payloads are understood"@,
            AssemblyError::ChecksumMismatch =>
                "checksum mismatch: the id is not the start of the content's checksum"@,
        }
    }

    /// The failure in words.
    pub fn message(&self) -> (res: String)
        ensures
            res@ == self.text(),
    {
        match self {
            AssemblyError::IncompleteTransfer => String::from_str(
                "incomplete transfer: the sequence numbers have a gap",
            ),
            AssemblyError::MissingTerminator => String::from_str(
                "missing terminator: the last fragment never arrived",
            ),
            AssemblyError::PayloadDecodeError => String::from_str(
                "payload decode error: the payload is not base64",
            ),
            AssemblyError::MalformedEnvelope => String::from_str(
                "malformed envelope: the payload lacks its separators",
            ),
            AssemblyError::UnsupportedContentType => String::from_str(
                "unsupported content type: only plain payloads are understood",
            ),
            AssemblyError::ChecksumMismatch => String::from_str(
                "checksum mismatch: the id is not the start of the content's checksum",
            ),
        }
    }
}

/// A file that was transmitted, as a mathematical value.
pub struct FileView {
    pub filename: Seq<char>,
    pub content: Seq<char>,
    pub checksum_hex: Seq<char>,
}

/// A successfully assembled file.
#[derive(Clone, Debug, PartialEq, Eq)]
pub struct CompletedFile {
    pub filename: String,
    pub content: String,
    /// Lowercase hexadecimal MD5 digest of `content`.
    pub checksum_hex: String,
    /// Seconds since the Unix epoch at which assembly finished, before the
    /// epoch where negative.
    pub completed_at: i64,
}

impl View for CompletedFile {
    type V = FileView;

    /// What was transmitted; the completion time is not part of it.
    open spec fn view(&self) -> FileView {
        FileView {
            filename: self.filename@,
            content: self.content@,
            checksum_hex: self.checksum_hex@,
        }
    }
}

/// The three parts of a decoded payload.
pub struct Envelope {
    pub filename: Seq<u8>,
    pub content_type: Seq<u8>,
    pub content: Seq<u8>,
}

/// The fragment texts of a buffered transfer.
pub open spec fn fragment_texts(data: Map<u32, String>) -> Map<u32, Seq<char>> {
    data.map_values(|text: String| text@)
}

/// The sequence numbers are exactly those below the number of fragments.
pub open spec fn contiguous(frags: Map<u32, Seq<char>>) -> bool {
    forall|k: u32| frags.contains_key(k) <==> (k as nat) < frags.len()
}

/// The fragments `0 .. n` one after the other.
pub open spec fn joined(frags: Map<u32, Seq<char>>, n: nat) -> Seq<char>
    decreases n,
{
    if n == 0 {
        Seq::empty()
    } else {
        joined(frags, (n - 1) as nat) + frags[(n - 1) as u32]
    }
}

/// All fragments in ascending order of sequence number.
pub open spec fn raw_payload(frags: Map<u32, Seq<char>>) -> Seq<char> {
    joined(frags, frags.len())
}

/// The payload's final character is the continuation marker: the last
/// fragment is still missing.
pub open spec fn lacks_terminator(raw: Seq<char>) -> bool {
    raw.len() > 0 && raw.last() == CONTINUATION_MARKER
}

/// The character is part of the payload: anything but the continuation
/// marker.
pub open spec fn is_payload_char(c: char) -> bool {
    c != CONTINUATION_MARKER
}

/// The character as it was before transmission: the substitute stands for
/// `+`.
pub open spec fn restored_char(c: char) -> char {
    if c == PLUS_SUBSTITUTE {
        '+'
    } else {
        c
    }
}

/// The payload without continuation markers and with every `+` restored.
pub open spec fn normalized(raw: Seq<char>) -> Seq<char> {
    raw.filter(|c: char| is_payload_char(c)).map_values(|c: char| restored_char(c))
}

/// The bytes a normalized payload stands for. A text too long for the decoder
/// to size its output counts as undecodable.
pub open spec fn decoded_payload(text: Seq<char>) -> Option<Seq<u8>> {
    if encode_utf8(text).len() + DECODER_HEADROOM <= usize::MAX {
        base64_decoding(text)
    } else {
        None
    }
}

/// Index of the first zero byte at or after `from`, or the length if there is
/// none.
pub open spec fn next_zero(bytes: Seq<u8>, from: int) -> int
    decreases bytes.len() - from,
{
    if from >= bytes.len() {
        bytes.len() as int
    } else if bytes[from] == 0 {
        from
    } else {
        next_zero(bytes, from + 1)
    }
}

/// The payload split at its first two zero bytes, if it has two.
pub open spec fn envelope(bytes: Seq<u8>) -> Option<Envelope> {
    let first = next_zero(bytes, 0);
    let second = next_zero(bytes, first + 1);
    if second < bytes.len() {
        Some(
            Envelope {
                filename: bytes.subrange(0, first),
                content_type: bytes.subrange(first + 1, second),
                content: bytes.subrange(second + 1, bytes.len() as int),
            },
        )
    } else {
        None
    }
}

/// Lowercase hexadecimal MD5 digest of the content's UTF-8 bytes.
pub open spec fn checksum_hex(content: Seq<char>) -> Seq<char> {
    lower_hex(md5_of(encode_utf8(content)))
}

/// The last step of assembly: the id must be the first four characters of the
/// digest's hexadecimal form.
pub open spec fn sealed(
    id: Seq<char>,
    filename: Seq<char>,
    content: Seq<char>,
    digest: Seq<u8>,
) -> Result<FileView, AssemblyError> {
    let checksum = lower_hex(digest);
    if checksum.len() >= ID_LENGTH && id == checksum.subrange(0, ID_LENGTH as int) {
        Ok(FileView { filename, content, checksum_hex: checksum })
    } else {
        Err(AssemblyError::ChecksumMismatch)
    }
}

/// Checksum computation followed by [`sealed`].
pub open spec fn stamped(id: Seq<char>, filename: Seq<char>, content: Seq<char>) -> Result<
    FileView,
    AssemblyError,
> {
    sealed(id, filename, content, md5_of(encode_utf8(content)))
}

/// What the decoded payload bytes assemble to.
pub open spec fn unpacked(id: Seq<char>, bytes: Seq<u8>) -> Result<FileView, AssemblyError> {
    match envelope(bytes) {
        None => Err(AssemblyError::MalformedEnvelope),
        Some(parts) => if parts.content_type.len() > 0 {
            Err(AssemblyError::UnsupportedContentType)
        } else {
            stamped(id, lossy_text(parts.filename), lossy_text(parts.content))
        },
    }
}

/// What the fragments of a transfer assemble to.
pub open spec fn assembled(id: Seq<char>, frags: Map<u32, Seq<char>>) -> Result<
    FileView,
    AssemblyError,
> {
    if !contiguous(frags) {
        Err(AssemblyError::IncompleteTransfer)
    } else if lacks_terminator(raw_payload(frags)) {
        Err(AssemblyError::MissingTerminator)
    } else {
        match decoded_payload(normalized(raw_payload(frags))) {
            None => Err(AssemblyError::PayloadDecodeError),
            Some(bytes) => unpacked(id, bytes),
        }
    }
}

/// The outcome of an assembly as a mathematical value.
pub open spec fn outcome(res: Result<CompletedFile, AssemblyError>) -> Result<
    FileView,
    AssemblyError,
> {
    match res {
        Ok(file) => Ok(file@),
        Err(e) => Err(e),
    }
}

/// The sequence numbers below `n`.
pub open spec fn below(n: nat) -> Set<u32> {
    Set::new(|k: u32| (k as nat) < n)
}

/// There are `n` sequence numbers below `n`.
pub proof fn lemma_below_len(n: nat)
    requires
        n <= 0x1_0000_0000,
    ensures
        below(n).finite(),
        below(n).len() == n,
    decreases n,
{
    if n == 0 {
        assert(below(n) =~= Set::empty());
    } else {
        lemma_below_len((n - 1) as nat);
        assert(below(n) =~= below((n - 1) as nat).insert((n - 1) as u32));
    }
}

/// No finite set of sequence numbers has more than 2^32 elements.
pub proof fn lemma_key_count_bounded(keys: Set<u32>)
    requires
        keys.finite(),
    ensures
        keys.len() <= 0x1_0000_0000,
{
    lemma_below_len(0x1_0000_0000);
    assert(keys.subset_of(below(0x1_0000_0000)));
    lemma_len_subset(keys, below(0x1_0000_0000));
}

/// A transfer that holds every sequence number below its size holds no other.
pub proof fn lemma_contiguous_from_prefix(frags: Map<u32, Seq<char>>)
    requires
        frags.dom().finite(),
        forall|k: u32| (k as nat) < frags.len() ==> frags.contains_key(k),
    ensures
        contiguous(frags),
{
    let n = frags.len();
    lemma_key_count_bounded(frags.dom());
    lemma_below_len(n);
    assert(below(n).subset_of(frags.dom()));
    lemma_subset_equality(below(n), frags.dom());
    assert forall|k: u32| frags.contains_key(k) <==> (k as nat) < n by {
        assert(below(n).contains(k) <==> (k as nat) < n);
    }
}

/// A gap never assembles: where a sequence number is missing below one that
/// is present, assembly fails as incomplete, whatever the fragments hold.
pub proof fn lemma_gap_is_incomplete(
    id: Seq<char>,
    frags: Map<u32, Seq<char>>,
    missing: u32,
    present: u32,
)
    requires
        missing < present,
        !frags.contains_key(missing),
        frags.contains_key(present),
    ensures
        assembled(id, frags) == Err::<FileView, AssemblyError>(AssemblyError::IncompleteTransfer),
{
    if contiguous(frags) {
        assert((present as nat) < frags.len());
        assert((missing as nat) < frags.len());
    }
}

/// A wrong id is a checksum mismatch: where everything up to the checksum
/// succeeds but the id is not the first four characters of the content's
/// checksum, assembly fails with a mismatch and yields no file.
pub proof fn lemma_wrong_id_is_mismatch(id: Seq<char>, frags: Map<u32, Seq<char>>)
    requires
        contiguous(frags),
        !lacks_terminator(raw_payload(frags)),
        decoded_payload(normalized(raw_payload(frags))) matches Some(bytes) && envelope(bytes)
            matches Some(parts) && parts.content_type.len() == 0 && id != checksum_hex(
            lossy_text(parts.content),
        ).subrange(0, ID_LENGTH as int),
    ensures
        assembled(id, frags) == Err::<FileView, AssemblyError>(AssemblyError::ChecksumMismatch),
{
}

/// Joins the fragments in ascending order of sequence number, provided the
/// sequence numbers have no gap.
pub fn join_fragments(data: &BTreeMap<u32, String>) -> (res: Result<String, AssemblyError>)
    ensures
        match res {
            Ok(raw) => contiguous(fragment_texts(data@)) && raw@ == raw_payload(
                fragment_texts(data@),
            ),
            Err(e) => !contiguous(fragment_texts(data@)) && e == AssemblyError::IncompleteTransfer,
        },
{
    let ghost frags = fragment_texts(data@);
    let count: usize = data.len();
    proof {
        assert(frags.dom() =~= data@.dom());
        lemma_key_count_bounded(data@.dom());
    }
    let mut raw = String::new();
    let mut i: usize = 0;
    while i < count
        invariant
            i <= count,
            count == frags.len(),
            count <= 0x1_0000_0000,
            frags == fragment_texts(data@),
            frags.dom().finite(),
            forall|k: u32| (k as nat) < i ==> frags.contains_key(k),
            raw@ == joined(frags, i as nat),
        decreases count - i,
    {
        let key: u32 = i as u32;
        match data.get(&key) {
            None => {
                assert(!frags.contains_key(key));
                return Err(AssemblyError::IncompleteTransfer);
            },
            Some(text) => {
                assert(frags[key] == text@);
                raw.append(text.as_str());
            },
        }
        i += 1;
    }
    proof {
        lemma_contiguous_from_prefix(frags);
    }
    Ok(raw)
}

/// Whether the payload still ends with the continuation marker.
pub fn ends_with_marker(raw: &str) -> (res: bool)
    ensures
        res == lacks_terminator(raw@),
{
    let n: usize = raw.unicode_len();
    if n == 0 {
        false
    } else {
        raw.get_char(n - 1) == CONTINUATION_MARKER
    }
}

/// Normalizing one more character: a marker is dropped, anything else is
/// kept, the substitute as `+`.
pub proof fn lemma_normalized_push(head: Seq<char>, c: char)
    ensures
        normalized(head.push(c)) == if is_payload_char(c) {
            normalized(head).push(restored_char(c))
        } else {
            normalized(head)
        },
{
    reveal(Seq::filter);
    let keep = |c: char| is_payload_char(c);
    assert(head.push(c).drop_last() =~= head);
    assert(head.push(c).last() == c);
    if is_payload_char(c) {
        assert(head.push(c).filter(keep) == head.filter(keep).push(c));
        assert(normalized(head.push(c)) =~= normalized(head).push(restored_char(c)));
    } else {
        assert(head.push(c).filter(keep) == head.filter(keep));
    }
}

/// Undoes the transmission alphabet: drops every continuation marker and
/// turns every substitute back into `+`.
pub fn normalize(raw: &str) -> (out: String)
    ensures
        out@ == normalized(raw@),
{
    let mut out = String::new();
    proof {
        reveal(Seq::filter);
        assert(raw@.take(0) =~= Seq::<char>::empty());
        assert(normalized(Seq::<char>::empty()) =~= Seq::<char>::empty());
    }
    for c in it: raw.chars()
        invariant
            it.seq() == raw@,
            out@ == normalized(raw@.take(it.index())),
    {
        proof {
            assert(raw@.take(it.index() + 1) =~= raw@.take(it.index()).push(c));
            lemma_normalized_push(raw@.take(it.index()), c);
        }
        if c != CONTINUATION_MARKER {
            if c == PLUS_SUBSTITUTE {
                out.push('+');
            } else {
                out.push(c);
            }
        }
    }
    proof {
        assert(raw@.take(raw@.len() as int) =~= raw@);
    }
    out
}

/// Finds the first zero byte at or after `from`; the length where there is
/// none.
pub fn find_zero(bytes: &[u8], from: usize) -> (at: usize)
    ensures
        at == next_zero(bytes@, from as int),
        at <= bytes.len(),
        from <= bytes.len() ==> from <= at,
{
    if from >= bytes.len() {
        return bytes.len();
    }
    let mut i: usize = from;
    while i < bytes.len() && bytes[i] != 0
        invariant
            from <= i <= bytes.len(),
            next_zero(bytes@, from as int) == next_zero(bytes@, i as int),
        decreases bytes.len() - i,
    {
        i += 1;
    }
    i
}

/// Splits a decoded payload at its first two zero bytes into file name,
/// content type and content.
pub fn split_envelope(bytes: &[u8]) -> (res: Option<(&[u8], &[u8], &[u8])>)
    ensures
        match envelope(bytes@) {
            None => res is None,
            Some(parts) => res matches Some(found) && found.0@ == parts.filename && found.1@
                == parts.content_type && found.2@ == parts.content,
        },
{
    let first: usize = find_zero(bytes, 0);
    if first >= bytes.len() {
        return None;
    }
    let second: usize = find_zero(bytes, first + 1);
    if second >= bytes.len() {
        return None;
    }
    Some(
        (
            slice_subrange(bytes, 0, first),
            slice_subrange(bytes, first + 1, second),
            slice_subrange(bytes, second + 1, bytes.len()),
        ),
    )
}

/// The first four hexadecimal digits render the first two bytes.
proof fn lemma_hex_prefix(digest: Seq<u8>)
    requires
        digest.len() >= 2,
    ensures
        lower_hex(digest.subrange(0, 2)) == lower_hex(digest).subrange(0, 4),
{
    assert(lower_hex(digest.subrange(0, 2)) =~= lower_hex(digest).subrange(0, 4));
}

/// Compares the id with the digest and, where they agree, produces the file.
pub fn seal(
    id: &str,
    filename: String,
    content: String,
    digest: &[u8; 16],
    completed_at: i64,
) -> (res: Result<CompletedFile, AssemblyError>)
    ensures
        outcome(res) == sealed(id@, filename@, content@, digest@),
        res matches Ok(file) ==> file.completed_at == completed_at,
{
    let bytes = array_as_slice(digest);
    let checksum = to_lower_hex(bytes);
    let prefix = to_lower_hex(slice_subrange(bytes, 0, 2));
    proof {
        lemma_hex_prefix(digest@);
    }
    if id.to_owned() == prefix {
        Ok(CompletedFile { filename, content, checksum_hex: checksum, completed_at })
    } else {
        Err(AssemblyError::ChecksumMismatch)
    }
}

/// Computes the content's checksum and seals the file with it.
pub fn stamp(id: &str, filename: String, content: String, completed_at: i64) -> (res: Result<
    CompletedFile,
    AssemblyError,
>)
    ensures
        outcome(res) == stamped(id@, filename@, content@),
        res matches Ok(file) ==> file.completed_at == completed_at,
{
    let digest = md5_digest(content.as_str().as_bytes());
    seal(id, filename, content, &digest, completed_at)
}

/// Opens a decoded payload: splits the envelope, rejects content types other
/// than the empty one, reads file name and content as text and checks the id.
pub fn unpack(id: &str, bytes: &[u8], completed_at: i64) -> (res: Result<
    CompletedFile,
    AssemblyError,
>)
    ensures
        outcome(res) == unpacked(id@, bytes@),
        res matches Ok(file) ==> file.completed_at == completed_at,
{
    match split_envelope(bytes) {
        None => Err(AssemblyError::MalformedEnvelope),
        Some((name, kind, body)) => {
            if kind.len() > 0 {
                Err(AssemblyError::UnsupportedContentType)
            } else {
                let filename = utf8_text_lossy(name);
                let content = utf8_text_lossy(body);
                stamp(id, filename, content, completed_at)
            }
        },
    }
}

/// Assembles a transfer: the file that its fragments hold, stamped with the
/// completion time the caller read from its clock, or the reason why they hold
/// none.
pub fn assemble_file(id: &str, data: &BTreeMap<u32, String>, completed_at: i64) -> (res: Result<
    CompletedFile,
    AssemblyError,
>)
    ensures
        outcome(res) == assembled(id@, fragment_texts(data@)),
        res matches Ok(file) ==> file.completed_at == completed_at,
{
    let raw = match join_fragments(data) {
        Ok(raw) => raw,
        Err(e) => {
            return Err(e);
        },
    };
    if ends_with_marker(raw.as_str()) {
        return Err(AssemblyError::MissingTerminator);
    }
    let text = normalize(raw.as_str());
    if text.as_str().as_bytes().len() > usize::MAX - DECODER_HEADROOM {
        return Err(AssemblyError::PayloadDecodeError);
    }
    match base64_decode(text.as_str()) {
        Err(_) => Err(AssemblyError::PayloadDecodeError),
        Ok(bytes) => unpack(id, bytes.as_slice(), completed_at),
    }
}

} // verus!
