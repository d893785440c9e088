//! The sender's side of the transmission scheme, as far as the engine's
//! guarantees speak of it, and the round trip from a file to its fragments
//! and back.

use crate::assembler::{
    assembled, below, checksum_hex, contiguous, decoded_payload, envelope, is_payload_char,
    joined, lacks_terminator, lemma_below_len, lemma_normalized_push, next_zero, normalized,
    raw_payload, AssemblyError, FileView, CONTINUATION_MARKER, ID_LENGTH, PLUS_SUBSTITUTE,
};
use crate::codec::{base64_decoding, lossy_text, DECODER_HEADROOM};
use crate::delivery::{
    carries, delivered, fragments_of, gathered, lemma_delivered_gathers,
    lemma_gathered_ignores_order, mentions, Arrival,
};
use crate::labels::{
    all_digits, decimal_value, decoded, is_digit, pieces_text, pieces_valid, sequence_number,
    FragmentView, LabelError,
};
use crate::responder::{data_labels, table_after_name};
use crate::store::{upserted, TransferView};
use vstd::prelude::*;
use vstd::utf8::{
    char_u32_cast, encode_scalar, encode_utf8, encode_utf8_decode_utf8, encode_utf8_valid_utf8,
    has_width_1_encoding, last_continuation_byte, leading_byte_width_1, leading_byte_width_2,
    leading_byte_width_3, leading_byte_width_4, second_last_continuation_byte,
    third_last_continuation_byte, valid_utf8,
};

verus! {

/// The character that travels in place of `c`.
pub open spec fn substitute_char(c: char) -> char {
    if c == '+' {
        PLUS_SUBSTITUTE
    } else {
        c
    }
}

/// Base64 text in the transmission alphabet: every `+` written as the
/// substitute.
pub open spec fn substituted(encoded: Seq<char>) -> Seq<char> {
    encoded.map_values(|c: char| substitute_char(c))
}

/// The envelope of a plain file: name, a zero byte, the empty content type, a
/// zero byte, the content.
pub open spec fn envelope_bytes(filename: Seq<char>, content: Seq<char>) -> Seq<u8> {
    encode_utf8(filename) + seq![0u8, 0u8] + encode_utf8(content)
}

/// The id under which a file with this content travels: the first four
/// characters of its checksum.
pub open spec fn transfer_id(content: Seq<char>) -> Seq<char> {
    checksum_hex(content).subrange(0, ID_LENGTH as int)
}

/// The text of fragment `i`: chunk `i`, followed by the continuation marker
/// unless it is the last.
pub open spec fn fragment_text(chunks: Seq<Seq<char>>, i: int) -> Seq<char> {
    if i + 1 < chunks.len() {
        chunks[i].push(CONTINUATION_MARKER)
    } else {
        chunks[i]
    }
}

/// The fragments a sender emits for the chunks of a payload, numbered from
/// zero.
pub open spec fn sent(id: Seq<char>, chunks: Seq<Seq<char>>) -> Seq<FragmentView> {
    Seq::new(
        chunks.len(),
        |i: int| FragmentView { id, sequence: i as u32, text: fragment_text(chunks, i) },
    )
}

/// `chunks` is a transmission of the file: `encoded` is base64 text of the
/// file's envelope, and the chunks are that text, in the transmission
/// alphabet, cut into at most 2^32 pieces of which the last is not empty. The
/// file name holds no NUL, base64 text holds neither the continuation marker
/// nor the substitute, and the text is short enough for the decoder.
pub open spec fn is_transmission(
    filename: Seq<char>,
    content: Seq<char>,
    encoded: Seq<char>,
    chunks: Seq<Seq<char>>,
) -> bool {
    &&& forall|i: int| 0 <= i < filename.len() ==> filename[i] != '\0'
    &&& base64_decoding(encoded) == Some(envelope_bytes(filename, content))
    &&& encode_utf8(encoded).len() + DECODER_HEADROOM <= usize::MAX
    &&& forall|i: int|
        0 <= i < encoded.len() ==> encoded[i] != CONTINUATION_MARKER && encoded[i]
            != PLUS_SUBSTITUTE
    &&& 0 < chunks.len() <= 0x1_0000_0000
    &&& chunks.last().len() > 0
    &&& chunks.flatten() == substituted(encoded)
}

/// The decimal digits of a number, without leading zeros.
pub open spec fn decimal_digits(n: nat) -> Seq<u8>
    decreases n,
{
    if n < 10 {
        seq![(48 + n) as u8]
    } else {
        decimal_digits(n / 10).push((48 + n % 10) as u8)
    }
}

/// The labels of a query that carries a fragment: the fragment text cut into
/// pieces, the sequence number in decimal, the transfer id, and the label of
/// the zone.
pub open spec fn name_of(fragment: FragmentView, pieces: Seq<Seq<char>>, zone: Seq<u8>) -> Seq<
    Seq<u8>,
> {
    pieces.map_values(|piece: Seq<char>| encode_utf8(piece)) + seq![
        decimal_digits(fragment.sequence as nat),
        encode_utf8(fragment.id),
        zone,
    ]
}

/// The fragment map that the sent fragments make up.
pub open spec fn sent_fragments(chunks: Seq<Seq<char>>) -> Map<u32, Seq<char>> {
    Map::new(|k: u32| (k as int) < chunks.len(), |k: u32| fragment_text(chunks, k as int))
}

/// Flattening ends with the last part.
proof fn lemma_flatten_last(parts: Seq<Seq<char>>)
    requires
        parts.len() > 0,
    ensures
        parts.flatten() == parts.drop_last().flatten() + parts.last(),
{
    parts.lemma_flatten_and_flatten_alt_are_equivalent();
    parts.drop_last().lemma_flatten_and_flatten_alt_are_equivalent();
}

/// Normalizing goes part by part.
proof fn lemma_normalized_concat(a: Seq<char>, b: Seq<char>)
    ensures
        normalized(a + b) == normalized(a) + normalized(b),
{
    let keep = |c: char| is_payload_char(c);
    Seq::filter_distributes_over_add(a, b, keep);
    assert(normalized(a + b) =~= normalized(a) + normalized(b));
}

/// Normalizing the joined fragments gives the same as normalizing the chunks
/// they were made from: the markers are gone.
proof fn lemma_joined_normalizes(chunks: Seq<Seq<char>>, m: nat)
    requires
        m <= chunks.len() <= 0x1_0000_0000,
    ensures
        normalized(joined(sent_fragments(chunks), m)) == normalized(
            chunks.take(m as int).flatten(),
        ),
    decreases m,
{
    let frags = sent_fragments(chunks);
    if m == 0 {
        assert(chunks.take(0).flatten() =~= Seq::<char>::empty());
    } else {
        let i = (m - 1) as int;
        lemma_joined_normalizes(chunks, (m - 1) as nat);
        let head = chunks.take(m as int);
        assert(head.drop_last() =~= chunks.take(i));
        assert(head.last() == chunks[i]);
        lemma_flatten_last(head);
        assert(frags[i as u32] == fragment_text(chunks, i));
        lemma_normalized_concat(joined(frags, i as nat), frags[i as u32]);
        lemma_normalized_concat(chunks.take(i).flatten(), chunks[i]);
        lemma_normalized_push(chunks[i], CONTINUATION_MARKER);
    }
}

/// Normalizing base64 text that went through the transmission alphabet gives
/// the text back.
proof fn lemma_normalized_substituted(encoded: Seq<char>)
    requires
        forall|i: int|
            0 <= i < encoded.len() ==> encoded[i] != CONTINUATION_MARKER && encoded[i]
                != PLUS_SUBSTITUTE,
    ensures
        normalized(substituted(encoded)) == encoded,
    decreases encoded.len(),
{
    if encoded.len() == 0 {
        reveal(Seq::filter);
        assert(substituted(encoded) =~= Seq::<char>::empty());
        assert(normalized(Seq::<char>::empty()) =~= Seq::<char>::empty());
    } else {
        let head = encoded.drop_last();
        let c = encoded.last();
        lemma_normalized_substituted(head);
        assert(substituted(encoded) =~= substituted(head).push(substitute_char(c)));
        lemma_normalized_push(substituted(head), substitute_char(c));
        assert(head.push(c) =~= encoded);
    }
}

/// Only the scalar zero has a zero byte in its UTF-8 form.
proof fn lemma_scalar_bytes_nonzero(s: u32)
    requires
        s != 0,
    ensures
        forall|i: int| 0 <= i < encode_scalar(s).len() ==> encode_scalar(s)[i] != 0,
{
    if has_width_1_encoding(s) {
        assert(leading_byte_width_1(s) != 0) by (bit_vector)
            requires
                s != 0,
                has_width_1_encoding(s),
        ;
    } else {
        assert(leading_byte_width_2(s) != 0) by (bit_vector);
        assert(leading_byte_width_3(s) != 0) by (bit_vector);
        assert(leading_byte_width_4(s) != 0) by (bit_vector);
        assert(last_continuation_byte(s) != 0) by (bit_vector);
        assert(second_last_continuation_byte(s) != 0) by (bit_vector);
        assert(third_last_continuation_byte(s) != 0) by (bit_vector);
    }
}

/// Text without NUL encodes to bytes without zero.
pub proof fn lemma_encoded_nonzero(text: Seq<char>)
    requires
        forall|i: int| 0 <= i < text.len() ==> text[i] != '\0',
    ensures
        forall|j: int| 0 <= j < encode_utf8(text).len() ==> encode_utf8(text)[j] != 0,
    decreases text.len(),
{
    if text.len() > 0 {
        let first = encode_scalar(text[0] as u32);
        let rest = text.drop_first();
        assert(text[0] != '\0');
        if text[0] as u32 == 0 {
            char_u32_cast(text[0], 0u32);
            char_u32_cast('\0', 0u32);
        }
        lemma_scalar_bytes_nonzero(text[0] as u32);
        assert forall|i: int| 0 <= i < rest.len() implies rest[i] != '\0' by {
            assert(rest[i] == text[i + 1]);
        }
        lemma_encoded_nonzero(rest);
        assert forall|j: int| 0 <= j < encode_utf8(text).len() implies encode_utf8(text)[j]
            != 0 by {
            if j < first.len() {
                assert(encode_utf8(text)[j] == first[j]);
            } else {
                assert(encode_utf8(text)[j] == encode_utf8(rest)[j - first.len()]);
            }
        }
    }
}

/// The search for a zero byte stops at the first one.
proof fn lemma_next_zero_found(bytes: Seq<u8>, from: int, at: int)
    requires
        0 <= from <= at < bytes.len(),
        bytes[at] == 0,
        forall|i: int| from <= i < at ==> bytes[i] != 0,
    ensures
        next_zero(bytes, from) == at,
    decreases at - from,
{
    if from < at {
        lemma_next_zero_found(bytes, from + 1, at);
    }
}

/// The envelope of a plain file splits back into its name, the empty content
/// type and its content.
proof fn lemma_envelope_opens(filename: Seq<char>, content: Seq<char>)
    requires
        forall|i: int| 0 <= i < filename.len() ==> filename[i] != '\0',
    ensures
        envelope(envelope_bytes(filename, content)) matches Some(parts) && parts.filename
            == encode_utf8(filename) && parts.content_type.len() == 0 && parts.content
            == encode_utf8(content),
{
    let name = encode_utf8(filename);
    let body = encode_utf8(content);
    let bytes = envelope_bytes(filename, content);
    lemma_encoded_nonzero(filename);
    let first = name.len() as int;
    assert forall|i: int| 0 <= i < first implies bytes[i] != 0 by {
        assert(bytes[i] == name[i]);
    }
    assert(bytes[first] == 0);
    assert(bytes[first + 1] == 0);
    lemma_next_zero_found(bytes, 0, first);
    lemma_next_zero_found(bytes, first + 1, first + 1);
    let parts = envelope(bytes)->Some_0;
    assert(parts.filename =~= name);
    assert(parts.content_type =~= Seq::<u8>::empty());
    assert(parts.content =~= body);
}

/// Text that was encoded as UTF-8 reads back as itself.
proof fn lemma_lossy_text_of_encoded(text: Seq<char>)
    ensures
        lossy_text(encode_utf8(text)) == text,
{
    encode_utf8_valid_utf8(text);
    encode_utf8_decode_utf8(text);
}

/// Decimal digits read back as the number they were written for.
proof fn lemma_decimal_digits(n: nat)
    ensures
        decimal_digits(n).len() > 0,
        decimal_digits(n)[0] != 43,
        all_digits(decimal_digits(n)),
        decimal_value(decimal_digits(n)) == n,
    decreases n,
{
    let digits = decimal_digits(n);
    if n < 10 {
        assert(digits.drop_last() =~= Seq::<u8>::empty());
        assert(decimal_value(digits.drop_last()) == 0);
        assert(is_digit(digits[0]));
    } else {
        let head = decimal_digits(n / 10);
        lemma_decimal_digits(n / 10);
        assert(digits.drop_last() =~= head);
        assert(is_digit(digits.last()));
        assert forall|i: int| 0 <= i < digits.len() implies is_digit(#[trigger] digits[i]) by {
            if i < head.len() {
                assert(digits[i] == head[i]);
            }
        }
    }
}

/// Pieces that were encoded as UTF-8 are valid and read back as the text they
/// were cut from.
proof fn lemma_pieces_read_back(pieces: Seq<Seq<char>>)
    ensures
        pieces_valid(pieces.map_values(|piece: Seq<char>| encode_utf8(piece))),
        pieces_text(pieces.map_values(|piece: Seq<char>| encode_utf8(piece))) == pieces.flatten(),
    decreases pieces.len(),
{
    let labels = pieces.map_values(|piece: Seq<char>| encode_utf8(piece));
    assert forall|i: int| 0 <= i < labels.len() implies valid_utf8(#[trigger] labels[i]) by {
        encode_utf8_valid_utf8(pieces[i]);
    }
    if pieces.len() > 0 {
        lemma_pieces_read_back(pieces.drop_last());
        assert(labels.drop_last() =~= pieces.drop_last().map_values(
            |piece: Seq<char>| encode_utf8(piece),
        ));
        encode_utf8_decode_utf8(pieces.last());
        lemma_flatten_last(pieces);
    }
}

/// A fragment that is written into a name as [`name_of`] says is the fragment
/// the label decoder reads, and taking the name in stores exactly that
/// fragment.
pub proof fn lemma_name_carries_fragment(
    fragment: FragmentView,
    pieces: Seq<Seq<char>>,
    zone: Seq<u8>,
    table: Map<Seq<char>, TransferView>,
    now: u64,
)
    requires
        pieces.flatten() == fragment.text,
    ensures
        decoded(data_labels(name_of(fragment, pieces, zone))) == Ok::<FragmentView, LabelError>(
            fragment,
        ),
        table_after_name(table, name_of(fragment, pieces, zone), now) == upserted(
            table,
            fragment.id,
            fragment.sequence,
            fragment.text,
            now,
        ),
{
    let name = name_of(fragment, pieces, zone);
    let labels = data_labels(name);
    let carried = pieces.map_values(|piece: Seq<char>| encode_utf8(piece));
    let n = labels.len() as int;
    assert(labels =~= carried + seq![
        decimal_digits(fragment.sequence as nat),
        encode_utf8(fragment.id),
    ]);
    assert(labels[n - 1] == encode_utf8(fragment.id));
    assert(labels[n - 2] == decimal_digits(fragment.sequence as nat));
    assert(labels.subrange(0, n - 2) =~= carried);
    encode_utf8_valid_utf8(fragment.id);
    encode_utf8_decode_utf8(fragment.id);
    lemma_decimal_digits(fragment.sequence as nat);
    lemma_pieces_read_back(pieces);
    assert(sequence_number(labels[n - 2]) == Some(fragment.sequence));
}

/// The sent fragments number from zero without a gap, are not missing their
/// last one, and assemble to the file.
proof fn lemma_sent_fragments_assemble(
    filename: Seq<char>,
    content: Seq<char>,
    encoded: Seq<char>,
    chunks: Seq<Seq<char>>,
)
    requires
        is_transmission(filename, content, encoded, chunks),
    ensures
        assembled(transfer_id(content), sent_fragments(chunks)) == Ok::<FileView, AssemblyError>(
            FileView { filename, content, checksum_hex: checksum_hex(content) },
        ),
{
    let frags = sent_fragments(chunks);
    let n = chunks.len();
    let id = transfer_id(content);
    lemma_below_len(n);
    assert(frags.dom() =~= below(n));
    assert(contiguous(frags));
    let raw = raw_payload(frags);
    let last = (n - 1) as int;
    assert(frags[last as u32] == chunks[last]);
    assert(raw == joined(frags, last as nat) + chunks[last]);
    lemma_flatten_last(chunks);
    let flat = chunks.flatten();
    assert(flat.last() == chunks[last].last());
    assert(flat.len() == encoded.len());
    assert(flat.last() == substitute_char(encoded.last()));
    assert(raw.last() == chunks[last].last());
    assert(!lacks_terminator(raw));
    lemma_joined_normalizes(chunks, n);
    assert(chunks.take(n as int) =~= chunks);
    lemma_normalized_substituted(encoded);
    assert(normalized(raw) == encoded);
    assert(decoded_payload(encoded) == Some(envelope_bytes(filename, content)));
    lemma_envelope_opens(filename, content);
    lemma_lossy_text_of_encoded(filename);
    lemma_lossy_text_of_encoded(content);
    assert(checksum_hex(content).len() == 32);
}

/// Round trip: a file is encoded for transmission, cut into fragments and
/// sent under the id its checksum gives; the fragments arrive in any order, at
/// any times, at a store that does not know the id yet. Then the store holds a
/// transfer under that id which assembles to the file that was sent, with a
/// checksum that starts with the id.
pub proof fn lemma_round_trip(
    filename: Seq<char>,
    content: Seq<char>,
    encoded: Seq<char>,
    chunks: Seq<Seq<char>>,
    table: Map<Seq<char>, TransferView>,
    arrivals: Seq<Arrival>,
)
    requires
        is_transmission(filename, content, encoded, chunks),
        !table.contains_key(transfer_id(content)),
        fragments_of(arrivals).to_multiset() == sent(transfer_id(content), chunks).to_multiset(),
    ensures
        delivered(table, arrivals).contains_key(transfer_id(content)),
        assembled(transfer_id(content), delivered(table, arrivals)[transfer_id(content)].fragments)
            == Ok::<FileView, AssemblyError>(
            FileView { filename, content, checksum_hex: checksum_hex(content) },
        ),
        checksum_hex(content).subrange(0, ID_LENGTH as int) == transfer_id(content),
{
    let id = transfer_id(content);
    let out = sent(id, chunks);
    let got = fragments_of(arrivals);
    assert forall|i: int, j: int|
        0 <= i < out.len() && 0 <= j < out.len() && (#[trigger] out[i]).id == (#[trigger] out[j]).id
            && out[i].sequence == out[j].sequence implies out[i].text == out[j].text by {
        assert(i == j);
    }
    lemma_gathered_ignores_order(table, out, got, id);
    lemma_gathered_ignores_order(table, got, out, id);
    lemma_delivered_gathers(table, arrivals, id);
    assert(mentions(out, 0, id));
    let held = gathered(table, out, id);
    let want = sent_fragments(chunks);
    assert forall|k: u32| held.contains_key(k) <==> want.contains_key(k) by {
        if (k as int) < chunks.len() {
            assert(carries(out, k as int, id, k));
        }
        if exists|i: int| carries(out, i, id, k) {
            let i = choose|i: int| carries(out, i, id, k);
            assert(i == k);
        }
    }
    assert forall|k: u32| held.contains_key(k) implies held[k] == want[k] by {
        assert(carries(out, k as int, id, k));
        let i = choose|i: int| carries(out, i, id, k);
        assert(i == k);
    }
    assert(held =~= want);
    lemma_sent_fragments_assemble(filename, content, encoded, chunks);
}

} // verus!
