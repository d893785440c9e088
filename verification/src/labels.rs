//! The label decoder: reads one fragment out of the labels of a queried name.
//!
//! The decoder is given the labels that carry the fragment, in the order in
//! which the name writes them, the root excluded. The last label is the
//! transfer id, the one before it the sequence number in decimal, and all
//! labels before that are pieces of the fragment text, to be joined in the
//! order in which they are written. Read from the root, that is: id, sequence
//! number, then the pieces from last to first.

use crate::codec::utf8_text;
use vstd::prelude::*;
use vstd::string::StringExecFns;
use vstd::utf8::{decode_utf8, valid_utf8};

verus! {

/// Why the labels of a name hold no fragment.
#[derive(Clone, Copy, Debug, PartialEq, Eq, Structural)]
pub enum LabelError {
    /// The id label is missing or not valid UTF-8.
    MalformedId,
    /// The sequence number label is missing or not a decimal number that fits
    /// 32 bits.
    MalformedSequenceNumber,
    /// A piece of the fragment text is not valid UTF-8.
    MalformedFragment,
}

impl LabelError {
    /// What to tell an operator about the failure.
    pub open spec fn text(self) -> Seq<char> {
        match self {
            LabelError::MalformedId =>
                "malformed id: the id label is missing or not UTF-8"@,
            LabelError::MalformedSequenceNumber =>
                "malformed sequence number: the label is missing or not a 32-bit decimal number"@,
            LabelError::MalformedFragment =>
                "malformed fragment: a piece of the fragment is not UTF-8"@,
        }
    }

    /// The failure in words.
    pub fn message(&self) -> (res: String)
        ensures
            res@ == self.text(),
    {
        match self {
            LabelError::MalformedId => String::from_str(
                "malformed id: the id label is missing or not UTF-8",
            ),
            LabelError::MalformedSequenceNumber => String::from_str(
                "malformed sequence number: the label is missing or not a 32-bit decimal number",
            ),
            LabelError::MalformedFragment => String::from_str(
                "malformed fragment: a piece of the fragment is not UTF-8",
            ),
        }
    }
}

/// One fragment of a transfer.
#[derive(Clone, Debug, PartialEq, Eq)]
pub struct Fragment {
    pub id: String,
    pub sequence: u32,
    pub text: String,
}

/// A fragment as a mathematical value.
pub struct FragmentView {
    pub id: Seq<char>,
    pub sequence: u32,
    pub text: Seq<char>,
}

impl View for Fragment {
    type V = FragmentView;

    open spec fn view(&self) -> FragmentView {
        FragmentView { id: self.id@, sequence: self.sequence, text: self.text@ }
    }
}

/// The labels of a name as byte strings.
pub open spec fn label_bytes(labels: Seq<Vec<u8>>) -> Seq<Seq<u8>> {
    labels.map_values(|label: Vec<u8>| label@)
}

/// An ASCII decimal digit.
pub open spec fn is_digit(b: u8) -> bool {
    48 <= b <= 57
}

/// The value of a decimal digit; zero for any other byte.
pub open spec fn digit_value(b: u8) -> nat {
    if is_digit(b) {
        (b - 48) as nat
    } else {
        0
    }
}

/// Every byte is a decimal digit.
pub open spec fn all_digits(digits: Seq<u8>) -> bool {
    forall|i: int| 0 <= i < digits.len() ==> is_digit(#[trigger] digits[i])
}

/// The number that a string of decimal digits denotes.
pub open spec fn decimal_value(digits: Seq<u8>) -> nat
    decreases digits.len(),
{
    if digits.len() == 0 {
        0
    } else {
        decimal_value(digits.drop_last()) * 10 + digit_value(digits.last())
    }
}

/// The label without its optional leading `+`.
pub open spec fn unsigned_part(label: Seq<u8>) -> Seq<u8> {
    if label.len() > 0 && label[0] == 43 {
        label.drop_first()
    } else {
        label
    }
}

/// The sequence number a label denotes: an optional `+`, then one or more
/// decimal digits whose value fits 32 bits.
pub open spec fn sequence_number(label: Seq<u8>) -> Option<u32> {
    let digits = unsigned_part(label);
    if digits.len() > 0 && all_digits(digits) && decimal_value(digits) <= u32::MAX {
        Some(decimal_value(digits) as u32)
    } else {
        None
    }
}

/// Every piece is valid UTF-8.
pub open spec fn pieces_valid(pieces: Seq<Seq<u8>>) -> bool {
    forall|i: int| 0 <= i < pieces.len() ==> valid_utf8(#[trigger] pieces[i])
}

/// The texts of the pieces, joined in order.
pub open spec fn pieces_text(pieces: Seq<Seq<u8>>) -> Seq<char>
    decreases pieces.len(),
{
    if pieces.len() == 0 {
        Seq::empty()
    } else {
        pieces_text(pieces.drop_last()) + decode_utf8(pieces.last())
    }
}

/// The fragment that the labels of a name hold.
pub open spec fn decoded(labels: Seq<Seq<u8>>) -> Result<FragmentView, LabelError> {
    let n = labels.len() as int;
    if n < 1 || !valid_utf8(labels[n - 1]) {
        Err(LabelError::MalformedId)
    } else if n < 2 || sequence_number(labels[n - 2]) is None {
        Err(LabelError::MalformedSequenceNumber)
    } else if !pieces_valid(labels.subrange(0, n - 2)) {
        Err(LabelError::MalformedFragment)
    } else {
        Ok(
            FragmentView {
                id: decode_utf8(labels[n - 1]),
                sequence: sequence_number(labels[n - 2])->Some_0,
                text: pieces_text(labels.subrange(0, n - 2)),
            },
        )
    }
}

/// The outcome of decoding as a mathematical value.
pub open spec fn fragment_outcome(res: Result<Fragment, LabelError>) -> Result<
    FragmentView,
    LabelError,
> {
    match res {
        Ok(fragment) => Ok(fragment@),
        Err(e) => Err(e),
    }
}

/// Reading more digits never makes the number smaller.
pub proof fn lemma_decimal_monotone(digits: Seq<u8>, k: int)
    requires
        0 <= k <= digits.len(),
    ensures
        decimal_value(digits.take(k)) <= decimal_value(digits),
    decreases digits.len() - k,
{
    if k == digits.len() {
        assert(digits.take(k) =~= digits);
    } else {
        lemma_decimal_monotone(digits, k + 1);
        assert(digits.take(k + 1).drop_last() =~= digits.take(k));
    }
}

/// Parses a sequence number label.
pub fn parse_sequence_number(label: &[u8]) -> (res: Option<u32>)
    ensures
        res == sequence_number(label@),
{
    let start: usize = if label.len() > 0 && label[0] == 43 {
        1
    } else {
        0
    };
    let ghost digits = unsigned_part(label@);
    if start >= label.len() {
        return None;
    }
    let mut value: u64 = 0;
    let mut i: usize = start;
    proof {
        assert(digits.take(0) =~= Seq::<u8>::empty());
    }
    while i < label.len()
        invariant
            start <= i <= label.len(),
            digits == unsigned_part(label@),
            digits.len() == label.len() - start,
            forall|j: int| 0 <= j < digits.len() ==> digits[j] == label@[j + start],
            all_digits(digits.take(i - start)),
            value == decimal_value(digits.take(i - start)),
            value <= u32::MAX,
        decreases label.len() - i,
    {
        let b: u8 = label[i];
        if b < 48 || b > 57 {
            assert(!is_digit(digits[i - start]));
            return None;
        }
        let ghost seen = digits.take(i - start + 1);
        proof {
            assert(seen.drop_last() =~= digits.take(i - start));
            assert(seen.last() == b);
            assert forall|j: int| 0 <= j < seen.len() implies is_digit(#[trigger] seen[j]) by {
                if j < i - start {
                    assert(digits.take(i - start)[j] == seen[j]);
                }
            }
        }
        let next: u64 = value * 10 + (b - 48) as u64;
        if next > u32::MAX as u64 {
            proof {
                lemma_decimal_monotone(digits, i - start + 1);
            }
            return None;
        }
        value = next;
        i += 1;
    }
    proof {
        assert(digits.take(digits.len() as int) =~= digits);
    }
    Some(value as u32)
}

/// Decodes the labels of a name into a fragment.
///
/// A missing id label counts as a malformed id and a missing sequence number
/// label as a malformed sequence number. A name without pieces holds the
/// empty fragment text.
pub fn decode_labels(labels: &[Vec<u8>]) -> (res: Result<Fragment, LabelError>)
    ensures
        fragment_outcome(res) == decoded(label_bytes(labels@)),
{
    let ghost all = label_bytes(labels@);
    let n: usize = labels.len();
    if n < 1 {
        return Err(LabelError::MalformedId);
    }
    let id = match utf8_text(labels[n - 1].as_slice()) {
        Ok(text) => text.to_owned(),
        Err(_) => {
            return Err(LabelError::MalformedId);
        },
    };
    if n < 2 {
        return Err(LabelError::MalformedSequenceNumber);
    }
    let sequence: u32 = match parse_sequence_number(labels[n - 2].as_slice()) {
        Some(value) => value,
        None => {
            return Err(LabelError::MalformedSequenceNumber);
        },
    };
    let ghost pieces = all.subrange(0, n - 2);
    let mut text = String::new();
    let mut i: usize = 0;
    proof {
        assert(pieces.take(0) =~= Seq::<Seq<u8>>::empty());
    }
    while i < n - 2
        invariant
            n == labels.len(),
            n >= 2,
            i <= n - 2,
            all == label_bytes(labels@),
            pieces == all.subrange(0, n - 2),
            valid_utf8(all[n - 1]),
            sequence_number(all[n - 2]) is Some,
            pieces_valid(pieces.take(i as int)),
            text@ == pieces_text(pieces.take(i as int)),
        decreases n - i,
    {
        proof {
            assert(pieces.take(i + 1).drop_last() =~= pieces.take(i as int));
            assert(pieces.take(i + 1).last() == labels@[i as int]@);
        }
        match utf8_text(labels[i].as_slice()) {
            Ok(piece) => {
                text.append(piece);
            },
            Err(_) => {
                assert(!valid_utf8(pieces[i as int]));
                return Err(LabelError::MalformedFragment);
            },
        }
        proof {
            assert forall|j: int| 0 <= j < pieces.take(i + 1).len() implies valid_utf8(
                #[trigger] pieces.take(i + 1)[j],
            ) by {
                if j < i {
                    assert(pieces.take(i as int)[j] == pieces.take(i + 1)[j]);
                }
            }
        }
        i += 1;
    }
    proof {
        assert(pieces.take(pieces.len() as int) =~= pieces);
    }
    Ok(Fragment { id, sequence, text })
}

} // verus!
