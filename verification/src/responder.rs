//! The responder: what to do with one inbound request.
//!
//! A request is either a text query, which is answered from a fixed set of
//! texts chosen by the first label of the queried name, or any other query,
//! whose name carries a fragment for the store. Every request gets exactly one
//! reply, which mirrors the request's id and operation code.

use crate::labels::{decode_labels, decoded, label_bytes, LabelError};
use crate::store::{upserted, TransferStore, TransferView};
use vstd::prelude::*;
use vstd::slice::slice_subrange;
use vstd::string::StringExecFns;

verus! {

/// The text that answers a text query for `file`.
pub const GREETING: &'static str = "Hello \x1b[1;31m World";

/// The text that answers a text query for `help`.
pub const HELP: &'static str =
    "Send a file as queries named <pieces>.<sequence>.<id>.<zone>. Payload: base64 with + written as *, every fragment but the last ending in -. Id: first 4 hex digits of the content's MD5.";

/// Seconds for which a text answer may be cached.
pub const ANSWER_TTL: u32 = 5;

/// What a query asks for.
#[derive(Clone, Copy, Debug, PartialEq, Eq, Structural)]
pub enum QueryKind {
    /// A query for a text record.
    Text,
    /// Any other query: its name carries data.
    Data,
}

/// The response code of a reply.
#[derive(Clone, Copy, Debug, PartialEq, Eq, Structural)]
pub enum ResponseCode {
    NoError,
    ServerFailure,
}

/// What the engine reads of an inbound request.
#[derive(Clone, Debug, PartialEq, Eq)]
pub struct Query {
    /// The message id of the request.
    pub id: u16,
    /// The operation code of the request.
    pub op_code: u8,
    pub kind: QueryKind,
    /// The labels of the queried name in the order in which they are written,
    /// the root excluded.
    pub name: Vec<Vec<u8>>,
}

/// A text record to answer with.
#[derive(Clone, Debug, PartialEq, Eq)]
pub struct TextAnswer {
    pub ttl: u32,
    pub text: String,
}

/// The reply to one request.
#[derive(Clone, Debug, PartialEq, Eq)]
pub struct Reply {
    pub id: u16,
    pub op_code: u8,
    pub authoritative: bool,
    pub recursion_available: bool,
    pub truncated: bool,
    pub code: ResponseCode,
    /// Whether the reply repeats the question it answers.
    pub echo_question: bool,
    pub answer: Option<TextAnswer>,
    /// Why the name of a data query held no fragment. This is for the log; it
    /// is not sent.
    pub failure: Option<LabelError>,
}

/// A text answer as a mathematical value.
pub struct TextAnswerView {
    pub ttl: u32,
    pub text: Seq<char>,
}

/// A reply as a mathematical value.
pub struct ReplyView {
    pub id: u16,
    pub op_code: u8,
    pub authoritative: bool,
    pub recursion_available: bool,
    pub truncated: bool,
    pub code: ResponseCode,
    pub echo_question: bool,
    pub answer: Option<TextAnswerView>,
    pub failure: Option<LabelError>,
}

impl View for Reply {
    type V = ReplyView;

    open spec fn view(&self) -> ReplyView {
        ReplyView {
            id: self.id,
            op_code: self.op_code,
            authoritative: self.authoritative,
            recursion_available: self.recursion_available,
            truncated: self.truncated,
            code: self.code,
            echo_question: self.echo_question,
            answer: match self.answer {
                Some(answer) => Some(TextAnswerView { ttl: answer.ttl, text: answer.text@ }),
                None => None,
            },
            failure: self.failure,
        }
    }
}

/// The label `file`.
pub open spec fn file_word() -> Seq<u8> {
    seq![102u8, 105u8, 108u8, 101u8]
}

/// The label `help`.
pub open spec fn help_word() -> Seq<u8> {
    seq![104u8, 101u8, 108u8, 112u8]
}

/// The text that answers a text query for `name`, if there is one.
pub open spec fn text_for(name: Seq<Seq<u8>>) -> Option<Seq<char>> {
    if name.len() > 0 && name[0] == file_word() {
        Some(GREETING@)
    } else if name.len() > 0 && name[0] == help_word() {
        Some(HELP@)
    } else {
        None
    }
}

/// The labels of a name that carry a fragment: all but the last, which names
/// the zone the listener answers for.
pub open spec fn data_labels(name: Seq<Seq<u8>>) -> Seq<Seq<u8>> {
    if name.len() > 0 {
        name.drop_last()
    } else {
        name
    }
}

/// Why a request fails: its name is meant to carry data and does not decode.
pub open spec fn failure_of(kind: QueryKind, name: Seq<Seq<u8>>) -> Option<LabelError> {
    if kind == QueryKind::Data {
        match decoded(data_labels(name)) {
            Ok(_) => None,
            Err(e) => Some(e),
        }
    } else {
        None
    }
}

/// The reply that a request is owed.
pub open spec fn reply_to(id: u16, op_code: u8, kind: QueryKind, name: Seq<Seq<u8>>) -> ReplyView {
    let text = if kind == QueryKind::Text {
        text_for(name)
    } else {
        None
    };
    ReplyView {
        id,
        op_code,
        authoritative: true,
        recursion_available: false,
        truncated: false,
        code: if failure_of(kind, name) is Some {
            ResponseCode::ServerFailure
        } else {
            ResponseCode::NoError
        },
        echo_question: text is Some,
        answer: match text {
            Some(text) => Some(TextAnswerView { ttl: ANSWER_TTL, text }),
            None => None,
        },
        failure: failure_of(kind, name),
    }
}

/// The table once a name that carries data has been taken in at time `now`:
/// the fragment is stored if the name decodes, and nothing changes if not.
pub open spec fn table_after_name(
    table: Map<Seq<char>, TransferView>,
    name: Seq<Seq<u8>>,
    now: u64,
) -> Map<Seq<char>, TransferView> {
    match decoded(data_labels(name)) {
        Ok(fragment) => upserted(table, fragment.id, fragment.sequence, fragment.text, now),
        Err(_) => table,
    }
}

/// The table once a request has been handled at time `now`.
pub open spec fn table_after(
    table: Map<Seq<char>, TransferView>,
    kind: QueryKind,
    name: Seq<Seq<u8>>,
    now: u64,
) -> Map<Seq<char>, TransferView> {
    if kind == QueryKind::Data {
        table_after_name(table, name, now)
    } else {
        table
    }
}

/// Whether the label is `file`, byte for byte.
fn is_file_word(label: &[u8]) -> (res: bool)
    ensures
        res == (label@ == file_word()),
{
    let res = label.len() == 4 && label[0] == 102 && label[1] == 105 && label[2] == 108
        && label[3] == 101;
    proof {
        if res {
            assert(label@ =~= file_word());
        }
    }
    res
}

/// Whether the label is `help`, byte for byte.
fn is_help_word(label: &[u8]) -> (res: bool)
    ensures
        res == (label@ == help_word()),
{
    let res = label.len() == 4 && label[0] == 104 && label[1] == 101 && label[2] == 108
        && label[3] == 112;
    proof {
        if res {
            assert(label@ =~= help_word());
        }
    }
    res
}

/// Takes in the name of a query that carries data: decodes the fragment from
/// all labels but the last and stores it. A name that does not decode leaves
/// the store untouched.
pub fn parse_name(store: &mut TransferStore, name: &[Vec<u8>], now: u64) -> (res: Result<
    (),
    LabelError,
>)
    ensures
        final(store)@ == table_after_name(old(store)@, label_bytes(name@), now),
        match decoded(data_labels(label_bytes(name@))) {
            Ok(_) => res is Ok,
            Err(e) => res == Err::<(), LabelError>(e) && final(store).ordered() == old(
                store,
            ).ordered(),
        },
{
    let n: usize = name.len();
    let carrying = if n > 0 {
        slice_subrange(name, 0, n - 1)
    } else {
        name
    };
    proof {
        assert(label_bytes(carrying@) =~= data_labels(label_bytes(name@)));
    }
    match decode_labels(carrying) {
        Ok(fragment) => {
            store.upsert_fragment(fragment.id, fragment.sequence, fragment.text, now);
            Ok(())
        },
        Err(e) => Err(e),
    }
}

/// Handles one request at time `now` and says what to reply.
///
/// A text query for `file` or `help` is answered with the matching text and
/// repeats the question; any other text query gets an empty reply. Any other
/// query has its name taken in as data and gets an empty reply, with a
/// failure code where the name does not decode.
pub fn respond(store: &mut TransferStore, query: &Query, now: u64) -> (reply: Reply)
    ensures
        final(store)@ == table_after(old(store)@, query.kind, label_bytes(query.name@), now),
        reply@ == reply_to(query.id, query.op_code, query.kind, label_bytes(query.name@)),
{
    let mut reply = Reply {
        id: query.id,
        op_code: query.op_code,
        authoritative: true,
        recursion_available: false,
        truncated: false,
        code: ResponseCode::NoError,
        echo_question: false,
        answer: None,
        failure: None,
    };
    match query.kind {
        QueryKind::Text => {
            let known = query.name.len() > 0;
            if known && is_file_word(query.name[0].as_slice()) {
                reply.echo_question = true;
                reply.answer = Some(
                    TextAnswer { ttl: ANSWER_TTL, text: String::from_str(GREETING) },
                );
            } else if known && is_help_word(query.name[0].as_slice()) {
                reply.echo_question = true;
                reply.answer = Some(TextAnswer { ttl: ANSWER_TTL, text: String::from_str(HELP) });
            }
        },
        QueryKind::Data => {
            match parse_name(store, query.name.as_slice(), now) {
                Ok(()) => {},
                Err(e) => {
                    reply.code = ResponseCode::ServerFailure;
                    reply.failure = Some(e);
                },
            }
        },
    }
    reply
}

} // verus!
