use dnssteal::labels::LabelError;
use dnssteal::responder::{
    parse_name, respond, Query, QueryKind, Reply, ResponseCode, TextAnswer, ANSWER_TTL, GREETING,
    HELP,
};
use dnssteal::store::TransferStore;

fn name_of(parts: &[&str]) -> Vec<Vec<u8>> {
    parts.iter().map(|part| part.as_bytes().to_vec()).collect()
}

fn query(kind: QueryKind, parts: &[&str]) -> Query {
    Query { id: 0xbeef, op_code: 2, kind, name: name_of(parts) }
}

fn empty_reply(code: ResponseCode) -> Reply {
    Reply {
        id: 0xbeef,
        op_code: 2,
        authoritative: true,
        recursion_available: false,
        truncated: false,
        code,
        echo_question: false,
        answer: None,
        failure: None,
    }
}

fn failed_reply(failure: LabelError) -> Reply {
    Reply { failure: Some(failure), ..empty_reply(ResponseCode::ServerFailure) }
}

#[test]
fn text_query_for_file_gets_the_greeting() {
    let mut store = TransferStore::new();
    let reply = respond(&mut store, &query(QueryKind::Text, &["file", "example"]), 0);
    assert_eq!(
        reply,
        Reply {
            id: 0xbeef,
            op_code: 2,
            authoritative: true,
            recursion_available: false,
            truncated: false,
            code: ResponseCode::NoError,
            echo_question: true,
            answer: Some(TextAnswer { ttl: 5, text: "Hello \x1b[1;31m World".to_string() }),
            failure: None,
        }
    );
    assert!(store.is_empty());
}

#[test]
fn text_query_for_help_gets_the_usage() {
    let mut store = TransferStore::new();
    let reply = respond(&mut store, &query(QueryKind::Text, &["help"]), 0);
    assert_eq!(reply.code, ResponseCode::NoError);
    assert!(reply.echo_question);
    assert_eq!(reply.answer, Some(TextAnswer { ttl: ANSWER_TTL, text: HELP.to_string() }));
    assert!(HELP.contains("<pieces>.<sequence>.<id>"));
    assert_ne!(HELP, GREETING);
    assert!(store.is_empty());
}

#[test]
fn other_text_queries_get_an_empty_reply() {
    let mut store = TransferStore::new();
    let names: [&[&str]; 5] =
        [&[], &["other"], &["FILE"], &["files", "file"], &["QUJD", "0", "abcd", "x"]];
    for name in names.iter() {
        let reply = respond(&mut store, &query(QueryKind::Text, name), 0);
        assert_eq!(reply, empty_reply(ResponseCode::NoError));
    }
    assert!(store.is_empty());
}

#[test]
fn data_query_stores_its_fragment() {
    let mut store = TransferStore::new();
    let reply = respond(&mut store, &query(QueryKind::Data, &["QUJD", "REVG-", "0", "abcd", "x"]), 77);
    assert_eq!(reply, empty_reply(ResponseCode::NoError));
    let transfer = store.get("abcd").unwrap();
    assert_eq!(transfer.last_seen, 77);
    assert_eq!(transfer.fragments.len(), 1);
    assert_eq!(transfer.fragments.get(&0).unwrap(), "QUJDREVG-");
}

#[test]
fn data_query_named_file_is_still_data() {
    let mut store = TransferStore::new();
    let reply = respond(&mut store, &query(QueryKind::Data, &["file", "1", "abcd", "x"]), 5);
    assert_eq!(reply, empty_reply(ResponseCode::NoError));
    assert_eq!(store.get("abcd").unwrap().fragments.get(&1).unwrap(), "file");
}

#[test]
fn data_query_that_does_not_decode_fails_and_stores_nothing() {
    let mut store = TransferStore::new();
    store.upsert_fragment("abcd".to_string(), 0, "kept".to_string(), 1);
    let cases: [(&[&str], LabelError); 4] = [
        (&[], LabelError::MalformedId),
        (&["x"], LabelError::MalformedId),
        (&["abcd", "x"], LabelError::MalformedSequenceNumber),
        (&["data", "one", "abcd", "x"], LabelError::MalformedSequenceNumber),
    ];
    for (name, failure) in cases.iter() {
        let reply = respond(&mut store, &query(QueryKind::Data, name), 50);
        assert_eq!(reply, failed_reply(*failure));
    }
    let bad = Query {
        id: 1,
        op_code: 0,
        kind: QueryKind::Data,
        name: vec![vec![0xff], b"0".to_vec(), b"abcd".to_vec(), b"x".to_vec()],
    };
    let reply = respond(&mut store, &bad, 50);
    assert_eq!(reply.code, ResponseCode::ServerFailure);
    assert_eq!(reply.failure, Some(LabelError::MalformedFragment));
    assert_eq!(reply.id, 1);
    assert_eq!(reply.op_code, 0);
    assert_eq!(store.len(), 1);
    let transfer = store.get("abcd").unwrap();
    assert_eq!(transfer.last_seen, 1);
    assert_eq!(transfer.fragments.len(), 1);
}

#[test]
fn reply_mirrors_id_and_operation_code() {
    let mut store = TransferStore::new();
    let asked = Query { id: 4660, op_code: 5, kind: QueryKind::Data, name: name_of(&["0", "abcd", "x"]) };
    let reply = respond(&mut store, &asked, 0);
    assert_eq!(reply.id, 4660);
    assert_eq!(reply.op_code, 5);
    assert!(reply.authoritative);
    assert!(!reply.recursion_available);
    assert!(!reply.truncated);
}

#[test]
fn parse_name_skips_the_last_label() {
    let mut store = TransferStore::new();
    assert_eq!(parse_name(&mut store, &name_of(&["QUJD", "3", "abcd", "zone"]), 9), Ok(()));
    assert!(!store.contains("zone"));
    let transfer = store.get("abcd").unwrap();
    assert_eq!(transfer.fragments.get(&3).unwrap(), "QUJD");
    assert_eq!(transfer.last_seen, 9);
}

#[test]
fn parse_name_reports_why_a_name_holds_no_fragment() {
    let mut store = TransferStore::new();
    assert_eq!(parse_name(&mut store, &[], 0), Err(LabelError::MalformedId));
    assert_eq!(parse_name(&mut store, &name_of(&["zone"]), 0), Err(LabelError::MalformedId));
    assert_eq!(
        parse_name(&mut store, &name_of(&["abcd", "zone"]), 0),
        Err(LabelError::MalformedSequenceNumber)
    );
    assert_eq!(
        parse_name(&mut store, &name_of(&["1x", "abcd", "zone"]), 0),
        Err(LabelError::MalformedSequenceNumber)
    );
    let name = vec![vec![0xc0], b"1".to_vec(), b"abcd".to_vec(), b"zone".to_vec()];
    assert_eq!(parse_name(&mut store, &name, 0), Err(LabelError::MalformedFragment));
    assert!(store.is_empty());
}
