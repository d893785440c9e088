use dnssteal::assembler::{AssemblyError, CompletedFile};
use dnssteal::store::TransferStore;
use dnssteal::sweeper::{
    assemble_drained, dump_file_name, sweep, IDLE_THRESHOLD_MILLIS, SWEEP_INTERVAL_MILLIS,
};

fn payload_of(filename: &str, content: &str) -> String {
    let mut bytes = filename.as_bytes().to_vec();
    bytes.push(0);
    bytes.push(0);
    bytes.extend_from_slice(content.as_bytes());
    base64::encode(bytes).replace('+', "*")
}

fn file_at(completed_at: i64, filename: &str) -> CompletedFile {
    CompletedFile {
        filename: filename.to_string(),
        content: String::new(),
        checksum_hex: String::new(),
        completed_at,
    }
}

#[test]
fn sweeper_uses_five_seconds_and_one_second() {
    assert_eq!(IDLE_THRESHOLD_MILLIS, 5_000);
    assert_eq!(SWEEP_INTERVAL_MILLIS, 1_000);
}

#[test]
fn sweep_drains_what_is_idle_past_five_seconds() {
    let mut store = TransferStore::new();
    store.upsert_fragment("abcd".to_string(), 0, "QUJD".to_string(), 1_000);
    assert!(sweep(&mut store, 2_000).is_empty());
    assert!(sweep(&mut store, 6_000).is_empty());
    let drained = sweep(&mut store, 6_001);
    assert_eq!(drained.len(), 1);
    assert_eq!(drained[0].id, "abcd");
    assert!(store.is_empty());
}

#[test]
fn each_drained_transfer_yields_one_outcome() {
    let mut store = TransferStore::new();
    let good = payload_of("notes.txt", "hello world");
    store.upsert_fragment("ffff".to_string(), 0, good.clone(), 0);
    store.upsert_fragment("5eb6".to_string(), 0, good, 1);
    store.upsert_fragment("0a0a".to_string(), 1, "QUJD".to_string(), 2);
    store.upsert_fragment("9999".to_string(), 0, "QUJD-".to_string(), 3);
    let drained = sweep(&mut store, 10_000);
    let outcomes = assemble_drained(&drained, 1_600_000_123);
    assert_eq!(outcomes.len(), 4);
    assert_eq!(outcomes[0].id, "0a0a");
    assert_eq!(outcomes[0].result, Err(AssemblyError::IncompleteTransfer));
    assert_eq!(outcomes[1].id, "5eb6");
    let file = outcomes[1].result.as_ref().unwrap();
    assert_eq!(file.filename, "notes.txt");
    assert_eq!(file.content, "hello world");
    assert_eq!(file.checksum_hex, "5eb63bbbe01eeed093cb22bb8f5acdc3");
    assert_eq!(file.completed_at, 1_600_000_123);
    assert_eq!(outcomes[2].id, "9999");
    assert_eq!(outcomes[2].result, Err(AssemblyError::MissingTerminator));
    assert_eq!(outcomes[3].id, "ffff");
    assert_eq!(outcomes[3].result, Err(AssemblyError::ChecksumMismatch));
    assert!(store.is_empty());
}

#[test]
fn nothing_drained_yields_no_outcome() {
    assert!(assemble_drained(&Vec::new(), 0).is_empty());
}

#[test]
fn dump_name_holds_time_and_file_name() {
    assert_eq!(
        dump_file_name(&file_at(1_600_000_000, "notes.txt")),
        "transmitted_1600000000_notes.txt"
    );
    assert_eq!(dump_file_name(&file_at(0, "a")), "transmitted_0_a");
    assert_eq!(dump_file_name(&file_at(7, "")), "transmitted_7_");
    assert_eq!(dump_file_name(&file_at(10, "x_y")), "transmitted_10_x_y");
    assert_eq!(dump_file_name(&file_at(-5, "a")), "transmitted_-5_a");
    assert_eq!(
        dump_file_name(&file_at(i64::MAX, "a")),
        "transmitted_9223372036854775807_a"
    );
    assert_eq!(
        dump_file_name(&file_at(i64::MIN, "a")),
        "transmitted_-9223372036854775808_a"
    );
}

#[test]
fn dump_name_agrees_with_the_standard_formatter() {
    let times: [i64; 6] = [1, 99, 100, 1_234_567_890_123, -1, -1_000];
    for time in times.iter() {
        assert_eq!(
            dump_file_name(&file_at(*time, "f.bin")),
            format!("transmitted_{}_{}", time, "f.bin")
        );
    }
}
