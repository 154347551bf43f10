use sorter_core::clock::now_ts;
use sorter_core::codec::{encode_transaction, parse_transaction};
use sorter_core::engine::{
    apply_plan, move_file, read_last_txn, rec_name_vec, undo_last, undo_last_moves, EngineError,
};
use sorter_core::fs_model::FsModel;
use sorter_core::num::TS_LIMIT;
use sorter_core::record::{Transaction, TransactionItem};
use sorter_core::resolve::resolve_conflict;
use sorter_core::{bytes_eq, copy_bytes};

fn b(s: &str) -> Vec<u8> {
    s.as_bytes().to_vec()
}

fn item(from: &str, to: &str) -> TransactionItem {
    TransactionItem { from: b(from), to: b(to), reason: None, duplicate: false }
}

#[test]
fn bytes_helpers() {
    assert!(bytes_eq(&b("abc"), &b("abc")));
    assert!(!bytes_eq(&b("abc"), &b("abd")));
    assert!(!bytes_eq(&b("abc"), &b("ab")));
    assert_eq!(copy_bytes(&b("xyz")), b("xyz"));
}

#[test]
fn clock_stays_in_range() {
    let t = now_ts();
    assert!(t < TS_LIMIT);
}

#[test]
fn record_name_is_padded_and_sortable() {
    assert_eq!(rec_name_vec(100), b(".state/txn-000000000000100.json"));
    assert_eq!(rec_name_vec(0), b(".state/txn-000000000000000.json"));
    assert_eq!(rec_name_vec(999999999999999), b(".state/txn-999999999999999.json"));
}

#[test]
fn encode_has_exact_canonical_form() {
    let txn = Transaction { actions: vec![item("a", "b")], when: 7 };
    let bytes = encode_transaction(&txn);
    assert_eq!(
        bytes,
        b("{\"actions\":[{\"from\":\"a\",\"to\":\"b\",\"reason\":null,\"duplicate\":false}],\"when\":\"000000000000007\"}")
    );
}

#[test]
fn encode_empty_plan() {
    let txn = Transaction { actions: vec![], when: 0 };
    let bytes = encode_transaction(&txn);
    assert_eq!(bytes, b("{\"actions\":[],\"when\":\"000000000000000\"}"));
}

#[test]
fn codec_round_trip_with_escapes() {
    let txn = Transaction {
        actions: vec![
            TransactionItem {
                from: b("we\"ird\\name.txt"),
                to: b("docs/we\"ird\\name.txt"),
                reason: Some(b("rule \"docs\"")),
                duplicate: true,
            },
            item("plain.txt", "out/plain.txt"),
        ],
        when: 123456,
    };
    let bytes = encode_transaction(&txn);
    let back = parse_transaction(&bytes).expect("canonical record must parse");
    assert_eq!(back.when, 123456);
    assert_eq!(back.actions.len(), 2);
    assert_eq!(back.actions[0].from, b("we\"ird\\name.txt"));
    assert_eq!(back.actions[0].to, b("docs/we\"ird\\name.txt"));
    assert_eq!(back.actions[0].reason, Some(b("rule \"docs\"")));
    assert!(back.actions[0].duplicate);
    assert_eq!(back.actions[1].from, b("plain.txt"));
    assert_eq!(back.actions[1].reason, None);
    assert!(!back.actions[1].duplicate);
}

#[test]
fn parse_rejects_garbage() {
    assert!(parse_transaction(&b("garbage")).is_none());
    assert!(parse_transaction(&b("")).is_none());
    assert!(parse_transaction(&b("{\"actions\":[],\"when\":\"00000000000000x\"}")).is_none());
}

#[test]
fn resolver_returns_free_path_unchanged() {
    let mut fs = FsModel::new();
    fs.put(b("other.txt"), b(""));
    assert_eq!(resolve_conflict(&fs, &b("a.txt")), b("a.txt"));
}

#[test]
fn resolver_never_returns_existing_path() {
    let mut fs = FsModel::new();
    fs.put(b("r.txt"), b(""));
    let r = resolve_conflict(&fs, &b("r.txt"));
    assert!(!fs.contains(&r));
    assert_ne!(r, b("r.txt"));
}

#[test]
fn resolver_counts_past_existing_suffixes() {
    let mut fs = FsModel::new();
    fs.put(b("d/r.txt"), b(""));
    fs.put(b("d/r-1.txt"), b(""));
    fs.put(b("d/r-2.txt"), b(""));
    assert_eq!(resolve_conflict(&fs, &b("d/r.txt")), b("d/r-3.txt"));
}

#[test]
fn resolver_handles_no_extension_and_hidden_names() {
    let mut fs = FsModel::new();
    fs.put(b("README"), b(""));
    fs.put(b(".cfg"), b(""));
    assert_eq!(resolve_conflict(&fs, &b("README")), b("README-1"));
    assert_eq!(resolve_conflict(&fs, &b(".cfg")), b(".cfg-1"));
}

#[test]
fn move_primitive_renames() {
    let mut fs = FsModel::new();
    fs.put(b("x.bin"), vec![1, 2, 3]);
    assert_eq!(move_file(&mut fs, &b("x.bin"), &b("y.bin"), true), Ok(()));
    assert!(!fs.contains(&b("x.bin")));
    assert_eq!(fs.get(&b("y.bin")), Some(&vec![1, 2, 3]));
}

#[test]
fn move_primitive_fallback_copies_then_deletes() {
    // a forced rename failure: the file still ends at the destination with
    // identical content and the source is gone
    let mut fs = FsModel::new();
    fs.put(b("x.bin"), vec![9, 8, 7]);
    assert_eq!(move_file(&mut fs, &b("x.bin"), &b("y.bin"), false), Ok(()));
    assert!(!fs.contains(&b("x.bin")));
    assert_eq!(fs.get(&b("y.bin")), Some(&vec![9, 8, 7]));
}

#[test]
fn move_primitive_missing_source_fails() {
    let mut fs = FsModel::new();
    assert_eq!(move_file(&mut fs, &b("no.txt"), &b("y.txt"), true), Err(EngineError::IoError));
    assert_eq!(move_file(&mut fs, &b("no.txt"), &b("y.txt"), false), Err(EngineError::IoError));
}

#[test]
fn apply_moves_into_new_directory() {
    // root contains a.txt; plan moves it to docs/a.txt
    let mut fs = FsModel::new();
    fs.put(b("a.txt"), b("hello"));
    let txn = apply_plan(&mut fs, &vec![item("a.txt", "docs/a.txt")], 100).expect("apply");
    assert!(fs.contains(&b("docs/a.txt")));
    assert!(!fs.contains(&b("a.txt")));
    assert!(fs.contains(&b(".state/txn-000000000000100.json")));
    assert!(fs.contains(&b(".state/last")));
    assert_eq!(txn.actions.len(), 1);
    assert_eq!(txn.actions[0].to, b("docs/a.txt"));

    let undone = undo_last(&mut fs).expect("undo");
    assert_eq!(undone, 1);
    assert_eq!(fs.get(&b("a.txt")), Some(&b("hello")));
    assert!(!fs.contains(&b("docs/a.txt")));
    assert!(!fs.contains(&b(".state/txn-000000000000100.json")));
    assert!(fs.contains(&b(".state/archived/txn-000000000000100.json")));
}

#[test]
fn apply_suffixes_on_collision() {
    // root contains a.txt and a pre-existing docs/a.txt
    let mut fs = FsModel::new();
    fs.put(b("a.txt"), b("new"));
    fs.put(b("docs/a.txt"), b("old"));
    let txn = apply_plan(&mut fs, &vec![item("a.txt", "docs/a.txt")], 5).expect("apply");
    assert_eq!(fs.get(&b("docs/a-1.txt")), Some(&b("new")));
    assert_eq!(fs.get(&b("docs/a.txt")), Some(&b("old")));
    assert!(!fs.contains(&b("a.txt")));
    assert_eq!(txn.actions[0].to, b("docs/a-1.txt"));
}

#[test]
fn apply_counts_past_existing_suffixes_and_keeps_them() {
    // the destination directory already holds r.txt and r-1.txt
    let mut fs = FsModel::new();
    fs.put(b("x.txt"), b("new"));
    fs.put(b("d/r.txt"), b("old0"));
    fs.put(b("d/r-1.txt"), b("old1"));
    let txn = apply_plan(&mut fs, &vec![item("x.txt", "d/r.txt")], 6).expect("apply");
    assert_eq!(txn.actions[0].to, b("d/r-2.txt"));
    assert_eq!(fs.get(&b("d/r-2.txt")), Some(&b("new")));
    assert_eq!(fs.get(&b("d/r.txt")), Some(&b("old0")));
    assert_eq!(fs.get(&b("d/r-1.txt")), Some(&b("old1")));
    assert!(!fs.contains(&b("x.txt")));
}

#[test]
fn apply_then_undo_restores_everything() {
    let mut fs = FsModel::new();
    fs.put(b("a.txt"), b("alpha"));
    fs.put(b("b.txt"), b("beta"));
    fs.put(b("keep.txt"), b("untouched"));
    let plan = vec![item("a.txt", "docs/a.txt"), item("b.txt", "docs/b.txt")];
    apply_plan(&mut fs, &plan, 42).expect("apply");
    let undone = undo_last(&mut fs).expect("undo");
    assert_eq!(undone, 2);
    assert_eq!(fs.get(&b("a.txt")), Some(&b("alpha")));
    assert_eq!(fs.get(&b("b.txt")), Some(&b("beta")));
    assert_eq!(fs.get(&b("keep.txt")), Some(&b("untouched")));
    assert!(!fs.contains(&b("docs/a.txt")));
    assert!(!fs.contains(&b("docs/b.txt")));
}

#[test]
fn empty_plan_still_records_a_transaction() {
    let mut fs = FsModel::new();
    fs.put(b("a.txt"), b("x"));
    let txn = apply_plan(&mut fs, &vec![], 8).expect("apply");
    assert_eq!(txn.actions.len(), 0);
    assert!(fs.contains(&b(".state/txn-000000000000008.json")));
    assert_eq!(undo_last(&mut fs), Ok(0));
    assert!(fs.contains(&b(".state/archived/txn-000000000000008.json")));
    assert_eq!(fs.get(&b("a.txt")), Some(&b("x")));
}

#[test]
fn undo_twice_fails_with_not_found() {
    let mut fs = FsModel::new();
    fs.put(b("a.txt"), b("x"));
    apply_plan(&mut fs, &vec![item("a.txt", "b.txt")], 9).expect("apply");
    assert_eq!(undo_last(&mut fs), Ok(1));
    assert_eq!(undo_last(&mut fs), Err(EngineError::NotFound));
}

#[test]
fn undo_on_fresh_root_fails_with_not_found() {
    let mut fs = FsModel::new();
    assert_eq!(undo_last(&mut fs), Err(EngineError::NotFound));
}

#[test]
fn undo_picks_newest_record_by_name() {
    let mut fs = FsModel::new();
    fs.put(b("one.txt"), b("1"));
    fs.put(b("two.txt"), b("2"));
    apply_plan(&mut fs, &vec![item("one.txt", "moved/one.txt")], 100).expect("apply");
    apply_plan(&mut fs, &vec![item("two.txt", "moved/two.txt")], 200).expect("apply");
    assert_eq!(undo_last(&mut fs), Ok(1));
    // the newer transaction was undone; the older one still stands
    assert!(fs.contains(&b("two.txt")));
    assert!(!fs.contains(&b("moved/two.txt")));
    assert!(fs.contains(&b("moved/one.txt")));
    assert!(!fs.contains(&b("one.txt")));
    // and the older one is undone next
    assert_eq!(undo_last(&mut fs), Ok(1));
    assert!(fs.contains(&b("one.txt")));
}

#[test]
fn undo_skips_files_that_went_missing() {
    let mut fs = FsModel::new();
    fs.put(b("a.txt"), b("x"));
    fs.put(b("b.txt"), b("y"));
    apply_plan(
        &mut fs,
        &vec![item("a.txt", "out/a.txt"), item("b.txt", "out/b.txt")],
        50,
    )
    .expect("apply");
    // the user deleted one moved file before undoing
    fs.remove(&b("out/a.txt"));
    assert_eq!(undo_last(&mut fs), Ok(1));
    assert!(fs.contains(&b("b.txt")));
    assert!(!fs.contains(&b("a.txt")));
    assert!(fs.contains(&b(".state/archived/txn-000000000000050.json")));
}

#[test]
fn apply_missing_source_keeps_partial_moves_and_writes_no_record() {
    let mut fs = FsModel::new();
    fs.put(b("a.txt"), b("x"));
    let plan = vec![item("a.txt", "out/a.txt"), item("ghost.txt", "out/ghost.txt")];
    let failure = apply_plan(&mut fs, &plan, 77).expect_err("second source is missing");
    assert_eq!(failure.error, EngineError::IoError);
    // the failure reports the move already performed
    assert_eq!(failure.applied.len(), 1);
    assert_eq!(failure.applied[0].from, b("a.txt"));
    assert_eq!(failure.applied[0].to, b("out/a.txt"));
    // the first move stays, nothing was recorded
    assert!(fs.contains(&b("out/a.txt")));
    assert!(!fs.contains(&b("a.txt")));
    assert!(!fs.contains(&b(".state/txn-000000000000077.json")));
    assert_eq!(undo_last(&mut fs), Err(EngineError::NotFound));
}

#[test]
fn malformed_record_reports_serialization_error() {
    let mut fs = FsModel::new();
    fs.put(b(".state/txn-000000000000005.json"), b("not a record"));
    assert_eq!(undo_last(&mut fs), Err(EngineError::SerializationError));
}

#[test]
fn reason_and_duplicate_pass_through() {
    let mut fs = FsModel::new();
    fs.put(b("dup.txt"), b("d"));
    let plan = vec![TransactionItem {
        from: b("dup.txt"),
        to: b("bin/dup.txt"),
        reason: Some(b("looks duplicated")),
        duplicate: true,
    }];
    let txn = apply_plan(&mut fs, &plan, 300).expect("apply");
    assert_eq!(txn.actions[0].reason, Some(b("looks duplicated")));
    assert!(txn.actions[0].duplicate);
    // the persisted record carries the same fields
    let (name, stored) = read_last_txn(&fs).expect("read back");
    assert_eq!(name, b(".state/txn-000000000000300.json"));
    assert_eq!(stored.actions[0].reason, Some(b("looks duplicated")));
    assert!(stored.actions[0].duplicate);
    assert_eq!(stored.when, 300);
}

#[test]
fn undo_reports_the_restoring_moves() {
    let mut fs = FsModel::new();
    fs.put(b("a.txt"), b("x"));
    apply_plan(&mut fs, &vec![item("a.txt", "out/a.txt")], 11).expect("apply");
    let (count, moves) = undo_last_moves(&mut fs).expect("undo");
    assert_eq!(count, 1);
    assert_eq!(moves.len(), 1);
    assert_eq!(moves[0].from, b("out/a.txt"));
    assert_eq!(moves[0].to, b("a.txt"));
}

#[test]
fn error_messages_are_descriptive() {
    assert_eq!(EngineError::IoError.message(), "file operation failed");
    assert_eq!(EngineError::NotFound.message(), "no transaction found");
    assert_eq!(EngineError::SerializationError.message(), "transaction record is malformed");
}
