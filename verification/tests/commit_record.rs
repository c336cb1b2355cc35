use std::sync::Arc;

use mvcc_reader::{
    CloudReader, Error, ExtraEntry, Key, Snapshot, TimeStamp, TxnCommitRecord, Write, WriteEntry,
    WriteType,
};

fn typed(raw: &[u8]) -> Vec<u8> {
    let mut bytes = vec![b'z'];
    bytes.extend_from_slice(raw);
    bytes
}

fn key(raw: &[u8]) -> Key {
    Key::new(typed(raw), Some(raw.to_vec()))
}

fn damaged(encoded: &[u8]) -> Key {
    Key::new(encoded.to_vec(), None)
}

fn reader(write: Vec<WriteEntry>, extra: Vec<ExtraEntry>) -> CloudReader {
    let snapshot = Snapshot::new(write, vec![], extra).expect("families in order");
    CloudReader::new(Arc::new(snapshot))
}

fn version(key: &[u8], start_ts: u64, commit_ts: u64, value: &[u8]) -> WriteEntry {
    WriteEntry::new(key.to_vec(), start_ts, commit_ts, value.to_vec())
}

fn found(commit_ts: u64, write_type: WriteType, start_ts: u64, value: Option<&[u8]>) -> TxnCommitRecord {
    TxnCommitRecord::SingleRecord {
        commit_ts: TimeStamp::new(commit_ts),
        write: Write::new(write_type, TimeStamp::new(start_ts), value.map(|v| v.to_vec())),
    }
}

fn not_found() -> TxnCommitRecord {
    TxnCommitRecord::NotFound { overlapped_write: None }
}

#[test]
fn only_version_is_found_for_its_transaction() {
    let mut r = reader(vec![version(b"a", 5, 10, b"x")], vec![]);
    let got = r.get_txn_commit_record(&key(b"a"), TimeStamp::new(5));
    assert_eq!(got, Ok(found(10, WriteType::Put, 5, Some(b"x"))));
}

#[test]
fn only_version_is_not_found_for_another_transaction() {
    let mut r = reader(vec![version(b"a", 5, 10, b"x")], vec![]);
    let got = r.get_txn_commit_record(&key(b"a"), TimeStamp::new(7));
    assert_eq!(got, Ok(not_found()));
}

#[test]
fn status_with_zero_commit_is_a_rollback() {
    let mut r = reader(vec![version(b"a", 3, 4, b"w")], vec![ExtraEntry::new(b"a".to_vec(), 5, 0)]);
    let got = r.get_txn_commit_record(&key(b"a"), TimeStamp::new(5));
    assert_eq!(got, Ok(found(0, WriteType::Rollback, 5, None)));
}

#[test]
fn status_with_commit_is_a_lock() {
    let mut r = reader(vec![], vec![ExtraEntry::new(b"a".to_vec(), 5, 9)]);
    let got = r.get_txn_commit_record(&key(b"a"), TimeStamp::new(5));
    assert_eq!(got, Ok(found(9, WriteType::Lock, 5, None)));
}

#[test]
fn superseded_version_is_found_behind_the_latest() {
    let write = vec![
        version(b"a", 22, 25, b"z"),
        version(b"a", 12, 15, b"y"),
        version(b"a", 5, 10, b"x"),
    ];
    let mut r = reader(write, vec![]);
    let key = key(b"a");
    assert_eq!(
        r.get_txn_commit_record(&key, TimeStamp::new(22)),
        Ok(found(25, WriteType::Put, 22, Some(b"z")))
    );
    assert_eq!(
        r.get_txn_commit_record(&key, TimeStamp::new(12)),
        Ok(found(15, WriteType::Put, 12, Some(b"y")))
    );
    assert_eq!(
        r.get_txn_commit_record(&key, TimeStamp::new(5)),
        Ok(found(10, WriteType::Put, 5, Some(b"x")))
    );
    assert_eq!(r.get_txn_commit_record(&key, TimeStamp::new(15)), Ok(not_found()));
}

#[test]
fn empty_value_is_a_delete() {
    let mut r = reader(vec![version(b"a", 5, 10, b"")], vec![]);
    let got = r.get_txn_commit_record(&key(b"a"), TimeStamp::new(5));
    assert_eq!(got, Ok(found(10, WriteType::Delete, 5, None)));
}

#[test]
fn write_family_comes_before_extra_family() {
    let mut r = reader(vec![version(b"a", 5, 10, b"x")], vec![ExtraEntry::new(b"a".to_vec(), 5, 0)]);
    let got = r.get_txn_commit_record(&key(b"a"), TimeStamp::new(5));
    assert_eq!(got, Ok(found(10, WriteType::Put, 5, Some(b"x"))));
}

#[test]
fn versions_of_other_keys_do_not_count() {
    let write = vec![
        version(b"a", 1, 2, b"p"),
        version(b"ab", 5, 10, b"q"),
        version(b"b", 5, 11, b"r"),
        version(b"c", 7, 8, b"s"),
    ];
    let extra = vec![ExtraEntry::new(b"a".to_vec(), 5, 0), ExtraEntry::new(b"b".to_vec(), 6, 7)];
    let mut r = reader(write, extra);
    assert_eq!(
        r.get_txn_commit_record(&key(b"b"), TimeStamp::new(5)),
        Ok(found(11, WriteType::Put, 5, Some(b"r")))
    );
    assert_eq!(
        r.get_txn_commit_record(&key(b"ab"), TimeStamp::new(5)),
        Ok(found(10, WriteType::Put, 5, Some(b"q")))
    );
    assert_eq!(
        r.get_txn_commit_record(&key(b"a"), TimeStamp::new(5)),
        Ok(found(0, WriteType::Rollback, 5, None))
    );
    assert_eq!(
        r.get_txn_commit_record(&key(b"b"), TimeStamp::new(6)),
        Ok(found(7, WriteType::Lock, 6, None))
    );
    assert_eq!(r.get_txn_commit_record(&key(b"c"), TimeStamp::new(5)), Ok(not_found()));
    assert_eq!(r.get_txn_commit_record(&key(b"d"), TimeStamp::new(5)), Ok(not_found()));
    assert_eq!(r.get_txn_commit_record(&key(b""), TimeStamp::new(1)), Ok(not_found()));
}

#[test]
fn status_of_another_start_ts_does_not_count() {
    let mut r = reader(vec![], vec![ExtraEntry::new(b"a".to_vec(), 5, 0)]);
    assert_eq!(r.get_txn_commit_record(&key(b"a"), TimeStamp::new(6)), Ok(not_found()));
}

#[test]
fn key_without_raw_form_fails_the_resolution() {
    let mut r = reader(vec![version(b"a", 5, 10, b"x")], vec![]);
    let got = r.get_txn_commit_record(&damaged(b"za\xff"), TimeStamp::new(5));
    assert_eq!(got, Err(Error::KeyEncoding));
}

#[test]
fn resolving_twice_gives_the_same_outcome() {
    let write = vec![version(b"a", 12, 15, b"y"), version(b"a", 5, 10, b"x")];
    let extra = vec![ExtraEntry::new(b"b".to_vec(), 5, 0)];
    let mut r = reader(write, extra);
    for (raw, ts) in [(b"a", 5u64), (b"a", 12), (b"a", 9), (b"b", 5), (b"c", 1)] {
        let key = key(raw);
        let first = r.get_txn_commit_record(&key, TimeStamp::new(ts));
        let second = r.get_txn_commit_record(&key, TimeStamp::new(ts));
        assert_eq!(first, second);
    }
}

#[test]
fn resolution_leaves_the_statistics_alone() {
    let mut r = reader(vec![version(b"a", 5, 10, b"x")], vec![]);
    let before = r.statistics;
    let _ = r.get_txn_commit_record(&key(b"a"), TimeStamp::new(5));
    assert_eq!(r.statistics, before);
    assert_eq!(r.statistics(), before);
    assert_eq!(before.write.get, 0);
    assert_eq!(before.lock.seek, 0);
    assert_eq!(before.extra.next, 0);
}

#[test]
fn item_of_the_transaction_gives_its_record() {
    let item = version(b"a", 5, 10, b"x");
    assert_eq!(
        CloudReader::get_commit_by_item(&item, TimeStamp::new(5)),
        Some(found(10, WriteType::Put, 5, Some(b"x")))
    );
    assert_eq!(CloudReader::get_commit_by_item(&item, TimeStamp::new(10)), None);
    let deleted = version(b"a", 5, 10, b"");
    assert_eq!(
        CloudReader::get_commit_by_item(&deleted, TimeStamp::new(5)),
        Some(found(10, WriteType::Delete, 5, None))
    );
}
