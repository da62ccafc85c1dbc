use kv_buf::buf::KvBufUsed;
use kv_buf::engine::{settle_delete, settle_write, WriteOutcome};
use kv_buf::error::{DatabaseError, EngineError};
use kv_buf::scratch::KvOp;
use kv_buf::table::Table;

fn key(s: &str) -> Vec<u8> {
    s.as_bytes().to_vec()
}

fn table_of(rows: &[(&str, u32)]) -> Table<u32> {
    let mut t = Table::new();
    for (k, v) in rows {
        t.put(key(k), *v);
    }
    t
}

fn rows_of(t: &Table<u32>) -> Vec<(Vec<u8>, u32)> {
    (0..t.len()).map(|i| (t.key_at(i).to_vec(), *t.value_at(i))).collect()
}

#[test]
fn flush_applies_puts_and_deletes() {
    let mut table = table_of(&[("a", 1), ("c", 3)]);
    let mut buf: KvBufUsed<(), u32> = KvBufUsed::new(()).unwrap();
    buf.put(key("b"), 2).unwrap();
    buf.delete(key("c")).unwrap();
    {
        let mut it = buf.iter(&table).unwrap();
        assert_eq!(it.next(), Some((&b"a"[..], &1)));
        assert_eq!(it.next(), Some((&b"b"[..], &2)));
        assert_eq!(it.next(), None);
    }
    assert_eq!(buf.flush_to_txn(&mut table), Ok(()));
    assert_eq!(rows_of(&table), vec![(key("a"), 1), (key("b"), 2)]);
}

#[test]
fn flush_of_clean_buffer_changes_nothing() {
    let mut table = table_of(&[("a", 1)]);
    let buf: KvBufUsed<(), u32> = KvBufUsed::new(()).unwrap();
    assert!(buf.is_clean());
    assert_eq!(buf.flush_to_txn(&mut table), Ok(()));
    assert_eq!(rows_of(&table), vec![(key("a"), 1)]);
}

#[test]
fn flush_of_delete_for_absent_key_succeeds() {
    let mut table = table_of(&[("a", 1)]);
    let mut buf: KvBufUsed<(), u32> = KvBufUsed::new(()).unwrap();
    buf.delete(key("never-there")).unwrap();
    assert_eq!(buf.flush_to_txn(&mut table), Ok(()));
    assert_eq!(rows_of(&table), vec![(key("a"), 1)]);
}

#[test]
fn flush_overwrites_persisted_values() {
    let mut table = table_of(&[("a", 1), ("b", 2)]);
    let mut buf: KvBufUsed<(), u32> = KvBufUsed::new(()).unwrap();
    buf.put(key("a"), 10).unwrap();
    buf.put(key("b"), 20).unwrap();
    buf.put(key("b"), 21).unwrap();
    assert_eq!(buf.flush_to_txn(&mut table), Ok(()));
    assert_eq!(rows_of(&table), vec![(key("a"), 10), (key("b"), 21)]);
}

#[test]
fn put_flush_and_read_through_a_new_buffer() {
    let mut table: Table<Vec<u8>> = Table::new();
    let value = vec![0u8, 255, 7, 7, 0];
    let mut buf: KvBufUsed<(), Vec<u8>> = KvBufUsed::new(()).unwrap();
    buf.put(key("k"), value.clone()).unwrap();
    assert_eq!(buf.flush_to_txn(&mut table), Ok(()));
    let fresh: KvBufUsed<(), Vec<u8>> = KvBufUsed::new(()).unwrap();
    assert_eq!(fresh.get(&table, b"k"), Ok(Some(&value)));
    assert!(fresh.is_clean());
}

#[test]
fn nothing_reaches_the_table_before_the_flush() {
    let mut table = table_of(&[("a", 1)]);
    let mut buf: KvBufUsed<(), u32> = KvBufUsed::new(()).unwrap();
    buf.put(key("b"), 2).unwrap();
    buf.delete(key("a")).unwrap();
    assert_eq!(rows_of(&table), vec![(key("a"), 1)]);
    buf.flush_to_txn(&mut table).unwrap();
    assert_eq!(rows_of(&table), vec![(key("b"), 2)]);
}

#[test]
fn staged_operations_come_out_in_key_order() {
    let mut buf: KvBufUsed<(), u32> = KvBufUsed::new(()).unwrap();
    buf.put(key("m"), 1).unwrap();
    buf.delete(key("a")).unwrap();
    buf.put(key("z"), 2).unwrap();
    buf.delete(key("m")).unwrap();
    let mut flush = buf.into_flush();
    assert_eq!(flush.next_write(), Some((key("a"), KvOp::Delete)));
    assert_eq!(flush.settle(WriteOutcome::Done), Ok(()));
    assert_eq!(flush.next_write(), Some((key("m"), KvOp::Delete)));
    assert_eq!(flush.settle(WriteOutcome::Done), Ok(()));
    assert_eq!(flush.next_write(), Some((key("z"), KvOp::Put(Box::new(2)))));
    assert_eq!(flush.settle(WriteOutcome::Done), Ok(()));
    assert_eq!(flush.next_write(), None);
    assert_eq!(flush.next_write(), None);
}

#[test]
fn flush_of_clean_buffer_issues_nothing() {
    let buf: KvBufUsed<(), u32> = KvBufUsed::new(()).unwrap();
    let mut flush = buf.into_flush();
    assert_eq!(flush.next_write(), None);
}

#[test]
fn flush_goes_on_after_a_delete_that_found_nothing() {
    let mut buf: KvBufUsed<(), u32> = KvBufUsed::new(()).unwrap();
    buf.delete(key("a")).unwrap();
    buf.put(key("b"), 2).unwrap();
    let mut flush = buf.into_flush();
    assert_eq!(flush.next_write(), Some((key("a"), KvOp::Delete)));
    assert_eq!(flush.settle(WriteOutcome::Failed(EngineError::NotFound)), Ok(()));
    assert_eq!(flush.next_write(), Some((key("b"), KvOp::Put(Box::new(2)))));
    assert_eq!(flush.settle(WriteOutcome::Done), Ok(()));
    assert_eq!(flush.next_write(), None);
}

#[test]
fn flush_ends_at_the_first_engine_failure() {
    let mut buf: KvBufUsed<(), u32> = KvBufUsed::new(()).unwrap();
    buf.delete(key("a")).unwrap();
    buf.put(key("b"), 2).unwrap();
    buf.put(key("c"), 3).unwrap();
    let mut flush = buf.into_flush();
    assert_eq!(flush.next_write(), Some((key("a"), KvOp::Delete)));
    assert_eq!(
        flush.settle(WriteOutcome::Failed(EngineError::Other("readers full".to_string()))),
        Err(DatabaseError::EngineError(EngineError::Other("readers full".to_string())))
    );
    assert_eq!(flush.next_write(), None);
}

#[test]
fn flush_ends_at_a_value_that_cannot_be_encoded() {
    let mut buf: KvBufUsed<(), u32> = KvBufUsed::new(()).unwrap();
    buf.put(key("a"), 1).unwrap();
    buf.put(key("b"), 2).unwrap();
    let mut flush = buf.into_flush();
    assert_eq!(flush.next_write(), Some((key("a"), KvOp::Put(Box::new(1)))));
    assert_eq!(flush.settle(WriteOutcome::EncodeFailed), Err(DatabaseError::EncodingError));
    assert_eq!(flush.next_write(), None);
}

#[test]
fn flush_does_not_pass_over_a_put_that_found_nothing() {
    let mut buf: KvBufUsed<(), u32> = KvBufUsed::new(()).unwrap();
    buf.put(key("a"), 1).unwrap();
    buf.put(key("b"), 2).unwrap();
    let mut flush = buf.into_flush();
    assert_eq!(flush.next_write(), Some((key("a"), KvOp::Put(Box::new(1)))));
    assert_eq!(
        flush.settle(WriteOutcome::Failed(EngineError::NotFound)),
        Err(DatabaseError::EngineError(EngineError::NotFound))
    );
    assert_eq!(flush.next_write(), None);
}

#[test]
fn a_put_that_fails_fails_the_flush() {
    assert_eq!(settle_write(WriteOutcome::Done), Ok(()));
    assert_eq!(settle_write(WriteOutcome::EncodeFailed), Err(DatabaseError::EncodingError));
    assert_eq!(
        settle_write(WriteOutcome::Failed(EngineError::Other("map full".to_string()))),
        Err(DatabaseError::EngineError(EngineError::Other("map full".to_string())))
    );
    assert_eq!(
        settle_write(WriteOutcome::Failed(EngineError::NotFound)),
        Err(DatabaseError::EngineError(EngineError::NotFound))
    );
}

#[test]
fn a_delete_that_finds_nothing_is_no_failure() {
    assert_eq!(settle_delete(WriteOutcome::Done), Ok(()));
    assert_eq!(settle_delete(WriteOutcome::Failed(EngineError::NotFound)), Ok(()));
    assert_eq!(
        settle_delete(WriteOutcome::Failed(EngineError::Other("corrupted".to_string()))),
        Err(DatabaseError::EngineError(EngineError::Other("corrupted".to_string())))
    );
    assert_eq!(settle_delete(WriteOutcome::EncodeFailed), Err(DatabaseError::EncodingError));
}
