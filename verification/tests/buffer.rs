use kv_buf::buf::{KvBufUsed, Lookup};
use kv_buf::error::DatabaseError;
use kv_buf::scratch::KvOp;
use kv_buf::table::Table;

fn key(s: &str) -> Vec<u8> {
    s.as_bytes().to_vec()
}

fn table_of(rows: &[(&str, u32)]) -> Table<u32> {
    let mut t = Table::new();
    for (k, v) in rows {
        t.put(key(k), *v);
    }
    t
}

#[test]
fn new_buffer_is_clean_and_keeps_its_handle() {
    let buf: KvBufUsed<&str, u32> = KvBufUsed::new("entries").unwrap();
    assert!(buf.is_clean());
    assert_eq!(*buf.store(), "entries");
    assert_eq!(buf.scratch().len(), 0);
}

#[test]
fn put_is_read_back_though_nothing_is_persisted() {
    let table: Table<u32> = Table::new();
    let mut buf: KvBufUsed<(), u32> = KvBufUsed::new(()).unwrap();
    assert_eq!(buf.put(key("k"), 7), Ok(()));
    assert_eq!(buf.get(&table, b"k"), Ok(Some(&7)));
    assert_eq!(buf.contains(&table, b"k"), Ok(true));
    assert!(!buf.is_clean());
    assert!(table.is_empty());
}

#[test]
fn put_then_delete_shows_nothing() {
    let table = table_of(&[("k", 1)]);
    let mut buf: KvBufUsed<(), u32> = KvBufUsed::new(()).unwrap();
    buf.put(key("k"), 2).unwrap();
    buf.delete(key("k")).unwrap();
    assert_eq!(buf.get(&table, b"k"), Ok(None));
    assert_eq!(buf.contains(&table, b"k"), Ok(false));
    assert_eq!(buf.scratch().len(), 1);
}

#[test]
fn delete_then_put_shows_the_put() {
    let table = table_of(&[("k", 1)]);
    let mut buf: KvBufUsed<(), u32> = KvBufUsed::new(()).unwrap();
    buf.delete(key("k")).unwrap();
    buf.put(key("k"), 9).unwrap();
    assert_eq!(buf.get(&table, b"k"), Ok(Some(&9)));
    assert_eq!(buf.scratch().len(), 1);
    assert_eq!(buf.scratch().get(b"k"), Some(&KvOp::Put(Box::new(9))));
}

#[test]
fn later_put_replaces_earlier_put() {
    let table: Table<u32> = Table::new();
    let mut buf: KvBufUsed<(), u32> = KvBufUsed::new(()).unwrap();
    buf.put(key("k"), 1).unwrap();
    buf.put(key("k"), 2).unwrap();
    assert_eq!(buf.get(&table, b"k"), Ok(Some(&2)));
    assert_eq!(buf.scratch().len(), 1);
}

#[test]
fn unstaged_key_reads_the_table() {
    let table = table_of(&[("a", 1), ("b", 2)]);
    let buf: KvBufUsed<(), u32> = KvBufUsed::new(()).unwrap();
    assert_eq!(buf.get(&table, b"a"), Ok(Some(&1)));
    assert_eq!(buf.get(&table, b"b"), Ok(Some(&2)));
    assert_eq!(buf.get(&table, b"c"), Ok(None));
    assert_eq!(buf.contains(&table, b"a"), Ok(true));
    assert_eq!(buf.contains(&table, b"c"), Ok(false));
}

#[test]
fn staged_put_wins_over_the_table() {
    let table = table_of(&[("a", 1)]);
    let mut buf: KvBufUsed<(), u32> = KvBufUsed::new(()).unwrap();
    buf.put(key("a"), 100).unwrap();
    assert_eq!(buf.get(&table, b"a"), Ok(Some(&100)));
    assert_eq!(table.get(b"a"), Some(&1));
}

#[test]
fn delete_of_unseen_key_is_staged() {
    let table: Table<u32> = Table::new();
    let mut buf: KvBufUsed<(), u32> = KvBufUsed::new(()).unwrap();
    assert_eq!(buf.delete(key("ghost")), Ok(()));
    assert!(!buf.is_clean());
    assert_eq!(buf.get(&table, b"ghost"), Ok(None));
    assert_eq!(buf.scratch().get(b"ghost"), Some(&KvOp::Delete));
}

#[test]
fn empty_key_is_rejected_by_every_keyed_operation() {
    let table = table_of(&[("a", 1)]);
    let mut buf: KvBufUsed<(), u32> = KvBufUsed::new(()).unwrap();
    assert_eq!(buf.get(&table, b""), Err(DatabaseError::InvalidKey));
    assert_eq!(buf.contains(&table, b""), Err(DatabaseError::InvalidKey));
    assert_eq!(buf.lookup(b""), Err(DatabaseError::InvalidKey));
    assert_eq!(buf.put(Vec::new(), 1), Err(DatabaseError::InvalidKey));
    assert_eq!(buf.delete(Vec::new()), Err(DatabaseError::InvalidKey));
    assert!(matches!(buf.iter_from(&table, b""), Err(DatabaseError::InvalidKey)));
    assert!(matches!(
        buf.iter_all_key_matches(&table, Vec::new()),
        Err(DatabaseError::InvalidKey)
    ));
    assert!(buf.is_clean());
}

#[test]
fn lookup_tells_what_the_scratch_decides() {
    let mut buf: KvBufUsed<(), u32> = KvBufUsed::new(()).unwrap();
    buf.put(key("p"), 5).unwrap();
    buf.delete(key("d")).unwrap();
    assert_eq!(buf.lookup(b"p"), Ok(Lookup::Staged(&5)));
    assert_eq!(buf.lookup(b"d"), Ok(Lookup::Deleted));
    assert_eq!(buf.lookup(b"x"), Ok(Lookup::Unstaged));
}

#[test]
fn scratch_is_kept_in_key_order() {
    let mut buf: KvBufUsed<(), u32> = KvBufUsed::new(()).unwrap();
    for k in ["m", "b", "z", "a", "mm", "c"] {
        buf.put(key(k), 0).unwrap();
    }
    let s = buf.scratch();
    let keys: Vec<&[u8]> = (0..s.len()).map(|i| s.key_at(i)).collect();
    let expected: Vec<&[u8]> = vec![b"a", b"b", b"c", b"m", b"mm", b"z"];
    assert_eq!(keys, expected);
}

#[test]
fn clear_all_empties_scratch_and_table() {
    let mut table = table_of(&[("a", 1), ("b", 2)]);
    let mut buf: KvBufUsed<(), u32> = KvBufUsed::new(()).unwrap();
    buf.put(key("c"), 3).unwrap();
    assert_eq!(buf.clear_all(&mut table), Ok(()));
    assert!(buf.is_clean());
    assert!(table.is_empty());
    assert_eq!(buf.get(&table, b"c"), Ok(None));
}
