use kv_buf::engine::WriteOutcome;
use kv_buf::error::{DatabaseError, EngineError};
use kv_buf::key::{check_empty_key, compare_keys, partial_key_match, KeyOrder};
use kv_buf::keymap::KeyMap;
use kv_buf::table::Table;

#[test]
fn keys_compare_in_lexicographic_byte_order() {
    assert_eq!(compare_keys(b"a", b"b"), KeyOrder::Less);
    assert_eq!(compare_keys(b"b", b"a"), KeyOrder::Greater);
    assert_eq!(compare_keys(b"abc", b"abc"), KeyOrder::Equal);
    assert_eq!(compare_keys(b"ab", b"abc"), KeyOrder::Less);
    assert_eq!(compare_keys(b"abc", b"ab"), KeyOrder::Greater);
    assert_eq!(compare_keys(b"", b"a"), KeyOrder::Less);
    assert_eq!(compare_keys(b"", b""), KeyOrder::Equal);
    assert_eq!(compare_keys(&[0xff], &[0x00, 0xff]), KeyOrder::Greater);
    assert_eq!(compare_keys(b"b", b"abc"), KeyOrder::Greater);
}

#[test]
fn key_comparison_agrees_with_slice_order() {
    let keys: Vec<Vec<u8>> = vec![
        vec![],
        vec![0],
        vec![0, 0],
        vec![0, 1],
        vec![1],
        vec![1, 0],
        vec![127, 255],
        vec![128],
        vec![255],
        vec![255, 0],
    ];
    for a in &keys {
        for b in &keys {
            let expected = match a.as_slice().cmp(b.as_slice()) {
                std::cmp::Ordering::Less => KeyOrder::Less,
                std::cmp::Ordering::Equal => KeyOrder::Equal,
                std::cmp::Ordering::Greater => KeyOrder::Greater,
            };
            assert_eq!(compare_keys(a, b), expected);
        }
    }
}

#[test]
fn prefix_match_looks_at_the_leading_bytes() {
    assert!(partial_key_match(b"ab", b"ab"));
    assert!(partial_key_match(b"ab", b"abc"));
    assert!(partial_key_match(b"", b"abc"));
    assert!(!partial_key_match(b"abc", b"ab"));
    assert!(!partial_key_match(b"ab", b"ac"));
    assert!(!partial_key_match(b"b", b"ab"));
}

#[test]
fn only_the_empty_key_is_invalid() {
    assert_eq!(check_empty_key(b""), Err(DatabaseError::InvalidKey));
    assert_eq!(check_empty_key(b"a"), Ok(()));
    assert_eq!(check_empty_key(&[0]), Ok(()));
}

#[test]
fn key_map_inserts_replaces_and_removes() {
    let mut m: KeyMap<u32> = KeyMap::new();
    assert!(m.is_empty());
    m.insert(b"b".to_vec(), 2);
    m.insert(b"a".to_vec(), 1);
    m.insert(b"c".to_vec(), 3);
    m.insert(b"b".to_vec(), 20);
    assert_eq!(m.len(), 3);
    assert_eq!(m.get(b"a"), Some(&1));
    assert_eq!(m.get(b"b"), Some(&20));
    assert_eq!(m.get(b"c"), Some(&3));
    assert_eq!(m.get(b"d"), None);
    assert_eq!(m.remove(b"b"), Some(20));
    assert_eq!(m.remove(b"b"), None);
    assert_eq!(m.len(), 2);
    assert_eq!(m.key_at(0), b"a");
    assert_eq!(m.key_at(1), b"c");
    assert_eq!(*m.value_at(1), 3);
    m.clear();
    assert!(m.is_empty());
}

#[test]
fn lower_bound_is_the_first_place_not_below_the_key() {
    let mut m: KeyMap<u32> = KeyMap::new();
    for k in [b"b", b"d", b"f"] {
        m.insert(k.to_vec(), 0);
    }
    assert_eq!(m.lower_bound(b"a"), 0);
    assert_eq!(m.lower_bound(b"b"), 0);
    assert_eq!(m.lower_bound(b"c"), 1);
    assert_eq!(m.lower_bound(b"d"), 1);
    assert_eq!(m.lower_bound(b"da"), 2);
    assert_eq!(m.lower_bound(b"f"), 2);
    assert_eq!(m.lower_bound(b"g"), 3);
}

#[test]
fn key_map_hands_out_its_rows_in_key_order() {
    let mut m: KeyMap<u32> = KeyMap::new();
    for (k, v) in [("q", 1), ("a", 2), ("k", 3)] {
        m.insert(k.as_bytes().to_vec(), v);
    }
    let rows = m.into_rows();
    assert_eq!(rows, vec![(b"a".to_vec(), 2), (b"k".to_vec(), 3), (b"q".to_vec(), 1)]);
}

#[test]
fn table_put_get_delete() {
    let mut t: Table<u32> = Table::new();
    assert_eq!(t.put(b"x".to_vec(), 1), WriteOutcome::Done);
    assert_eq!(t.put(b"x".to_vec(), 2), WriteOutcome::Done);
    assert_eq!(t.len(), 1);
    assert_eq!(t.get(b"x"), Some(&2));
    assert_eq!(t.delete(b"x"), WriteOutcome::Done);
    assert_eq!(t.delete(b"x"), WriteOutcome::Failed(EngineError::NotFound));
    assert_eq!(t.get(b"x"), None);
    assert!(t.is_empty());
}

#[test]
fn table_delete_all_removes_every_entry() {
    let mut t: Table<u32> = Table::new();
    t.put(b"x".to_vec(), 1);
    t.put(b"y".to_vec(), 2);
    assert_eq!(t.delete_all(), WriteOutcome::Done);
    assert!(t.is_empty());
    assert_eq!(t.get(b"y"), None);
}

#[test]
fn table_cursor_walks_in_key_order() {
    let mut t: Table<u32> = Table::new();
    for (k, v) in [("c", 3), ("a", 1), ("b", 2)] {
        t.put(k.as_bytes().to_vec(), v);
    }
    assert_eq!(t.key_at(0), b"a");
    assert_eq!(t.key_at(2), b"c");
    assert_eq!(*t.value_at(1), 2);
    assert_eq!(t.lower_bound(b"b"), 1);
    assert_eq!(t.lower_bound(b"bb"), 2);
}
