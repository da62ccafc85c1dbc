use kv_buf::buf::KvBufUsed;
use kv_buf::iter::SingleIter;
use kv_buf::table::Table;
use std::collections::BTreeMap;

fn key(s: &str) -> Vec<u8> {
    s.as_bytes().to_vec()
}

fn table_of(rows: &[(&str, u32)]) -> Table<u32> {
    let mut t = Table::new();
    for (k, v) in rows {
        t.put(key(k), *v);
    }
    t
}

fn collect(mut it: SingleIter<'_, u32>) -> Vec<(Vec<u8>, u32)> {
    let mut out = Vec::new();
    while let Some((k, v)) = it.next() {
        out.push((k.to_vec(), *v));
    }
    assert_eq!(it.next(), None);
    out
}

fn pairs(rows: &[(&str, u32)]) -> Vec<(Vec<u8>, u32)> {
    rows.iter().map(|(k, v)| (key(k), *v)).collect()
}

/// A small generator of repeatable pseudo-random numbers.
struct Lcg(u64);

impl Lcg {
    fn next(&mut self) -> u64 {
        self.0 = self.0.wrapping_mul(6364136223846793005).wrapping_add(1442695040888963407);
        self.0 >> 33
    }

    fn key(&mut self) -> Vec<u8> {
        let len = 1 + (self.next() % 3) as usize;
        (0..len).map(|_| b'a' + (self.next() % 4) as u8).collect()
    }
}

/// A random table and buffer, with the mapping that the buffer should show.
fn random_case(seed: u64) -> (Table<u32>, KvBufUsed<(), u32>, BTreeMap<Vec<u8>, u32>) {
    let mut rng = Lcg(seed);
    let mut table = Table::new();
    let mut logical = BTreeMap::new();
    for _ in 0..(rng.next() % 12) {
        let k = rng.key();
        let v = rng.next() as u32;
        table.put(k.clone(), v);
        logical.insert(k, v);
    }
    let mut buf = KvBufUsed::new(()).unwrap();
    for _ in 0..(rng.next() % 12) {
        let k = rng.key();
        if rng.next() % 3 == 0 {
            buf.delete(k.clone()).unwrap();
            logical.remove(&k);
        } else {
            let v = rng.next() as u32;
            buf.put(k.clone(), v).unwrap();
            logical.insert(k, v);
        }
    }
    (table, buf, logical)
}

#[test]
fn full_scan_merges_scratch_over_table() {
    let table = table_of(&[("a", 1), ("c", 3)]);
    let mut buf: KvBufUsed<(), u32> = KvBufUsed::new(()).unwrap();
    buf.put(key("b"), 2).unwrap();
    buf.delete(key("c")).unwrap();
    let got = collect(buf.iter(&table).unwrap());
    assert_eq!(got, pairs(&[("a", 1), ("b", 2)]));
}

#[test]
fn full_scan_of_empty_sources_yields_nothing() {
    let table: Table<u32> = Table::new();
    let buf: KvBufUsed<(), u32> = KvBufUsed::new(()).unwrap();
    assert_eq!(collect(buf.iter(&table).unwrap()), Vec::new());
    assert_eq!(collect(buf.iter_reverse(&table).unwrap()), Vec::new());
}

#[test]
fn full_scan_of_table_alone() {
    let table = table_of(&[("b", 2), ("a", 1), ("c", 3)]);
    let buf: KvBufUsed<(), u32> = KvBufUsed::new(()).unwrap();
    assert_eq!(collect(buf.iter(&table).unwrap()), pairs(&[("a", 1), ("b", 2), ("c", 3)]));
}

#[test]
fn full_scan_of_scratch_alone_skips_tombstones() {
    let table: Table<u32> = Table::new();
    let mut buf: KvBufUsed<(), u32> = KvBufUsed::new(()).unwrap();
    buf.put(key("x"), 1).unwrap();
    buf.delete(key("y")).unwrap();
    buf.put(key("z"), 3).unwrap();
    assert_eq!(collect(buf.iter(&table).unwrap()), pairs(&[("x", 1), ("z", 3)]));
}

#[test]
fn staged_value_stands_for_both_on_equal_keys() {
    let table = table_of(&[("a", 1), ("b", 2), ("c", 3)]);
    let mut buf: KvBufUsed<(), u32> = KvBufUsed::new(()).unwrap();
    buf.put(key("b"), 20).unwrap();
    let got = collect(buf.iter(&table).unwrap());
    assert_eq!(got, pairs(&[("a", 1), ("b", 20), ("c", 3)]));
}

#[test]
fn tombstones_in_a_row_are_all_skipped() {
    let table = table_of(&[("a", 1), ("b", 2), ("c", 3), ("d", 4)]);
    let mut buf: KvBufUsed<(), u32> = KvBufUsed::new(()).unwrap();
    buf.delete(key("a")).unwrap();
    buf.delete(key("b")).unwrap();
    buf.delete(key("bb")).unwrap();
    buf.delete(key("d")).unwrap();
    assert_eq!(collect(buf.iter(&table).unwrap()), pairs(&[("c", 3)]));
    assert_eq!(collect(buf.iter_reverse(&table).unwrap()), pairs(&[("c", 3)]));
}

#[test]
fn iteration_equals_the_logical_mapping_in_key_order() {
    for seed in 0..200 {
        let (table, buf, logical) = random_case(seed);
        let expected: Vec<(Vec<u8>, u32)> = logical.into_iter().collect();
        assert_eq!(collect(buf.iter(&table).unwrap()), expected, "seed {}", seed);
    }
}

#[test]
fn reverse_iteration_is_forward_iteration_reversed() {
    for seed in 0..200 {
        let (table, buf, _) = random_case(seed);
        let mut forward = collect(buf.iter(&table).unwrap());
        let backward = collect(buf.iter_reverse(&table).unwrap());
        forward.reverse();
        assert_eq!(backward, forward, "seed {}", seed);
    }
}

#[test]
fn next_back_walks_from_the_far_end() {
    for seed in 0..100 {
        let (table, buf, logical) = random_case(seed);
        let mut it = buf.iter(&table).unwrap();
        let mut got = Vec::new();
        while let Some((k, v)) = it.next_back() {
            got.push((k.to_vec(), *v));
        }
        let mut expected: Vec<(Vec<u8>, u32)> = logical.into_iter().collect();
        expected.reverse();
        assert_eq!(got, expected, "seed {}", seed);
    }
}

#[test]
fn both_ends_meet_without_repeating_an_entry() {
    let table = table_of(&[("a", 1), ("c", 3), ("e", 5)]);
    let mut buf: KvBufUsed<(), u32> = KvBufUsed::new(()).unwrap();
    buf.put(key("b"), 2).unwrap();
    buf.put(key("d"), 4).unwrap();
    buf.delete(key("e")).unwrap();
    let mut it = buf.iter(&table).unwrap();
    assert_eq!(it.next(), Some((&b"a"[..], &1)));
    assert_eq!(it.next_back(), Some((&b"d"[..], &4)));
    assert_eq!(it.next_back(), Some((&b"c"[..], &3)));
    assert_eq!(it.next(), Some((&b"b"[..], &2)));
    assert_eq!(it.next(), None);
    assert_eq!(it.next_back(), None);
}

#[test]
fn rev_turns_the_iterator_round() {
    let table = table_of(&[("a", 1), ("b", 2), ("c", 3)]);
    let buf: KvBufUsed<(), u32> = KvBufUsed::new(()).unwrap();
    let mut it = buf.iter(&table).unwrap();
    assert_eq!(it.next(), Some((&b"a"[..], &1)));
    let mut it = it.rev();
    assert_eq!(it.next(), Some((&b"c"[..], &3)));
    assert_eq!(it.next_back(), Some((&b"b"[..], &2)));
    assert_eq!(it.next(), None);
}

#[test]
fn iter_from_starts_at_or_after_the_key() {
    let table = table_of(&[("a", 1), ("c", 3), ("e", 5)]);
    let mut buf: KvBufUsed<(), u32> = KvBufUsed::new(()).unwrap();
    buf.put(key("b"), 2).unwrap();
    buf.put(key("d"), 4).unwrap();
    buf.delete(key("e")).unwrap();
    buf.put(key("f"), 6).unwrap();
    assert_eq!(
        collect(buf.iter_from(&table, b"c").unwrap()),
        pairs(&[("c", 3), ("d", 4), ("f", 6)])
    );
    assert_eq!(collect(buf.iter_from(&table, b"cc").unwrap()), pairs(&[("d", 4), ("f", 6)]));
    assert_eq!(collect(buf.iter_from(&table, b"g").unwrap()), Vec::new());
    assert_eq!(collect(buf.iter_from(&table, b"a").unwrap()).len(), 5);
}

#[test]
fn iter_from_equals_the_logical_mapping_from_the_key_on() {
    for seed in 0..200 {
        let (table, buf, logical) = random_case(seed);
        let mut rng = Lcg(seed ^ 0xabcdef);
        let from = rng.key();
        let expected: Vec<(Vec<u8>, u32)> =
            logical.into_iter().filter(|(k, _)| k.as_slice() >= from.as_slice()).collect();
        assert_eq!(collect(buf.iter_from(&table, &from).unwrap()), expected, "seed {}", seed);
    }
}

#[test]
fn iter_from_walks_backwards_down_to_the_key() {
    let table = table_of(&[("a", 1), ("c", 3), ("e", 5)]);
    let mut buf: KvBufUsed<(), u32> = KvBufUsed::new(()).unwrap();
    buf.put(key("d"), 4).unwrap();
    let got = collect(buf.iter_from(&table, b"b").unwrap().rev());
    assert_eq!(got, pairs(&[("e", 5), ("d", 4), ("c", 3)]));
}

#[test]
fn prefix_iteration_yields_the_matching_keys_only() {
    let table = table_of(&[("a", 1), ("ab", 2), ("abc", 3), ("ac", 4), ("b", 5)]);
    let mut buf: KvBufUsed<(), u32> = KvBufUsed::new(()).unwrap();
    buf.put(key("abd"), 6).unwrap();
    buf.delete(key("abc")).unwrap();
    buf.put(key("aba"), 7).unwrap();
    buf.put(key("c"), 8).unwrap();
    let mut it = buf.iter_all_key_matches(&table, key("ab")).unwrap();
    let mut got = Vec::new();
    while let Some((k, v)) = it.next() {
        got.push((k.to_vec(), *v));
    }
    assert_eq!(got, pairs(&[("ab", 2), ("aba", 7), ("abd", 6)]));
    assert_eq!(it.next(), None);
}

#[test]
fn prefix_iteration_passes_over_a_staged_delete_of_another_prefix() {
    let table = table_of(&[("ab", 1), ("ad", 2), ("ae", 3)]);
    let mut buf: KvBufUsed<(), u32> = KvBufUsed::new(()).unwrap();
    buf.delete(key("ab")).unwrap();
    buf.delete(key("ac")).unwrap();
    let mut it = buf.iter_all_key_matches(&table, key("a")).unwrap();
    assert_eq!(it.next(), Some((&b"ad"[..], &2)));
    assert_eq!(it.next(), Some((&b"ae"[..], &3)));
    assert_eq!(it.next(), None);
    let mut none = buf.iter_all_key_matches(&table, key("ab")).unwrap();
    assert_eq!(none.next(), None);
}

#[test]
fn prefix_iteration_equals_the_matching_part_of_the_logical_mapping() {
    for seed in 0..200 {
        let (table, buf, logical) = random_case(seed);
        let mut rng = Lcg(seed ^ 0x5eed);
        let prefix = rng.key();
        let expected: Vec<(Vec<u8>, u32)> =
            logical.into_iter().filter(|(k, _)| k.starts_with(&prefix)).collect();
        let mut it = buf.iter_all_key_matches(&table, prefix.clone()).unwrap();
        let mut got = Vec::new();
        while let Some((k, v)) = it.next() {
            assert!(k.starts_with(&prefix));
            got.push((k.to_vec(), *v));
        }
        assert_eq!(got, expected, "seed {}", seed);
    }
}

#[test]
fn iteration_leaves_buffer_and_table_as_they_were() {
    let table = table_of(&[("a", 1)]);
    let mut buf: KvBufUsed<(), u32> = KvBufUsed::new(()).unwrap();
    buf.put(key("b"), 2).unwrap();
    let first = collect(buf.iter(&table).unwrap());
    let second = collect(buf.iter(&table).unwrap());
    assert_eq!(first, second);
    assert_eq!(buf.scratch().len(), 1);
    assert_eq!(table.len(), 1);
}

#[test]
fn prefix_iteration_walks_backwards_over_the_same_entries() {
    let table = table_of(&[("a", 1), ("ab", 2), ("abc", 3), ("ac", 4), ("b", 5)]);
    let mut buf: KvBufUsed<(), u32> = KvBufUsed::new(()).unwrap();
    buf.put(key("abd"), 6).unwrap();
    buf.delete(key("abc")).unwrap();
    buf.put(key("c"), 8).unwrap();
    buf.delete(key("bz")).unwrap();
    let mut it = buf.iter_all_key_matches(&table, key("ab")).unwrap().rev();
    assert_eq!(it.next(), Some((&b"abd"[..], &6)));
    assert_eq!(it.next(), Some((&b"ab"[..], &2)));
    assert_eq!(it.next(), None);
    assert_eq!(it.next_back(), None);
}

#[test]
fn prefix_iteration_from_both_ends() {
    let table = table_of(&[("k1", 1), ("k2", 2), ("k3", 3), ("k4", 4), ("l", 5), ("m", 6)]);
    let buf: KvBufUsed<(), u32> = KvBufUsed::new(()).unwrap();
    let mut it = buf.iter_all_key_matches(&table, key("k")).unwrap();
    assert_eq!(it.next_back(), Some((&b"k4"[..], &4)));
    assert_eq!(it.next(), Some((&b"k1"[..], &1)));
    assert_eq!(it.next_back(), Some((&b"k3"[..], &3)));
    assert_eq!(it.next(), Some((&b"k2"[..], &2)));
    assert_eq!(it.next(), None);
    assert_eq!(it.next_back(), None);
}

#[test]
fn reverse_prefix_iteration_is_forward_prefix_iteration_reversed() {
    for seed in 0..200 {
        let (table, buf, logical) = random_case(seed);
        let mut rng = Lcg(seed ^ 0x0ddba11);
        let prefix = rng.key();
        let mut expected: Vec<(Vec<u8>, u32)> =
            logical.into_iter().filter(|(k, _)| k.starts_with(&prefix)).collect();
        expected.reverse();
        let mut it = buf.iter_all_key_matches(&table, prefix.clone()).unwrap().rev();
        let mut got = Vec::new();
        while let Some((k, v)) = it.next() {
            got.push((k.to_vec(), *v));
        }
        assert_eq!(got, expected, "seed {}", seed);
    }
}
