use engine::table::{bump, Error, Options, Table};

fn small_options() -> Options {
    Options {
        cache_size: usize::MAX,
        data_node_size: 64,
        data_delta_length: 2,
        index_node_size: 32,
        index_delta_length: 2,
    }
}

fn collect(t: &Table) -> Vec<(Vec<u8>, Vec<u8>)> {
    let mut out = Vec::new();
    let mut it = t.iter();
    while let Some(item) = it.next() {
        out.push(item);
    }
    out
}

#[test]
fn defaults_crud_scenario() {
    let mut t = Table::open(Options::default()).unwrap();
    let key = [0u8; 8];
    assert_eq!(t.get(&key, 0), None);
    t.put(&key, 1, &key).unwrap();
    assert_eq!(t.get(&key, 1), Some(key.to_vec()));
    t.delete(&key, 2).unwrap();
    assert_eq!(t.get(&key, 2), None);
    // The older version stays visible at its own LSN.
    assert_eq!(t.get(&key, 1), Some(key.to_vec()));
}

#[test]
fn reads_see_freshest_visible_version() {
    let mut t = Table::open(small_options()).unwrap();
    t.put(b"k", 5, b"one").unwrap();
    assert_eq!(t.get(b"k", 4), None);
    assert_eq!(t.get(b"k", 5), Some(b"one".to_vec()));
    assert_eq!(t.get(b"k", 100), Some(b"one".to_vec()));
    t.put(b"k", 7, b"two").unwrap();
    assert_eq!(t.get(b"k", 6), Some(b"one".to_vec()));
    assert_eq!(t.get(b"k", 7), Some(b"two".to_vec()));
    t.delete(b"k", 9).unwrap();
    assert_eq!(t.get(b"k", 8), Some(b"two".to_vec()));
    assert_eq!(t.get(b"k", 9), None);
    assert_eq!(t.get(b"k", u64::MAX), None);
    t.put(b"k", 10, b"three").unwrap();
    assert_eq!(t.get(b"k", 10), Some(b"three".to_vec()));
    assert_eq!(t.get(b"other", 10), None);
}

#[test]
fn same_version_written_twice_keeps_the_later() {
    let mut t = Table::open(small_options()).unwrap();
    t.put(b"k", 3, b"a").unwrap();
    t.put(b"k", 3, b"b").unwrap();
    assert_eq!(t.get(b"k", 3), Some(b"b".to_vec()));
    t.consolidate();
    assert_eq!(t.get(b"k", 3), Some(b"b".to_vec()));
}

#[test]
fn iter_empty_visits_nothing() {
    let t = Table::open(small_options()).unwrap();
    assert!(collect(&t).is_empty());
}

#[test]
fn iter_visits_keys_in_order_with_freshest_values() {
    let mut t = Table::open(small_options()).unwrap();
    let keys: [&[u8]; 6] = [b"m", b"b", b"zz", b"a", b"ab", b"z"];
    let mut lsn = 1;
    for k in keys.iter() {
        t.put(k, lsn, b"old").unwrap();
        lsn += 1;
    }
    t.put(b"b", lsn, b"new").unwrap();
    lsn += 1;
    t.delete(b"zz", lsn).unwrap();
    let got = collect(&t);
    let want: Vec<(Vec<u8>, Vec<u8>)> = vec![
        (b"a".to_vec(), b"old".to_vec()),
        (b"ab".to_vec(), b"old".to_vec()),
        (b"b".to_vec(), b"new".to_vec()),
        (b"m".to_vec(), b"old".to_vec()),
        (b"z".to_vec(), b"old".to_vec()),
    ];
    assert_eq!(got, want);
}

#[test]
fn iter_rewinds() {
    let mut t = Table::open(small_options()).unwrap();
    t.put(b"x", 1, b"1").unwrap();
    t.put(b"y", 2, b"2").unwrap();
    let mut it = t.iter();
    assert_eq!(it.next(), Some((b"x".to_vec(), b"1".to_vec())));
    assert_eq!(it.next(), Some((b"y".to_vec(), b"2".to_vec())));
    assert_eq!(it.next(), None);
    it.rewind();
    assert_eq!(it.next(), Some((b"x".to_vec(), b"1".to_vec())));
}

#[test]
fn forward_delete_reverse_scenario() {
    let mut t = Table::open(small_options()).unwrap();
    let n: u64 = 1024;
    let mut lsn = 0;
    for i in 0..n {
        lsn += 1;
        t.put(&i.to_be_bytes(), lsn, &i.to_be_bytes()).unwrap();
    }
    let got = collect(&t);
    assert_eq!(got.len(), 1024);
    for (j, (k, _)) in got.iter().enumerate() {
        assert_eq!(k, &(j as u64).to_be_bytes().to_vec());
    }
    for i in (1..n).step_by(2) {
        lsn += 1;
        t.delete(&i.to_be_bytes(), lsn).unwrap();
    }
    let got = collect(&t);
    assert_eq!(got.len(), 512);
    for (j, (k, _)) in got.iter().enumerate() {
        assert_eq!(k, &(2 * j as u64).to_be_bytes().to_vec());
    }
    for i in (0..n).rev() {
        lsn += 1;
        t.put(&i.to_be_bytes(), lsn, &(i + 5000).to_be_bytes()).unwrap();
    }
    let got = collect(&t);
    assert_eq!(got.len(), 1024);
    for (j, (k, v)) in got.iter().enumerate() {
        assert_eq!(k, &(j as u64).to_be_bytes().to_vec());
        assert_eq!(v, &(j as u64 + 5000).to_be_bytes().to_vec());
    }
}

#[test]
fn largest_lsn_wins_whatever_the_order() {
    let mut t = Table::open(small_options()).unwrap();
    let lsns: [u64; 6] = [4, 9, 1, 7, 3, 8];
    for l in lsns.iter() {
        t.put(b"key", *l, &l.to_le_bytes()).unwrap();
    }
    assert_eq!(t.get(b"key", 9), Some(9u64.to_le_bytes().to_vec()));
    assert_eq!(t.get(b"key", 6), Some(4u64.to_le_bytes().to_vec()));
    assert_eq!(t.get(b"key", 0), None);
}

#[test]
fn consolidation_runs_when_chain_outgrows_threshold() {
    let mut t = Table::open(small_options()).unwrap();
    for i in 0..9u64 {
        t.put(&i.to_be_bytes(), i + 1, b"v").unwrap();
    }
    // A chain of three deltas exceeds the threshold of two.
    assert_eq!(t.stats().num_consolidations, 3);
    assert_eq!(t.stats().num_puts, 9);
    t.delete(b"nothing", 20).unwrap();
    assert_eq!(t.stats().num_deletes, 1);
}

#[test]
fn consolidating_twice_changes_nothing_the_second_time() {
    let mut t = Table::open(Options::default()).unwrap();
    t.put(b"a", 1, b"x").unwrap();
    t.put(b"b", 2, b"y").unwrap();
    t.consolidate();
    assert_eq!(t.stats().num_consolidations, 1);
    t.consolidate();
    assert_eq!(t.stats().num_consolidations, 1);
    assert_eq!(t.get(b"a", 5), Some(b"x".to_vec()));
    assert_eq!(t.get(b"b", 5), Some(b"y".to_vec()));
}

#[test]
fn out_of_memory_when_cache_is_full() {
    let mut opts = small_options();
    // One record of a 1-byte key and a 1-byte value takes 4+1+8+1+4+1 = 19 bytes.
    opts.cache_size = 40;
    let mut t = Table::open(opts).unwrap();
    assert_eq!(t.put(b"a", 1, b"x"), Ok(()));
    assert_eq!(t.put(b"b", 2, b"y"), Ok(()));
    assert_eq!(t.put(b"c", 3, b"z"), Err(Error::OutOfMemory));
    assert_eq!(t.get(b"c", 3), None);
    // A tombstone takes 4+1+8+1 = 14 bytes: still too many.
    assert_eq!(t.delete(b"a", 4), Err(Error::OutOfMemory));
    assert_eq!(t.get(b"a", 4), Some(b"x".to_vec()));
}

#[test]
fn counters_stop_at_the_largest_count() {
    assert_eq!(bump(0), 1);
    assert_eq!(bump(41), 42);
    assert_eq!(bump(u64::MAX), u64::MAX);
}

#[test]
fn small_nodes_split_and_keep_every_key() {
    let mut t = Table::open(small_options()).unwrap();
    for i in 0..512u64 {
        t.put(&i.to_be_bytes(), i + 1, &(i * 3).to_be_bytes()).unwrap();
    }
    assert!(t.stats().num_splits > 0);
    for i in 0..512u64 {
        assert_eq!(t.get(&i.to_be_bytes(), 1000), Some((i * 3).to_be_bytes().to_vec()));
    }
    let got = collect(&t);
    assert_eq!(got.len(), 512);
    for (j, (k, v)) in got.iter().enumerate() {
        assert_eq!(k, &(j as u64).to_be_bytes().to_vec());
        assert_eq!(v, &(j as u64 * 3).to_be_bytes().to_vec());
    }
}

#[test]
fn splits_happen_once_a_leaf_outgrows_its_size() {
    let mut t = Table::open(small_options()).unwrap();
    // Each record takes 4+8+8+1+4+1 = 26 bytes; three exceed 64.
    for i in 0..3u64 {
        t.put(&i.to_be_bytes(), i + 1, b"v").unwrap();
    }
    assert_eq!(t.stats().num_consolidations, 1);
    assert_eq!(t.stats().num_splits, 1);
    for i in 0..3u64 {
        assert_eq!(t.get(&i.to_be_bytes(), 10), Some(b"v".to_vec()));
    }
}

#[test]
fn random_order_inserts_split_and_iterate_in_order() {
    let mut t = Table::open(small_options()).unwrap();
    let mut x: u64 = 12345;
    let mut keys = Vec::new();
    for lsn in 1..=300u64 {
        x = x.wrapping_mul(6364136223846793005).wrapping_add(1442695040888963407);
        let k = (x >> 40) % 1000;
        keys.push(k);
        t.put(&k.to_be_bytes(), lsn, &lsn.to_be_bytes()).unwrap();
    }
    let mut want: Vec<(Vec<u8>, Vec<u8>)> = Vec::new();
    let mut sorted = keys.clone();
    sorted.sort();
    sorted.dedup();
    for k in sorted.iter() {
        let last = keys.iter().rposition(|y| y == k).unwrap() as u64 + 1;
        want.push((k.to_be_bytes().to_vec(), last.to_be_bytes().to_vec()));
        assert_eq!(t.get(&k.to_be_bytes(), u64::MAX), Some(last.to_be_bytes().to_vec()));
    }
    assert_eq!(collect(&t), want);
}
