use engine::codec::{decode_page, encode_page, Entry};
use engine::key::compare_bytes;
use engine::sorted_page::{compare_version, SortedPageBuilder, SortedPageRef};

fn entry(key: &[u8], lsn: u64, value: Option<&[u8]>) -> Entry {
    Entry { key: key.to_vec(), lsn, value: value.map(|v| v.to_vec()) }
}

fn same(a: &Entry, b: &Entry) -> bool {
    a.key == b.key && a.lsn == b.lsn && a.value == b.value
}

fn sample() -> Vec<Entry> {
    vec![
        entry(b"a", 9, Some(b"new")),
        entry(b"a", 3, None),
        entry(b"b", 5, Some(b"")),
        entry(b"ba", 1, Some(b"xyz")),
    ]
}

#[test]
fn byte_order_is_lexicographic() {
    assert_eq!(compare_bytes(b"", b""), 0);
    assert_eq!(compare_bytes(b"", b"a"), -1);
    assert_eq!(compare_bytes(b"ab", b"a"), 1);
    assert_eq!(compare_bytes(b"ab", b"b"), -1);
    assert_eq!(compare_bytes(b"abc", b"abc"), 0);
    assert_eq!(compare_bytes(&[0, 255], &[1, 0]), -1);
}

#[test]
fn version_order_puts_fresher_first() {
    assert_eq!(compare_version(b"k", 9, b"k", 3), -1);
    assert_eq!(compare_version(b"k", 3, b"k", 9), 1);
    assert_eq!(compare_version(b"k", 3, b"k", 3), 0);
    assert_eq!(compare_version(b"a", 1, b"b", 9), -1);
}

#[test]
fn page_layout_exact_bytes() {
    let page = encode_page(&vec![entry(b"k", 2, Some(b"v")), entry(b"m", 1, None)]);
    let want: Vec<u8> = vec![
        2, 0, 0, 0, // count
        0, 0, 0, 0, // offset of the first record
        19, 0, 0, 0, // offset of the second record
        1, 0, 0, 0, b'k', 2, 0, 0, 0, 0, 0, 0, 0, 1, 1, 0, 0, 0, b'v',
        1, 0, 0, 0, b'm', 1, 0, 0, 0, 0, 0, 0, 0, 0,
    ];
    assert_eq!(page, want);
}

#[test]
fn page_round_trip() {
    let entries = sample();
    let bytes = encode_page(&entries);
    let back = decode_page(&bytes).unwrap();
    assert_eq!(back.len(), entries.len());
    for (a, b) in back.iter().zip(entries.iter()) {
        assert!(same(a, b));
    }
    let empty = encode_page(&Vec::new());
    assert_eq!(empty, vec![0, 0, 0, 0]);
    assert_eq!(decode_page(&empty).unwrap().len(), 0);
}

#[test]
fn corrupted_pages_are_refused() {
    let bytes = encode_page(&sample());
    assert!(decode_page(&bytes[..bytes.len() - 1]).is_none());
    let mut longer = bytes.clone();
    longer.push(0);
    assert!(decode_page(&longer).is_none());
    let mut bad_offset = bytes.clone();
    bad_offset[8] ^= 1;
    assert!(decode_page(&bad_offset).is_none());
    assert!(decode_page(&[1, 0]).is_none());
    // Well-formed but out of order.
    let unsorted = encode_page(&vec![entry(b"b", 1, None), entry(b"a", 1, None)]);
    assert!(decode_page(&unsorted).is_some());
    assert!(SortedPageRef::new(unsorted).is_none());
}

#[test]
fn builder_counts_sizes() {
    let mut b = SortedPageBuilder::new();
    assert_eq!(b.content_size(), 4);
    // 4 + 3 + 8 + 1 + 4 + 2 = 22 bytes
    assert!(b.add(&entry(b"abc", 1, Some(b"xy"))));
    assert_eq!(b.content_size(), 4 + 4 + 22);
    // 4 + 1 + 8 + 1 = 14 bytes
    assert!(b.add(&entry(b"d", 1, None)));
    assert_eq!(b.content_size(), 4 + 8 + 36);
}

#[test]
fn built_page_reads_back() {
    let entries = sample();
    let ptr = SortedPageBuilder::new().build_from_iter(&entries).unwrap();
    assert_eq!(ptr.as_ptr(), encode_page(&entries).as_slice());
    let page = SortedPageRef::new(ptr.as_ptr().to_vec()).unwrap();
    assert_eq!(page.len(), 4);
    assert_eq!(page.as_bytes(), ptr.as_ptr());
    assert!(same(&page.index(1).unwrap(), &entries[1]));
    assert!(page.index(4).is_none());
}

#[test]
fn seek_finds_freshest_visible_version() {
    let page = SortedPageRef::new(encode_page(&sample())).unwrap();
    // Version 9 of "a" is the freshest at 10.
    assert!(same(&page.seek(b"a", 10).unwrap(), &sample()[0]));
    // At 5 only version 3 of "a" is visible.
    assert!(same(&page.seek(b"a", 5).unwrap(), &sample()[1]));
    // Nothing of "a" at 2: the next record is "b".
    assert!(same(&page.seek(b"a", 2).unwrap(), &sample()[2]));
    assert_eq!(page.rank(b"b", 5), 2);
    assert_eq!(page.rank(b"", 0), 0);
    assert!(page.seek(b"c", 0).is_none());
    assert_eq!(page.rank(b"c", 0), 4);
}

#[test]
fn page_iterator_walks_seeks_and_rewinds() {
    let page = SortedPageRef::new(encode_page(&sample())).unwrap();
    let mut it = page.iter();
    assert!(it.current().is_none());
    let mut n = 0;
    while let Some(e) = it.next() {
        assert!(same(&e, &sample()[n]));
        assert!(same(&it.current().unwrap(), &sample()[n]));
        n += 1;
    }
    assert_eq!(n, 4);
    assert!(it.current().is_none());
    it.rewind();
    assert!(same(&it.next().unwrap(), &sample()[0]));
    it.seek(b"b", 0);
    assert!(it.current().is_none());
    assert!(same(&it.next().unwrap(), &sample()[3]));
    let mut owned = page.into_iter();
    assert!(same(&owned.next().unwrap(), &sample()[0]));
}
