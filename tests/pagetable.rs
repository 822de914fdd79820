use engine::pagetable::{decode_addr, encode_addr, PageAddr, PageTable, STORE_TAG};
use engine::table::Error;

#[test]
fn addresses_are_tagged_by_bit_63() {
    assert_eq!(encode_addr(PageAddr::Mem(42)), 42);
    assert_eq!(encode_addr(PageAddr::Store(42)), STORE_TAG | 42);
    assert_eq!(decode_addr(7), PageAddr::Mem(7));
    assert_eq!(decode_addr(STORE_TAG | 7), PageAddr::Store(7));
    assert_eq!(decode_addr(encode_addr(PageAddr::Store(STORE_TAG - 1))), PageAddr::Store(STORE_TAG - 1));
}

#[test]
fn pids_are_allocated_reused_and_exhausted() {
    let mut t = PageTable::new(3);
    assert_eq!(t.alloc_pid(10), Ok(0));
    assert_eq!(t.alloc_pid(11), Ok(1));
    assert_eq!(t.alloc_pid(12), Ok(2));
    assert_eq!(t.alloc_pid(13), Err(Error::Exhausted));
    t.free_pid(1);
    assert_eq!(t.alloc_pid(21), Ok(1));
    assert_eq!(t.load(1), 21);
    assert_eq!(t.load(2), 12);
}

#[test]
fn cas_swaps_only_the_expected_word() {
    let mut t = PageTable::new(4);
    let pid = t.alloc_pid(5).unwrap();
    assert!(!t.cas(pid, 6, 9));
    assert_eq!(t.load(pid), 5);
    assert!(t.cas(pid, 5, 9));
    assert_eq!(t.load(pid), 9);
}
