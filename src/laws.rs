use vstd::prelude::*;
use crate::codec::Record;
use crate::node::{is_latest, lemma_read_at, lemma_versions_contains, lemma_versions_last, read, versions, Version};

verus! {

/// A value written as version `lsn` of `key` is what every read of `key` at
/// `lsn2 >= lsn` observes, as long as no other version of `key` lies in
/// `(lsn, lsn2]`.
pub proof fn lemma_get_after_put(
    m: Map<Version, Option<Seq<u8>>>,
    key: Seq<u8>,
    lsn: u64,
    value: Seq<u8>,
    lsn2: u64,
)
    requires
        lsn <= lsn2,
        forall|l: u64| lsn < l <= lsn2 ==> !#[trigger] m.contains_key((key, l)),
    ensures
        read(m.insert((key, lsn), Some(value)), key, lsn2) == Some(value),
{
    let m2 = m.insert((key, lsn), Some(value));
    assert(is_latest(m2, key, lsn2, lsn));
    lemma_read_at(m2, key, lsn2, lsn);
}

/// After a tombstone is written as version `lsn` of `key`, every read of `key`
/// at `lsn2 >= lsn` observes absence, as long as no other version of `key`
/// lies in `(lsn, lsn2]`.
pub proof fn lemma_get_after_delete(
    m: Map<Version, Option<Seq<u8>>>,
    key: Seq<u8>,
    lsn: u64,
    lsn2: u64,
)
    requires
        lsn <= lsn2,
        forall|l: u64| lsn < l <= lsn2 ==> !#[trigger] m.contains_key((key, l)),
    ensures
        read(m.insert((key, lsn), None), key, lsn2) is None,
{
    let m2 = m.insert((key, lsn), None);
    assert(is_latest(m2, key, lsn2, lsn));
    lemma_read_at(m2, key, lsn2, lsn);
}

/// Writers of one key at distinct LSNs, applied in any order: a read at the
/// largest LSN observes what the writer of that LSN wrote.
pub proof fn lemma_largest_lsn_wins(writes: Seq<Record>, key: Seq<u8>, i: int)
    requires
        0 <= i < writes.len(),
        forall|j: int| 0 <= j < writes.len() ==> (#[trigger] writes[j]).key == key,
        forall|j: int, k: int| 0 <= j < k < writes.len() ==> #[trigger] writes[j].lsn != #[trigger] writes[k].lsn,
        forall|j: int| 0 <= j < writes.len() ==> (#[trigger] writes[j]).lsn <= writes[i].lsn,
    ensures
        read(versions(writes), key, writes[i].lsn) == writes[i].value,
{
    let m = versions(writes);
    lemma_versions_contains(writes);
    assert forall|j: int| i < j < writes.len() implies #[trigger] writes[j].version() != writes[i].version() by {
        assert(writes[i].lsn != writes[j].lsn);
    }
    lemma_versions_last(writes, i);
    assert forall|l2: u64| #[trigger] m.contains_key((key, l2)) && l2 <= writes[i].lsn implies l2 <= writes[i].lsn by {}
    assert(is_latest(m, key, writes[i].lsn, writes[i].lsn));
    lemma_read_at(m, key, writes[i].lsn, writes[i].lsn);
}

} // verus!
