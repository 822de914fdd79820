use vstd::prelude::*;
use crate::codec::{
    encode_record, encode_records, entries_view, lemma_encode_record_len, lemma_entries_view_push,
    page_fits, record_fits, Entry, Record,
};
use crate::key::{bytes_lt, compare_bytes, lemma_version_lt_facts, version_lt};
use crate::sorted_page::{compare_version, rank_in, sorted, SortedPageBuilder, SortedPageRef};

verus! {

/// A version of a key: the raw key and the LSN that wrote it.
pub type Version = (Seq<u8>, u64);

/// What each version holds after applying `rs` in order: a value, or `None`
/// for a tombstone. A later record of the same version replaces an earlier one.
pub open spec fn versions(rs: Seq<Record>) -> Map<Version, Option<Seq<u8>>>
    decreases rs.len(),
{
    if rs.len() == 0 {
        Map::empty()
    } else {
        versions(rs.drop_last()).insert(rs.last().version(), rs.last().value)
    }
}

/// `l` is the freshest LSN of `key` visible at `lsn`.
pub open spec fn is_latest(m: Map<Version, Option<Seq<u8>>>, key: Seq<u8>, lsn: u64, l: u64) -> bool {
    &&& m.contains_key((key, l))
    &&& l <= lsn
    &&& forall|l2: u64| #[trigger] m.contains_key((key, l2)) && l2 <= lsn ==> l2 <= l
}

/// What a read of `key` at `lsn` observes: the value of its freshest version at
/// or below `lsn`; absence where that version is a tombstone or there is none.
pub open spec fn read(m: Map<Version, Option<Seq<u8>>>, key: Seq<u8>, lsn: u64) -> Option<Seq<u8>> {
    if exists|l: u64| is_latest(m, key, lsn, l) {
        m[(key, choose|l: u64| is_latest(m, key, lsn, l))]
    } else {
        None
    }
}

pub proof fn lemma_read_at(m: Map<Version, Option<Seq<u8>>>, key: Seq<u8>, lsn: u64, l: u64)
    requires
        is_latest(m, key, lsn, l),
    ensures
        read(m, key, lsn) == m[(key, l)],
{
    let c = choose|l: u64| is_latest(m, key, lsn, l);
    assert(is_latest(m, key, lsn, c));
    assert(c <= l && l <= c);
}

pub proof fn lemma_read_absent(m: Map<Version, Option<Seq<u8>>>, key: Seq<u8>, lsn: u64)
    requires
        forall|l: u64| #[trigger] m.contains_key((key, l)) ==> l > lsn,
    ensures
        read(m, key, lsn) is None,
{
}

pub proof fn lemma_versions_contains(rs: Seq<Record>)
    ensures
        forall|v: Version| #[trigger] versions(rs).contains_key(v) <==> exists|i: int| 0 <= i < rs.len() && #[trigger] rs[i].version() == v,
    decreases rs.len(),
{
    if rs.len() > 0 {
        let p = rs.drop_last();
        lemma_versions_contains(p);
        assert forall|v: Version| #[trigger] versions(rs).contains_key(v) <==> exists|i: int| 0 <= i < rs.len() && #[trigger] rs[i].version() == v by {
            if versions(rs).contains_key(v) && v != rs.last().version() {
                assert(versions(p).contains_key(v));
                let i = choose|i: int| 0 <= i < p.len() && #[trigger] p[i].version() == v;
                assert(rs[i] == p[i]);
            }
            if exists|i: int| 0 <= i < rs.len() && #[trigger] rs[i].version() == v {
                let i = choose|i: int| 0 <= i < rs.len() && #[trigger] rs[i].version() == v;
                if i < p.len() {
                    assert(p[i] == rs[i]);
                }
            }
        }
    }
}

pub proof fn lemma_versions_last(rs: Seq<Record>, i: int)
    requires
        0 <= i < rs.len(),
        forall|j: int| i < j < rs.len() ==> #[trigger] rs[j].version() != rs[i].version(),
    ensures
        versions(rs).contains_key(rs[i].version()),
        versions(rs)[rs[i].version()] == rs[i].value,
    decreases rs.len(),
{
    if i < rs.len() - 1 {
        let p = rs.drop_last();
        assert(p[i] == rs[i]);
        assert forall|j: int| i < j < p.len() implies #[trigger] p[j].version() != p[i].version() by {
            assert(p[j] == rs[j]);
        }
        lemma_versions_last(p, i);
    }
}

/// Within sorted records, every record of a key visible at `lsn` is no fresher
/// than the record at the search position `i`, which then has that key.
pub proof fn lemma_sorted_search(rs: Seq<Record>, key: Seq<u8>, lsn: u64, i: int)
    requires
        sorted(rs),
        0 <= i <= rs.len(),
        forall|j: int| 0 <= j < i ==> version_lt(#[trigger] rs[j].version(), (key, lsn)),
        forall|j: int| i <= j < rs.len() ==> !version_lt(#[trigger] rs[j].version(), (key, lsn)),
    ensures
        i < rs.len() && rs[i].key == key ==> rs[i].lsn <= lsn,
        forall|j: int| 0 <= j < rs.len() && #[trigger] rs[j].key == key && rs[j].lsn <= lsn
            ==> i < rs.len() && rs[i].key == key && rs[j].lsn <= rs[i].lsn,
{
    lemma_version_lt_facts();
    if i < rs.len() {
        assert(!version_lt(rs[i].version(), (key, lsn)));
    }
    assert forall|j: int| 0 <= j < rs.len() && #[trigger] rs[j].key == key && rs[j].lsn <= lsn
        implies i < rs.len() && rs[i].key == key && rs[j].lsn <= rs[i].lsn by {
        assert(!version_lt(rs[j].version(), (key, lsn)));
        assert(i <= j);
        if i < j {
            assert(version_lt(rs[i].version(), rs[j].version()));
            if rs[i].key != key {
                assert(!version_lt(rs[i].version(), (key, lsn)));
                if rs[j].lsn < lsn {
                    assert(version_lt((key, lsn), rs[j].version()));
                }
            }
        }
    }
}

pub proof fn lemma_encode_records_concat(a: Seq<Record>, b: Seq<Record>)
    ensures
        encode_records(a + b) == encode_records(a) + encode_records(b),
    decreases b.len(),
{
    if b.len() == 0 {
        assert(a + b =~= a);
        assert(encode_records(a) + encode_records(b) =~= encode_records(a));
    } else {
        assert((a + b).drop_last() =~= a + b.drop_last());
        lemma_encode_records_concat(a, b.drop_last());
        assert(encode_records(a + b) =~= encode_records(a) + encode_records(b));
    }
}

pub proof fn lemma_encode_records_single(r: Record)
    ensures
        encode_records(seq![r]) == encode_record(r),
{
    assert(seq![r].drop_last() =~= Seq::<Record>::empty());
    assert(encode_records(Seq::<Record>::empty()) == Seq::<u8>::empty());
    assert(encode_records(seq![r]) =~= encode_record(r));
}

/// Each record takes at least one byte, so a payload that fits bounds the count.
pub proof fn lemma_encode_records_count(rs: Seq<Record>)
    ensures
        rs.len() <= encode_records(rs).len(),
    decreases rs.len(),
{
    if rs.len() > 0 {
        lemma_encode_records_count(rs.drop_last());
        lemma_encode_record_len(rs.last());
    }
}

/// In sorted records each version occurs once, and holds that record's value.
pub proof fn lemma_versions_sorted(rs: Seq<Record>)
    requires
        sorted(rs),
    ensures
        forall|v: Version| #[trigger] versions(rs).contains_key(v) <==> exists|i: int| 0 <= i < rs.len() && #[trigger] rs[i].version() == v,
        forall|i: int| 0 <= i < rs.len() ==> #[trigger] versions(rs)[rs[i].version()] == rs[i].value,
{
    lemma_versions_contains(rs);
    lemma_version_lt_facts();
    assert forall|i: int| 0 <= i < rs.len() implies #[trigger] versions(rs)[rs[i].version()] == rs[i].value by {
        assert forall|j: int| i < j < rs.len() implies #[trigger] rs[j].version() != rs[i].version() by {
            assert(version_lt(rs[i].version(), rs[j].version()));
        }
        lemma_versions_last(rs, i);
    }
}

/// Placing `ev` at its search position `i` in sorted `o`, over the record of
/// the same version where `same`, keeps the records sorted and sets the version.
pub proof fn lemma_sorted_place(o: Seq<Record>, n: Seq<Record>, i: int, ev: Record, same: bool)
    requires
        sorted(o),
        0 <= i <= o.len(),
        forall|j: int| 0 <= j < i ==> version_lt(#[trigger] o[j].version(), ev.version()),
        forall|j: int| i <= j < o.len() ==> !version_lt(#[trigger] o[j].version(), ev.version()),
        same <==> i < o.len() && o[i].version() == ev.version(),
        n == if same { o.update(i, ev) } else { o.insert(i, ev) },
    ensures
        sorted(n),
        versions(n) == versions(o).insert(ev.version(), ev.value),
{
    lemma_version_lt_facts();
    lemma_versions_sorted(o);
    if same {
        assert forall|x: int, y: int| 0 <= x < y < n.len() implies version_lt(#[trigger] n[x].version(), #[trigger] n[y].version()) by {
            assert(n[x].version() == o[x].version());
            assert(n[y].version() == o[y].version());
        }
    } else {
        if i < o.len() {
            assert(!version_lt(o[i].version(), ev.version()));
            assert(version_lt(ev.version(), o[i].version()));
        }
        assert forall|x: int, y: int| 0 <= x < y < n.len() implies version_lt(#[trigger] n[x].version(), #[trigger] n[y].version()) by {
            if y < i {
                assert(n[x] == o[x] && n[y] == o[y]);
            } else if y == i {
                assert(n[x] == o[x]);
            } else if x < i {
                assert(n[x] == o[x] && n[y] == o[y - 1]);
                assert(version_lt(o[x].version(), o[y - 1].version()));
            } else if x == i {
                assert(n[y] == o[y - 1]);
                if y - 1 > i {
                    assert(version_lt(o[i].version(), o[y - 1].version()));
                }
            } else {
                assert(n[x] == o[x - 1] && n[y] == o[y - 1]);
                assert(version_lt(o[x - 1].version(), o[y - 1].version()));
            }
        }
    }
    lemma_versions_sorted(n);
    let m1 = versions(n);
    let m2 = versions(o).insert(ev.version(), ev.value);
    assert forall|w: Version| #[trigger] m1.contains_key(w) <==> m2.contains_key(w) by {
        if m1.contains_key(w) {
            let j = choose|j: int| 0 <= j < n.len() && #[trigger] n[j].version() == w;
            if w != ev.version() {
                if same || j < i {
                    assert(n[j] == o[j]);
                } else {
                    assert(n[j] == o[j - 1]);
                }
            }
        }
        if m2.contains_key(w) {
            if w == ev.version() {
                assert(n[i].version() == w);
            } else {
                let j = choose|j: int| 0 <= j < o.len() && #[trigger] o[j].version() == w;
                if same || j < i {
                    assert(n[j] == o[j]);
                } else {
                    assert(n[j + 1] == o[j]);
                }
            }
        }
    }
    assert forall|w: Version| #[trigger] m1.contains_key(w) implies m1[w] == m2[w] by {
        let j = choose|j: int| 0 <= j < n.len() && #[trigger] n[j].version() == w;
        if w != ev.version() {
            if same || j < i {
                assert(n[j] == o[j]);
            } else {
                assert(n[j] == o[j - 1]);
            }
        } else {
            assert(n[i].version() == w);
        }
    }
    assert(m1 =~= m2);
}

/// Puts `e` into sorted `v`, in place of a record of the same version if there
/// is one.
pub fn insert_sorted(v: &mut Vec<Entry>, e: Entry)
    requires
        sorted(entries_view(old(v)@)),
    ensures
        sorted(entries_view(final(v)@)),
        versions(entries_view(final(v)@)) == versions(entries_view(old(v)@)).insert(e@.version(), e@.value),
        encode_records(entries_view(final(v)@)).len() <= encode_records(entries_view(old(v)@)).len() + encode_record(e@).len(),
        final(v)@.len() <= old(v)@.len() + 1,
{
    let ghost o = entries_view(v@);
    let i = rank_in(v, e.key.as_slice(), e.lsn);
    let same = i < v.len() && compare_version(v[i].key.as_slice(), v[i].lsn, e.key.as_slice(), e.lsn) == 0;
    proof {
        lemma_version_lt_facts();
        lemma_versions_sorted(o);
    }
    let ghost n: Seq<Record>;
    if same {
        proof {
            n = o.update(i as int, e@);
            assert(o =~= o.take(i as int) + seq![o[i as int]] + o.skip(i + 1));
            assert(n =~= o.take(i as int) + seq![e@] + o.skip(i + 1));
            lemma_encode_records_concat(o.take(i as int) + seq![o[i as int]], o.skip(i + 1));
            lemma_encode_records_concat(o.take(i as int), seq![o[i as int]]);
            lemma_encode_records_concat(o.take(i as int) + seq![e@], o.skip(i + 1));
            lemma_encode_records_concat(o.take(i as int), seq![e@]);
            lemma_encode_records_single(e@);
            lemma_encode_records_single(o[i as int]);
        }
        v.set(i, e);
    } else {
        proof {
            n = o.insert(i as int, e@);
            assert(o =~= o.take(i as int) + o.skip(i as int));
            assert(n =~= o.take(i as int) + seq![e@] + o.skip(i as int));
            lemma_encode_records_concat(o.take(i as int), o.skip(i as int));
            lemma_encode_records_concat(o.take(i as int) + seq![e@], o.skip(i as int));
            lemma_encode_records_concat(o.take(i as int), seq![e@]);
            lemma_encode_records_single(e@);
        }
        v.insert(i, e);
    }
    proof {
        assert(entries_view(v@) =~= n);
        lemma_sorted_place(o, n, i as int, e@, same);
    }
}

/// Record `i` is the first of its key: the freshest version of that key.
pub open spec fn first_of_key(rs: Seq<Record>, i: int) -> bool {
    i == 0 || rs[i - 1].key != rs[i].key
}

/// Between two sorted records of one key, every record has that key.
pub proof fn lemma_sandwich_key(rs: Seq<Record>, x: int, m: int, y: int)
    requires
        sorted(rs),
        0 <= x < m < y < rs.len(),
        rs[x].key == rs[y].key,
    ensures
        rs[m].key == rs[x].key,
{
    lemma_version_lt_facts();
    assert(version_lt(rs[x].version(), rs[m].version()));
    assert(version_lt(rs[m].version(), rs[y].version()));
    crate::key::lemma_bytes_lt_asymmetric(rs[x].key, rs[m].key);
    crate::key::lemma_bytes_lt_irreflexive(rs[x].key);
}

/// Every record of a key sits at or after the first record of that key.
pub proof fn lemma_first_precedes(rs: Seq<Record>, i: int, m: int)
    requires
        sorted(rs),
        0 <= i < rs.len(),
        0 <= m < rs.len(),
        first_of_key(rs, i),
        rs[m].key == rs[i].key,
    ensures
        i <= m,
        i < m ==> rs[m].lsn < rs[i].lsn,
{
    lemma_version_lt_facts();
    if m < i {
        if m < i - 1 {
            lemma_sandwich_key(rs, m, i - 1, i);
        }
    }
    if i < m {
        assert(version_lt(rs[i].version(), rs[m].version()));
        crate::key::lemma_bytes_lt_irreflexive(rs[i].key);
    }
}

/// In sorted records, the first record of a key is its freshest version.
pub proof fn lemma_first_is_latest(rs: Seq<Record>, i: int)
    requires
        sorted(rs),
        0 <= i < rs.len(),
        first_of_key(rs, i),
    ensures
        read(versions(rs), rs[i].key, u64::MAX) == rs[i].value,
{
    lemma_versions_sorted(rs);
    let m = versions(rs);
    let k = rs[i].key;
    assert(m.contains_key(rs[i].version()));
    assert forall|l2: u64| #[trigger] m.contains_key((k, l2)) && l2 <= u64::MAX implies l2 <= rs[i].lsn by {
        let j = choose|j: int| 0 <= j < rs.len() && #[trigger] rs[j].version() == (k, l2);
        lemma_first_precedes(rs, i, j);
    }
    assert(is_latest(m, k, u64::MAX, rs[i].lsn));
    lemma_read_at(m, k, u64::MAX, rs[i].lsn);
}

/// In sorted records, a key that a read at the largest LSN finds has a first
/// record.
pub proof fn lemma_latest_is_first(rs: Seq<Record>, k: Seq<u8>) -> (i: int)
    requires
        sorted(rs),
        read(versions(rs), k, u64::MAX) is Some,
    ensures
        0 <= i < rs.len(),
        first_of_key(rs, i),
        rs[i].key == k,
        rs[i].value == read(versions(rs), k, u64::MAX),
{
    lemma_versions_sorted(rs);
    lemma_version_lt_facts();
    let m = versions(rs);
    let l = choose|l: u64| is_latest(m, k, u64::MAX, l);
    let i = choose|j: int| 0 <= j < rs.len() && #[trigger] rs[j].version() == (k, l);
    if i > 0 && rs[i - 1].key == k {
        assert(version_lt(rs[i - 1].version(), rs[i].version()));
        crate::key::lemma_bytes_lt_irreflexive(k);
        assert(m.contains_key(rs[i - 1].version()));
    }
    lemma_first_is_latest(rs, i);
    i
}

/// A node: a delta chain (oldest first) layered over a sorted base page.
pub struct Node {
    pub base: SortedPageRef,
    pub chain: Vec<Entry>,
}

impl Node {
    /// Records of the node from the oldest: the base, then the deltas.
    pub open spec fn records(&self) -> Seq<Record> {
        self.base@ + entries_view(self.chain@)
    }

    /// The versions that the node holds.
    pub open spec fn spec_versions(&self) -> Map<Version, Option<Seq<u8>>> {
        versions(self.records())
    }

    /// The payload of the node's records, were each kept: a bound on the
    /// payload of its consolidated base.
    pub open spec fn footprint(&self) -> nat {
        encode_records(self.records()).len()
    }

    pub open spec fn wf(&self) -> bool {
        &&& self.base.wf()
        &&& forall|i: int| 0 <= i < self.chain@.len() ==> record_fits(#[trigger] self.chain@[i]@)
        &&& self.footprint() <= u32::MAX
    }

    pub fn new() -> (r: Node)
        ensures
            r.wf(),
            r.spec_versions() == Map::<Version, Option<Seq<u8>>>::empty(),
            r.chain@.len() == 0,
            r.footprint() == 0,
    {
        let r = Node { base: SortedPageRef::empty(), chain: Vec::new() };
        assert(r.records() =~= Seq::<Record>::empty());
        assert(encode_records(Seq::<Record>::empty()) == Seq::<u8>::empty());
        r
    }

    /// Page bytes that the node's records take, were each kept.
    pub fn footprint_exec(&self) -> (r: u64)
        requires
            self.wf(),
        ensures
            r == self.footprint(),
    {
        proof {
            self.base.lemma_wf();
            lemma_encode_records_concat(self.base@, entries_view(self.chain@));
        }
        let mut total: u64 = self.base.payload_len();
        let mut i: usize = 0;
        let ghost cs = entries_view(self.chain@);
        assert(cs.take(0) =~= Seq::<Record>::empty());
        while i < self.chain.len()
            invariant
                self.wf(),
                cs == entries_view(self.chain@),
                i <= cs.len(),
                encode_records(self.records()).len() == encode_records(self.base@).len() + encode_records(cs).len(),
                total == encode_records(self.base@).len() + encode_records(cs.take(i as int)).len(),
            decreases self.chain.len() - i,
        {
            proof {
                crate::codec::lemma_encode_records_step(cs, i as int);
                crate::codec::lemma_encode_records_prefix(cs, i + 1);
                lemma_encode_record_len(cs[i as int]);
            }
            let e = &self.chain[i];
            assert(e@ == cs[i as int]);
            let n: u64 = 13 + e.key.len() as u64 + match &e.value {
                Some(v) => 4 + v.len() as u64,
                None => 0,
            };
            total = total + n;
            i = i + 1;
        }
        assert(cs.take(i as int) =~= cs);
        total
    }

    /// Layers one delta over the node.
    pub fn push(&mut self, e: Entry)
        requires
            old(self).wf(),
            record_fits(e@),
            old(self).footprint() + encode_record(e@).len() <= u32::MAX,
        ensures
            final(self).wf(),
            final(self).base == old(self).base,
            final(self).chain@.len() == old(self).chain@.len() + 1,
            final(self).spec_versions() == old(self).spec_versions().insert(e@.version(), e@.value),
            final(self).footprint() == old(self).footprint() + encode_record(e@).len(),
    {
        let ghost before = self.records();
        proof {
            lemma_entries_view_push(self.chain@, e);
        }
        self.chain.push(e);
        proof {
            assert(self.records() =~= before.push(e@));
            assert(self.records().drop_last() =~= before);
        }
    }

    /// The node's versions as one sorted list, later deltas replacing earlier
    /// records of the same version.
    pub fn merge(&self) -> (r: Vec<Entry>)
        requires
            self.wf(),
        ensures
            sorted(entries_view(r@)),
            versions(entries_view(r@)) == self.spec_versions(),
            page_fits(entries_view(r@)),
            encode_records(entries_view(r@)).len() <= self.footprint(),
    {
        let ghost bs = self.base@;
        let ghost cs = entries_view(self.chain@);
        proof {
            self.base.lemma_wf();
            lemma_encode_records_concat(bs, cs);
        }
        let mut out = self.base.entries();
        let mut i: usize = 0;
        assert(bs + cs.take(0) =~= bs);
        while i < self.chain.len()
            invariant
                i <= cs.len(),
                cs == entries_view(self.chain@),
                self.wf(),
                bs == self.base@,
                page_fits(bs),
                encode_records(bs + cs).len() == encode_records(bs).len() + encode_records(cs).len(),
                sorted(entries_view(out@)),
                versions(entries_view(out@)) == versions(bs + cs.take(i as int)),
                encode_records(entries_view(out@)).len() <= encode_records(bs).len() + encode_records(cs.take(i as int)).len(),
                forall|j: int| 0 <= j < out@.len() ==> record_fits(#[trigger] entries_view(out@)[j]),
            decreases self.chain.len() - i,
        {
            let e = self.chain[i].copy();
            let ghost before = entries_view(out@);
            assert(record_fits(e@));
            insert_sorted(&mut out, e);
            proof {
                assert((bs + cs.take(i + 1)).drop_last() =~= bs + cs.take(i as int));
                assert(cs.take(i + 1).drop_last() =~= cs.take(i as int));
                assert((bs + cs.take(i + 1)).last() == e@);
                let after = entries_view(out@);
                lemma_versions_sorted(before);
                lemma_versions_sorted(after);
                assert forall|j: int| 0 <= j < out@.len() implies record_fits(#[trigger] after[j]) by {
                    let w = after[j].version();
                    assert(versions(after).contains_key(w));
                    assert(versions(after)[w] == after[j].value);
                    if w != e@.version() {
                        assert(versions(before).contains_key(w));
                        let k = choose|k: int| 0 <= k < before.len() && #[trigger] before[k].version() == w;
                        assert(versions(before)[before[k].version()] == before[k].value);
                        assert(record_fits(before[k]));
                    } else {
                        assert(after[j].value == e@.value);
                    }
                }
            }
            i = i + 1;
        }
        proof {
            assert(cs.take(i as int) =~= cs);
            let r = entries_view(out@);
            lemma_encode_records_count(r);
        }
        out
    }

    /// A node whose base page holds the given sorted entries, and no deltas.
    pub fn from_sorted(entries: Vec<Entry>) -> (r: Node)
        requires
            sorted(entries_view(entries@)),
            page_fits(entries_view(entries@)),
        ensures
            r.wf(),
            r.chain@.len() == 0,
            r.spec_versions() == versions(entries_view(entries@)),
            r.footprint() == encode_records(entries_view(entries@)).len(),
    {
        let ghost rs = entries_view(entries@);
        let base = match SortedPageBuilder::new().build_from_iter(&entries) {
            Some(p) => p.into_ref(),
            None => SortedPageRef::empty(),
        };
        let r = Node { base, chain: Vec::new() };
        proof {
            assert(entries_view(r.chain@) =~= Seq::<Record>::empty());
            assert(r.records() =~= rs);
        }
        r
    }

    /// Splits the node's versions at a key near the middle: those of keys
    /// below the separator go left, the others right. `None` where the node
    /// holds fewer than two keys.
    pub fn split(&self) -> (r: Option<(Node, Vec<u8>, Node)>)
        requires
            self.wf(),
        ensures
            r is Some ==> {
                let (left, sep, right) = r->0;
                &&& left.wf() && right.wf()
                &&& left.chain@.len() == 0 && right.chain@.len() == 0
                &&& left.footprint() + right.footprint() <= self.footprint()
                &&& forall|v: Version| #[trigger] left.spec_versions().contains_key(v)
                    <==> self.spec_versions().contains_key(v) && bytes_lt(v.0, sep@)
                &&& forall|v: Version| #[trigger] right.spec_versions().contains_key(v)
                    <==> self.spec_versions().contains_key(v) && !bytes_lt(v.0, sep@)
                &&& forall|v: Version| #[trigger] left.spec_versions().contains_key(v)
                    ==> left.spec_versions()[v] == self.spec_versions()[v]
                &&& forall|v: Version| #[trigger] right.spec_versions().contains_key(v)
                    ==> right.spec_versions()[v] == self.spec_versions()[v]
                &&& exists|v: Version| #[trigger] left.spec_versions().contains_key(v)
                &&& exists|v: Version| #[trigger] right.spec_versions().contains_key(v) && v.0 == sep@
            },
            r is None ==> forall|v: Version, w: Version| #[trigger] self.spec_versions().contains_key(v)
                && #[trigger] self.spec_versions().contains_key(w) ==> v.0 == w.0,
    {
        let mut merged = self.merge();
        let ghost rs = entries_view(merged@);
        let n = merged.len();
        let mid = n / 2;
        let mut best: usize = 0;
        let mut j: usize = 1;
        while j < n
            invariant
                n == merged@.len(),
                rs == entries_view(merged@),
                1 <= j <= n || n == 0,
                best == 0 || (1 <= best < n && first_of_key(rs, best as int)),
                best == 0 ==> forall|x: int| 0 <= x < j && x < n ==> #[trigger] rs[x].key == rs[0].key,
            decreases n - j,
        {
            assert(rs[j as int] == merged@[j as int]@ && rs[j - 1] == merged@[j - 1]@);
            if compare_bytes(merged[j - 1].key.as_slice(), merged[j].key.as_slice()) != 0 {
                let closer = best == 0 || (if j >= mid { j - mid } else { mid - j }) < (if best >= mid { best - mid } else { mid - best });
                if closer {
                    best = j;
                }
            } else {
                assert(best == 0 ==> rs[j - 1].key == rs[0].key);
            }
            j = j + 1;
        }
        if best == 0 {
            proof {
                lemma_versions_contains(rs);
                assert forall|v: Version, w: Version| #[trigger] self.spec_versions().contains_key(v)
                    && #[trigger] self.spec_versions().contains_key(w) implies v.0 == w.0 by {
                    let x = choose|x: int| 0 <= x < rs.len() && #[trigger] rs[x].version() == v;
                    let y = choose|y: int| 0 <= y < rs.len() && #[trigger] rs[y].version() == w;
                    assert(rs[x].key == rs[0].key && rs[y].key == rs[0].key);
                }
            }
            return None;
        }
        let s = best;
        let sep = vstd::slice::slice_to_vec(merged[s].key.as_slice());
        assert(rs[s as int] == merged@[s as int]@);
        let right = merged.split_off(s);
        let ghost l = entries_view(merged@);
        let ghost r = entries_view(right@);
        proof {
            assert(l =~= rs.take(s as int));
            assert(r =~= rs.skip(s as int));
            assert(rs =~= l + r);
            lemma_encode_records_concat(l, r);
            lemma_version_lt_facts();
            assert forall|x: int, y: int| 0 <= x < y < l.len() implies version_lt(#[trigger] l[x].version(), #[trigger] l[y].version()) by {
                assert(l[x] == rs[x] && l[y] == rs[y]);
            }
            assert forall|x: int, y: int| 0 <= x < y < r.len() implies version_lt(#[trigger] r[x].version(), #[trigger] r[y].version()) by {
                assert(r[x] == rs[x + s] && r[y] == rs[y + s]);
            }
            assert forall|x: int| 0 <= x < l.len() implies record_fits(#[trigger] l[x]) by {
                assert(l[x] == rs[x]);
            }
            assert forall|x: int| 0 <= x < r.len() implies record_fits(#[trigger] r[x]) by {
                assert(r[x] == rs[x + s]);
            }
        }
        let left_node = Node::from_sorted(merged);
        let right_node = Node::from_sorted(right);
        proof {
            lemma_versions_sorted(rs);
            lemma_versions_sorted(l);
            lemma_versions_sorted(r);
            crate::key::lemma_bytes_lt_irreflexive(sep@);
            // keys left of the separator are below it; the others are not
            assert forall|x: int| 0 <= x < rs.len() implies (#[trigger] bytes_lt(rs[x].key, sep@) <==> x < s) by {
                if x < s {
                    assert(version_lt(rs[x].version(), rs[s as int].version()));
                    if rs[x].key == sep@ {
                        lemma_first_precedes(rs, s as int, x);
                    }
                } else if x > s {
                    assert(version_lt(rs[s as int].version(), rs[x].version()));
                    crate::key::lemma_bytes_lt_asymmetric(sep@, rs[x].key);
                }
            }
            let m = self.spec_versions();
            assert forall|v: Version| #[trigger] left_node.spec_versions().contains_key(v)
                <==> m.contains_key(v) && bytes_lt(v.0, sep@) by {
                if left_node.spec_versions().contains_key(v) {
                    let x = choose|x: int| 0 <= x < l.len() && #[trigger] l[x].version() == v;
                    assert(l[x] == rs[x]);
                }
                if m.contains_key(v) && bytes_lt(v.0, sep@) {
                    let x = choose|x: int| 0 <= x < rs.len() && #[trigger] rs[x].version() == v;
                    assert(bytes_lt(rs[x].key, sep@));
                    assert(l[x] == rs[x]);
                }
            }
            assert forall|v: Version| #[trigger] right_node.spec_versions().contains_key(v)
                <==> m.contains_key(v) && !bytes_lt(v.0, sep@) by {
                if right_node.spec_versions().contains_key(v) {
                    let x = choose|x: int| 0 <= x < r.len() && #[trigger] r[x].version() == v;
                    assert(r[x] == rs[x + s]);
                    assert(!bytes_lt(rs[x + s].key, sep@));
                }
                if m.contains_key(v) && !bytes_lt(v.0, sep@) {
                    let x = choose|x: int| 0 <= x < rs.len() && #[trigger] rs[x].version() == v;
                    assert(!bytes_lt(rs[x].key, sep@));
                    assert(r[x - s] == rs[x]);
                }
            }
            assert forall|v: Version| #[trigger] left_node.spec_versions().contains_key(v)
                implies left_node.spec_versions()[v] == m[v] by {
                let x = choose|x: int| 0 <= x < l.len() && #[trigger] l[x].version() == v;
                assert(l[x] == rs[x]);
            }
            assert forall|v: Version| #[trigger] right_node.spec_versions().contains_key(v)
                implies right_node.spec_versions()[v] == m[v] by {
                let x = choose|x: int| 0 <= x < r.len() && #[trigger] r[x].version() == v;
                assert(r[x] == rs[x + s]);
            }
            assert(left_node.spec_versions().contains_key(l[0].version()));
            assert(r[0] == rs[s as int]);
            assert(right_node.spec_versions().contains_key(r[0].version()));
        }
        Some((left_node, sep, right_node))
    }

    /// Replaces the delta chain and base by one base page holding the same
    /// versions. Does nothing to a node without deltas.
    pub fn consolidate(&mut self)
        requires
            old(self).wf(),
        ensures
            final(self).wf(),
            final(self).spec_versions() == old(self).spec_versions(),
            final(self).chain@.len() == 0,
            final(self).footprint() <= old(self).footprint(),
            old(self).chain@.len() == 0 ==> *final(self) == *old(self),
    {
        if self.chain.len() == 0 {
            return;
        }
        let merged = self.merge();
        let page = match SortedPageBuilder::new().build_from_iter(&merged) {
            Some(p) => p,
            None => {
                return;
            },
        };
        self.base = page.into_ref();
        self.chain = Vec::new();
        proof {
            let r = entries_view(merged@);
            assert(self.records() =~= r);
            assert(entries_view(self.chain@) =~= Seq::<Record>::empty());
            self.base.lemma_wf();
        }
    }

    /// Looks `key` up at `lsn`: the deltas from the newest, then the base.
    pub fn find(&self, key: &[u8], lsn: u64) -> (r: Option<Vec<u8>>)
        requires
            self.wf(),
        ensures
            crate::codec::opt_bytes_view(r) == read(self.spec_versions(), key@, lsn),
    {
        let ghost bs = self.base@;
        let ghost cs = entries_view(self.chain@);
        let ghost all = self.records();
        let ghost n = bs.len();
        // Newest visible delta of the key with the highest LSN.
        let mut best: Option<usize> = None;
        let mut i: usize = self.chain.len();
        while i > 0
            invariant
                i <= cs.len(),
                cs == entries_view(self.chain@),
                cs.len() == self.chain@.len(),
                best is Some ==> {
                    let b = best->0 as int;
                    &&& i <= b < cs.len()
                    &&& cs[b].key == key@
                    &&& cs[b].lsn <= lsn
                    &&& forall|j: int| i <= j < cs.len() && #[trigger] cs[j].key == key@ && cs[j].lsn <= lsn
                        ==> cs[j].lsn <= cs[b].lsn && (cs[j].lsn == cs[b].lsn ==> j <= b)
                },
                best is None ==> forall|j: int| i <= j < cs.len() ==> !(#[trigger] cs[j].key == key@ && cs[j].lsn <= lsn),
            decreases i,
        {
            i = i - 1;
            let e = &self.chain[i];
            assert(cs[i as int] == e@);
            if e.lsn <= lsn && compare_bytes(e.key.as_slice(), key) == 0 {
                let better = match best {
                    None => true,
                    Some(b) => e.lsn > self.chain[b].lsn,
                };
                if better {
                    best = Some(i);
                }
            }
        }
        let r = self.base.rank(key, lsn);
        let mut base_hit = false;
        if r < self.base.len() {
            let e = self.base.index(r);
            match e {
                Some(x) => {
                    base_hit = compare_bytes(x.key.as_slice(), key) == 0;
                },
                None => {},
            }
        }
        proof {
            self.base.lemma_wf();
            lemma_sorted_search(bs, key@, lsn, r as int);
            lemma_versions_contains(all);
            lemma_version_lt_facts();
        }
        let use_chain = match best {
            None => false,
            Some(b) => {
                if base_hit {
                    match self.base.index(r) {
                        Some(x) => self.chain[b].lsn >= x.lsn,
                        None => true,
                    }
                } else {
                    true
                }
            },
        };
        if use_chain {
            let b = best.unwrap();
            let ghost l = cs[b as int].lsn;
            proof {
                assert(all[n + b] == cs[b as int]);
                assert forall|j: int| n + b < j < all.len() implies #[trigger] all[j].version() != all[n + b].version() by {
                    assert(all[j] == cs[j - n]);
                }
                lemma_versions_last(all, n + b);
                assert forall|l2: u64| #[trigger] versions(all).contains_key((key@, l2)) && l2 <= lsn implies l2 <= l by {
                    let j = choose|j: int| 0 <= j < all.len() && #[trigger] all[j].version() == (key@, l2);
                    if j < n {
                        assert(all[j] == bs[j]);
                        assert(bs[j].key == key@);
                    } else {
                        assert(all[j] == cs[j - n]);
                        assert(cs[j - n].key == key@);
                    }
                }
                lemma_read_at(versions(all), key@, lsn, l);
            }
            match &self.chain[b].value {
                Some(v) => Some(vstd::slice::slice_to_vec(v.as_slice())),
                None => None,
            }
        } else if base_hit {
            let x = self.base.index(r).unwrap();
            let ghost l = bs[r as int].lsn;
            proof {
                assert(all[r as int] == bs[r as int]);
                assert forall|j: int| r < j < all.len() implies #[trigger] all[j].version() != all[r as int].version() by {
                    if j < n {
                        assert(all[j] == bs[j]);
                        assert(version_lt(bs[r as int].version(), bs[j].version()));
                    } else {
                        assert(all[j] == cs[j - n]);
                        if cs[j - n].key == key@ && cs[j - n].lsn == l {
                            assert(cs[j - n].lsn <= lsn);
                        }
                    }
                }
                lemma_versions_last(all, r as int);
                assert forall|l2: u64| #[trigger] versions(all).contains_key((key@, l2)) && l2 <= lsn implies l2 <= l by {
                    let j = choose|j: int| 0 <= j < all.len() && #[trigger] all[j].version() == (key@, l2);
                    if j < n {
                        assert(all[j] == bs[j]);
                        assert(bs[j].key == key@);
                    } else {
                        assert(all[j] == cs[j - n]);
                        assert(cs[j - n].key == key@);
                    }
                }
                lemma_read_at(versions(all), key@, lsn, l);
            }
            match x.value {
                Some(v) => Some(v),
                None => None,
            }
        } else {
            proof {
                assert forall|l2: u64| #[trigger] versions(all).contains_key((key@, l2)) implies l2 > lsn by {
                    let j = choose|j: int| 0 <= j < all.len() && #[trigger] all[j].version() == (key@, l2);
                    if j < n {
                        assert(all[j] == bs[j]);
                        assert(bs[j].key == key@);
                    } else {
                        assert(all[j] == cs[j - n]);
                        assert(cs[j - n].key == key@);
                    }
                }
                lemma_read_absent(versions(all), key@, lsn);
            }
            None
        }
    }
}

} // verus!
