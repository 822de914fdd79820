use vstd::prelude::*;
use crate::codec::{
    encode_page, encode_record, encode_records, entries_view, lemma_encode_record_len,
    decode_page, lemma_encode_records_len_bound, lemma_encode_records_step, lemma_entries_view_push,
    page_bytes,
    page_fits, record_fits, Entry, Record,
};
use crate::key::{compare_bytes, lemma_version_lt_facts, lemma_bytes_lt_asymmetric, lemma_bytes_lt_irreflexive, version_lt};

verus! {

/// Records strictly ascending by version: raw key ascending, LSN descending.
pub open spec fn sorted(rs: Seq<Record>) -> bool {
    forall|i: int, j: int| 0 <= i < j < rs.len() ==> version_lt(#[trigger] rs[i].version(), #[trigger] rs[j].version())
}

/// Exact three-way comparison of two versions, as `-1`, `0` or `1`.
pub fn compare_version(a_key: &[u8], a_lsn: u64, b_key: &[u8], b_lsn: u64) -> (r: i8)
    ensures
        r == -1 <==> version_lt((a_key@, a_lsn), (b_key@, b_lsn)),
        r == 0 <==> (a_key@, a_lsn) == (b_key@, b_lsn),
        r == 1 <==> version_lt((b_key@, b_lsn), (a_key@, a_lsn)),
{
    let c = compare_bytes(a_key, b_key);
    proof {
        lemma_bytes_lt_irreflexive(a_key@);
        lemma_bytes_lt_asymmetric(a_key@, b_key@);
    }
    if c != 0 {
        c
    } else if a_lsn > b_lsn {
        -1
    } else if a_lsn < b_lsn {
        1
    } else {
        0
    }
}

/// Accounts for the size of a base page before it is laid out.
pub struct SortedPageBuilder {
    len: u64,
    size: u64,
}

impl SortedPageBuilder {
    /// Number of records added so far.
    pub closed spec fn spec_len(&self) -> nat {
        self.len as nat
    }

    /// Payload bytes of the records added so far.
    pub closed spec fn spec_size(&self) -> nat {
        self.size as nat
    }

    pub fn new() -> (r: SortedPageBuilder)
        ensures
            r.spec_len() == 0,
            r.spec_size() == 0,
    {
        SortedPageBuilder { len: 0, size: 0 }
    }

    /// Counts one more record; refuses one whose size does not fit.
    pub fn add(&mut self, e: &Entry) -> (ok: bool)
        ensures
            ok <==> old(self).spec_len() + 1 <= u32::MAX && old(self).spec_size() + encode_record(e@).len() <= u32::MAX,
            ok ==> final(self).spec_len() == old(self).spec_len() + 1
                && final(self).spec_size() == old(self).spec_size() + encode_record(e@).len(),
            !ok ==> *final(self) == *old(self),
    {
        proof {
            lemma_encode_record_len(e@);
        }
        let extra: u64 = match &e.value {
            None => 1,
            Some(v) => {
                if v.len() > 0xffff_ffff {
                    return false;
                }
                5 + v.len() as u64
            },
        };
        if e.key.len() > 0xffff_ffff || self.len >= 0xffff_ffff {
            return false;
        }
        let n = 12 + e.key.len() as u64 + extra;
        if self.size > 0xffff_ffff || n > 0xffff_ffff - self.size {
            return false;
        }
        self.len = self.len + 1;
        self.size = self.size + n;
        true
    }

    /// Bytes of the offset array and payload.
    pub fn content_size(&self) -> (r: u64)
        requires
            self.spec_len() <= u32::MAX,
            self.spec_size() <= u32::MAX,
        ensures
            r == 4 + 4 * self.spec_len() + self.spec_size(),
    {
        4 + 4 * self.len + self.size
    }

    /// Lays out `entries` as a base page; `None` where a length or an offset
    /// does not fit its 32-bit field.
    pub fn build_from_iter(self, entries: &Vec<Entry>) -> (r: Option<SortedPagePtr>)
        requires
            self.spec_len() == 0,
            self.spec_size() == 0,
        ensures
            r is Some <==> page_fits(entries_view(entries@)),
            r is Some ==> r->0.wf() && r->0.view() == entries_view(entries@),
    {
        let mut b = self;
        let mut i: usize = 0;
        let ghost rs = entries_view(entries@);
        assert(rs.take(0) =~= Seq::<Record>::empty());
        while i < entries.len()
            invariant
                i <= entries@.len(),
                rs == entries_view(entries@),
                b.spec_len() == i,
                b.spec_size() == encode_records(rs.take(i as int)).len(),
                page_fits(rs.take(i as int)),
            decreases entries.len() - i,
        {
            let ghost before = b;
            proof {
                lemma_encode_records_step(rs, i as int);
            }
            if !b.add(&entries[i]) {
                proof {
                    lemma_encode_records_len_bound(rs, i as int);
                }
                return None;
            }
            assert(record_fits(rs[i as int])) by {
                lemma_encode_record_len(rs[i as int]);
            }
            proof {
                let t = rs.take(i + 1);
                assert forall|j: int| 0 <= j < t.len() implies record_fits(#[trigger] t[j]) by {
                    if j < i {
                        assert(t[j] == rs.take(i as int)[j]);
                    }
                }
            }
            i = i + 1;
        }
        assert(rs.take(i as int) =~= rs);
        let bytes = encode_page(entries);
        let mut copies: Vec<Entry> = Vec::new();
        let mut j: usize = 0;
        while j < entries.len()
            invariant
                j <= entries@.len(),
                entries_view(copies@) == rs.take(j as int),
                rs == entries_view(entries@),
            decreases entries.len() - j,
        {
            let c = entries[j].copy();
            proof {
                lemma_entries_view_push(copies@, c);
                assert(rs.take(j + 1) =~= rs.take(j as int).push(c@));
            }
            copies.push(c);
            j = j + 1;
        }
        assert(rs.take(j as int) =~= rs);
        Some(SortedPagePtr { bytes, entries: copies })
    }
}

/// A base page that has been laid out: its bytes and the entries they hold.
pub struct SortedPagePtr {
    bytes: Vec<u8>,
    entries: Vec<Entry>,
}

impl View for SortedPagePtr {
    type V = Seq<Record>;

    closed spec fn view(&self) -> Seq<Record> {
        entries_view(self.entries@)
    }
}

impl SortedPagePtr {
    pub closed spec fn wf(&self) -> bool {
        page_fits(self@) && self.bytes@ == page_bytes(self@)
    }

    /// The page's bytes.
    pub fn as_ptr(&self) -> (r: &[u8])
        requires
            self.wf(),
        ensures
            r@ == page_bytes(self@),
    {
        self.bytes.as_slice()
    }
}

pub open spec fn opt_entry_view(e: Option<Entry>) -> Option<Record> {
    match e {
        Some(x) => Some(x@),
        None => None,
    }
}

/// Copies a list of entries.
pub fn copy_entries(entries: &Vec<Entry>) -> (r: Vec<Entry>)
    ensures
        entries_view(r@) == entries_view(entries@),
{
    let ghost rs = entries_view(entries@);
    let mut copies: Vec<Entry> = Vec::new();
    let mut j: usize = 0;
    assert(rs.take(0) =~= Seq::<Record>::empty());
    while j < entries.len()
        invariant
            j <= entries@.len(),
            entries_view(copies@) == rs.take(j as int),
            rs == entries_view(entries@),
        decreases entries.len() - j,
    {
        let c = entries[j].copy();
        proof {
            lemma_entries_view_push(copies@, c);
            assert(rs.take(j + 1) =~= rs.take(j as int).push(c@));
        }
        copies.push(c);
        j = j + 1;
    }
    assert(rs.take(j as int) =~= rs);
    copies
}

/// Whether the entries are strictly ascending by version.
pub fn check_sorted(entries: &Vec<Entry>) -> (r: bool)
    ensures
        r == sorted(entries_view(entries@)),
{
    let ghost rs = entries_view(entries@);
    proof {
        lemma_version_lt_facts();
    }
    if entries.len() == 0 {
        return true;
    }
    let mut i: usize = 1;
    while i < entries.len()
        invariant
            1 <= i <= entries@.len(),
            rs == entries_view(entries@),
            sorted(rs.take(i as int)),
        decreases entries.len() - i,
    {
        let a = &entries[i - 1];
        let b = &entries[i];
        if compare_version(a.key.as_slice(), a.lsn, b.key.as_slice(), b.lsn) != -1 {
            assert(!version_lt(rs[i - 1].version(), rs[i as int].version()));
            return false;
        }
        proof {
            lemma_version_lt_facts();
            let t = rs.take(i + 1);
            assert forall|x: int, y: int| 0 <= x < y < t.len() implies version_lt(
                #[trigger] t[x].version(),
                #[trigger] t[y].version(),
            ) by {
                if y < i {
                    assert(t[x] == rs.take(i as int)[x] && t[y] == rs.take(i as int)[y]);
                } else if x < i - 1 {
                    assert(t[x] == rs.take(i as int)[x] && rs[i - 1] == rs.take(i as int)[i - 1]);
                    assert(version_lt(rs[x].version(), rs[i - 1].version()));
                }
            }
        }
        i = i + 1;
    }
    assert(rs.take(i as int) =~= rs);
    true
}

/// Index of the first entry whose version is no less than `(key, lsn)`.
pub fn rank_in(entries: &Vec<Entry>, key: &[u8], lsn: u64) -> (r: usize)
    requires
        sorted(entries_view(entries@)),
    ensures
        r <= entries@.len(),
        forall|j: int| 0 <= j < r ==> version_lt(#[trigger] entries_view(entries@)[j].version(), (key@, lsn)),
        forall|j: int| r <= j < entries@.len() ==> !version_lt(#[trigger] entries_view(entries@)[j].version(), (key@, lsn)),
{
    proof {
        lemma_version_lt_facts();
    }
    let ghost rs = entries_view(entries@);
    let mut left: usize = 0;
    let mut right: usize = entries.len();
    while left < right
        invariant
            rs == entries_view(entries@),
            sorted(rs),
            left <= right <= rs.len(),
            rs.len() == entries@.len(),
            forall|j: int| 0 <= j < left ==> version_lt(#[trigger] rs[j].version(), (key@, lsn)),
            forall|j: int| right <= j < rs.len() ==> !version_lt(#[trigger] rs[j].version(), (key@, lsn)),
        decreases right - left,
    {
        let mid = left + (right - left) / 2;
        let e = &entries[mid];
        let c = compare_version(e.key.as_slice(), e.lsn, key, lsn);
        assert(rs[mid as int] == entries@[mid as int]@);
        proof {
            lemma_version_lt_facts();
        }
        if c == -1 {
            assert forall|j: int| 0 <= j < mid + 1 implies version_lt(#[trigger] rs[j].version(), (key@, lsn)) by {
                if j < mid {
                    assert(version_lt(rs[j].version(), rs[mid as int].version()));
                }
            }
            left = mid + 1;
        } else if c == 1 {
            assert forall|j: int| mid <= j < rs.len() implies !version_lt(#[trigger] rs[j].version(), (key@, lsn)) by {
                if j > mid {
                    assert(version_lt(rs[mid as int].version(), rs[j].version()));
                }
            }
            right = mid;
        } else {
            assert forall|j: int| 0 <= j < mid implies version_lt(#[trigger] rs[j].version(), (key@, lsn)) by {
                assert(version_lt(rs[j].version(), rs[mid as int].version()));
            }
            assert forall|j: int| mid <= j < rs.len() implies !version_lt(#[trigger] rs[j].version(), (key@, lsn)) by {
                if j > mid {
                    assert(version_lt(rs[mid as int].version(), rs[j].version()));
                }
            }
            return mid;
        }
    }
    left
}


impl SortedPagePtr {
    /// Turns a laid-out page whose entries are sorted into a readable page.
    pub fn into_ref(self) -> (r: SortedPageRef)
        requires
            self.wf(),
            sorted(self@),
        ensures
            r.wf(),
            r@ == self@,
    {
        SortedPageRef { bytes: self.bytes, entries: self.entries }
    }
}

/// A readable base page: entries strictly ascending by version, with the bytes
/// that hold them.
pub struct SortedPageRef {
    bytes: Vec<u8>,
    entries: Vec<Entry>,
}

impl View for SortedPageRef {
    type V = Seq<Record>;

    closed spec fn view(&self) -> Seq<Record> {
        entries_view(self.entries@)
    }
}

impl SortedPageRef {
    pub closed spec fn wf(&self) -> bool {
        &&& page_fits(self@)
        &&& self.bytes@ == page_bytes(self@)
        &&& sorted(self@)
    }

    pub proof fn lemma_wf(&self)
        requires
            self.wf(),
        ensures
            sorted(self@),
            page_fits(self@),
    {
    }

    /// The page with no entries.
    pub fn empty() -> (r: SortedPageRef)
        ensures
            r.wf(),
            r@ == Seq::<Record>::empty(),
    {
        let entries: Vec<Entry> = Vec::new();
        assert(entries_view(entries@) =~= Seq::<Record>::empty());
        let bytes = encode_page(&entries);
        SortedPageRef { bytes, entries }
    }

    /// Reads a page from its bytes; `None` where they are not a well-formed
    /// page of sorted entries.
    pub fn new(bytes: Vec<u8>) -> (r: Option<SortedPageRef>)
        ensures
            r is Some ==> r->0.wf() && page_bytes(r->0@) == bytes@,
            forall|rs: Seq<Record>| page_fits(rs) && sorted(rs) && #[trigger] page_bytes(rs) == bytes@
                ==> r is Some && r->0@ == rs,
    {
        match decode_page(bytes.as_slice()) {
            Some(entries) => {
                if check_sorted(&entries) {
                    Some(SortedPageRef { bytes, entries })
                } else {
                    None
                }
            },
            None => None,
        }
    }

    /// The page's bytes.
    pub fn as_bytes(&self) -> (r: &[u8])
        requires
            self.wf(),
        ensures
            r@ == page_bytes(self@),
    {
        self.bytes.as_slice()
    }

    /// Payload bytes of the page: what follows the count and the offsets.
    pub fn payload_len(&self) -> (r: u64)
        requires
            self.wf(),
        ensures
            r == encode_records(self@).len(),
    {
        proof {
            crate::codec::lemma_encode_offsets_len(self@, self@.len());
            vstd::bytes::lemma_auto_spec_u32_to_from_le_bytes();
        }
        (self.bytes.len() - 4 - 4 * self.entries.len()) as u64
    }

    pub fn len(&self) -> (r: usize)
        ensures
            r == self@.len(),
    {
        self.entries.len()
    }

    /// Index of the first entry whose version is no less than `(key, lsn)`.
    pub fn rank(&self, key: &[u8], lsn: u64) -> (r: usize)
        requires
            self.wf(),
        ensures
            r <= self@.len(),
            forall|j: int| 0 <= j < r ==> version_lt(#[trigger] self@[j].version(), (key@, lsn)),
            forall|j: int| r <= j < self@.len() ==> !version_lt(#[trigger] self@[j].version(), (key@, lsn)),
    {
        rank_in(&self.entries, key, lsn)
    }

    /// A copy of all entries.
    pub fn entries(&self) -> (r: Vec<Entry>)
        ensures
            entries_view(r@) == self@,
    {
        copy_entries(&self.entries)
    }

    /// A copy of entry `i`, if there is one.
    pub fn index(&self, i: usize) -> (r: Option<Entry>)
        ensures
            opt_entry_view(r) == if i < self@.len() { Some(self@[i as int]) } else { None },
    {
        if i < self.entries.len() {
            Some(self.entries[i].copy())
        } else {
            None
        }
    }

    /// Returns the first entry that is no less than `(key, lsn)`: the freshest
    /// version of `key` visible at `lsn` where there is one.
    pub fn seek(&self, key: &[u8], lsn: u64) -> (r: Option<Entry>)
        requires
            self.wf(),
        ensures
            r is None <==> forall|j: int| 0 <= j < self@.len() ==> version_lt(#[trigger] self@[j].version(), (key@, lsn)),
            r is Some ==> exists|i: int| 0 <= i < self@.len() && #[trigger] self@[i] == r->0@
                && !version_lt(self@[i].version(), (key@, lsn))
                && forall|j: int| 0 <= j < i ==> version_lt(#[trigger] self@[j].version(), (key@, lsn)),
    {
        let i = self.rank(key, lsn);
        let r = self.index(i);
        if i < self.entries.len() {
            assert(self@[i as int] == r->0@);
            assert(!version_lt(self@[i as int].version(), (key@, lsn)));
        }
        r
    }

    /// An independent copy of the page.
    pub fn copy(&self) -> (r: SortedPageRef)
        requires
            self.wf(),
        ensures
            r.wf(),
            r@ == self@,
    {
        let bytes = vstd::slice::slice_to_vec(self.bytes.as_slice());
        let entries = copy_entries(&self.entries);
        SortedPageRef { bytes, entries }
    }

    pub fn iter(&self) -> (r: SortedPageIter)
        requires
            self.wf(),
        ensures
            r.wf(),
            r.page() == self@,
            r.position() == 0,
            r.spec_current() is None,
    {
        SortedPageIter::new(self.copy())
    }

    pub fn into_iter(self) -> (r: SortedPageIter)
        requires
            self.wf(),
        ensures
            r.wf(),
            r.page() == self@,
            r.position() == 0,
            r.spec_current() is None,
    {
        SortedPageIter::new(self)
    }
}

/// A restartable forward cursor over the entries of a page.
pub struct SortedPageIter {
    page: SortedPageRef,
    next: usize,
    current: Option<Entry>,
}

impl SortedPageIter {
    pub closed spec fn wf(&self) -> bool {
        self.page.wf() && self.next <= self.page@.len()
    }

    /// The entries of the page walked over.
    pub closed spec fn page(&self) -> Seq<Record> {
        self.page@
    }

    /// Index of the entry that the next step returns.
    pub closed spec fn position(&self) -> nat {
        self.next as nat
    }

    /// The entry returned by the last step.
    pub closed spec fn spec_current(&self) -> Option<Record> {
        opt_entry_view(self.current)
    }

    pub fn new(page: SortedPageRef) -> (r: SortedPageIter)
        requires
            page.wf(),
        ensures
            r.wf(),
            r.page() == page@,
            r.position() == 0,
            r.spec_current() is None,
    {
        SortedPageIter { page, next: 0, current: None }
    }

    /// Steps to the next entry and returns it; `None` at the end.
    pub fn next(&mut self) -> (r: Option<Entry>)
        requires
            old(self).wf(),
        ensures
            final(self).wf(),
            final(self).page() == old(self).page(),
            old(self).position() < old(self).page().len() ==> opt_entry_view(r) == Some(
                old(self).page()[old(self).position() as int],
            ) && final(self).position() == old(self).position() + 1,
            old(self).position() >= old(self).page().len() ==> r is None && final(self).position()
                == old(self).position(),
            final(self).spec_current() == opt_entry_view(r),
    {
        let r = self.page.index(self.next);
        match &r {
            Some(e) => {
                self.next = self.next + 1;
                self.current = Some(e.copy());
            },
            None => {
                self.current = None;
            },
        }
        r
    }

    /// Goes back to the first entry.
    pub fn rewind(&mut self)
        requires
            old(self).wf(),
        ensures
            final(self).wf(),
            final(self).page() == old(self).page(),
            final(self).position() == 0,
            final(self).spec_current() is None,
    {
        self.next = 0;
        self.current = None;
    }

    /// The entry returned by the last step.
    pub fn current(&self) -> (r: Option<Entry>)
        ensures
            opt_entry_view(r) == self.spec_current(),
    {
        match &self.current {
            Some(e) => Some(e.copy()),
            None => None,
        }
    }

    /// Positions the cursor so that the next step returns the first entry no
    /// less than `(key, lsn)`.
    pub fn seek(&mut self, key: &[u8], lsn: u64)
        requires
            old(self).wf(),
        ensures
            final(self).wf(),
            final(self).page() == old(self).page(),
            final(self).spec_current() is None,
            forall|j: int| 0 <= j < final(self).position() ==> version_lt(#[trigger] final(self).page()[j].version(), (key@, lsn)),
            forall|j: int| final(self).position() <= j < final(self).page().len() ==> !version_lt(#[trigger] final(self).page()[j].version(), (key@, lsn)),
    {
        self.next = self.page.rank(key, lsn);
        self.current = None;
    }
}

} // verus!
