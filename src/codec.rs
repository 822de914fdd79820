use vstd::prelude::*;
use vstd::bytes::*;
use vstd::slice::*;

verus! {

/// One versioned record of a page: a raw key, the LSN that wrote it, and the
/// value it wrote (`None` for a tombstone).
pub struct Entry {
    pub key: Vec<u8>,
    pub lsn: u64,
    pub value: Option<Vec<u8>>,
}

/// Mathematical form of an [`Entry`].
pub ghost struct Record {
    pub key: Seq<u8>,
    pub lsn: u64,
    pub value: Option<Seq<u8>>,
}

pub open spec fn opt_bytes_view(v: Option<Vec<u8>>) -> Option<Seq<u8>> {
    match v {
        Some(b) => Some(b@),
        None => None,
    }
}

impl View for Entry {
    type V = Record;

    open spec fn view(&self) -> Record {
        Record { key: self.key@, lsn: self.lsn, value: opt_bytes_view(self.value) }
    }
}

pub open spec fn entries_view(es: Seq<Entry>) -> Seq<Record> {
    es.map_values(|e: Entry| e@)
}

impl Record {
    pub open spec fn version(self) -> (Seq<u8>, u64) {
        (self.key, self.lsn)
    }
}

impl Entry {
    pub fn copy(&self) -> (r: Entry)
        ensures
            r@ == self@,
    {
        let value = match &self.value {
            Some(v) => Some(slice_to_vec(v.as_slice())),
            None => None,
        };
        Entry { key: slice_to_vec(self.key.as_slice()), lsn: self.lsn, value }
    }
}

pub open spec fn u32le(x: u32) -> Seq<u8> {
    spec_u32_to_le_bytes(x)
}

pub open spec fn u64le(x: u64) -> Seq<u8> {
    spec_u64_to_le_bytes(x)
}

/// Length-prefixed byte string: a little-endian `u32` length, then the bytes.
pub open spec fn encode_bytes(b: Seq<u8>) -> Seq<u8> {
    u32le(b.len() as u32) + b
}

/// A record on the wire: key, LSN, then a tag byte (0 for a tombstone, 1 for a
/// value) and the value itself.
pub open spec fn encode_record(r: Record) -> Seq<u8> {
    encode_bytes(r.key) + u64le(r.lsn) + match r.value {
        None => seq![0u8],
        Some(v) => seq![1u8] + encode_bytes(v),
    }
}

pub open spec fn record_fits(r: Record) -> bool {
    &&& r.key.len() <= u32::MAX
    &&& match r.value {
        None => true,
        Some(v) => v.len() <= u32::MAX,
    }
}

pub open spec fn encode_records(rs: Seq<Record>) -> Seq<u8>
    decreases rs.len(),
{
    if rs.len() == 0 {
        Seq::empty()
    } else {
        encode_records(rs.drop_last()) + encode_record(rs.last())
    }
}

/// Offset of record `i` within the payload.
pub open spec fn record_offset(rs: Seq<Record>, i: int) -> int {
    encode_records(rs.take(i)).len() as int
}

/// The dense array of offsets of the first `n` records.
pub open spec fn encode_offsets(rs: Seq<Record>, n: nat) -> Seq<u8>
    decreases n,
{
    if n == 0 {
        Seq::empty()
    } else {
        encode_offsets(rs, (n - 1) as nat) + u32le(record_offset(rs, n - 1) as u32)
    }
}

/// Content of a base page: the record count, the offset array, the payload.
pub open spec fn page_bytes(rs: Seq<Record>) -> Seq<u8> {
    u32le(rs.len() as u32) + encode_offsets(rs, rs.len()) + encode_records(rs)
}

/// Every length and offset of the page fits in its 32-bit field.
pub open spec fn page_fits(rs: Seq<Record>) -> bool {
    &&& rs.len() <= u32::MAX
    &&& forall|i: int| 0 <= i < rs.len() ==> record_fits(#[trigger] rs[i])
    &&& encode_records(rs).len() <= u32::MAX
}

pub proof fn lemma_encode_record_len(r: Record)
    ensures
        encode_record(r).len() == 4 + r.key.len() + 8 + match r.value {
            None => 1int,
            Some(v) => 5 + v.len() as int,
        },
{
    lemma_auto_spec_u32_to_from_le_bytes();
    lemma_auto_spec_u64_to_from_le_bytes();
}

pub proof fn lemma_encode_records_prefix(rs: Seq<Record>, i: int)
    requires
        0 <= i <= rs.len(),
    ensures
        encode_records(rs.take(i)).len() <= encode_records(rs).len(),
        encode_records(rs).subrange(0, encode_records(rs.take(i)).len() as int)
            == encode_records(rs.take(i)),
    decreases rs.len(),
{
    if i == rs.len() {
        assert(rs.take(i) =~= rs);
        assert(encode_records(rs).subrange(0, encode_records(rs).len() as int) =~= encode_records(rs));
    } else {
        lemma_encode_records_prefix(rs.drop_last(), i);
        assert(rs.drop_last().take(i) =~= rs.take(i));
        let a = encode_records(rs.drop_last());
        let b = encode_record(rs.last());
        assert((a + b).subrange(0, encode_records(rs.take(i)).len() as int)
            =~= a.subrange(0, encode_records(rs.take(i)).len() as int));
    }
}

pub proof fn lemma_encode_records_step(rs: Seq<Record>, i: int)
    requires
        0 <= i < rs.len(),
    ensures
        encode_records(rs.take(i + 1)) == encode_records(rs.take(i)) + encode_record(rs[i]),
{
    assert(rs.take(i + 1).drop_last() =~= rs.take(i));
}

pub proof fn lemma_encode_offsets_len(rs: Seq<Record>, n: nat)
    ensures
        encode_offsets(rs, n).len() == 4 * n,
    decreases n,
{
    lemma_auto_spec_u32_to_from_le_bytes();
    if n > 0 {
        lemma_encode_offsets_len(rs, (n - 1) as nat);
    }
}

pub proof fn lemma_encode_offsets_at(rs: Seq<Record>, n: nat, i: int)
    requires
        0 <= i < n,
    ensures
        encode_offsets(rs, n).subrange(4 * i, 4 * i + 4) == u32le(record_offset(rs, i) as u32),
    decreases n,
{
    lemma_auto_spec_u32_to_from_le_bytes();
    lemma_encode_offsets_len(rs, (n - 1) as nat);
    let a = encode_offsets(rs, (n - 1) as nat);
    let b = u32le(record_offset(rs, n - 1) as u32);
    if i == n - 1 {
        assert((a + b).subrange(4 * i, 4 * i + 4) =~= b);
    } else {
        lemma_encode_offsets_at(rs, (n - 1) as nat, i);
        assert((a + b).subrange(4 * i, 4 * i + 4) =~= a.subrange(4 * i, 4 * i + 4));
    }
}

/// Appends `src` to `out`.
pub fn append_bytes(out: &mut Vec<u8>, src: &[u8])
    ensures
        final(out)@ == old(out)@ + src@,
{
    let mut i: usize = 0;
    while i < src.len()
        invariant
            i <= src@.len(),
            out@ == old(out)@ + src@.subrange(0, i as int),
        decreases src.len() - i,
    {
        out.push(src[i]);
        i = i + 1;
        assert(out@ =~= old(out)@ + src@.subrange(0, i as int));
    }
    assert(src@.subrange(0, i as int) =~= src@);
}

pub fn encode_bytes_to(out: &mut Vec<u8>, b: &[u8])
    requires
        b@.len() <= u32::MAX,
    ensures
        final(out)@ == old(out)@ + encode_bytes(b@),
{
    let len = u32_to_le_bytes(b.len() as u32);
    append_bytes(out, len.as_slice());
    append_bytes(out, b);
    assert(final(out)@ =~= old(out)@ + encode_bytes(b@));
}

/// Appends the wire form of `e` to `out`.
pub fn encode_entry_to(out: &mut Vec<u8>, e: &Entry)
    requires
        record_fits(e@),
    ensures
        final(out)@ == old(out)@ + encode_record(e@),
{
    let ghost start = out@;
    encode_bytes_to(out, e.key.as_slice());
    let lsn = u64_to_le_bytes(e.lsn);
    append_bytes(out, lsn.as_slice());
    match &e.value {
        None => {
            out.push(0u8);
        },
        Some(v) => {
            out.push(1u8);
            encode_bytes_to(out, v.as_slice());
        },
    }
    assert(out@ =~= start + encode_record(e@));
}

/// Reads a little-endian `u32` at `pos`, if four bytes are there.
pub fn read_u32(bytes: &[u8], pos: usize) -> (r: Option<u32>)
    ensures
        r is Some <==> pos + 4 <= bytes@.len(),
        r is Some ==> u32le(r->0) == bytes@.subrange(pos as int, pos + 4),
{
    if pos <= bytes.len() && bytes.len() - pos >= 4 {
        let x = u32_from_le_bytes(slice_subrange(bytes, pos, pos + 4));
        proof {
            lemma_auto_spec_u32_to_from_le_bytes();
        }
        Some(x)
    } else {
        None
    }
}

/// Reads a length-prefixed byte string at `pos`; returns it and the position
/// after it.
pub fn decode_bytes(bytes: &[u8], pos: usize) -> (r: Option<(Vec<u8>, usize)>)
    ensures
        r is Some ==> {
            let (b, end) = r->0;
            &&& pos <= end <= bytes@.len()
            &&& b@.len() <= u32::MAX
            &&& bytes@.subrange(pos as int, end as int) == encode_bytes(b@)
        },
        forall|b: Seq<u8>|
            b.len() <= u32::MAX && pos + encode_bytes(b).len() <= bytes@.len()
                && #[trigger] bytes@.subrange(pos as int, pos + encode_bytes(b).len())
                == encode_bytes(b) ==> r is Some && (r->0).0@ == b && (r->0).1 == pos
                + encode_bytes(b).len(),
{
    proof {
        lemma_auto_spec_u32_to_from_le_bytes();
    }
    match read_u32(bytes, pos) {
        None => {
            assert forall|b: Seq<u8>|
                b.len() <= u32::MAX && pos + encode_bytes(b).len() <= bytes@.len()
                    && #[trigger] bytes@.subrange(pos as int, pos + encode_bytes(b).len())
                    == encode_bytes(b) implies false by {}
            None
        },
        Some(len) => {
            let n = bytes.len();
            assert(pos + 4 <= n);
            let start = pos + 4;
            if (len as usize) <= bytes.len() - start {
                let end = start + len as usize;
                let b = slice_to_vec(slice_subrange(bytes, start, end));
                assert(bytes@.subrange(pos as int, end as int) =~= bytes@.subrange(pos as int, start as int) + b@);
                assert forall|b2: Seq<u8>|
                    b2.len() <= u32::MAX && pos + encode_bytes(b2).len() <= bytes@.len()
                        && #[trigger] bytes@.subrange(pos as int, pos + encode_bytes(b2).len())
                        == encode_bytes(b2) implies b@ == b2 && end == pos + encode_bytes(b2).len() by {
                    let s = bytes@.subrange(pos as int, pos + encode_bytes(b2).len());
                    assert(s.subrange(0, 4) =~= bytes@.subrange(pos as int, pos + 4));
                    assert(encode_bytes(b2).subrange(0, 4) =~= u32le(b2.len() as u32));
                    assert(b2.len() == len);
                    assert(b2 =~= encode_bytes(b2).subrange(4, 4 + b2.len() as int));
                    assert(b@ =~= s.subrange(4, 4 + b2.len() as int));
                }
                Some((b, end))
            } else {
                assert forall|b2: Seq<u8>|
                    b2.len() <= u32::MAX && pos + encode_bytes(b2).len() <= bytes@.len()
                        && #[trigger] bytes@.subrange(pos as int, pos + encode_bytes(b2).len())
                        == encode_bytes(b2) implies false by {
                    let s = bytes@.subrange(pos as int, pos + encode_bytes(b2).len());
                    assert(s.subrange(0, 4) =~= bytes@.subrange(pos as int, pos + 4));
                    assert(encode_bytes(b2).subrange(0, 4) =~= u32le(b2.len() as u32));
                }
                None
            }
        },
    }
}

/// `bytes` holds the wire form of `rec` at `pos`.
pub open spec fn record_encoded_at(bytes: Seq<u8>, pos: int, rec: Record) -> bool {
    &&& record_fits(rec)
    &&& 0 <= pos
    &&& pos + encode_record(rec).len() <= bytes.len()
    &&& bytes.subrange(pos, pos + encode_record(rec).len()) == encode_record(rec)
}

/// Reads one record at `pos`; returns it and the position after it.
pub fn decode_entry(bytes: &[u8], pos: usize) -> (r: Option<(Entry, usize)>)
    ensures
        r is Some ==> {
            let (e, end) = r->0;
            &&& pos <= end <= bytes@.len()
            &&& record_fits(e@)
            &&& bytes@.subrange(pos as int, end as int) == encode_record(e@)
        },
        forall|rec: Record| #[trigger] record_encoded_at(bytes@, pos as int, rec)
            ==> r is Some && (r->0).0@ == rec && (r->0).1 == pos + encode_record(rec).len(),
{
    proof {
        lemma_auto_spec_u32_to_from_le_bytes();
        lemma_auto_spec_u64_to_from_le_bytes();
    }
    let ghost whole = bytes@;
    // Facts about any record encoded at `pos`.
    assert forall|rec: Record| #[trigger] record_encoded_at(bytes@, pos as int, rec) implies {
            let k = encode_bytes(rec.key).len() as int;
            &&& bytes@.subrange(pos as int, pos + k) == encode_bytes(rec.key)
            &&& bytes@.subrange(pos + k, pos + k + 8) == u64le(rec.lsn)
            &&& bytes@[pos + k + 8] == (if rec.value is Some { 1u8 } else { 0u8 })
            &&& rec.value is Some ==> bytes@.subrange(pos + k + 9, pos + encode_record(rec).len())
                == encode_bytes(rec.value->0)
        } by {
        let k = encode_bytes(rec.key).len() as int;
        let s = bytes@.subrange(pos as int, pos + encode_record(rec).len());
        let tail = match rec.value {
            None => seq![0u8],
            Some(v) => seq![1u8] + encode_bytes(v),
        };
        assert(encode_record(rec) == encode_bytes(rec.key) + u64le(rec.lsn) + tail);
        assert(bytes@.subrange(pos as int, pos + k) =~= s.subrange(0, k));
        assert(s.subrange(0, k) =~= encode_bytes(rec.key));
        assert(bytes@.subrange(pos + k, pos + k + 8) =~= s.subrange(k, k + 8));
        assert(s.subrange(k, k + 8) =~= u64le(rec.lsn));
        assert(bytes@[pos + k + 8] == s[k + 8]);
        if rec.value is Some {
            assert(bytes@.subrange(pos + k + 9, pos + encode_record(rec).len()) =~= s.subrange(k + 9, s.len() as int));
            assert(s.subrange(k + 9, s.len() as int) =~= encode_bytes(rec.value->0));
        }
    }
    let (key, after_key) = match decode_bytes(bytes, pos) {
        Some(x) => x,
        None => {
            assert forall|rec: Record| #[trigger] record_encoded_at(bytes@, pos as int, rec) implies false by {
                assert(bytes@.subrange(pos as int, pos + encode_bytes(rec.key).len()) == encode_bytes(rec.key));
            }
            return None;
        },
    };
    let n = bytes.len();
    assert forall|rec: Record| #[trigger] record_encoded_at(bytes@, pos as int, rec)
        implies rec.key == key@ && after_key == pos + encode_bytes(rec.key).len() && after_key + 9 <= n by {
        assert(bytes@.subrange(pos as int, pos + encode_bytes(rec.key).len()) == encode_bytes(rec.key));
        lemma_encode_record_len(rec);
    }
    if n - after_key < 9 {
        return None;
    }
    let lsn = u64_from_le_bytes(slice_subrange(bytes, after_key, after_key + 8));
    let tag = bytes[after_key + 8];
    let after_tag = after_key + 9;
    let ghost head = bytes@.subrange(pos as int, after_key as int) + u64le(lsn);
    assert(bytes@.subrange(after_key as int, after_key + 8) == u64le(lsn));
    assert forall|rec: Record| #[trigger] record_encoded_at(bytes@, pos as int, rec)
        implies rec.lsn == lsn && (rec.value is Some <==> tag == 1) && (rec.value is None <==> tag == 0) by {
        assert(u64le(rec.lsn) == u64le(lsn));
    }
    if tag == 0 {
        let e = Entry { key, lsn, value: None };
        assert(bytes@.subrange(pos as int, after_tag as int) =~= head + seq![0u8]);
        assert forall|rec: Record| #[trigger] record_encoded_at(bytes@, pos as int, rec)
            implies e@ == rec && after_tag == pos + encode_record(rec).len() by {
            lemma_encode_record_len(rec);
        }
        Some((e, after_tag))
    } else if tag == 1 {
        match decode_bytes(bytes, after_tag) {
            Some((v, end)) => {
                let e = Entry { key, lsn, value: Some(v) };
                assert(bytes@.subrange(pos as int, end as int) =~= head + (seq![1u8] + bytes@.subrange(after_tag as int, end as int)));
                assert forall|rec: Record| #[trigger] record_encoded_at(bytes@, pos as int, rec)
                    implies e@ == rec && end == pos + encode_record(rec).len() by {
                    lemma_encode_record_len(rec);
                    let w = rec.value->0;
                    assert(bytes@.subrange(after_tag as int, after_tag + encode_bytes(w).len()) == encode_bytes(w));
                }
                Some((e, end))
            },
            None => {
                assert forall|rec: Record| #[trigger] record_encoded_at(bytes@, pos as int, rec) implies false by {
                    lemma_encode_record_len(rec);
                    let w = rec.value->0;
                    assert(bytes@.subrange(after_tag as int, after_tag + encode_bytes(w).len()) == encode_bytes(w));
                }
                None
            },
        }
    } else {
        None
    }
}

pub proof fn lemma_encode_records_len_bound(rs: Seq<Record>, i: int)
    requires
        0 <= i < rs.len(),
    ensures
        encode_records(rs.take(i)).len() + encode_record(rs[i]).len() <= encode_records(rs).len(),
{
    lemma_encode_records_prefix(rs, i + 1);
    lemma_encode_records_step(rs, i);
}

pub proof fn lemma_entries_view_push(s: Seq<Entry>, e: Entry)
    ensures
        entries_view(s.push(e)) == entries_view(s).push(e@),
{
    assert(entries_view(s.push(e)) =~= entries_view(s).push(e@));
}

pub proof fn lemma_encode_offsets_agree(a: Seq<Record>, b: Seq<Record>, n: nat)
    requires
        n <= a.len(),
        n <= b.len(),
        a.take(n as int) == b.take(n as int),
    ensures
        encode_offsets(a, n) == encode_offsets(b, n),
    decreases n,
{
    if n > 0 {
        assert(a.take(n - 1) =~= a.take(n as int).take(n - 1));
        assert(b.take(n - 1) =~= b.take(n as int).take(n - 1));
        lemma_encode_offsets_agree(a, b, (n - 1) as nat);
    }
}

/// Lays out `entries` as the content of a base page.
pub fn encode_page(entries: &Vec<Entry>) -> (r: Vec<u8>)
    requires
        page_fits(entries_view(entries@)),
    ensures
        r@ == page_bytes(entries_view(entries@)),
{
    let ghost rs = entries_view(entries@);
    proof {
        lemma_auto_spec_u32_to_from_le_bytes();
    }
    let mut payload: Vec<u8> = Vec::new();
    let mut offsets: Vec<u8> = Vec::new();
    let mut i: usize = 0;
    assert(rs.take(0) =~= Seq::<Record>::empty());
    while i < entries.len()
        invariant
            i <= entries@.len(),
            rs == entries_view(entries@),
            page_fits(rs),
            payload@ == encode_records(rs.take(i as int)),
            offsets@ == encode_offsets(rs, i as nat),
        decreases entries.len() - i,
    {
        proof {
            lemma_encode_records_prefix(rs, i as int);
            lemma_encode_records_step(rs, i as int);
        }
        let off = u32_to_le_bytes(payload.len() as u32);
        append_bytes(&mut offsets, off.as_slice());
        assert(record_fits(rs[i as int]));
        encode_entry_to(&mut payload, &entries[i]);
        i = i + 1;
    }
    assert(rs.take(i as int) =~= rs);
    let mut out = u32_to_le_bytes(entries.len() as u32);
    append_bytes(&mut out, offsets.as_slice());
    append_bytes(&mut out, payload.as_slice());
    out
}

/// Reads the content of a base page back into its entries; `None` where the
/// bytes are not a well-formed page.
pub fn decode_page(bytes: &[u8]) -> (r: Option<Vec<Entry>>)
    ensures
        r is Some ==> page_fits(entries_view(r->0@)) && page_bytes(entries_view(r->0@)) == bytes@,
        forall|rs: Seq<Record>| page_fits(rs) && #[trigger] page_bytes(rs) == bytes@
            ==> r is Some && entries_view(r->0@) == rs,
{
    proof {
        lemma_auto_spec_u32_to_from_le_bytes();
    }
    let n = bytes.len();
    let count = match read_u32(bytes, 0) {
        Some(c) => c as usize,
        None => {
            assert forall|rs: Seq<Record>| page_fits(rs) && #[trigger] page_bytes(rs) == bytes@ implies false by {
                lemma_encode_offsets_len(rs, rs.len());
            }
            return None;
        },
    };
    assert forall|rs: Seq<Record>| page_fits(rs) && #[trigger] page_bytes(rs) == bytes@
        implies rs.len() == count && 4 + 4 * count <= n && n - (4 + 4 * count) == encode_records(rs).len() by {
        lemma_encode_offsets_len(rs, rs.len());
        assert(bytes@.subrange(0, 4) =~= u32le(rs.len() as u32));
    }
    if count > (n - 4) / 4 {
        return None;
    }
    let start = 4 + 4 * count;
    if n - start > 0xffff_ffff {
        return None;
    }
    let mut out: Vec<Entry> = Vec::new();
    let mut pos = start;
    let mut i: usize = 0;
    assert(bytes@.subrange(start as int, pos as int) =~= Seq::<u8>::empty());
    assert(bytes@.subrange(4, 4) =~= Seq::<u8>::empty());
    assert forall|rs: Seq<Record>| page_fits(rs) && #[trigger] page_bytes(rs) == bytes@
        implies entries_view(out@) == rs.take(0) && pos == start + record_offset(rs, 0) by {
        assert(rs.take(0) =~= Seq::<Record>::empty());
        assert(entries_view(out@) =~= Seq::<Record>::empty());
    }
    while i < count
        invariant
            n == bytes@.len(),
            i <= count,
            start == 4 + 4 * count,
            start <= pos <= n,
            n - start <= u32::MAX,
            out@.len() == i,
            bytes@.subrange(0, 4) == u32le(count as u32),
            count <= u32::MAX,
            bytes@.subrange(4, 4 + 4 * i) == encode_offsets(entries_view(out@), i as nat),
            bytes@.subrange(start as int, pos as int) == encode_records(entries_view(out@)),
            forall|j: int| 0 <= j < i ==> record_fits(#[trigger] entries_view(out@)[j]),
            forall|rs: Seq<Record>| page_fits(rs) && #[trigger] page_bytes(rs) == bytes@
                ==> rs.len() == count && entries_view(out@) == rs.take(i as int) && pos == start
                + record_offset(rs, i as int),
        decreases count - i,
    {
        let ghost v = entries_view(out@);
        proof {
            lemma_auto_spec_u32_to_from_le_bytes();
        }
        let slot = read_u32(bytes, 4 + 4 * i);
        let off = match slot {
            Some(o) => o,
            None => {
                return None;
            },
        };
        proof {
            assert forall|rs: Seq<Record>| page_fits(rs) && #[trigger] page_bytes(rs) == bytes@
                implies off == pos - start && record_encoded_at(bytes@, pos as int, rs[i as int]) by {
                lemma_encode_offsets_len(rs, rs.len());
                lemma_encode_offsets_at(rs, rs.len(), i as int);
                let os = encode_offsets(rs, rs.len());
                assert(bytes@ == u32le(rs.len() as u32) + os + encode_records(rs));
                assert(bytes@.subrange(4 + 4 * i, 4 + 4 * i + 4) =~= os.subrange(4 * i, 4 * i + 4));
                assert(u32le(off) == u32le(record_offset(rs, i as int) as u32));
                lemma_auto_spec_u32_to_from_le_bytes();
                assert(off == record_offset(rs, i as int) as u32);
                assert(off == pos - start);
                lemma_encode_records_prefix(rs, i as int);
                lemma_encode_records_prefix(rs, i + 1);
                lemma_encode_records_step(rs, i as int);
                let er = encode_records(rs);
                let a = encode_records(rs.take(i as int));
                let b = encode_record(rs[i as int]);
                assert(bytes@.subrange(start as int, n as int) =~= er);
                assert(er.subrange(0, (a + b).len() as int) == a + b);
                assert(bytes@.subrange(pos as int, pos + b.len()) =~= er.subrange(a.len() as int, (a + b).len() as int));
                assert((a + b).subrange(a.len() as int, (a + b).len() as int) =~= b);
                lemma_encode_records_len_bound(rs, i as int);
                assert(bytes@.subrange(pos as int, pos + b.len()) == b);
                assert(record_fits(rs[i as int]));
            }
        }
        if off as usize != pos - start {
            return None;
        }
        let (e, end) = match decode_entry(bytes, pos) {
            Some(x) => x,
            None => {
                return None;
            },
        };
        proof {
            lemma_entries_view_push(out@, e);
            let v2 = v.push(e@);
            assert(v2.take(i as int) =~= v);
            assert(v.take(i as int) =~= v);
            lemma_encode_offsets_agree(v2, v, i as nat);
            assert(v2.take(i as int + 1) =~= v2);
            assert(bytes@.subrange(4, 4 + 4 * (i + 1)) =~= bytes@.subrange(4, 4 + 4 * i) + bytes@.subrange(4 + 4 * i, 4 + 4 * i + 4));
            assert(encode_records(v2) == encode_records(v) + encode_record(e@)) by {
                assert(v2.drop_last() =~= v);
            }
            assert(bytes@.subrange(start as int, end as int) =~= bytes@.subrange(start as int, pos as int) + bytes@.subrange(pos as int, end as int));
            assert forall|rs: Seq<Record>| page_fits(rs) && #[trigger] page_bytes(rs) == bytes@
                implies v2 == rs.take(i + 1) && end == start + record_offset(rs, i + 1) by {
                lemma_encode_records_step(rs, i as int);
                assert(rs.take(i + 1) =~= rs.take(i as int).push(rs[i as int]));
            }
        }
        out.push(e);
        pos = end;
        i = i + 1;
    }
    assert forall|rs: Seq<Record>| page_fits(rs) && #[trigger] page_bytes(rs) == bytes@
        implies pos == n by {
        assert(rs.take(count as int) =~= rs);
    }
    if pos != n {
        return None;
    }
    proof {
        let v = entries_view(out@);
        assert(bytes@ =~= bytes@.subrange(0, 4) + bytes@.subrange(4, start as int) + bytes@.subrange(start as int, n as int));
        assert forall|rs: Seq<Record>| page_fits(rs) && #[trigger] page_bytes(rs) == bytes@
            implies v == rs by {
            assert(rs.take(count as int) =~= rs);
        }
    }
    Some(out)
}

} // verus!

verus! {

/// Two fitting records whose wire forms start two equal byte strings are equal,
/// and so are the bytes that follow them.
pub proof fn lemma_record_prefix_unique(r1: Record, r2: Record, s1: Seq<u8>, s2: Seq<u8>)
    requires
        record_fits(r1),
        record_fits(r2),
        encode_record(r1) + s1 == encode_record(r2) + s2,
    ensures
        r1 == r2,
        s1 == s2,
{
    lemma_auto_spec_u32_to_from_le_bytes();
    lemma_auto_spec_u64_to_from_le_bytes();
    let w = encode_record(r1) + s1;
    let t1 = match r1.value {
        None => seq![0u8],
        Some(v) => seq![1u8] + encode_bytes(v),
    };
    let t2 = match r2.value {
        None => seq![0u8],
        Some(v) => seq![1u8] + encode_bytes(v),
    };
    assert(encode_record(r1) == encode_bytes(r1.key) + u64le(r1.lsn) + t1);
    assert(encode_record(r2) == encode_bytes(r2.key) + u64le(r2.lsn) + t2);
    lemma_encode_record_len(r1);
    lemma_encode_record_len(r2);
    assert(w.subrange(0, 4) =~= u32le(r1.key.len() as u32));
    assert(w.subrange(0, 4) =~= u32le(r2.key.len() as u32));
    let k: int = 4 + r1.key.len() as int;
    assert(r1.key.len() == r2.key.len());
    assert(w.subrange(4, k) =~= r1.key);
    assert(w.subrange(4, k) =~= r2.key);
    assert(w.subrange(k, k + 8) =~= u64le(r1.lsn));
    assert(w.subrange(k, k + 8) =~= u64le(r2.lsn));
    assert(r1.lsn == r2.lsn);
    assert(w[k + 8] == t1[0]);
    assert(w[k + 8] == t2[0]);
    if r1.value is Some {
        let v1 = r1.value->0;
        let v2 = r2.value->0;
        assert(w.subrange(k + 9, k + 13) =~= u32le(v1.len() as u32));
        assert(w.subrange(k + 9, k + 13) =~= u32le(v2.len() as u32));
        assert(v1.len() == v2.len());
        assert(w.subrange(k + 13, k + 13 + v1.len() as int) =~= v1);
        assert(w.subrange(k + 13, k + 13 + v1.len() as int) =~= v2);
    }
    assert(encode_record(r1) == encode_record(r2));
    let n = encode_record(r1).len() as int;
    assert(s1 =~= w.subrange(n, w.len() as int));
    assert(s2 =~= w.subrange(n, w.len() as int));
}

pub proof fn lemma_encode_records_front(rs: Seq<Record>)
    requires
        rs.len() > 0,
    ensures
        encode_records(rs) == encode_record(rs[0]) + encode_records(rs.drop_first()),
    decreases rs.len(),
{
    if rs.len() == 1 {
        assert(rs.drop_last() =~= Seq::<Record>::empty());
        assert(rs.drop_first() =~= Seq::<Record>::empty());
        assert(encode_records(Seq::<Record>::empty()) == Seq::<u8>::empty());
        assert(encode_records(rs) =~= encode_record(rs[0]) + encode_records(rs.drop_first()));
    } else {
        lemma_encode_records_front(rs.drop_last());
        assert(rs.drop_last().drop_first() =~= rs.drop_first().drop_last());
        assert(rs.drop_first().last() == rs.last());
        assert(rs.drop_last()[0] == rs[0]);
        assert(encode_records(rs) =~= encode_record(rs[0]) + encode_records(rs.drop_first()));
    }
}

pub proof fn lemma_encode_records_unique(a: Seq<Record>, b: Seq<Record>)
    requires
        forall|i: int| 0 <= i < a.len() ==> record_fits(#[trigger] a[i]),
        forall|i: int| 0 <= i < b.len() ==> record_fits(#[trigger] b[i]),
        encode_records(a) == encode_records(b),
    ensures
        a == b,
    decreases a.len(),
{
    if a.len() == 0 && b.len() == 0 {
        assert(a =~= b);
    } else if a.len() == 0 {
        lemma_encode_records_front(b);
        lemma_encode_record_len(b[0]);
    } else if b.len() == 0 {
        lemma_encode_records_front(a);
        lemma_encode_record_len(a[0]);
    } else {
        lemma_encode_records_front(a);
        lemma_encode_records_front(b);
        assert(record_fits(a[0]) && record_fits(b[0]));
        lemma_record_prefix_unique(a[0], b[0], encode_records(a.drop_first()), encode_records(b.drop_first()));
        assert forall|i: int| 0 <= i < a.drop_first().len() implies record_fits(#[trigger] a.drop_first()[i]) by {
            assert(a.drop_first()[i] == a[i + 1]);
        }
        assert forall|i: int| 0 <= i < b.drop_first().len() implies record_fits(#[trigger] b.drop_first()[i]) by {
            assert(b.drop_first()[i] == b[i + 1]);
        }
        lemma_encode_records_unique(a.drop_first(), b.drop_first());
        assert(a =~= seq![a[0]] + a.drop_first());
        assert(b =~= seq![b[0]] + b.drop_first());
    }
}

/// Round trip of a base page: the bytes that [`encode_page`] lays out for
/// fitting entries are those of no other fitting entries, so decoding them
/// ([`decode_page`]) gives back the same entries.
pub proof fn lemma_page_round_trip(a: Seq<Record>, b: Seq<Record>)
    requires
        page_fits(a),
        page_fits(b),
        page_bytes(a) == page_bytes(b),
    ensures
        a == b,
{
    lemma_auto_spec_u32_to_from_le_bytes();
    lemma_encode_offsets_len(a, a.len());
    lemma_encode_offsets_len(b, b.len());
    let w = page_bytes(a);
    assert(w.subrange(0, 4) =~= u32le(a.len() as u32));
    assert(w.subrange(0, 4) =~= u32le(b.len() as u32));
    assert(a.len() == b.len());
    let s: int = 4 + 4 * a.len() as int;
    assert(w.subrange(s, w.len() as int) =~= encode_records(a));
    assert(page_bytes(b).subrange(s, w.len() as int) =~= encode_records(b));
    lemma_encode_records_unique(a, b);
}

} // verus!
