use vstd::prelude::*;
use crate::codec::{encode_record, entries_view, lemma_encode_record_len, Entry, Record};
use crate::key::{bytes_lt, compare_bytes, lemma_version_lt_facts, version_lt};
use crate::node::{
    first_of_key, is_latest, lemma_first_is_latest, lemma_first_precedes, lemma_latest_is_first,
    lemma_read_at, read, versions, Node, Version,
};
use crate::route::{ascending, lemma_lt_le, lemma_route_in_range, lemma_route_split, route, route_exec};
use crate::sorted_page::sorted;

verus! {

/// Tunables, fixed when a table is opened.
pub struct Options {
    /// Bytes that the table's pages may take.
    pub cache_size: usize,
    /// Size threshold of a leaf's base page.
    pub data_node_size: usize,
    /// Chain length past which a leaf is consolidated.
    pub data_delta_length: usize,
    /// Size threshold of an index node's base page.
    pub index_node_size: usize,
    /// Chain length past which an index node is consolidated.
    pub index_delta_length: usize,
}

impl Options {
    pub fn default() -> (r: Options)
        ensures
            r.cache_size == usize::MAX,
            r.data_node_size == 8192,
            r.data_delta_length == 8,
            r.index_node_size == 4096,
            r.index_delta_length == 4,
    {
        Options {
            cache_size: usize::MAX,
            data_node_size: 8192,
            data_delta_length: 8,
            index_node_size: 4096,
            index_delta_length: 4,
        }
    }
}

/// Why an operation failed.
#[derive(Debug, PartialEq, Eq, Structural, Clone, Copy)]
pub enum Error {
    /// The pages would outgrow the memory they may take.
    OutOfMemory,
    /// Page bytes are not a well-formed page.
    Corrupted,
    /// The page store failed.
    Io,
    /// No page identifier is left.
    Exhausted,
    /// An argument is outside what a page can hold.
    InvalidArgument,
}

/// Counters of a table.
#[derive(Debug, Clone, Copy)]
pub struct Stats {
    /// Successful writes of a value.
    pub num_puts: u64,
    /// Successful writes of a tombstone.
    pub num_deletes: u64,
    /// Chains folded into a new base page.
    pub num_consolidations: u64,
    /// Leaves split in two.
    pub num_splits: u64,
}

/// Counts one more event, stopping at the largest count.
pub fn bump(n: u64) -> (r: u64)
    ensures
        r == if n == u64::MAX { n } else { (n + 1) as u64 },
{
    if n == u64::MAX {
        n
    } else {
        n + 1
    }
}

/// Bytes that a record of `key` holding `value` takes in a page.
pub open spec fn record_size(key: Seq<u8>, lsn: u64, value: Option<Seq<u8>>) -> nat {
    encode_record(Record { key, lsn, value }).len()
}

/// An ordered key-value table over byte strings, versioned by LSN.
pub struct Table {
    opts: Options,
    /// Leaves in key order.
    leaves: Vec<Node>,
    /// `bounds[i]` separates leaf `i` from leaf `i + 1`: the least key of the latter.
    bounds: Vec<Vec<u8>>,
    /// Page bytes that the leaves take.
    used: u64,
    stats: Stats,
}

pub open spec fn bounds_view(bounds: Seq<Vec<u8>>) -> Seq<Seq<u8>> {
    bounds.map_values(|v: Vec<u8>| v@)
}

/// The versions held by leaves that `b` separates: each version is looked up
/// in the leaf that its key routes to.
pub open spec fn tree_versions(leaves: Seq<Node>, b: Seq<Seq<u8>>) -> Map<Version, Option<Seq<u8>>> {
    Map::new(
        |v: Version| 0 <= route(b, v.0) < leaves.len() && leaves[route(b, v.0)].spec_versions().contains_key(v),
        |v: Version| leaves[route(b, v.0)].spec_versions()[v],
    )
}

/// Every leaf holds only versions of keys that route to it.
pub open spec fn leaves_routed(leaves: Seq<Node>, b: Seq<Seq<u8>>) -> bool {
    forall|i: int, v: Version| 0 <= i < leaves.len() && #[trigger] leaves[i].spec_versions().contains_key(v)
        ==> route(b, v.0) == i
}

pub open spec fn sum_footprint(leaves: Seq<Node>) -> nat
    decreases leaves.len(),
{
    if leaves.len() == 0 {
        0
    } else {
        sum_footprint(leaves.drop_last()) + leaves.last().footprint()
    }
}

pub proof fn lemma_sum_update(leaves: Seq<Node>, i: int, n: Node)
    requires
        0 <= i < leaves.len(),
    ensures
        sum_footprint(leaves.update(i, n)) + leaves[i].footprint() == sum_footprint(leaves) + n.footprint(),
        leaves[i].footprint() <= sum_footprint(leaves),
    decreases leaves.len(),
{
    let u = leaves.update(i, n);
    if i < leaves.len() - 1 {
        assert(u.drop_last() =~= leaves.drop_last().update(i, n));
        lemma_sum_update(leaves.drop_last(), i, n);
    } else {
        assert(u.drop_last() =~= leaves.drop_last());
    }
}

pub proof fn lemma_sum_insert(leaves: Seq<Node>, i: int, n: Node)
    requires
        0 <= i <= leaves.len(),
    ensures
        sum_footprint(leaves.insert(i, n)) == sum_footprint(leaves) + n.footprint(),
    decreases leaves.len(),
{
    let u = leaves.insert(i, n);
    if i < leaves.len() {
        assert(u.drop_last() =~= leaves.drop_last().insert(i, n));
        lemma_sum_insert(leaves.drop_last(), i, n);
    } else {
        assert(u.drop_last() =~= leaves);
    }
}

/// Replacing leaf `i` by a node of the same versions plus `(v, val)`, for a
/// version `v` routed to leaf `i`, adds `(v, val)` to the tree.
pub proof fn lemma_replace_leaf(leaves: Seq<Node>, b: Seq<Seq<u8>>, i: int, n: Node, v: Version, val: Option<Seq<u8>>)
    requires
        0 <= i < leaves.len(),
        leaves_routed(leaves, b),
        route(b, v.0) == i,
        n.spec_versions() == leaves[i].spec_versions().insert(v, val),
    ensures
        leaves_routed(leaves.update(i, n), b),
        tree_versions(leaves.update(i, n), b) == tree_versions(leaves, b).insert(v, val),
{
    let u = leaves.update(i, n);
    assert forall|j: int, w: Version| 0 <= j < u.len() && #[trigger] u[j].spec_versions().contains_key(w)
        implies route(b, w.0) == j by {
        if j != i {
            assert(u[j] == leaves[j]);
        } else if w != v {
            assert(leaves[i].spec_versions().contains_key(w));
        }
    }
    assert(tree_versions(u, b) =~= tree_versions(leaves, b).insert(v, val));
}

/// Splitting leaf `i` into `l` and `r` at `sep` keeps the tree's versions.
pub proof fn lemma_split_leaf(leaves: Seq<Node>, b: Seq<Seq<u8>>, i: int, n: Node, l: Node, sep: Seq<u8>, r: Node)
    requires
        leaves.len() == b.len() + 1,
        ascending(b),
        0 <= i < leaves.len(),
        leaves_routed(leaves, b),
        leaves[i] == n,
        forall|w: Version| #[trigger] l.spec_versions().contains_key(w)
            <==> n.spec_versions().contains_key(w) && bytes_lt(w.0, sep),
        forall|w: Version| #[trigger] r.spec_versions().contains_key(w)
            <==> n.spec_versions().contains_key(w) && !bytes_lt(w.0, sep),
        forall|w: Version| #[trigger] l.spec_versions().contains_key(w)
            ==> l.spec_versions()[w] == n.spec_versions()[w],
        forall|w: Version| #[trigger] r.spec_versions().contains_key(w)
            ==> r.spec_versions()[w] == n.spec_versions()[w],
        exists|w: Version| #[trigger] l.spec_versions().contains_key(w),
        exists|w: Version| #[trigger] r.spec_versions().contains_key(w) && w.0 == sep,
    ensures
        ascending(b.insert(i, sep)),
        leaves_routed(leaves.update(i, l).insert(i + 1, r), b.insert(i, sep)),
        tree_versions(leaves.update(i, l).insert(i + 1, r), b.insert(i, sep)) == tree_versions(leaves, b),
{
    let b2 = b.insert(i, sep);
    let u = leaves.update(i, l).insert(i + 1, r);
    let wl = choose|w: Version| #[trigger] l.spec_versions().contains_key(w);
    let wr = choose|w: Version| #[trigger] r.spec_versions().contains_key(w) && w.0 == sep;
    assert(n.spec_versions().contains_key(wl));
    assert(n.spec_versions().contains_key(wr));
    assert(leaves[i].spec_versions().contains_key(wl));
    assert(leaves[i].spec_versions().contains_key(wr));
    lemma_route_in_range(b, wl.0);
    lemma_route_in_range(b, sep);
    if i > 0 {
        // b[i - 1] <= wl.0 < sep
        crate::key::lemma_bytes_lt_total(b[i - 1], wl.0);
        if bytes_lt(b[i - 1], wl.0) {
            crate::key::lemma_bytes_lt_transitive(b[i - 1], wl.0, sep);
        }
    }
    assert forall|k: Seq<u8>| true implies route(b2, k) == if route(b, k) < i {
        route(b, k)
    } else if route(b, k) > i {
        route(b, k) + 1
    } else if bytes_lt(k, sep) {
        i
    } else {
        i + 1
    } by {
        lemma_route_split(b, i, sep, k);
    }
    lemma_route_split(b, i, sep, sep);
    assert forall|j: int, w: Version| 0 <= j < u.len() && #[trigger] u[j].spec_versions().contains_key(w)
        implies route(b2, w.0) == j by {
        lemma_route_split(b, i, sep, w.0);
        if j < i {
            assert(u[j] == leaves[j]);
        } else if j == i {
            assert(u[j] == l);
            assert(leaves[i].spec_versions().contains_key(w));
        } else if j == i + 1 {
            assert(u[j] == r);
            assert(leaves[i].spec_versions().contains_key(w));
        } else {
            assert(u[j] == leaves[j - 1]);
        }
    }
    assert forall|w: Version| #[trigger] tree_versions(u, b2).contains_key(w) <==> tree_versions(leaves, b).contains_key(w) by {
        lemma_route_split(b, i, sep, w.0);
        lemma_route_in_range(b, w.0);
        let j = route(b, w.0);
        if j < i {
            assert(u[j] == leaves[j]);
        } else if j > i {
            assert(u[j + 1] == leaves[j]);
        } else if bytes_lt(w.0, sep) {
            assert(u[i] == l);
        } else {
            assert(u[i + 1] == r);
        }
    }
    assert forall|w: Version| #[trigger] tree_versions(u, b2).contains_key(w) implies tree_versions(u, b2)[w] == tree_versions(leaves, b)[w] by {
        lemma_route_split(b, i, sep, w.0);
        lemma_route_in_range(b, w.0);
        let j = route(b, w.0);
        if j < i {
            assert(u[j] == leaves[j]);
        } else if j > i {
            assert(u[j + 1] == leaves[j]);
        } else if bytes_lt(w.0, sep) {
            assert(u[i] == l);
        } else {
            assert(u[i + 1] == r);
        }
    }
    assert(tree_versions(u, b2) =~= tree_versions(leaves, b));
}

/// The table's iterator: the live keys in ascending order, each with its
/// freshest value.
pub struct TableIter {
    items: Vec<(Vec<u8>, Vec<u8>)>,
    next: usize,
}

pub open spec fn item_view(item: (Vec<u8>, Vec<u8>)) -> (Seq<u8>, Seq<u8>) {
    (item.0@, item.1@)
}

pub open spec fn items_view(items: Seq<(Vec<u8>, Vec<u8>)>) -> Seq<(Seq<u8>, Seq<u8>)> {
    items.map_values(|i: (Vec<u8>, Vec<u8>)| item_view(i))
}

/// `items` lists, in strictly ascending key order, exactly the keys that a read
/// at the largest LSN finds in `m`, each with the value it finds.
pub open spec fn lists_live(m: Map<Version, Option<Seq<u8>>>, items: Seq<(Seq<u8>, Seq<u8>)>) -> bool {
    &&& forall|a: int, b: int| 0 <= a < b < items.len() ==> bytes_lt(#[trigger] items[a].0, #[trigger] items[b].0)
    &&& forall|a: int| 0 <= a < items.len() ==> read(m, #[trigger] items[a].0, u64::MAX) == Some(items[a].1)
    &&& forall|k: Seq<u8>| #[trigger] read(m, k, u64::MAX) is Some
        ==> exists|a: int| 0 <= a < items.len() && items[a] == (k, read(m, k, u64::MAX)->0)
}

/// The live keys of a node in ascending order, each with its freshest value.
pub fn live_items(node: &Node) -> (r: Vec<(Vec<u8>, Vec<u8>)>)
    requires
        node.wf(),
    ensures
        lists_live(node.spec_versions(), items_view(r@)),
{
    let merged = node.merge();
    let ghost rs = entries_view(merged@);
    let mut items: Vec<(Vec<u8>, Vec<u8>)> = Vec::new();
    let ghost mut idx: Seq<int> = Seq::empty();
    let mut j: usize = 0;
    while j < merged.len()
        invariant
            j <= rs.len(),
            rs == entries_view(merged@),
            sorted(rs),
            idx.len() == items@.len(),
            forall|a: int, b: int| 0 <= a < b < idx.len() ==> #[trigger] idx[a] < #[trigger] idx[b],
            forall|a: int| 0 <= a < idx.len() ==> {
                let i = #[trigger] idx[a];
                &&& 0 <= i < j
                &&& first_of_key(rs, i)
                &&& rs[i].key == items_view(items@)[a].0
                &&& rs[i].value == Some(items_view(items@)[a].1)
            },
            forall|i: int| 0 <= i < j && first_of_key(rs, i) && #[trigger] rs[i].value is Some
                ==> exists|a: int| 0 <= a < items@.len() && #[trigger] items_view(items@)[a] == (rs[i].key, rs[i].value->0),
        decreases merged.len() - j,
    {
        let e = &merged[j];
        assert(rs[j as int] == e@);
        let first = j == 0 || compare_bytes(merged[j - 1].key.as_slice(), e.key.as_slice()) != 0;
        assert(first == first_of_key(rs, j as int));
        if first {
            match &e.value {
                Some(v) => {
                    let item = (vstd::slice::slice_to_vec(e.key.as_slice()), vstd::slice::slice_to_vec(v.as_slice()));
                    let ghost old_items = items_view(items@);
                    items.push(item);
                    proof {
                        let iv = items_view(items@);
                        assert(iv =~= old_items.push(item_view(item)));
                        idx = idx.push(j as int);
                        assert forall|i: int| 0 <= i < j + 1 && first_of_key(rs, i) && #[trigger] rs[i].value is Some
                            implies exists|a: int| 0 <= a < items@.len() && #[trigger] items_view(items@)[a] == (rs[i].key, rs[i].value->0) by {
                            if i < j {
                                let a = choose|a: int| 0 <= a < old_items.len() && #[trigger] old_items[a] == (rs[i].key, rs[i].value->0);
                                assert(iv[a] == old_items[a]);
                            } else {
                                assert(iv[old_items.len() as int] == (rs[i].key, rs[i].value->0));
                            }
                        }
                    }
                },
                None => {},
            }
        }
        j = j + 1;
    }
    proof {
        let iv = items_view(items@);
        let m = versions(rs);
        assert forall|a: int, b: int| 0 <= a < b < iv.len() implies bytes_lt(#[trigger] iv[a].0, #[trigger] iv[b].0) by {
            let i = idx[a];
            let i2 = idx[b];
            lemma_version_lt_facts();
            assert(version_lt(rs[i].version(), rs[i2].version()));
            if rs[i].key == rs[i2].key {
                lemma_first_precedes(rs, i2, i);
            }
        }
        assert forall|a: int| 0 <= a < iv.len() implies read(m, #[trigger] iv[a].0, u64::MAX) == Some(iv[a].1) by {
            lemma_first_is_latest(rs, idx[a]);
        }
        assert forall|k: Seq<u8>| #[trigger] read(m, k, u64::MAX) is Some
            implies exists|a: int| 0 <= a < iv.len() && iv[a] == (k, read(m, k, u64::MAX)->0) by {
            let i = lemma_latest_is_first(rs, k);
            assert(rs[i].value is Some);
        }
    }
    items
}

impl TableIter {
    /// The items, in order.
    pub closed spec fn items(&self) -> Seq<(Seq<u8>, Seq<u8>)> {
        items_view(self.items@)
    }

    /// Index of the item that the next step returns.
    pub closed spec fn position(&self) -> nat {
        self.next as nat
    }

    /// Steps to the next item and returns it; `None` at the end.
    pub fn next(&mut self) -> (r: Option<(Vec<u8>, Vec<u8>)>)
        ensures
            final(self).items() == old(self).items(),
            old(self).position() < old(self).items().len() ==> r is Some && item_view(r->0)
                == old(self).items()[old(self).position() as int] && final(self).position()
                == old(self).position() + 1,
            old(self).position() >= old(self).items().len() ==> r is None && final(self).position()
                == old(self).position(),
    {
        if self.next < self.items.len() {
            let item = &self.items[self.next];
            let k = vstd::slice::slice_to_vec(item.0.as_slice());
            let v = vstd::slice::slice_to_vec(item.1.as_slice());
            assert(items_view(self.items@)[self.next as int] == item_view(*item));
            self.next = self.next + 1;
            Some((k, v))
        } else {
            None
        }
    }

    /// Goes back to the first item.
    pub fn rewind(&mut self)
        ensures
            final(self).items() == old(self).items(),
            final(self).position() == 0,
    {
        self.next = 0;
    }
}

/// Two maps that agree on every version of `k` give the same read of `k`.
pub proof fn lemma_read_same(m1: Map<Version, Option<Seq<u8>>>, m2: Map<Version, Option<Seq<u8>>>, k: Seq<u8>, lsn: u64)
    requires
        forall|l: u64| #[trigger] m1.contains_key((k, l)) <==> m2.contains_key((k, l)),
        forall|l: u64| #[trigger] m1.contains_key((k, l)) ==> m1[(k, l)] == m2[(k, l)],
    ensures
        read(m1, k, lsn) == read(m2, k, lsn),
{
    if exists|l: u64| is_latest(m1, k, lsn, l) {
        let l = choose|l: u64| is_latest(m1, k, lsn, l);
        assert forall|l2: u64| #[trigger] m2.contains_key((k, l2)) && l2 <= lsn implies l2 <= l by {
            assert(m1.contains_key((k, l2)));
        }
        assert(is_latest(m2, k, lsn, l));
        lemma_read_at(m1, k, lsn, l);
        lemma_read_at(m2, k, lsn, l);
    } else {
        assert forall|l: u64| !is_latest(m2, k, lsn, l) by {
            if is_latest(m2, k, lsn, l) {
                assert forall|l2: u64| #[trigger] m1.contains_key((k, l2)) && l2 <= lsn implies l2 <= l by {
                    assert(m2.contains_key((k, l2)));
                }
                assert(is_latest(m1, k, lsn, l));
            }
        }
    }
}

impl Table {
    /// The versions that the table holds: a value, or `None` for a tombstone.
    pub closed spec fn view(&self) -> Map<Version, Option<Seq<u8>>> {
        tree_versions(self.leaves@, bounds_view(self.bounds@))
    }

    /// Page bytes that the table's records take.
    pub closed spec fn footprint(&self) -> nat {
        sum_footprint(self.leaves@)
    }

    /// No leaf has more than `n` deltas over its base page.
    pub closed spec fn chains_within(&self, n: nat) -> bool {
        forall|i: int| 0 <= i < self.leaves@.len() ==> #[trigger] self.leaves@[i].chain@.len() <= n
    }

    /// Number of leaves.
    pub closed spec fn num_leaves(&self) -> nat {
        self.leaves@.len()
    }

    pub closed spec fn spec_stats(&self) -> Stats {
        self.stats
    }

    pub closed spec fn options(&self) -> Options {
        self.opts
    }

    /// Bytes that the pages may take: the cache size, and no more than a
    /// 32-bit offset reaches.
    pub open spec fn capacity(&self) -> nat {
        if self.options().cache_size < u32::MAX {
            self.options().cache_size as nat
        } else {
            u32::MAX as nat
        }
    }

    pub closed spec fn wf(&self) -> bool {
        let b = bounds_view(self.bounds@);
        &&& self.leaves@.len() == self.bounds@.len() + 1
        &&& ascending(b)
        &&& forall|i: int| 0 <= i < self.leaves@.len() ==> (#[trigger] self.leaves@[i]).wf()
        &&& self.chains_within(self.opts.data_delta_length as nat)
        &&& leaves_routed(self.leaves@, b)
        &&& self.used == sum_footprint(self.leaves@)
        &&& sum_footprint(self.leaves@) <= self.capacity()
    }

    /// Opens an empty table.
    pub fn open(opts: Options) -> (r: Result<Table, Error>)
        ensures
            r is Ok,
            r->Ok_0.wf(),
            r->Ok_0@ == Map::<Version, Option<Seq<u8>>>::empty(),
            r->Ok_0.options() == opts,
            r->Ok_0.chains_within(0),
            r->Ok_0.num_leaves() == 1,
    {
        let node = Node::new();
        let mut leaves: Vec<Node> = Vec::new();
        leaves.push(node);
        let r = Table {
            opts,
            leaves,
            bounds: Vec::new(),
            used: 0,
            stats: Stats { num_puts: 0, num_deletes: 0, num_consolidations: 0, num_splits: 0 },
        };
        proof {
            let b = bounds_view(r.bounds@);
            assert(b =~= Seq::<Seq<u8>>::empty());
            assert(r.leaves@.drop_last() =~= Seq::<Node>::empty());
            assert(sum_footprint(Seq::<Node>::empty()) == 0);
            assert(sum_footprint(r.leaves@) == 0);
            assert(r@ =~= Map::<Version, Option<Seq<u8>>>::empty());
        }
        Ok(r)
    }

    /// What a read of `key` at `lsn` observes: the value of the freshest
    /// version at or below `lsn`, or `None` for a tombstone or no version.
    pub fn get(&self, key: &[u8], lsn: u64) -> (r: Option<Vec<u8>>)
        requires
            self.wf(),
        ensures
            crate::codec::opt_bytes_view(r) == read(self@, key@, lsn),
    {
        let i = route_exec(&self.bounds, key);
        proof {
            lemma_route_in_range(bounds_view(self.bounds@), key@);
        }
        let r = self.leaves[i].find(key, lsn);
        proof {
            lemma_read_same(self@, self.leaves@[i as int].spec_versions(), key@, lsn);
        }
        r
    }

    /// Writes `value` (or a tombstone, for `None`) as the version `lsn` of `key`.
    #[verifier::rlimit(60)]
    fn write(&mut self, key: &[u8], lsn: u64, value: Option<&[u8]>) -> (r: Result<(), Error>)
        requires
            old(self).wf(),
        ensures
            final(self).wf(),
            final(self).options() == old(self).options(),
            final(self).chains_within(final(self).options().data_delta_length as nat),
            ({
                let v = match value {
                    Some(s) => Some(s@),
                    None => None,
                };
                &&& (key@.len() > u32::MAX || (v is Some && v->0.len() > u32::MAX)) ==> r == Err::<(), Error>(Error::InvalidArgument)
                &&& (key@.len() <= u32::MAX && (v is None || v->0.len() <= u32::MAX)
                    && old(self).footprint() + record_size(key@, lsn, v) > old(self).capacity())
                    ==> r == Err::<(), Error>(Error::OutOfMemory)
                &&& (key@.len() <= u32::MAX && (v is None || v->0.len() <= u32::MAX)
                    && old(self).footprint() + record_size(key@, lsn, v) <= old(self).capacity())
                    ==> r is Ok
                &&& r is Ok ==> final(self)@ == old(self)@.insert((key@, lsn), v)
                &&& r is Err ==> *final(self) == *old(self)
            }),
    {
        if key.len() > 0xffff_ffff {
            return Err(Error::InvalidArgument);
        }
        let val = match value {
            Some(s) => {
                if s.len() > 0xffff_ffff {
                    return Err(Error::InvalidArgument);
                }
                Some(vstd::slice::slice_to_vec(s))
            },
            None => None,
        };
        let e = Entry { key: vstd::slice::slice_to_vec(key), lsn, value: val };
        proof {
            lemma_encode_record_len(e@);
        }
        let size: u64 = 13 + key.len() as u64 + match &e.value {
            Some(v) => 4 + v.len() as u64,
            None => 0,
        };
        let cap: u64 = if (self.opts.cache_size as u64) < 0xffff_ffff {
            self.opts.cache_size as u64
        } else {
            0xffff_ffff
        };
        if size > cap - self.used {
            return Err(Error::OutOfMemory);
        }
        let ghost b = bounds_view(self.bounds@);
        let ghost old_leaves = self.leaves@;
        let ghost ver = e@.version();
        let ghost val_view = e@.value;
        let i = route_exec(&self.bounds, key);
        proof {
            lemma_route_in_range(b, key@);
            lemma_sum_update(old_leaves, i as int, old_leaves[i as int]);
        }
        let is_put = e.value.is_some();
        let mut node = self.leaves.remove(i);
        let old_fp = node.footprint_exec();
        node.push(e);
        if is_put {
            self.stats.num_puts = bump(self.stats.num_puts);
        } else {
            self.stats.num_deletes = bump(self.stats.num_deletes);
        }
        let mut consolidated = false;
        if node.chain.len() > self.opts.data_delta_length {
            node.consolidate();
            consolidated = true;
            self.stats.num_consolidations = bump(self.stats.num_consolidations);
        }
        let new_fp = node.footprint_exec();
        proof {
            assert(self.leaves@.insert(i as int, node) =~= old_leaves.update(i as int, node));
            lemma_replace_leaf(old_leaves, b, i as int, node, ver, val_view);
            lemma_sum_update(old_leaves, i as int, node);
        }
        let ghost mid_leaves = old_leaves.update(i as int, node);
        if consolidated && new_fp > self.opts.data_node_size as u64 {
            match node.split() {
                Some((left, sep, right)) => {
                    let ghost ln = left;
                    let ghost rn = right;
                    let ghost sepv = sep@;
                    let lf = left.footprint_exec();
                    let rf = right.footprint_exec();
                    self.leaves.insert(i, left);
                    assert(i < self.leaves.len());
                    self.leaves.insert(i + 1, right);
                    self.bounds.insert(i, sep);
                    self.used = self.used - old_fp + lf + rf;
                    self.stats.num_splits = bump(self.stats.num_splits);
                    proof {
                        assert(self.leaves@ =~= mid_leaves.update(i as int, ln).insert(i + 1, rn));
                        assert(bounds_view(self.bounds@) =~= b.insert(i as int, sepv));
                        assert(mid_leaves[i as int] == node);
                        lemma_split_leaf(mid_leaves, b, i as int, node, ln, sepv, rn);
                        lemma_sum_update(mid_leaves, i as int, ln);
                        lemma_sum_insert(mid_leaves.update(i as int, ln), i + 1, rn);
                        let u = self.leaves@;
                        assert forall|j: int| 0 <= j < u.len() implies (#[trigger] u[j]).wf() && u[j].chain@.len() <= self.opts.data_delta_length by {
                            if j < i {
                                assert(u[j] == old_leaves[j]);
                            } else if j > i + 1 {
                                assert(u[j] == old_leaves[j - 1]);
                            }
                        }
                    }
                    return Ok(());
                },
                None => {},
            }
        }
        self.leaves.insert(i, node);
        self.used = self.used - old_fp + new_fp;
        proof {
            let u = self.leaves@;
            assert(u == mid_leaves);
            assert forall|j: int| 0 <= j < u.len() implies (#[trigger] u[j]).wf() && u[j].chain@.len() <= self.opts.data_delta_length by {
                if j != i {
                    assert(u[j] == old_leaves[j]);
                }
            }
        }
        Ok(())
    }

    /// Writes `value` as the version `lsn` of `key`.
    pub fn put(&mut self, key: &[u8], lsn: u64, value: &[u8]) -> (r: Result<(), Error>)
        requires
            old(self).wf(),
        ensures
            final(self).wf(),
            final(self).options() == old(self).options(),
            final(self).chains_within(final(self).options().data_delta_length as nat),
            (key@.len() > u32::MAX || value@.len() > u32::MAX) ==> r == Err::<(), Error>(Error::InvalidArgument),
            (key@.len() <= u32::MAX && value@.len() <= u32::MAX
                && old(self).footprint() + record_size(key@, lsn, Some(value@)) > old(self).capacity())
                ==> r == Err::<(), Error>(Error::OutOfMemory),
            (key@.len() <= u32::MAX && value@.len() <= u32::MAX
                && old(self).footprint() + record_size(key@, lsn, Some(value@)) <= old(self).capacity())
                ==> r is Ok,
            r is Ok ==> final(self)@ == old(self)@.insert((key@, lsn), Some(value@)),
            r is Err ==> final(self)@ == old(self)@ && final(self).footprint() == old(self).footprint(),
    {
        self.write(key, lsn, Some(value))
    }

    /// Writes a tombstone as the version `lsn` of `key`.
    pub fn delete(&mut self, key: &[u8], lsn: u64) -> (r: Result<(), Error>)
        requires
            old(self).wf(),
        ensures
            final(self).wf(),
            final(self).options() == old(self).options(),
            final(self).chains_within(final(self).options().data_delta_length as nat),
            key@.len() > u32::MAX ==> r == Err::<(), Error>(Error::InvalidArgument),
            (key@.len() <= u32::MAX && old(self).footprint() + record_size(key@, lsn, None) > old(self).capacity())
                ==> r == Err::<(), Error>(Error::OutOfMemory),
            (key@.len() <= u32::MAX && old(self).footprint() + record_size(key@, lsn, None) <= old(self).capacity())
                ==> r is Ok,
            r is Ok ==> final(self)@ == old(self)@.insert((key@, lsn), None),
            r is Err ==> final(self)@ == old(self)@ && final(self).footprint() == old(self).footprint(),
    {
        self.write(key, lsn, None)
    }

    /// Folds every delta chain into a new base page. Consolidating a table
    /// without deltas, as right after a consolidation, changes nothing.
    pub fn consolidate(&mut self)
        requires
            old(self).wf(),
        ensures
            final(self).wf(),
            final(self)@ == old(self)@,
            final(self).options() == old(self).options(),
            final(self).chains_within(0),
            old(self).chains_within(0) ==> *final(self) == *old(self),
    {
        let ghost b = bounds_view(self.bounds@);
        let ghost start = self.leaves@;
        let mut i: usize = 0;
        while i < self.leaves.len()
            invariant
                self.wf(),
                b == bounds_view(self.bounds@),
                self.opts == old(self).opts,
                self.bounds == old(self).bounds,
                self@ == old(self)@,
                i <= self.leaves@.len(),
                self.leaves@.len() == start.len(),
                forall|j: int| 0 <= j < i ==> (#[trigger] self.leaves@[j]).chain@.len() == 0,
                old(self).chains_within(0) ==> *self == *old(self),
            decreases self.leaves.len() - i,
        {
            if self.leaves[i].chain.len() > 0 {
                let ghost before = self.leaves@;
                proof {
                    lemma_sum_update(before, i as int, before[i as int]);
                }
                let mut node = self.leaves.remove(i);
                let old_fp = node.footprint_exec();
                node.consolidate();
                let new_fp = node.footprint_exec();
                self.leaves.insert(i, node);
                self.used = self.used - (old_fp - new_fp);
                self.stats.num_consolidations = bump(self.stats.num_consolidations);
                proof {
                    assert(self.leaves@ =~= before.update(i as int, node));
                    lemma_sum_update(before, i as int, node);
                    let u = self.leaves@;
                    assert forall|j: int, w: Version| 0 <= j < u.len() && #[trigger] u[j].spec_versions().contains_key(w)
                        implies route(b, w.0) == j by {
                        if j != i {
                            assert(u[j] == before[j]);
                        }
                    }
                    assert forall|j: int| 0 <= j < u.len() implies (#[trigger] u[j]).wf() && u[j].chain@.len() <= self.opts.data_delta_length by {
                        if j != i {
                            assert(u[j] == before[j]);
                        }
                    }
                    assert(self@ =~= tree_versions(before, b));
                    assert forall|j: int| 0 <= j < i + 1 implies (#[trigger] self.leaves@[j]).chain@.len() == 0 by {
                        if j != i {
                            assert(u[j] == before[j]);
                        }
                    }
                }
            }
            i = i + 1;
        }
    }

    /// A forward cursor over the live keys in ascending order, each with its
    /// freshest value.
    pub fn iter(&self) -> (r: TableIter)
        requires
            self.wf(),
        ensures
            lists_live(self@, r.items()),
            r.position() == 0,
    {
        let ghost b = bounds_view(self.bounds@);
        let ghost m = self@;
        let mut items: Vec<(Vec<u8>, Vec<u8>)> = Vec::new();
        let mut i: usize = 0;
        while i < self.leaves.len()
            invariant
                self.wf(),
                b == bounds_view(self.bounds@),
                m == self@,
                i <= self.leaves@.len(),
                forall|a: int, c: int| 0 <= a < c < items@.len() ==> bytes_lt(#[trigger] items_view(items@)[a].0, #[trigger] items_view(items@)[c].0),
                forall|a: int| 0 <= a < items@.len() ==> read(m, #[trigger] items_view(items@)[a].0, u64::MAX) == Some(items_view(items@)[a].1)
                    && route(b, items_view(items@)[a].0) < i,
                forall|k: Seq<u8>| #[trigger] read(m, k, u64::MAX) is Some && route(b, k) < i
                    ==> exists|a: int| 0 <= a < items@.len() && items_view(items@)[a] == (k, read(m, k, u64::MAX)->0),
            decreases self.leaves.len() - i,
        {
            let mut part = live_items(&self.leaves[i]);
            let ghost before = items_view(items@);
            let ghost pv = items_view(part@);
            let ghost lm = self.leaves@[i as int].spec_versions();
            items.append(&mut part);
            proof {
                let iv = items_view(items@);
                assert(iv =~= before + pv);
                // keys of this leaf route to it, and read the same in the leaf and the table
                assert forall|c: int| 0 <= c < pv.len() implies route(b, #[trigger] pv[c].0) == i
                    && read(m, pv[c].0, u64::MAX) == Some(pv[c].1) by {
                    let k = pv[c].0;
                    assert(read(lm, k, u64::MAX) == Some(pv[c].1));
                    let l = choose|l: u64| is_latest(lm, k, u64::MAX, l);
                    assert(lm.contains_key((k, l)));
                    lemma_route_in_range(b, k);
                    lemma_read_same(m, lm, k, u64::MAX);
                }
                assert forall|a: int, c: int| 0 <= a < c < iv.len() implies bytes_lt(#[trigger] iv[a].0, #[trigger] iv[c].0) by {
                    if c >= before.len() && a < before.len() {
                        let k1 = before[a].0;
                        let k2 = pv[c - before.len()].0;
                        assert(iv[c] == pv[c - before.len()]);
                        lemma_route_in_range(b, k1);
                        lemma_route_in_range(b, k2);
                        let r1 = route(b, k1);
                        // k1 < b[r1] <= b[i - 1] <= k2
                        if r1 < i - 1 {
                            assert(bytes_lt(b[r1], b[i - 1]));
                            crate::key::lemma_bytes_lt_transitive(k1, b[r1], b[i - 1]);
                        }
                        lemma_lt_le(k1, b[i - 1], k2);
                    } else if a >= before.len() {
                        assert(iv[a] == pv[a - before.len()] && iv[c] == pv[c - before.len()]);
                    }
                }
                assert forall|a: int| 0 <= a < iv.len() implies read(m, #[trigger] iv[a].0, u64::MAX) == Some(iv[a].1)
                    && route(b, iv[a].0) < i + 1 by {
                    if a >= before.len() {
                        assert(iv[a] == pv[a - before.len()]);
                    }
                }
                assert forall|k: Seq<u8>| #[trigger] read(m, k, u64::MAX) is Some && route(b, k) < i + 1
                    implies exists|a: int| 0 <= a < iv.len() && iv[a] == (k, read(m, k, u64::MAX)->0) by {
                    if route(b, k) < i {
                        let a = choose|a: int| 0 <= a < before.len() && before[a] == (k, read(m, k, u64::MAX)->0);
                        assert(iv[a] == before[a]);
                    } else {
                        lemma_read_same(m, lm, k, u64::MAX);
                        assert(read(lm, k, u64::MAX) is Some);
                        let c = choose|c: int| 0 <= c < pv.len() && pv[c] == (k, read(lm, k, u64::MAX)->0);
                        assert(iv[before.len() + c] == pv[c]);
                    }
                }
            }
            i = i + 1;
        }
        proof {
            assert forall|k: Seq<u8>| #[trigger] read(m, k, u64::MAX) is Some implies route(b, k) < i by {
                lemma_route_in_range(b, k);
            }
        }
        TableIter { items, next: 0 }
    }

    pub fn stats(&self) -> (r: Stats)
        ensures
            r == self.spec_stats(),
    {
        self.stats
    }
}

} // verus!
