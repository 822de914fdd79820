use vstd::prelude::*;
use crate::key::{bytes_lt, compare_bytes, lemma_bytes_lt_total, lemma_bytes_lt_transitive};

verus! {

/// The leaf that holds `k`, given the separator keys between leaves: the
/// number of separators at or below `k`, where they ascend.
pub open spec fn route(b: Seq<Seq<u8>>, k: Seq<u8>) -> int
    decreases b.len(),
{
    if b.len() == 0 {
        0
    } else if bytes_lt(k, b.last()) {
        route(b.drop_last(), k)
    } else {
        b.len() as int
    }
}

/// Separators strictly ascending.
pub open spec fn ascending(b: Seq<Seq<u8>>) -> bool {
    forall|i: int, j: int| 0 <= i < j < b.len() ==> bytes_lt(#[trigger] b[i], #[trigger] b[j])
}

/// `k` lies in the range of leaf `j`: at or above separator `j - 1`, below
/// separator `j`.
pub open spec fn in_range(b: Seq<Seq<u8>>, k: Seq<u8>, j: int) -> bool {
    &&& 0 <= j <= b.len()
    &&& j == 0 || !bytes_lt(k, b[j - 1])
    &&& j == b.len() || bytes_lt(k, b[j])
}

pub proof fn lemma_route_in_range(b: Seq<Seq<u8>>, k: Seq<u8>)
    requires
        ascending(b),
    ensures
        in_range(b, k, route(b, k)),
    decreases b.len(),
{
    if b.len() > 0 && bytes_lt(k, b.last()) {
        let p = b.drop_last();
        lemma_route_in_range(p, k);
        let j = route(p, k);
        if j < p.len() {
            assert(p[j] == b[j]);
        }
        if j > 0 {
            assert(p[j - 1] == b[j - 1]);
        }
    }
}

pub proof fn lemma_route_unique(b: Seq<Seq<u8>>, k: Seq<u8>, j: int)
    requires
        ascending(b),
        in_range(b, k, j),
    ensures
        route(b, k) == j,
{
    lemma_route_in_range(b, k);
    let r = route(b, k);
    if r < j {
        // k < b[r] <= b[j - 1] <= k
        lemma_le_lt(b, k, r, j - 1);
    } else if j < r {
        lemma_le_lt(b, k, j, r - 1);
    }
}

/// A key below separator `x` is below every later separator.
proof fn lemma_le_lt(b: Seq<Seq<u8>>, k: Seq<u8>, x: int, y: int)
    requires
        ascending(b),
        0 <= x <= y < b.len(),
        bytes_lt(k, b[x]),
    ensures
        bytes_lt(k, b[y]),
{
    if x < y {
        lemma_bytes_lt_transitive(k, b[x], b[y]);
    }
}

/// `a < b` and `b <= c` give `a < c`.
pub proof fn lemma_lt_le(a: Seq<u8>, b: Seq<u8>, c: Seq<u8>)
    requires
        bytes_lt(a, b),
        !bytes_lt(c, b),
    ensures
        bytes_lt(a, c),
{
    lemma_bytes_lt_total(b, c);
    if bytes_lt(b, c) {
        lemma_bytes_lt_transitive(a, b, c);
    }
}

/// Separators of leaves before and after the range of leaf `i` is split at
/// `sep`: a key of leaf `i` moves to leaf `i + 1` when it is at or above `sep`;
/// a key of a later leaf moves one leaf on.
pub proof fn lemma_route_split(b: Seq<Seq<u8>>, i: int, sep: Seq<u8>, k: Seq<u8>)
    requires
        ascending(b),
        0 <= i <= b.len(),
        i == 0 || bytes_lt(b[i - 1], sep),
        i == b.len() || bytes_lt(sep, b[i]),
    ensures
        ascending(b.insert(i, sep)),
        route(b.insert(i, sep), k) == if route(b, k) < i {
            route(b, k)
        } else if route(b, k) > i {
            route(b, k) + 1
        } else if bytes_lt(k, sep) {
            i
        } else {
            i + 1
        },
{
    let b2 = b.insert(i, sep);
    assert forall|x: int, y: int| 0 <= x < y < b2.len() implies bytes_lt(#[trigger] b2[x], #[trigger] b2[y]) by {
        if y < i {
        } else if y == i {
            if x < i - 1 {
                lemma_bytes_lt_transitive(b[x], b[i - 1], sep);
            }
        } else if x < i {
            assert(b2[y] == b[y - 1]);
            if x < y - 1 {
                assert(bytes_lt(b[x], b[y - 1]));
            }
        } else if x == i {
            assert(b2[y] == b[y - 1]);
            if y - 1 > i {
                lemma_bytes_lt_transitive(sep, b[i], b[y - 1]);
            }
        } else {
            assert(b2[x] == b[x - 1] && b2[y] == b[y - 1]);
        }
    }
    lemma_route_in_range(b, k);
    let j = route(b, k);
    if j < i {
        if j > 0 {
            assert(b2[j - 1] == b[j - 1]);
        }
        assert(b2[j] == b[j] || j == i);
        if j < b.len() {
            assert(b2[j] == b[j]);
        }
        lemma_route_unique(b2, k, j);
    } else if j > i {
        assert(b2[j] == b[j - 1]);
        if j < b.len() {
            assert(b2[j + 1] == b[j]);
        }
        lemma_route_unique(b2, k, j + 1);
    } else if bytes_lt(k, sep) {
        if i > 0 {
            assert(b2[i - 1] == b[i - 1]);
        }
        assert(b2[i] == sep);
        lemma_route_unique(b2, k, i);
    } else {
        assert(b2[i] == sep);
        if i < b.len() {
            assert(b2[i + 1] == b[i]);
        }
        lemma_route_unique(b2, k, i + 1);
    }
}

/// The leaf that holds `k`.
pub fn route_exec(bounds: &Vec<Vec<u8>>, k: &[u8]) -> (r: usize)
    ensures
        r == route(bounds@.map_values(|v: Vec<u8>| v@), k@),
{
    let ghost b = bounds@.map_values(|v: Vec<u8>| v@);
    let mut i: usize = bounds.len();
    assert(b.take(i as int) =~= b);
    while i > 0 && compare_bytes(k, bounds[i - 1].as_slice()) == -1
        invariant
            i <= b.len(),
            b == bounds@.map_values(|v: Vec<u8>| v@),
            route(b, k@) == route(b.take(i as int), k@),
        decreases i,
    {
        assert(b[i - 1] == bounds@[i - 1]@);
        assert(b.take(i as int).drop_last() =~= b.take(i - 1));
        i = i - 1;
    }
    if i > 0 {
        assert(b[i - 1] == bounds@[i - 1]@);
    }
    i
}

} // verus!
