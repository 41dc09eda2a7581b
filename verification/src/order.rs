//! Sorting by position, so that the items sorted need not be moved until
//! their order is known.

use vstd::prelude::*;

verus! {

/// Does position `a` come before position `b`: a larger key first, and
/// among equal keys the earlier position?
pub open spec fn ahead(keys: Seq<u64>, a: usize, b: usize) -> bool {
    keys[a as int] > keys[b as int] || (keys[a as int] == keys[b as int] && a < b)
}

/// `p` lists every position from `lo` up to `hi` once, in that order.
pub open spec fn ranked(keys: Seq<u64>, p: Seq<usize>, lo: int, hi: int) -> bool {
    &&& p.len() == hi - lo
    &&& forall|i: int| 0 <= i < p.len() ==> lo <= #[trigger] p[i] < hi
    &&& forall|i: int, j: int| 0 <= i < j < p.len() ==> #[trigger] ahead(keys, p[i], p[j])
}

/// `p` lists every position of `keys` once, larger keys first, equal keys
/// in the order they stand in.
pub open spec fn is_order(keys: Seq<u64>, p: Seq<usize>) -> bool {
    ranked(keys, p, 0, keys.len() as int)
}

/// There is only one such order.
pub proof fn order_is_unique(keys: Seq<u64>, p: Seq<usize>, q: Seq<usize>)
    requires
        is_order(keys, p),
        is_order(keys, q),
    ensures
        p == q,
{
    lemma_every_position(keys, p);
    lemma_every_position(keys, q);
    assert forall|i: int| 0 <= i < p.len() implies p[i] == q[i] by {
        lemma_same_prefix(keys, p, q, i);
    }
    assert(p =~= q);
}

proof fn lemma_same_prefix(keys: Seq<u64>, p: Seq<usize>, q: Seq<usize>, i: int)
    requires
        is_order(keys, p),
        is_order(keys, q),
        0 <= i < p.len(),
    ensures
        p[i] == q[i],
    decreases i,
{
    lemma_every_position(keys, p);
    lemma_every_position(keys, q);
    assert forall|j: int| 0 <= j < i implies p[j] == q[j] by {
        lemma_same_prefix(keys, p, q, j);
    }
    if p[i] != q[i] {
        assert(q.contains(p[i]) && p.contains(q[i]));
        let a = choose|a: int| 0 <= a < q.len() && q[a] == p[i];
        let b = choose|b: int| 0 <= b < p.len() && p[b] == q[i];
        if a < i {
            assert(p[a] == p[i]);
            assert(ahead(keys, p[a], p[i]));
        }
        if b < i {
            assert(q[b] == q[i]);
            assert(ahead(keys, q[b], q[i]));
        }
        assert(a > i && b > i);
        assert(ahead(keys, q[i], q[a]));
        assert(ahead(keys, p[i], p[b]));
    }
}

/// Every position occurs in an order.
pub proof fn lemma_every_position(keys: Seq<u64>, p: Seq<usize>)
    requires
        is_order(keys, p),
    ensures
        forall|x: usize| (x as int) < keys.len() ==> p.contains(x),
        p.no_duplicates(),
{
    assert(p.no_duplicates()) by {
        assert forall|i: int, j: int| 0 <= i < j < p.len() implies p[i] != p[j] by {
            assert(ahead(keys, p[i], p[j]));
        }
    }
    assert forall|x: usize| (x as int) < keys.len() implies p.contains(x) by {
        lemma_pigeonhole(p, keys.len() as int, x as int);
    }
}

/// A list with as many positions as an order has is no longer than the
/// largest position.
pub proof fn lemma_small(keys: Seq<u64>, p: Seq<usize>)
    requires
        is_order(keys, p),
    ensures
        keys.len() <= usize::MAX + 1,
{
    assert(p.no_duplicates()) by {
        assert forall|i: int, j: int| 0 <= i < j < p.len() implies p[i] != p[j] by {
            assert(ahead(keys, p[i], p[j]));
        }
    }
    let n = usize::MAX as int + 1;
    let ints = p.map_values(|v: usize| v as int);
    let below = vstd::set_lib::set_int_range(0, n);
    vstd::set_lib::lemma_int_range(0, n);
    assert(ints.no_duplicates());
    ints.unique_seq_to_set();
    assert(ints.to_set().subset_of(below)) by {
        assert forall|v: int| ints.to_set().contains(v) implies below.contains(v) by {
            let i = choose|i: int| 0 <= i < ints.len() && ints[i] == v;
            assert(p[i] as int == v);
        }
    }
    vstd::set_lib::lemma_len_subset(ints.to_set(), below);
}

/// `n` different numbers below `n` are all the numbers below `n`.
proof fn lemma_pigeonhole(p: Seq<usize>, n: int, x: int)
    requires
        p.len() == n,
        p.no_duplicates(),
        forall|i: int| 0 <= i < n ==> 0 <= #[trigger] p[i] < n,
        0 <= x < n,
    ensures
        p.contains(x as usize),
{
    let ints = p.map_values(|v: usize| v as int);
    let below = vstd::set_lib::set_int_range(0, n);
    vstd::set_lib::lemma_int_range(0, n);
    assert(ints.no_duplicates());
    ints.unique_seq_to_set();
    assert(ints.to_set().subset_of(below)) by {
        assert forall|v: int| ints.to_set().contains(v) implies below.contains(v) by {
            let i = choose|i: int| 0 <= i < ints.len() && ints[i] == v;
            assert(p[i] as int == v);
        }
    }
    vstd::set_lib::lemma_subset_equality(ints.to_set(), below);
    assert(ints.to_set().contains(x));
    let i = choose|i: int| 0 <= i < ints.len() && ints[i] == x;
    assert(p[i] == x as usize);
}

/// Merges two ranked lists of neighbouring positions.
fn merge(keys: &Vec<u64>, a: &Vec<usize>, b: &Vec<usize>, Ghost(lo): Ghost<int>, Ghost(mid): Ghost<int>, Ghost(hi): Ghost<int>) -> (r: Vec<usize>)
    requires
        0 <= lo <= mid <= hi <= keys@.len(),
        ranked(keys@, a@, lo, mid),
        ranked(keys@, b@, mid, hi),
    ensures
        ranked(keys@, r@, lo, hi),
{
    let mut out: Vec<usize> = Vec::new();
    let mut i: usize = 0;
    let mut j: usize = 0;
    while i < a.len() || j < b.len()
        invariant
            0 <= lo <= mid <= hi <= keys@.len(),
            ranked(keys@, a@, lo, mid),
            ranked(keys@, b@, mid, hi),
            i <= a@.len(),
            j <= b@.len(),
            out@.len() == i + j,
            forall|k: int| 0 <= k < out@.len() ==> lo <= #[trigger] out@[k] < hi,
            forall|k: int, l: int| 0 <= k < l < out@.len() ==> #[trigger] ahead(keys@, out@[k], out@[l]),
            forall|k: int, l: int|
                0 <= k < out@.len() && i <= l < a@.len() ==> #[trigger] ahead(keys@, out@[k], a@[l]),
            forall|k: int, l: int|
                0 <= k < out@.len() && j <= l < b@.len() ==> #[trigger] ahead(keys@, out@[k], b@[l]),
        decreases a@.len() - i + b@.len() - j,
    {
        let left = if i >= a.len() {
            false
        } else if j >= b.len() {
            true
        } else {
            assert(lo <= a@[i as int] < mid);
            assert(mid <= b@[j as int] < hi);
            keys[a[i]] >= keys[b[j]]
        };
        let ghost before = out@;
        if left {
            let x = a[i];
            out.push(x);
            proof {
                assert forall|l: int| j <= l < b@.len() implies ahead(keys@, x, b@[l]) by {
                    assert(mid <= b@[j as int] < hi);
                    assert(mid <= b@[l] < hi);
                    assert(lo <= a@[i as int] < mid);
                    if l > j {
                        assert(ahead(keys@, b@[j as int], b@[l]));
                    }
                }
            }
            i = i + 1;
        } else {
            let x = b[j];
            out.push(x);
            proof {
                assert forall|l: int| i <= l < a@.len() implies ahead(keys@, x, a@[l]) by {
                    if l > i {
                        assert(ahead(keys@, a@[i as int], a@[l]));
                    }
                }
            }
            j = j + 1;
        }
    }
    out
}

fn sort_range(keys: &Vec<u64>, lo: usize, hi: usize) -> (r: Vec<usize>)
    requires
        lo <= hi <= keys@.len(),
    ensures
        ranked(keys@, r@, lo as int, hi as int),
    decreases hi - lo,
{
    let mut out: Vec<usize> = Vec::new();
    if hi - lo == 0 {
        return out;
    }
    if hi - lo == 1 {
        out.push(lo);
        return out;
    }
    let mid = lo + (hi - lo) / 2;
    let a = sort_range(keys, lo, mid);
    let b = sort_range(keys, mid, hi);
    merge(keys, &a, &b, Ghost(lo as int), Ghost(mid as int), Ghost(hi as int))
}

/// The positions of `keys`, largest key first, equal keys in the order they
/// stand in.
pub fn order_desc(keys: &Vec<u64>) -> (r: Vec<usize>)
    ensures
        is_order(keys@, r@),
{
    sort_range(keys, 0, keys.len())
}

/// An order lists every position once, the largest key first, and positions
/// with the same key as they stood.
pub proof fn larger_keys_come_first(keys: Seq<u64>, p: Seq<usize>, i: int, j: int)
    requires
        is_order(keys, p),
        0 <= i < j < p.len(),
    ensures
        p.len() == keys.len(),
        p[i] < keys.len() && p[j] < keys.len(),
        keys[p[i] as int] >= keys[p[j] as int],
        keys[p[i] as int] == keys[p[j] as int] ==> p[i] < p[j],
{
    assert(ahead(keys, p[i], p[j]));
}

} // verus!
