//! Stable ordering by integer keys, as `sort_by_key` gives it: items with
//! smaller keys first, items with equal keys in their original order.
use vstd::prelude::*;

verus! {

/// Item `a` goes before item `b`: a smaller key, or an equal key and an
/// earlier place.
pub open spec fn goes_before(keys: Seq<i128>, a: int, b: int) -> bool {
    keys[a] < keys[b] || (keys[a] == keys[b] && a < b)
}

/// `order` lists every item of `keys` exactly once, items with smaller keys
/// first and items with equal keys in their original order. Exactly one
/// such order exists.
pub open spec fn is_stable_order(keys: Seq<i128>, order: Seq<usize>) -> bool {
    &&& order.len() == keys.len()
    &&& forall|k: int| 0 <= k < order.len() ==> #[trigger] order[k] < keys.len()
    &&& forall|i: usize| i < keys.len() ==> #[trigger] order.contains(i)
    &&& forall|a: int, b: int|
        0 <= a < b < order.len() ==> goes_before(keys, #[trigger] order[a] as int, #[trigger] order[b] as int)
}

/// `order` is the stable order of the items `lo..hi` of `keys`: each of
/// them exactly once, ordered by [`goes_before`].
pub open spec fn is_stable_range_order(keys: Seq<i128>, lo: int, hi: int, order: Seq<usize>) -> bool {
    &&& order.len() == hi - lo
    &&& forall|k: int| 0 <= k < order.len() ==> lo <= #[trigger] order[k] < hi
    &&& forall|x: usize| lo <= x < hi ==> #[trigger] order.contains(x)
    &&& forall|a: int, b: int|
        0 <= a < b < order.len() ==> goes_before(keys, #[trigger] order[a] as int, #[trigger] order[b] as int)
}

proof fn lemma_push_keeps(s: Seq<usize>, v: usize, x: usize)
    requires
        s.contains(x),
    ensures
        s.push(v).contains(x),
{
    let k = choose|k: int| 0 <= k < s.len() && s[k] == x;
    assert(s.push(v)[k] == x);
}

/// Merges the stable orders of `lo..mid` and `mid..hi` into that of
/// `lo..hi`; on equal keys the earlier items, which are those of the left
/// half, come first.
fn merge(keys: &Vec<i128>, left: &Vec<usize>, right: &Vec<usize>, lo: usize, mid: usize, hi: usize) -> (r: Vec<usize>)
    requires
        lo <= mid <= hi <= keys@.len(),
        is_stable_range_order(keys@, lo as int, mid as int, left@),
        is_stable_range_order(keys@, mid as int, hi as int, right@),
    ensures
        is_stable_range_order(keys@, lo as int, hi as int, r@),
{
    let mut out: Vec<usize> = Vec::new();
    let mut i: usize = 0;
    let mut j: usize = 0;
    while i < left.len() || j < right.len()
        invariant
            lo <= mid <= hi <= keys@.len(),
            is_stable_range_order(keys@, lo as int, mid as int, left@),
            is_stable_range_order(keys@, mid as int, hi as int, right@),
            i <= left@.len(),
            j <= right@.len(),
            out@.len() == i + j,
            forall|k: int| 0 <= k < out@.len() ==> lo <= #[trigger] out@[k] < hi,
            forall|p: int| 0 <= p < i ==> out@.contains(#[trigger] left@[p]),
            forall|q: int| 0 <= q < j ==> out@.contains(#[trigger] right@[q]),
            forall|a: int, b: int|
                0 <= a < b < out@.len() ==> goes_before(keys@, #[trigger] out@[a] as int, #[trigger] out@[b] as int),
            forall|a: int, p: int|
                0 <= a < out@.len() && i <= p < left@.len() ==> goes_before(
                    keys@,
                    #[trigger] out@[a] as int,
                    #[trigger] left@[p] as int,
                ),
            forall|a: int, q: int|
                0 <= a < out@.len() && j <= q < right@.len() ==> goes_before(
                    keys@,
                    #[trigger] out@[a] as int,
                    #[trigger] right@[q] as int,
                ),
        decreases left@.len() + right@.len() - i - j,
    {
        let take_left = if i < left.len() {
            if j < right.len() {
                keys[left[i]] <= keys[right[j]]
            } else {
                true
            }
        } else {
            false
        };
        let ghost before = out@;
        if take_left {
            let v = left[i];
            proof {
                assert forall|q: int| j <= q < right@.len() implies goes_before(
                    keys@,
                    v as int,
                    #[trigger] right@[q] as int,
                ) by {
                    assert(lo <= v < mid);
                    assert(mid <= right@[q] < hi);
                    if q > j {
                        assert(goes_before(keys@, right@[j as int] as int, right@[q] as int));
                    }
                }
                assert forall|p: int| i < p < left@.len() implies goes_before(
                    keys@,
                    v as int,
                    #[trigger] left@[p] as int,
                ) by {
                    assert(goes_before(keys@, left@[i as int] as int, left@[p] as int));
                }
            }
            out.push(v);
            proof {
                assert(out@ == before.push(v));
                assert forall|p: int| 0 <= p < i + 1 implies out@.contains(#[trigger] left@[p]) by {
                    if p < i {
                        lemma_push_keeps(before, v, left@[p]);
                    } else {
                        assert(out@[before.len() as int] == v);
                    }
                }
                assert forall|q: int| 0 <= q < j implies out@.contains(#[trigger] right@[q]) by {
                    lemma_push_keeps(before, v, right@[q]);
                }
            }
            i = i + 1;
        } else {
            let v = right[j];
            proof {
                assert forall|p: int| i <= p < left@.len() implies goes_before(
                    keys@,
                    v as int,
                    #[trigger] left@[p] as int,
                ) by {
                    if p > i {
                        assert(goes_before(keys@, left@[i as int] as int, left@[p] as int));
                    }
                }
                assert forall|q: int| j < q < right@.len() implies goes_before(
                    keys@,
                    v as int,
                    #[trigger] right@[q] as int,
                ) by {
                    assert(goes_before(keys@, right@[j as int] as int, right@[q] as int));
                }
            }
            out.push(v);
            proof {
                assert(out@ == before.push(v));
                assert forall|p: int| 0 <= p < i implies out@.contains(#[trigger] left@[p]) by {
                    lemma_push_keeps(before, v, left@[p]);
                }
                assert forall|q: int| 0 <= q < j + 1 implies out@.contains(#[trigger] right@[q]) by {
                    if q < j {
                        lemma_push_keeps(before, v, right@[q]);
                    } else {
                        assert(out@[before.len() as int] == v);
                    }
                }
            }
            j = j + 1;
        }
    }
    proof {
        assert forall|x: usize| lo <= x < hi implies #[trigger] out@.contains(x) by {
            if x < mid {
                assert(left@.contains(x));
                let p = choose|p: int| 0 <= p < left@.len() && left@[p] == x;
                assert(out@.contains(left@[p]));
            } else {
                assert(right@.contains(x));
                let q = choose|q: int| 0 <= q < right@.len() && right@[q] == x;
                assert(out@.contains(right@[q]));
            }
        }
    }
    out
}

/// The stable order of the items `lo..hi` of `keys`, by merge sort.
fn sort_range(keys: &Vec<i128>, lo: usize, hi: usize) -> (r: Vec<usize>)
    requires
        lo <= hi <= keys@.len(),
    ensures
        is_stable_range_order(keys@, lo as int, hi as int, r@),
    decreases hi - lo,
{
    if hi - lo <= 1 {
        let mut out: Vec<usize> = Vec::new();
        if hi > lo {
            out.push(lo);
            proof {
                assert forall|x: usize| lo <= x < hi implies #[trigger] out@.contains(x) by {
                    assert(out@[0] == x);
                }
            }
        }
        out
    } else {
        let mid = lo + (hi - lo) / 2;
        let left = sort_range(keys, lo, mid);
        let right = sort_range(keys, mid, hi);
        merge(keys, &left, &right, lo, mid, hi)
    }
}

/// The stable order of `keys`.
pub fn stable_order(keys: &Vec<i128>) -> (r: Vec<usize>)
    ensures
        is_stable_order(keys@, r@),
{
    sort_range(keys, 0, keys.len())
}

} // verus!
