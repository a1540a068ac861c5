//! Operations on slices laid out as rows, and permutations of slices.

use vstd::prelude::*;

verus! {

/// The `idx`-th row of length `row_size`.
pub fn row<T>(slice: &[T], idx: usize, row_size: usize) -> (r: &[T])
    requires
        (idx + 1) * row_size <= slice@.len(),
    ensures
        r@ == slice@.subrange(idx * row_size, (idx + 1) * row_size),
{
    let len = slice.len();
    proof {
        assert(idx * row_size <= (idx + 1) * row_size && (idx + 1) * row_size == idx * row_size
            + row_size) by (nonlinear_arith);
    }
    let start = idx * row_size;
    let end = start + row_size;
    &slice[start..end]
}

/// The `idx`-th row of length `row_size`, to write.
pub fn row_mut<T>(slice: &mut [T], idx: usize, row_size: usize) -> (r: &mut [T])
    requires
        (idx + 1) * row_size <= old(slice)@.len(),
    ensures
        r@ == old(slice)@.subrange(idx * row_size, (idx + 1) * row_size),
        final(slice)@ == old(slice)@.subrange(0, idx * row_size) + final(r)@ + old(slice)@.subrange(
            (idx + 1) * row_size,
            old(slice)@.len() as int,
        ),
{
    let len = slice.len();
    proof {
        assert(idx * row_size <= (idx + 1) * row_size && (idx + 1) * row_size == idx * row_size
            + row_size) by (nonlinear_arith);
    }
    let start = idx * row_size;
    let (_, rest) = slice.split_at_mut(start);
    let (r, _) = rest.split_at_mut(row_size);
    r
}

/// `s` with the elements at `i` and `j` exchanged.
pub open spec fn swap_seq<T>(s: Seq<T>, i: int, j: int) -> Seq<T> {
    s.update(i, s[j]).update(j, s[i])
}

/// `s` after the swaps of `list`, in order.
pub open spec fn swapped<T>(s: Seq<T>, list: Seq<(u16, u16)>) -> Seq<T>
    decreases list.len(),
{
    if list.len() == 0 {
        s
    } else {
        swap_seq(swapped(s, list.drop_last()), list.last().0 as int, list.last().1 as int)
    }
}

/// Every index of `list` lies below `len`.
pub open spec fn swaps_in_range(list: Seq<(u16, u16)>, len: int) -> bool {
    forall|k: int| 0 <= k < list.len() ==> (#[trigger] list[k]).0 < len && list[k].1 < len
}

/// Exchanges the elements at each pair of indices of `swap_list`, in order.
pub fn apply_swap<T>(slice: &mut [T], swap_list: &[(u16, u16)])
    requires
        swaps_in_range(swap_list@, old(slice)@.len() as int),
    ensures
        final(slice)@ == swapped(old(slice)@, swap_list@),
{
    let n = swap_list.len();
    for k in 0..n
        invariant
            n == swap_list@.len(),
            swaps_in_range(swap_list@, old(slice)@.len() as int),
            slice@.len() == old(slice)@.len(),
            slice@ == swapped(old(slice)@, swap_list@.take(k as int)),
    {
        let (i, j) = swap_list[k];
        proof {
            assert(swap_list@.take(k + 1).drop_last() =~= swap_list@.take(k as int));
            assert(swap_list@.take(k + 1).last() == swap_list@[k as int]);
        }
        swap_elements(slice, i as usize, j as usize);
    }
    proof {
        assert(swap_list@.take(n as int) =~= swap_list@);
    }
}

/// Exchanges the elements at `i` and `j`.
pub fn swap_elements<T>(slice: &mut [T], i: usize, j: usize)
    requires
        i < old(slice)@.len(),
        j < old(slice)@.len(),
    ensures
        final(slice)@ == swap_seq(old(slice)@, i as int, j as int),
{
    if i == j {
        proof {
            assert(swap_seq(slice@, i as int, j as int) =~= slice@);
        }
        return;
    }
    let (lo, hi) = if i < j {
        (i, j)
    } else {
        (j, i)
    };
    let ghost s = slice@;
    let (left, right) = slice.split_at_mut(hi);
    std::mem::swap(&mut left[lo], &mut right[0]);
    proof {
        assert(final(slice)@ =~= swap_seq(s, i as int, j as int));
    }
}

/// No index appears in two places of `list` (or twice in one pair).
pub open spec fn disjoint_swaps(list: Seq<(u16, u16)>) -> bool {
    &&& forall|k: int| 0 <= k < list.len() ==> (#[trigger] list[k]).0 != list[k].1
    &&& forall|k: int, l: int|
        0 <= k < l < list.len() ==> (#[trigger] list[k]).0 != (#[trigger] list[l]).0 && list[k].0
            != list[l].1 && list[k].1 != list[l].0 && list[k].1 != list[l].1
}

/// The index that `k` is exchanged with by `list` (itself when none).
pub open spec fn partner(list: Seq<(u16, u16)>, k: int) -> int
    decreases list.len(),
{
    if list.len() == 0 {
        k
    } else if k == list.last().0 {
        list.last().1 as int
    } else if k == list.last().1 {
        list.last().0 as int
    } else {
        partner(list.drop_last(), k)
    }
}

/// With disjoint swaps, each position receives the element of its partner.
pub proof fn lemma_swapped_partner<T>(s: Seq<T>, list: Seq<(u16, u16)>)
    requires
        disjoint_swaps(list),
        swaps_in_range(list, s.len() as int),
    ensures
        swapped(s, list).len() == s.len(),
        forall|k: int| 0 <= k < s.len() ==> 0 <= #[trigger] partner(list, k) < s.len(),
        forall|k: int| 0 <= k < s.len() ==> #[trigger] swapped(s, list)[k] == s[partner(list, k)],
        forall|k: int| 0 <= k < s.len() ==> partner(list, #[trigger] partner(list, k)) == k,
    decreases list.len(),
{
    if list.len() > 0 {
        let init = list.drop_last();
        assert(disjoint_swaps(init)) by {
            assert forall|k: int, l: int| 0 <= k < l < init.len() implies (#[trigger] init[k]).0 != (
            #[trigger] init[l]).0 && init[k].0 != init[l].1 && init[k].1 != init[l].0 && init[k].1
                != init[l].1 by {
                assert(init[k] == list[k] && init[l] == list[l]);
            }
            assert forall|k: int| 0 <= k < init.len() implies (#[trigger] init[k]).0 != init[k].1 by {
                assert(init[k] == list[k]);
            }
        }
        assert(swaps_in_range(init, s.len() as int)) by {
            assert forall|k: int| 0 <= k < init.len() implies (#[trigger] init[k]).0 < s.len()
                && init[k].1 < s.len() by {
                assert(init[k] == list[k]);
            }
        }
        lemma_swapped_partner(s, init);
        let a = list.last().0 as int;
        let b = list.last().1 as int;
        assert(list.last() == list[list.len() - 1]);
        // Neither end of the last pair appears in the earlier pairs.
        assert forall|x: int| x == a || x == b implies partner(init, x) == x by {
            lemma_partner_absent(init, x);
            assert forall|k: int| 0 <= k < init.len() implies (#[trigger] init[k]).0 != x
                && init[k].1 != x by {
                assert(init[k] == list[k]);
            }
        }
        assert forall|k: int| 0 <= k < s.len() implies 0 <= #[trigger] partner(list, k) < s.len()
            && swapped(s, list)[k] == s[partner(list, k)] by {
            assert(swapped(s, list) == swap_seq(swapped(s, init), a, b));
            if k != a && k != b {
                assert(partner(list, k) == partner(init, k));
            }
        }
        assert forall|k: int| 0 <= k < s.len() implies partner(list, #[trigger] partner(list, k))
            == k by {
            if k != a && k != b {
                let q = partner(init, k);
                if q == a {
                    assert(partner(init, a) == a);
                } else if q == b {
                    assert(partner(init, b) == b);
                }
            }
        }
    }
}

/// An index that no pair holds is its own partner.
pub proof fn lemma_partner_absent(list: Seq<(u16, u16)>, x: int)
    requires
        forall|k: int| 0 <= k < list.len() ==> (#[trigger] list[k]).0 != x && list[k].1 != x,
    ensures
        partner(list, x) == x,
    decreases list.len(),
{
    if list.len() > 0 {
        assert(list.last() == list[list.len() - 1]);
        let init = list.drop_last();
        assert forall|k: int| 0 <= k < init.len() implies (#[trigger] init[k]).0 != x && init[k].1
            != x by {
            assert(init[k] == list[k]);
        }
        lemma_partner_absent(init, x);
    }
}

/// Applying disjoint swaps twice restores the sequence: the second
/// application undoes the first.
pub proof fn law_swap_twice_restores<T>(s: Seq<T>, list: Seq<(u16, u16)>)
    requires
        disjoint_swaps(list),
        swaps_in_range(list, s.len() as int),
    ensures
        swapped(swapped(s, list), list) == s,
{
    lemma_swapped_partner(s, list);
    lemma_swapped_partner(swapped(s, list), list);
    assert(swapped(swapped(s, list), list) =~= s);
}

} // verus!
