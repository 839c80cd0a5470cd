//! Ascending sequences of ring positions, and the search for the place of a
//! position among them.

use vstd::prelude::*;

verus! {

/// `s` is in ascending order; equal neighbours are allowed.
pub open spec fn ascending(s: Seq<u64>) -> bool {
    forall|i: int, j: int| 0 <= i <= j < s.len() ==> s[i] <= s[j]
}

/// The number of positions in `s` that lie strictly below `h`. In an
/// ascending sequence this is the index of the first position at or above
/// `h`, and the length of `s` when there is none.
pub open spec fn rank(s: Seq<u64>, h: u64) -> nat
    decreases s.len(),
{
    if s.len() == 0 {
        0
    } else {
        rank(s.drop_last(), h) + if s.last() < h {
            1nat
        } else {
            0nat
        }
    }
}

/// The rank of a position is at most the length of the sequence.
pub proof fn lemma_rank_bound(s: Seq<u64>, h: u64)
    ensures
        rank(s, h) <= s.len(),
    decreases s.len(),
{
    if s.len() > 0 {
        lemma_rank_bound(s.drop_last(), h);
    }
}

/// In an ascending sequence the positions below `h` are exactly those in
/// front of index `rank(s, h)`.
pub proof fn lemma_rank_splits(s: Seq<u64>, h: u64)
    requires
        ascending(s),
    ensures
        rank(s, h) <= s.len(),
        forall|i: int| 0 <= i < s.len() ==> (#[trigger] s[i] < h <==> i < rank(s, h)),
    decreases s.len(),
{
    if s.len() > 0 {
        let front = s.drop_last();
        lemma_rank_splits(front, h);
        assert forall|i: int| 0 <= i < s.len() implies (#[trigger] s[i] < h <==> i < rank(s, h)) by {
            if i < front.len() {
                assert(front[i] == s[i]);
                if s.last() < h {
                    assert(s[i] <= s[s.len() - 1]);
                }
            } else if !(s.last() < h) && rank(front, h) < front.len() {
                let r = rank(front, h) as int;
                assert(front[r] == s[r]);
                assert(s[r] <= s[s.len() - 1]);
            }
        }
    }
}

/// An index that splits an ascending sequence into the positions below `h`
/// and the positions at or above `h` is the rank of `h`.
pub proof fn lemma_rank_is_split_index(s: Seq<u64>, h: u64, k: int)
    requires
        ascending(s),
        0 <= k <= s.len(),
        forall|i: int| 0 <= i < k ==> s[i] < h,
        forall|i: int| k <= i < s.len() ==> s[i] >= h,
    ensures
        rank(s, h) == k,
{
    lemma_rank_splits(s, h);
    let r = rank(s, h) as int;
    if r < k {
        assert(s[r] < h);
    } else if k < r {
        assert(s[k] >= h);
    }
}

/// Placing `p` at its rank keeps an ascending sequence ascending.
pub proof fn lemma_insert_at_rank(s: Seq<u64>, p: u64)
    requires
        ascending(s),
    ensures
        ascending(s.insert(rank(s, p) as int, p)),
        s.insert(rank(s, p) as int, p).len() == s.len() + 1,
{
    lemma_rank_splits(s, p);
    let r = rank(s, p) as int;
    let t = s.insert(r, p);
    assert forall|i: int, j: int| 0 <= i <= j < t.len() implies t[i] <= t[j] by {
        if i < r {
            assert(t[i] == s[i]);
        } else if i > r {
            assert(t[i] == s[i - 1]);
        }
        if j < r {
            assert(t[j] == s[j]);
        } else if j > r {
            assert(t[j] == s[j - 1]);
        }
    }
}

/// What is left of an ascending sequence after filtering is ascending, and
/// holds the positions of the sequence that pass the filter.
pub proof fn lemma_filter_ascending(s: Seq<u64>, keep: spec_fn(u64) -> bool)
    requires
        ascending(s),
    ensures
        ascending(s.filter(keep)),
        forall|p: u64| #[trigger] s.filter(keep).contains(p) <==> s.contains(p) && keep(p),
    decreases s.len(),
{
    reveal(Seq::filter);
    if s.len() > 0 {
        let front = s.drop_last();
        let last = s.last();
        lemma_filter_ascending(front, keep);
        let kept = s.filter(keep);
        let kept_front = front.filter(keep);
        assert forall|p: u64| #[trigger] kept.contains(p) <==> s.contains(p) && keep(p) by {
            if kept.contains(p) {
                let i = choose|i: int| 0 <= i < kept.len() && kept[i] == p;
                if i < kept_front.len() {
                    assert(kept_front[i] == p);
                    assert(kept_front.contains(p));
                    let j = choose|j: int| 0 <= j < front.len() && front[j] == p;
                    assert(s[j] == p);
                } else {
                    assert(s[s.len() - 1] == p);
                }
            }
            if s.contains(p) && keep(p) {
                let j = choose|j: int| 0 <= j < s.len() && s[j] == p;
                if j < front.len() {
                    assert(front[j] == p);
                    assert(front.contains(p));
                    assert(kept_front.contains(p));
                    let i = choose|i: int| 0 <= i < kept_front.len() && kept_front[i] == p;
                    assert(kept[i] == p);
                } else {
                    assert(kept[kept.len() - 1] == p);
                }
            }
        }
        assert forall|i: int, j: int| 0 <= i <= j < kept.len() implies kept[i] <= kept[j] by {
            if j < kept_front.len() {
                assert(kept_front[i] <= kept_front[j]);
            } else if i < kept_front.len() {
                assert(kept_front[i] == kept[i]);
                assert(kept_front.contains(kept[i]));
                let k = choose|k: int| 0 <= k < front.len() && front[k] == kept[i];
                assert(s[k] <= s[s.len() - 1]);
            }
        }
    }
}

/// Finds the rank of `h` in an ascending vector by bisection.
pub fn lower_bound(keys: &Vec<u64>, h: u64) -> (r: usize)
    requires
        ascending(keys@),
    ensures
        r == rank(keys@, h),
        r <= keys.len(),
{
    let mut lo: usize = 0;
    let mut hi: usize = keys.len();
    while lo < hi
        invariant
            lo <= hi <= keys.len(),
            forall|i: int| 0 <= i < lo ==> keys@[i] < h,
            forall|i: int| hi <= i < keys.len() ==> keys@[i] >= h,
            ascending(keys@),
        decreases hi - lo,
    {
        let mid: usize = lo + (hi - lo) / 2;
        if keys[mid] < h {
            assert forall|i: int| 0 <= i < mid + 1 implies keys@[i] < h by {
                assert(keys@[i] <= keys@[mid as int]);
            }
            lo = mid + 1;
        } else {
            assert forall|i: int| mid <= i < keys.len() implies keys@[i] >= h by {
                assert(keys@[mid as int] <= keys@[i]);
            }
            hi = mid;
        }
    }
    proof {
        lemma_rank_is_split_index(keys@, h, lo as int);
    }
    lo
}

} // verus!
