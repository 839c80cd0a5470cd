//! Walking round the ring: the order in which indices are visited, and the
//! distinct values met on the way, in the order of their first appearance.

use vstd::prelude::*;

verus! {

/// The way in which a walk round the ring proceeds.
#[derive(Clone, Copy, Debug, PartialEq, Eq, Structural)]
pub enum Direction {
    /// Towards higher indices; after the last index comes index 0.
    Forward,
    /// Towards lower indices; after index 0 comes the last index.
    Backward,
}

/// The index reached after `k` steps from `start` on a ring of `len`
/// positions.
pub open spec fn step_index(len: int, start: int, k: int, direction: Direction) -> int
    recommends
        0 <= start < len,
        0 <= k <= len,
{
    match direction {
        Direction::Forward => if start + k < len {
            start + k
        } else {
            start + k - len
        },
        Direction::Backward => if k <= start {
            start - k
        } else {
            start + len - k
        },
    }
}

/// The values of `s` without repetitions: each value stands where it first
/// appears in `s`.
pub open spec fn first_seen<A>(s: Seq<A>) -> Seq<A>
    decreases s.len(),
{
    if s.len() == 0 {
        Seq::empty()
    } else {
        let before = first_seen(s.drop_last());
        if before.contains(s.last()) {
            before
        } else {
            before.push(s.last())
        }
    }
}

/// The first `n` entries of `s`, or all of `s` where it has fewer.
pub open spec fn at_most<A>(s: Seq<A>, n: nat) -> Seq<A> {
    if n < s.len() {
        s.take(n as int)
    } else {
        s
    }
}

/// `first_seen(s)` holds exactly the values of `s`, each of them once.
pub proof fn lemma_first_seen_values<A>(s: Seq<A>)
    ensures
        first_seen(s).no_duplicates(),
        first_seen(s).to_set() == s.to_set(),
        first_seen(s).len() == s.to_set().len(),
        first_seen(s).len() <= s.len(),
    decreases s.len(),
{
    let out = first_seen(s);
    if s.len() == 0 {
        assert(out.to_set() =~= s.to_set());
    } else {
        let front = s.drop_last();
        let before = first_seen(front);
        lemma_first_seen_values(front);
        assert forall|x: A| out.to_set().contains(x) <==> s.to_set().contains(x) by {
            if out.contains(x) {
                let i = choose|i: int| 0 <= i < out.len() && out[i] == x;
                if i < before.len() {
                    assert(before[i] == x);
                    assert(before.to_set().contains(x));
                    assert(front.contains(x));
                    let j = choose|j: int| 0 <= j < front.len() && front[j] == x;
                    assert(s[j] == x);
                } else {
                    assert(s[s.len() - 1] == x);
                }
            }
            if s.contains(x) {
                let j = choose|j: int| 0 <= j < s.len() && s[j] == x;
                if j < front.len() {
                    assert(front[j] == x);
                    assert(front.to_set().contains(x));
                    assert(before.contains(x));
                    let i = choose|i: int| 0 <= i < before.len() && before[i] == x;
                    assert(out[i] == x);
                } else if before.contains(x) {
                } else {
                    assert(out[out.len() - 1] == x);
                }
            }
        }
        assert(out.to_set() =~= s.to_set());
        out.unique_seq_to_set();
    }
    if s.len() == 0 {
        out.unique_seq_to_set();
    }
}

/// The distinct values of the first `k + 1` entries are those of the first
/// `k`, followed by entry `k` where it is new.
pub proof fn lemma_first_seen_step<A>(s: Seq<A>, k: int)
    requires
        0 <= k < s.len(),
    ensures
        first_seen(s.take(k + 1)) == if first_seen(s.take(k)).contains(s[k]) {
            first_seen(s.take(k))
        } else {
            first_seen(s.take(k)).push(s[k])
        },
{
    assert(s.take(k + 1).drop_last() =~= s.take(k));
    assert(s.take(k + 1).last() == s[k]);
}

/// The distinct values of a front part of `s` are a front part of the
/// distinct values of `s`.
pub proof fn lemma_first_seen_of_front<A>(s: Seq<A>, k: int)
    requires
        0 <= k <= s.len(),
    ensures
        first_seen(s.take(k)).len() <= first_seen(s).len(),
        first_seen(s.take(k)) == first_seen(s).take(first_seen(s.take(k)).len() as int),
    decreases s.len() - k,
{
    if k == s.len() {
        assert(s.take(k) =~= s);
        assert(first_seen(s).take(first_seen(s).len() as int) =~= first_seen(s));
    } else {
        lemma_first_seen_of_front(s, k + 1);
        lemma_first_seen_step(s, k);
        let short = first_seen(s.take(k));
        let long = first_seen(s.take(k + 1));
        assert(short =~= long.take(short.len() as int));
        assert(long.take(short.len() as int) =~= first_seen(s).take(short.len() as int));
    }
}

} // verus!
