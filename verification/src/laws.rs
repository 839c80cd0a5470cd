//! What holds of every ring, whatever was added to it and removed from it.

use vstd::prelude::*;
use crate::hasher::KeyHasher;
use crate::keyspace::{
    ascending, rank, lemma_filter_ascending, lemma_rank_bound, lemma_rank_is_split_index,
    lemma_rank_splits,
};
use crate::ring::{HashRing, identity_of};
use crate::state::{RingState, virtual_point};
use crate::walk::{Direction, first_seen, lemma_first_seen_of_front, step_index};

verus! {

/// The virtual points of the node `identity` on a ring with `replicas`
/// replicas.
pub open spec fn claimed<H: KeyHasher>(hasher: H, identity: Seq<char>, replicas: nat) -> Set<u64> {
    Set::new(|p: u64| exists|i: nat| i < replicas && virtual_point(hasher, identity, i) == p)
}

/// Whether a point lies outside `points`.
pub open spec fn outside(points: Set<u64>) -> spec_fn(u64) -> bool {
    |p: u64| !points.contains(p)
}

/// The ring `state` after every point in `points` was taken away, from the
/// keyspace as often as it stood there and from the owners.
pub open spec fn cleared(state: RingState, points: Set<u64>) -> RingState {
    RingState {
        keyspace: state.keyspace.filter(outside(points)),
        owners: state.owners.remove_keys(points),
    }
}

/// Sortedness: the keyspace of the empty ring is ascending, and adding
/// nodes to a ring or removing a node from it leaves the keyspace ascending.
pub proof fn law_keyspace_ascending<H: KeyHasher>(
    state: RingState,
    hasher: H,
    nodes: Seq<Seq<char>>,
    replicas: nat,
    identity: Seq<char>,
)
    requires
        state.wf(),
    ensures
        ascending(RingState::empty().keyspace),
        ascending(state.with_nodes(hasher, nodes, replicas).keyspace),
        ascending(state.without(identity).keyspace),
{
    state.lemma_with_nodes_wf(hasher, nodes, replicas);
    state.lemma_without_wf(identity);
}

/// Consistency: in the empty ring, and after adding nodes to a ring or
/// removing a node from it, the points of the keyspace are the points that
/// have an owner.
pub proof fn law_owners_match_keyspace<H: KeyHasher>(
    state: RingState,
    hasher: H,
    nodes: Seq<Seq<char>>,
    replicas: nat,
    identity: Seq<char>,
)
    requires
        state.wf(),
    ensures
        RingState::empty().keyspace.to_set() == RingState::empty().owners.dom(),
        state.with_nodes(hasher, nodes, replicas).keyspace.to_set() == state.with_nodes(
            hasher,
            nodes,
            replicas,
        ).owners.dom(),
        state.without(identity).keyspace.to_set() == state.without(identity).owners.dom(),
{
    state.lemma_with_nodes_wf(hasher, nodes, replicas);
    state.lemma_without_wf(identity);
    let added = state.with_nodes(hasher, nodes, replicas);
    let removed = state.without(identity);
    assert(RingState::empty().keyspace.to_set() =~= RingState::empty().owners.dom());
    assert(added.keyspace.to_set() =~= added.owners.dom());
    assert(removed.keyspace.to_set() =~= removed.owners.dom());
}

/// The owner of a position is the owner of the lowest point at or above the
/// position and, where every point lies below the position, the owner of
/// the lowest point of the ring.
pub proof fn law_get_owner_of_next_point(state: RingState, h: u64)
    requires
        state.wf(),
        state.keyspace.len() > 0,
    ensures
        ({
            let p = state.keyspace[state.start(h)];
            &&& state.get(h) == Some(state.owners[p])
            &&& state.owners.contains_key(p)
            &&& forall|q: u64| state.owners.contains_key(q) && q >= h ==> h <= p <= q
            &&& forall|q: u64| state.owners.contains_key(q) && p < h ==> p <= q < h
        }),
{
    lemma_rank_splits(state.keyspace, h);
    let at = state.start(h);
    let p = state.keyspace[at];
    assert(state.keyspace.contains(p));
    assert forall|q: u64| state.owners.contains_key(q) implies (q >= h ==> h <= p <= q) && (p < h
        ==> p <= q < h) by {
        assert(state.keyspace.contains(q));
        let i = choose|i: int| 0 <= i < state.keyspace.len() && state.keyspace[i] == q;
        if at <= i {
            assert(state.keyspace[at] <= state.keyspace[i]);
        } else {
            assert(state.keyspace[i] <= state.keyspace[at]);
        }
    }
}

/// The single lookup is the lookup of one node: on a ring with points, the
/// owner of a position is the only entry of the answer for `n == 1`, in
/// either direction, and the first entry of every longer answer.
pub proof fn law_get_is_first_of_get_n(state: RingState, h: u64, n: nat, direction: Direction)
    requires
        state.wf(),
        state.keyspace.len() > 0,
        n >= 1,
    ensures
        state.get_n(h, n, direction).len() >= 1,
        Some(state.get_n(h, n, direction)[0]) == state.get(h),
        state.get_n(h, 1, direction) == seq![state.get_n(h, n, direction)[0]],
{
    let len = state.keyspace.len();
    let start = state.start(h);
    let way = state.walk(start, direction, len);
    assert(step_index(len as int, start, 0, direction) == start) by {
        lemma_rank_bound(state.keyspace, h);
    }
    assert(way[0] == state.owner_at(start));
    lemma_first_seen_of_front(way, 1);
    assert(way.take(1).drop_last() =~= Seq::<Seq<char>>::empty());
    assert(first_seen(way.take(1).drop_last()) =~= Seq::<Seq<char>>::empty());
    assert(first_seen(way.take(1)) =~= seq![way[0]]);
    assert(first_seen(way).take(1)[0] == way[0]);
    assert(first_seen(way)[0] == way[0]);
    assert(state.get_n(h, 1, direction) =~= seq![way[0]]);
}

/// Adding no node leaves the ring as it is.
pub proof fn law_add_nothing<H: KeyHasher>(state: RingState, hasher: H, replicas: nat)
    ensures
        state.with_nodes(hasher, Seq::empty(), replicas) == state,
{
}

/// Removing a node that owns no point leaves the ring as it is.
pub proof fn law_remove_absent(state: RingState, identity: Seq<char>)
    requires
        state.wf(),
        !state.nodes().contains(identity),
    ensures
        state.without(identity) == state,
{
    assert forall|i: int| 0 <= i < state.keyspace.len() implies state.stays(identity)(
        state.keyspace[i],
    ) by {
        let p = state.keyspace[i];
        assert(state.keyspace.contains(p));
        assert(state.owners.contains_key(p));
        assert(state.owners.contains_value(state.owners[p]));
    }
    lemma_filter_all(state.keyspace, state.stays(identity));
    assert forall|p: u64| state.owners.contains_key(p) implies state.owners[p] != identity by {
        assert(state.owners.contains_value(state.owners[p]));
    }
    assert(state.without(identity).owners =~= state.owners);
}

/// Determinism: two lookups of one key on rings in the same state, under
/// the same hash policy, give the same owner.
pub proof fn law_get_deterministic<H: KeyHasher>(
    first: &HashRing<H>,
    second: &HashRing<H>,
    key: Seq<char>,
    first_owner: Option<&String>,
    second_owner: Option<&String>,
)
    requires
        first@ == second@,
        first.policy() == second.policy(),
        identity_of(first_owner) == first@.get(first.position(key)),
        identity_of(second_owner) == second@.get(second.position(key)),
    ensures
        identity_of(first_owner) == identity_of(second_owner),
{
}

/// Both directions reach every node: asked for at least as many nodes as
/// the ring has, the walk forward and the walk backward each yield every
/// node of the ring once.
pub proof fn law_both_directions_reach_all(state: RingState, h: u64, n: nat)
    requires
        state.wf(),
        n >= state.nodes().len(),
    ensures
        state.get_n(h, n, Direction::Forward).to_set() == state.nodes(),
        state.get_n(h, n, Direction::Backward).to_set() == state.nodes(),
        state.get_n(h, n, Direction::Forward).len() == state.nodes().len(),
        state.get_n(h, n, Direction::Backward).len() == state.nodes().len(),
{
    state.lemma_get_n_distinct(h, n, Direction::Forward);
    state.lemma_get_n_distinct(h, n, Direction::Backward);
    state.get_n(h, n, Direction::Forward).unique_seq_to_set();
    state.get_n(h, n, Direction::Backward).unique_seq_to_set();
    vstd::set_lib::lemma_subset_equality(
        state.get_n(h, n, Direction::Forward).to_set(),
        state.nodes(),
    );
    vstd::set_lib::lemma_subset_equality(
        state.get_n(h, n, Direction::Backward).to_set(),
        state.nodes(),
    );
}

/// Filters that agree on every entry of a sequence leave the same entries.
proof fn lemma_filter_agree(s: Seq<u64>, f: spec_fn(u64) -> bool, g: spec_fn(u64) -> bool)
    requires
        forall|i: int| 0 <= i < s.len() ==> f(s[i]) == g(s[i]),
    ensures
        s.filter(f) == s.filter(g),
    decreases s.len(),
{
    reveal(Seq::filter);
    if s.len() > 0 {
        let front = s.drop_last();
        assert forall|i: int| 0 <= i < front.len() implies f(front[i]) == g(front[i]) by {
            assert(front[i] == s[i]);
        }
        lemma_filter_agree(front, f, g);
        assert(f(s[s.len() - 1]) == g(s[s.len() - 1]));
    }
}

/// An entry that the filter rejects can be inserted anywhere without a
/// trace in what the filter leaves.
proof fn lemma_filter_skips(s: Seq<u64>, at: int, x: u64, f: spec_fn(u64) -> bool)
    requires
        0 <= at <= s.len(),
        !f(x),
    ensures
        s.insert(at, x).filter(f) == s.filter(f),
{
    let head = s.subrange(0, at);
    let tail = s.subrange(at, s.len() as int);
    Seq::filter_distributes_over_add(head.push(x), tail, f);
    head.lemma_filter_push(x, f);
    Seq::filter_distributes_over_add(head, tail, f);
    assert(head + tail =~= s);
}

/// Under a filter that rejects the virtual points of a node, the keyspace
/// after the node placed them is the keyspace before.
proof fn lemma_placed_points_filtered<H: KeyHasher>(
    state: RingState,
    hasher: H,
    identity: Seq<char>,
    count: nat,
    f: spec_fn(u64) -> bool,
)
    requires
        forall|i: nat| i < count ==> !f(#[trigger] virtual_point(hasher, identity, i)),
    ensures
        state.with_replicas(hasher, identity, count).keyspace.filter(f) == state.keyspace.filter(
            f,
        ),
    decreases count,
{
    if count > 0 {
        let i = (count - 1) as nat;
        let so_far = state.with_replicas(hasher, identity, i);
        lemma_placed_points_filtered(state, hasher, identity, i, f);
        let point = virtual_point(hasher, identity, i);
        lemma_rank_bound(so_far.keyspace, point);
        lemma_filter_skips(so_far.keyspace, rank(so_far.keyspace, point) as int, point, f);
    }
}

/// The owners after a node placed its points: the node owns its virtual
/// points, and every other point has the owner that it had.
proof fn lemma_placed_points_owners<H: KeyHasher>(
    state: RingState,
    hasher: H,
    identity: Seq<char>,
    count: nat,
)
    ensures
        forall|p: u64| #[trigger]
            state.with_replicas(hasher, identity, count).owners.contains_key(p)
                <==> state.owners.contains_key(p) || claimed(hasher, identity, count).contains(p),
        forall|p: u64|
            claimed(hasher, identity, count).contains(p) ==> #[trigger] state.with_replicas(
                hasher,
                identity,
                count,
            ).owners[p] == identity,
        forall|p: u64|
            !claimed(hasher, identity, count).contains(p) ==> #[trigger] state.with_replicas(
                hasher,
                identity,
                count,
            ).owners[p] == state.owners[p],
    decreases count,
{
    if count > 0 {
        let i = (count - 1) as nat;
        lemma_placed_points_owners(state, hasher, identity, i);
        let point = virtual_point(hasher, identity, i);
        let so_far = state.with_replicas(hasher, identity, i);
        let now = state.with_replicas(hasher, identity, count);
        assert(now.owners == so_far.owners.insert(point, identity));
        assert forall|p: u64|
            claimed(hasher, identity, count).contains(p) <==> claimed(hasher, identity, i).contains(
                p,
            ) || p == point by {
            if claimed(hasher, identity, count).contains(p) {
                let k = choose|k: nat| k < count && virtual_point(hasher, identity, k) == p;
                if k < i {
                    assert(claimed(hasher, identity, i).contains(p));
                }
            }
            if claimed(hasher, identity, i).contains(p) {
                let k = choose|k: nat| k < i && virtual_point(hasher, identity, k) == p;
                assert(k < count);
            }
            if p == point {
                assert(i < count && virtual_point(hasher, identity, i) == p);
            }
        }
    }
}

/// Removal symmetry, in full: when a node that is not on the ring is added
/// and then removed, the ring is what it was, but for the points on which
/// the node's virtual points fell: those are gone.
pub proof fn law_add_then_remove<H: KeyHasher>(
    state: RingState,
    hasher: H,
    identity: Seq<char>,
    replicas: nat,
)
    requires
        state.wf(),
        !state.nodes().contains(identity),
    ensures
        state.with_nodes(hasher, seq![identity], replicas).without(identity) == cleared(
            state,
            claimed(hasher, identity, replicas),
        ),
{
    let one = seq![identity];
    assert(one.drop_last().len() == 0);
    assert(one.last() == identity);
    assert(state.with_nodes(hasher, one.drop_last(), replicas) == state);
    let added = state.with_nodes(hasher, one, replicas);
    assert(added == state.with_replicas(hasher, identity, replicas));
    let points = claimed(hasher, identity, replicas);
    lemma_placed_points_owners(state, hasher, identity, replicas);
    let stays = added.stays(identity);
    assert forall|i: nat| i < replicas implies !stays(
        #[trigger] virtual_point(hasher, identity, i),
    ) by {
        assert(points.contains(virtual_point(hasher, identity, i)));
    }
    lemma_placed_points_filtered(state, hasher, identity, replicas, stays);
    assert forall|i: int| 0 <= i < state.keyspace.len() implies stays(state.keyspace[i])
        == outside(points)(state.keyspace[i]) by {
        let p = state.keyspace[i];
        assert(state.keyspace.contains(p));
        assert(state.owners.contains_key(p));
        if !points.contains(p) {
            assert(added.owners[p] == state.owners[p]);
            assert(state.owners.contains_value(state.owners[p]));
        }
    }
    lemma_filter_agree(state.keyspace, stays, outside(points));
    let after = added.without(identity);
    let expected = cleared(state, points);
    assert forall|p: u64| after.owners.contains_key(p) <==> expected.owners.contains_key(p) by {
        if state.owners.contains_key(p) {
            assert(state.owners.contains_value(state.owners[p]));
        }
        if points.contains(p) {
            assert(added.owners[p] == identity);
        } else {
            assert(added.owners[p] == state.owners[p]);
        }
    }
    assert forall|p: u64| after.owners.contains_key(p) implies after.owners[p]
        == expected.owners[p] by {
        if !points.contains(p) {
            assert(added.owners[p] == state.owners[p]);
        }
    }
    assert(after.owners =~= expected.owners);
}

/// Removal symmetry without collisions: when none of the virtual points of
/// a node that is not on the ring falls on a point of the ring, adding the
/// node and removing it again gives back the ring.
pub proof fn law_add_then_remove_restores<H: KeyHasher>(
    state: RingState,
    hasher: H,
    identity: Seq<char>,
    replicas: nat,
)
    requires
        state.wf(),
        !state.nodes().contains(identity),
        forall|i: nat|
            i < replicas ==> !state.owners.contains_key(
                #[trigger] virtual_point(hasher, identity, i),
            ),
    ensures
        state.with_nodes(hasher, seq![identity], replicas).without(identity) == state,
{
    law_add_then_remove(state, hasher, identity, replicas);
    let points = claimed(hasher, identity, replicas);
    let always = |p: u64| true;
    assert forall|i: int| 0 <= i < state.keyspace.len() implies outside(points)(
        state.keyspace[i],
    ) == always(state.keyspace[i]) by {
        let p = state.keyspace[i];
        assert(state.keyspace.contains(p));
        assert(state.owners.contains_key(p));
        if points.contains(p) {
            let k = choose|k: nat| k < replicas && virtual_point(hasher, identity, k) == p;
            assert(!state.owners.contains_key(virtual_point(hasher, identity, k)));
        }
    }
    lemma_filter_agree(state.keyspace, outside(points), always);
    lemma_filter_all(state.keyspace, always);
    assert forall|p: u64| state.owners.contains_key(p) implies !points.contains(p) by {
        if points.contains(p) {
            let k = choose|k: nat| k < replicas && virtual_point(hasher, identity, k) == p;
            assert(!state.owners.contains_key(virtual_point(hasher, identity, k)));
        }
    }
    assert(state.owners.remove_keys(points) =~= state.owners);
}

/// Around an entry that the filter accepts, what the filter leaves is what
/// it leaves of the entries in front, the entry, and what it leaves of the
/// entries behind.
proof fn lemma_filter_around(s: Seq<u64>, at: int, f: spec_fn(u64) -> bool)
    requires
        0 <= at < s.len(),
        f(s[at]),
    ensures
        s.filter(f) == s.take(at).filter(f).push(s[at]) + s.skip(at + 1).filter(f),
{
    let head = s.take(at);
    let tail = s.skip(at + 1);
    assert(s =~= head.push(s[at]) + tail);
    Seq::filter_distributes_over_add(head.push(s[at]), tail, f);
    head.lemma_filter_push(s[at], f);
}

/// Every entry that a filter leaves of a sequence with all entries below
/// `h` lies below `h`.
proof fn lemma_filter_below(s: Seq<u64>, f: spec_fn(u64) -> bool, h: u64)
    requires
        forall|i: int| 0 <= i < s.len() ==> s[i] < h,
    ensures
        forall|i: int| 0 <= i < s.filter(f).len() ==> s.filter(f)[i] < h,
    decreases s.len(),
{
    reveal(Seq::filter);
    if s.len() > 0 {
        let front = s.drop_last();
        assert forall|i: int| 0 <= i < front.len() implies front[i] < h by {
            assert(front[i] == s[i]);
        }
        lemma_filter_below(front, f, h);
        let left = s.filter(f);
        let before = front.filter(f);
        assert forall|i: int| 0 <= i < left.len() implies left[i] < h by {
            if i < before.len() {
                assert(left[i] == before[i]);
            } else {
                assert(left[i] == s[s.len() - 1]);
            }
        }
    }
}

/// The place at which the search for `h` begins in an ascending sequence.
spec fn start_in(s: Seq<u64>, h: u64) -> int {
    if rank(s, h) < s.len() {
        rank(s, h) as int
    } else {
        0
    }
}

/// When the point at which the search for `h` begins passes a filter, the
/// search begins at the same point in what the filter leaves.
proof fn lemma_filter_keeps_start(s: Seq<u64>, f: spec_fn(u64) -> bool, h: u64)
    requires
        ascending(s),
        s.len() > 0,
        f(s[start_in(s, h)]),
    ensures
        s.filter(f).len() > 0,
        s.filter(f)[start_in(s.filter(f), h)] == s[start_in(s, h)],
{
    let at = start_in(s, h);
    let left = s.filter(f);
    let head = s.take(at).filter(f);
    let k = head.len() as int;
    lemma_rank_splits(s, h);
    lemma_filter_around(s, at, f);
    assert(left[k] == s[at]);
    lemma_filter_ascending(s, f);
    if rank(s, h) < s.len() {
        assert forall|i: int| 0 <= i < s.take(at).len() implies s.take(at)[i] < h by {
            assert(s.take(at)[i] == s[i]);
        }
        lemma_filter_below(s.take(at), f, h);
        assert forall|i: int| 0 <= i < k implies left[i] < h by {
            assert(left[i] == head[i]);
        }
        assert forall|i: int| k <= i < left.len() implies left[i] >= h by {
            assert(left[k] <= left[i]);
        }
        lemma_rank_is_split_index(left, h, k);
    } else {
        assert(s.take(at).len() == 0);
        assert(k == 0) by {
            s.take(at).lemma_filter_len(f);
        }
        lemma_filter_below(s, f, h);
        lemma_rank_is_split_index(left, h, left.len() as int);
    }
}

/// Taking points away leaves the owner of every position whose own point
/// stays.
proof fn lemma_cleared_get(state: RingState, points: Set<u64>, h: u64)
    requires
        state.wf(),
        state.keyspace.len() > 0,
        !points.contains(state.keyspace[state.start(h)]),
    ensures
        cleared(state, points).get(h) == state.get(h),
{
    let q = state.keyspace[state.start(h)];
    assert(state.start(h) == start_in(state.keyspace, h));
    lemma_rank_bound(state.keyspace, h);
    lemma_filter_keeps_start(state.keyspace, outside(points), h);
    let left = cleared(state, points);
    assert(left.start(h) == start_in(left.keyspace, h));
    assert(left.keyspace[left.start(h)] == q);
    assert(state.keyspace.contains(q));
    assert(state.owners.contains_key(q));
}

/// Removal symmetry, as a lookup sees it: when a node that is not on the
/// ring is added and then removed, every position has the owner that it
/// had, unless a virtual point of the node fell on the point that owned it.
pub proof fn law_add_then_remove_keeps_owner<H: KeyHasher>(
    state: RingState,
    hasher: H,
    identity: Seq<char>,
    replicas: nat,
    h: u64,
)
    requires
        state.wf(),
        !state.nodes().contains(identity),
        state.keyspace.len() > 0 ==> !claimed(hasher, identity, replicas).contains(
            state.keyspace[state.start(h)],
        ),
    ensures
        state.with_nodes(hasher, seq![identity], replicas).without(identity).get(h) == state.get(h),
{
    law_add_then_remove(state, hasher, identity, replicas);
    let points = claimed(hasher, identity, replicas);
    if state.keyspace.len() > 0 {
        lemma_cleared_get(state, points, h);
    } else {
        state.keyspace.lemma_filter_len(outside(points));
    }
}

/// A filter that accepts every entry leaves the sequence as it is.
proof fn lemma_filter_all(s: Seq<u64>, f: spec_fn(u64) -> bool)
    requires
        forall|i: int| 0 <= i < s.len() ==> f(s[i]),
    ensures
        s.filter(f) == s,
    decreases s.len(),
{
    reveal(Seq::filter);
    if s.len() > 0 {
        let front = s.drop_last();
        assert forall|i: int| 0 <= i < front.len() implies f(front[i]) by {
            assert(front[i] == s[i]);
        }
        lemma_filter_all(front, f);
        assert(f(s[s.len() - 1]));
        assert(front.push(s.last()) =~= s);
    }
}

} // verus!
