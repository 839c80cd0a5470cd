//! The ring as a mathematical value: the ascending sequence of virtual
//! points and the owner of each, with the operations on it as functions.

use vstd::prelude::*;
use crate::digits::decimal;
use crate::hasher::KeyHasher;
use crate::keyspace::{
    ascending, rank, lemma_filter_ascending, lemma_insert_at_rank, lemma_rank_bound,
    lemma_rank_splits,
};
use crate::walk::{Direction, at_most, first_seen, lemma_first_seen_values, step_index};

verus! {

/// What a ring holds.
pub struct RingState {
    /// The virtual points, in ascending order. A point stands here once for
    /// each time that it was placed.
    pub keyspace: Seq<u64>,
    /// The identity of the node that placed each point last.
    pub owners: Map<u64, Seq<char>>,
}

/// The bytes that are hashed for replica `i` of the node `identity`: the
/// UTF-8 form of the identity, then the decimal digits of `i`.
pub open spec fn virtual_point_input(identity: Seq<char>, i: nat) -> Seq<u8> {
    vstd::utf8::encode_utf8(identity) + decimal(i)
}

/// The virtual point of replica `i` of the node `identity` under `hasher`.
pub open spec fn virtual_point<H: KeyHasher>(hasher: H, identity: Seq<char>, i: nat) -> u64 {
    hasher.digest(virtual_point_input(identity, i))
}

impl RingState {
    /// The keyspace is ascending, and its points are exactly the points that
    /// have an owner.
    pub open spec fn wf(self) -> bool {
        &&& ascending(self.keyspace)
        &&& forall|p: u64| self.owners.contains_key(p) <==> self.keyspace.contains(p)
    }

    /// The ring without points.
    pub open spec fn empty() -> RingState {
        RingState { keyspace: Seq::empty(), owners: Map::empty() }
    }

    /// The ring after `point` was placed for `identity`: the point enters the
    /// keyspace in its place, also where it stands there already, and
    /// `identity` becomes its owner.
    pub open spec fn insert(self, point: u64, identity: Seq<char>) -> RingState {
        RingState {
            keyspace: self.keyspace.insert(rank(self.keyspace, point) as int, point),
            owners: self.owners.insert(point, identity),
        }
    }

    /// The ring after the first `count` replicas of `identity` were placed,
    /// replica 0 first.
    pub open spec fn with_replicas<H: KeyHasher>(
        self,
        hasher: H,
        identity: Seq<char>,
        count: nat,
    ) -> RingState
        decreases count,
    {
        if count == 0 {
            self
        } else {
            let i = (count - 1) as nat;
            self.with_replicas(hasher, identity, i).insert(
                virtual_point(hasher, identity, i),
                identity,
            )
        }
    }

    /// The ring after each of `nodes`, in their order, placed `replicas`
    /// points.
    pub open spec fn with_nodes<H: KeyHasher>(
        self,
        hasher: H,
        nodes: Seq<Seq<char>>,
        replicas: nat,
    ) -> RingState
        decreases nodes.len(),
    {
        if nodes.len() == 0 {
            self
        } else {
            self.with_nodes(hasher, nodes.drop_last(), replicas).with_replicas(
                hasher,
                nodes.last(),
                replicas,
            )
        }
    }

    /// Whether a point stays when `identity` leaves.
    pub open spec fn stays(self, identity: Seq<char>) -> spec_fn(u64) -> bool {
        |p: u64| self.owners[p] != identity
    }

    /// The ring after `identity` left: every point that it owns is gone from
    /// the keyspace, as often as it stood there, and from the owners.
    pub open spec fn without(self, identity: Seq<char>) -> RingState {
        RingState {
            keyspace: self.keyspace.filter(self.stays(identity)),
            owners: Map::new(
                |p: u64| self.owners.contains_key(p) && self.owners[p] != identity,
                |p: u64| self.owners[p],
            ),
        }
    }

    /// The identities that own a point.
    pub open spec fn nodes(self) -> Set<Seq<char>> {
        self.owners.values()
    }

    /// The owner of the point at index `i` of the keyspace.
    pub open spec fn owner_at(self, i: int) -> Seq<char>
        recommends
            0 <= i < self.keyspace.len(),
    {
        self.owners[self.keyspace[i]]
    }

    /// The index at which the search for position `h` begins: that of the
    /// first point at or above `h`, and 0, the lowest point, where `h` lies
    /// above every point.
    pub open spec fn start(self, h: u64) -> int {
        let r = rank(self.keyspace, h);
        if r < self.keyspace.len() {
            r as int
        } else {
            0
        }
    }

    /// The owner of position `h`, if the ring has a point.
    pub open spec fn get(self, h: u64) -> Option<Seq<char>> {
        if self.keyspace.len() == 0 {
            None
        } else {
            Some(self.owner_at(self.start(h)))
        }
    }

    /// The owners met on the first `count` steps of a walk from index
    /// `start`, the owner at `start` first.
    pub open spec fn walk(self, start: int, direction: Direction, count: nat) -> Seq<Seq<char>> {
        Seq::new(
            count,
            |k: int| self.owner_at(step_index(self.keyspace.len() as int, start, k, direction)),
        )
    }

    /// The first `n` distinct owners on one full round from the place of
    /// `h`, or all of them where the ring has fewer.
    pub open spec fn get_n(self, h: u64, n: nat, direction: Direction) -> Seq<Seq<char>> {
        at_most(first_seen(self.walk(self.start(h), direction, self.keyspace.len())), n)
    }

    /// The first `n` distinct owners from the place of `h` up to the highest
    /// point, without going round.
    pub open spec fn get_n_to_end(self, h: u64, n: nat) -> Seq<Seq<char>> {
        let start = self.start(h);
        at_most(
            first_seen(
                self.walk(start, Direction::Forward, (self.keyspace.len() - start) as nat),
            ),
            n,
        )
    }

    /// A placed point keeps a well-formed ring well-formed.
    pub proof fn lemma_insert_wf(self, point: u64, identity: Seq<char>)
        requires
            self.wf(),
        ensures
            self.insert(point, identity).wf(),
    {
        lemma_insert_at_rank(self.keyspace, point);
        lemma_rank_splits(self.keyspace, point);
        let r = rank(self.keyspace, point) as int;
        let s = self.keyspace;
        let t = self.insert(point, identity);
        assert forall|p: u64| t.owners.contains_key(p) <==> t.keyspace.contains(p) by {
            if t.keyspace.contains(p) {
                let i = choose|i: int| 0 <= i < t.keyspace.len() && t.keyspace[i] == p;
                if i < r {
                    assert(s[i] == p);
                    assert(s.contains(p));
                } else if i > r {
                    assert(s[i - 1] == p);
                    assert(s.contains(p));
                }
            }
            if t.owners.contains_key(p) {
                if p == point {
                    assert(t.keyspace[r] == p);
                } else {
                    assert(self.owners.contains_key(p));
                    assert(s.contains(p));
                    let i = choose|i: int| 0 <= i < s.len() && s[i] == p;
                    if i < r {
                        assert(t.keyspace[i] == p);
                    } else {
                        assert(t.keyspace[i + 1] == p);
                    }
                }
            }
        }
    }

    /// Placing replicas keeps a well-formed ring well-formed.
    pub proof fn lemma_with_replicas_wf<H: KeyHasher>(
        self,
        hasher: H,
        identity: Seq<char>,
        count: nat,
    )
        requires
            self.wf(),
        ensures
            self.with_replicas(hasher, identity, count).wf(),
        decreases count,
    {
        if count > 0 {
            let i = (count - 1) as nat;
            self.lemma_with_replicas_wf(hasher, identity, i);
            self.with_replicas(hasher, identity, i).lemma_insert_wf(
                virtual_point(hasher, identity, i),
                identity,
            );
        }
    }

    /// Adding nodes keeps a well-formed ring well-formed.
    pub proof fn lemma_with_nodes_wf<H: KeyHasher>(
        self,
        hasher: H,
        nodes: Seq<Seq<char>>,
        replicas: nat,
    )
        requires
            self.wf(),
        ensures
            self.with_nodes(hasher, nodes, replicas).wf(),
        decreases nodes.len(),
    {
        if nodes.len() > 0 {
            self.lemma_with_nodes_wf(hasher, nodes.drop_last(), replicas);
            self.with_nodes(hasher, nodes.drop_last(), replicas).lemma_with_replicas_wf(
                hasher,
                nodes.last(),
                replicas,
            );
        }
    }

    /// Every replica of every added node puts one point more into the
    /// keyspace, whether or not the point was there before.
    pub proof fn lemma_with_nodes_len<H: KeyHasher>(
        self,
        hasher: H,
        nodes: Seq<Seq<char>>,
        replicas: nat,
    )
        ensures
            self.with_nodes(hasher, nodes, replicas).keyspace.len() == self.keyspace.len()
                + nodes.len() * replicas,
        decreases nodes.len(),
    {
        if nodes.len() > 0 {
            let before = self.with_nodes(hasher, nodes.drop_last(), replicas);
            self.lemma_with_nodes_len(hasher, nodes.drop_last(), replicas);
            before.lemma_with_replicas_len(hasher, nodes.last(), replicas);
            assert(nodes.len() * replicas == (nodes.len() - 1) * replicas + replicas)
                by (nonlinear_arith);
        } else {
            assert(nodes.len() * replicas == 0) by (nonlinear_arith)
                requires
                    nodes.len() == 0,
            ;
        }
    }

    /// Each placed replica puts one point more into the keyspace.
    pub proof fn lemma_with_replicas_len<H: KeyHasher>(
        self,
        hasher: H,
        identity: Seq<char>,
        count: nat,
    )
        ensures
            self.with_replicas(hasher, identity, count).keyspace.len() == self.keyspace.len()
                + count,
        decreases count,
    {
        if count > 0 {
            let i = (count - 1) as nat;
            let before = self.with_replicas(hasher, identity, i);
            self.lemma_with_replicas_len(hasher, identity, i);
            lemma_rank_bound(before.keyspace, virtual_point(hasher, identity, i));
        }
    }

    /// A node that leaves keeps a well-formed ring well-formed.
    pub proof fn lemma_without_wf(self, identity: Seq<char>)
        requires
            self.wf(),
        ensures
            self.without(identity).wf(),
    {
        lemma_filter_ascending(self.keyspace, self.stays(identity));
        let after = self.without(identity);
        assert forall|p: u64| after.owners.contains_key(p) <==> after.keyspace.contains(p) by {
            assert(after.keyspace.contains(p) <==> self.keyspace.contains(p) && self.stays(
                identity,
            )(p));
            assert(self.owners.contains_key(p) <==> self.keyspace.contains(p));
        }
    }

    /// On a well-formed ring a walk of one full round meets every node, and
    /// no walk meets anything else.
    pub proof fn lemma_walk_meets_nodes(self, start: int, direction: Direction, count: nat)
        requires
            self.wf(),
            0 <= start < self.keyspace.len(),
            count <= self.keyspace.len(),
        ensures
            self.walk(start, direction, count).to_set().subset_of(self.nodes()),
            count == self.keyspace.len() ==> self.walk(start, direction, count).to_set()
                == self.nodes(),
    {
        let len = self.keyspace.len() as int;
        let w = self.walk(start, direction, count);
        assert forall|x: Seq<char>| w.to_set().contains(x) implies self.nodes().contains(x) by {
            let k = choose|k: int| 0 <= k < w.len() && w[k] == x;
            let i = step_index(len, start, k, direction);
            assert(self.keyspace.contains(self.keyspace[i]));
            assert(self.owners.contains_key(self.keyspace[i]));
        }
        if count == len {
            assert forall|x: Seq<char>| self.nodes().contains(x) implies w.to_set().contains(
                x,
            ) by {
                let p = choose|p: u64| self.owners.contains_key(p) && self.owners[p] == x;
                assert(self.keyspace.contains(p));
                let i = choose|i: int| 0 <= i < len && self.keyspace[i] == p;
                let k = match direction {
                    Direction::Forward => if i >= start {
                        i - start
                    } else {
                        i + len - start
                    },
                    Direction::Backward => if i <= start {
                        start - i
                    } else {
                        start + len - i
                    },
                };
                assert(step_index(len, start, k, direction) == i);
                assert(w[k] == x);
            }
            assert(w.to_set() =~= self.nodes());
        }
    }

    /// On a well-formed ring the lookup of several nodes yields no identity
    /// twice, only nodes of the ring, and `n` of them unless the ring has
    /// fewer: then it yields them all.
    pub proof fn lemma_get_n_distinct(self, h: u64, n: nat, direction: Direction)
        requires
            self.wf(),
        ensures
            self.get_n(h, n, direction).no_duplicates(),
            self.get_n(h, n, direction).to_set().subset_of(self.nodes()),
            self.nodes().finite(),
            self.get_n(h, n, direction).len() == if n < self.nodes().len() {
                n
            } else {
                self.nodes().len()
            },
    {
        let len = self.keyspace.len();
        let start = self.start(h);
        let w = self.walk(start, direction, len);
        let all = first_seen(w);
        lemma_first_seen_values(w);
        if len == 0 {
            assert forall|x: Seq<char>| !self.nodes().contains(x) by {
                if self.nodes().contains(x) {
                    let p = choose|p: u64| self.owners.contains_key(p) && self.owners[p] == x;
                    assert(self.keyspace.contains(p));
                }
            }
            assert(self.nodes() =~= Set::empty());
        } else {
            lemma_rank_bound(self.keyspace, h);
            self.lemma_walk_meets_nodes(start, direction, len);
        }
        let got = self.get_n(h, n, direction);
        assert forall|x: Seq<char>| got.to_set().contains(x) implies self.nodes().contains(x) by {
            let i = choose|i: int| 0 <= i < got.len() && got[i] == x;
            assert(all[i] == x);
            assert(all.to_set().contains(x));
        }
    }

    /// On a well-formed ring the lookup that stops at the highest point
    /// yields no identity twice, only nodes of the ring, and at most `n`.
    pub proof fn lemma_get_n_to_end_distinct(self, h: u64, n: nat)
        requires
            self.wf(),
        ensures
            self.get_n_to_end(h, n).no_duplicates(),
            self.get_n_to_end(h, n).to_set().subset_of(self.nodes()),
            self.nodes().finite(),
            self.get_n_to_end(h, n).len() <= n,
            self.get_n_to_end(h, n).len() <= self.nodes().len(),
    {
        let len = self.keyspace.len();
        let start = self.start(h);
        self.lemma_get_n_distinct(h, n, Direction::Forward);
        let w = self.walk(start, Direction::Forward, (len - start) as nat);
        let all = first_seen(w);
        lemma_first_seen_values(w);
        let got = self.get_n_to_end(h, n);
        if len > 0 {
            lemma_rank_bound(self.keyspace, h);
            self.lemma_walk_meets_nodes(start, Direction::Forward, (len - start) as nat);
            vstd::set_lib::lemma_len_subset(w.to_set(), self.nodes());
        }
        assert forall|x: Seq<char>| got.to_set().contains(x) implies self.nodes().contains(x) by {
            let i = choose|i: int| 0 <= i < got.len() && got[i] == x;
            assert(all[i] == x);
            assert(all.to_set().contains(x));
        }
    }
}

} // verus!
