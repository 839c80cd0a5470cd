//! The ring itself: virtual points in a sorted vector, their owners in a
//! hash map, and the operations that add nodes, remove them and look keys up.

use std::collections::HashMap;
use vstd::prelude::*;
use vstd::utf8::encode_utf8;
use crate::digits::push_decimal;
use crate::hasher::{KeyHasher, Xxh3};
use crate::keyspace::lower_bound;
use crate::state::{RingState, virtual_point, virtual_point_input};
use crate::walk::{
    Direction, at_most, first_seen, lemma_first_seen_of_front, lemma_first_seen_step, step_index,
};

verus! {

broadcast use vstd::std_specs::hash::group_hash_axioms;

/// The number of virtual points per node of a ring made by `HashRing::new`.
pub const DEFAULT_REPLICAS: usize = 100;

/// A consistent-hashing ring over the hash policy `H`.
pub struct HashRing<H: KeyHasher = Xxh3> {
    replicas: usize,
    hasher: H,
    keys: Vec<u64>,
    owners: HashMap<u64, String>,
}

/// The ring that a sorted vector of points and a map of owners stand for.
spec fn state_of(keys: Seq<u64>, owners: Map<u64, String>) -> RingState {
    RingState {
        keyspace: keys,
        owners: Map::new(|p: u64| owners.contains_key(p), |p: u64| owners[p]@),
    }
}

/// The identity behind a looked-up owner.
pub open spec fn identity_of(owner: Option<&String>) -> Option<Seq<char>> {
    match owner {
        Some(s) => Some(s@),
        None => None,
    }
}

/// The identities that a sequence of strings spells.
pub open spec fn identities(names: Seq<String>) -> Seq<Seq<char>> {
    Seq::new(names.len(), |i: int| names[i]@)
}

impl<H: KeyHasher> View for HashRing<H> {
    type V = RingState;

    closed spec fn view(&self) -> RingState {
        state_of(self.keys@, self.owners@)
    }
}

/// Places one point in a sorted vector of points and records its owner.
fn place_point(
    keys: &mut Vec<u64>,
    owners: &mut HashMap<u64, String>,
    point: u64,
    identity: &str,
)
    requires
        state_of(old(keys)@, old(owners)@).wf(),
    ensures
        state_of(final(keys)@, final(owners)@) == state_of(old(keys)@, old(owners)@).insert(
            point,
            identity@,
        ),
        state_of(final(keys)@, final(owners)@).wf(),
{
    let at = lower_bound(keys, point);
    keys.insert(at, point);
    owners.insert(point, identity.to_owned());
    proof {
        let before = state_of(old(keys)@, old(owners)@);
        let after = state_of(keys@, owners@);
        assert(after.owners =~= before.insert(point, identity@).owners);
        before.lemma_insert_wf(point, identity@);
    }
}

/// Whether `name` is among `found`.
fn holds(found: &Vec<String>, name: &String) -> (yes: bool)
    ensures
        yes == identities(found@).contains(name@),
{
    let mut i: usize = 0;
    while i < found.len()
        invariant
            i <= found.len(),
            forall|k: int| 0 <= k < i ==> identities(found@)[k] != name@,
        decreases found.len() - i,
    {
        if found[i] == *name {
            assert(identities(found@)[i as int] == name@);
            return true;
        }
        i += 1;
    }
    false
}

impl<H: KeyHasher> HashRing<H> {
    /// The number of virtual points that each added node places.
    pub closed spec fn replica_count(&self) -> nat {
        self.replicas as nat
    }

    /// The hash policy of this ring.
    pub closed spec fn policy(&self) -> H {
        self.hasher
    }

    /// The position of `key` on this ring.
    pub open spec fn position(&self, key: Seq<char>) -> u64 {
        self.policy().digest(encode_utf8(key))
    }

    /// An empty ring on which each node places `replicas` virtual points,
    /// hashed by `hash_fn`. With `replicas == 0` the ring stays empty
    /// whatever is added.
    pub fn with_hash_and_replicas(replicas: usize, hash_fn: H) -> (ring: Self)
        ensures
            ring@ == RingState::empty(),
            ring@.wf(),
            ring.replica_count() == replicas,
            ring.policy() == hash_fn,
    {
        let ring = HashRing { replicas, hasher: hash_fn, keys: Vec::new(), owners: HashMap::new() };
        assert(ring@.owners =~= RingState::empty().owners);
        ring
    }

    /// Whether the ring holds no point.
    pub fn is_empty(&self) -> (empty: bool)
        ensures
            empty == (self@.keyspace.len() == 0),
    {
        self.keys.is_empty()
    }

    /// The number of virtual points that each added node places.
    pub fn replicas(&self) -> (count: usize)
        ensures
            count == self.replica_count(),
    {
        self.replicas
    }

    /// The virtual points of the ring, in ascending order.
    pub fn points(&self) -> (points: &Vec<u64>)
        ensures
            points@ == self@.keyspace,
    {
        &self.keys
    }

    /// The node that owns the virtual point `point`, if the point is on the
    /// ring.
    pub fn owner_of(&self, point: u64) -> (owner: Option<&String>)
        ensures
            identity_of(owner) == if self@.owners.contains_key(point) {
                Some(self@.owners[point])
            } else {
                None
            },
    {
        self.owners.get(&point)
    }

    /// Places `point` on the ring for the node `identity`. A point that is
    /// on the ring already stands there once more, and `identity` takes it
    /// over.
    pub fn place(&mut self, point: u64, identity: &str)
        requires
            old(self)@.wf(),
        ensures
            final(self)@ == old(self)@.insert(point, identity@),
            final(self)@.wf(),
            final(self).replica_count() == old(self).replica_count(),
            final(self).policy() == old(self).policy(),
    {
        place_point(&mut self.keys, &mut self.owners, point, identity);
    }

    /// The node that owns position `h`: the owner of the first point at or
    /// above `h`, and of the lowest point where `h` lies above them all.
    /// `None` on a ring without points.
    pub fn locate(&self, h: u64) -> (owner: Option<&String>)
        requires
            self@.wf(),
        ensures
            identity_of(owner) == self@.get(h),
    {
        let len = self.keys.len();
        if len == 0 {
            return None;
        }
        let r = lower_bound(&self.keys, h);
        let at = if r < len { r } else { 0 };
        let point = self.keys[at];
        assert(self@.keyspace.contains(point));
        assert(self@.owners.contains_key(point));
        self.owners.get(&point)
    }

    /// The virtual point of replica `i` of the node `key`: the hash of the
    /// identity followed by the decimal digits of `i`.
    pub fn generate_hash(&self, key: &str, i: usize) -> (point: u64)
        ensures
            point == virtual_point(self.policy(), key@, i as nat),
    {
        let mut input: Vec<u8> = Vec::new();
        input.extend_from_slice(key.as_bytes());
        assert(input@ =~= encode_utf8(key@));
        push_decimal(&mut input, i);
        assert(input@ == virtual_point_input(key@, i as nat));
        self.hasher.hash(input.as_slice())
    }

    /// Adds the nodes named by `keys`, in their order: each places as many
    /// virtual points as the ring has replicas. A name that is on the ring
    /// already, or that comes twice, places its points once more.
    pub fn add(&mut self, keys: &[String])
        requires
            old(self)@.wf(),
        ensures
            final(self)@ == old(self)@.with_nodes(
                old(self).policy(),
                identities(keys@),
                old(self).replica_count(),
            ),
            final(self)@.wf(),
            final(self)@.keyspace.len() == old(self)@.keyspace.len() + keys@.len() * old(
                self,
            ).replica_count(),
            final(self).replica_count() == old(self).replica_count(),
            final(self).policy() == old(self).policy(),
    {
        let ghost names = identities(keys@);
        let mut j: usize = 0;
        while j < keys.len()
            invariant
                j <= keys.len(),
                names == identities(keys@),
                self.replicas == old(self).replicas,
                self.hasher == old(self).hasher,
                self@.wf(),
                self@ == old(self)@.with_nodes(
                    old(self).hasher,
                    names.take(j as int),
                    self.replicas as nat,
                ),
            decreases keys.len() - j,
        {
            let key = &keys[j];
            let ghost base = self@;
            let mut i: usize = 0;
            while i < self.replicas
                invariant
                    i <= self.replicas,
                    self.replicas == old(self).replicas,
                    self.hasher == old(self).hasher,
                    self@.wf(),
                    self@ == base.with_replicas(self.hasher, key@, i as nat),
                decreases self.replicas - i,
            {
                let point = self.generate_hash(key.as_str(), i);
                place_point(&mut self.keys, &mut self.owners, point, key.as_str());
                i += 1;
            }
            proof {
                assert(names.take(j + 1).drop_last() =~= names.take(j as int));
                assert(names.take(j + 1).last() == key@);
            }
            j += 1;
        }
        proof {
            assert(names.take(keys.len() as int) =~= names);
            old(self)@.lemma_with_nodes_len(old(self).hasher, names, self.replicas as nat);
        }
    }

    /// The node that owns `key`, or `None` on a ring without points.
    pub fn get(&self, key: &str) -> (owner: Option<&String>)
        requires
            self@.wf(),
        ensures
            identity_of(owner) == self@.get(self.position(key@)),
    {
        if self.is_empty() {
            return None;
        }
        let h = self.hasher.hash(key.as_bytes());
        self.locate(h)
    }

    /// Removes the node `key`: every point that it owns leaves the ring.
    /// A name that owns no point changes nothing.
    pub fn remove(&mut self, key: &str)
        requires
            old(self)@.wf(),
        ensures
            final(self)@ == old(self)@.without(key@),
            final(self)@.wf(),
            final(self).replica_count() == old(self).replica_count(),
            final(self).policy() == old(self).policy(),
    {
        let wanted: String = key.to_owned();
        let ghost before = self@;
        let ghost stays = before.stays(key@);
        let mut kept: Vec<u64> = Vec::new();
        let mut i: usize = 0;
        while i < self.keys.len()
            invariant
                i <= self.keys.len(),
                before == old(self)@,
                before.wf(),
                stays == before.stays(key@),
                wanted@ == key@,
                self.keys@ == before.keyspace,
                self.replicas == old(self).replicas,
                self.hasher == old(self).hasher,
                kept@ == before.keyspace.take(i as int).filter(stays),
                forall|p: u64| #[trigger]
                    self.owners@.contains_key(p) <==> before.owners.contains_key(p) && !(
                    before.owners[p] == key@ && before.keyspace.take(i as int).contains(p)),
                forall|p: u64| #[trigger]
                    self.owners@.contains_key(p) ==> self.owners@[p]@ == before.owners[p],
            decreases self.keys.len() - i,
        {
            let point = self.keys[i];
            let ghost seen = before.keyspace.take(i as int);
            let leaves = match self.owners.get(&point) {
                Some(owner) => *owner == wanted,
                None => true,
            };
            proof {
                assert(before.keyspace.contains(point));
                assert(before.owners.contains_key(point));
                assert(leaves == !stays(point));
                assert(before.keyspace.take(i + 1) =~= seen.push(point));
                seen.lemma_filter_push(point, stays);
                assert forall|p: u64| seen.push(point).contains(p) <==> seen.contains(p) || p
                    == point by {
                    if seen.contains(p) {
                        let k = choose|k: int| 0 <= k < seen.len() && seen[k] == p;
                        assert(seen.push(point)[k] == p);
                    }
                    if p == point {
                        assert(seen.push(point)[seen.len() as int] == p);
                    }
                }
            }
            if leaves {
                self.owners.remove(&point);
            } else {
                kept.push(point);
            }
            i += 1;
        }
        proof {
            assert(before.keyspace.take(i as int) =~= before.keyspace);
        }
        self.keys = kept;
        proof {
            assert(self@.owners =~= before.without(key@).owners);
            before.lemma_without_wf(key@);
        }
    }

    /// The distinct owners met on the first `count` steps of a walk from
    /// index `start`, in the order in which they are met, until there are
    /// `n` of them.
    fn gather(
        &self,
        start: usize,
        count: usize,
        n: usize,
        direction: Direction,
    ) -> (found: Vec<String>)
        requires
            self@.wf(),
            start < self@.keyspace.len(),
            count <= self@.keyspace.len(),
        ensures
            identities(found@) == at_most(
                first_seen(self@.walk(start as int, direction, count as nat)),
                n as nat,
            ),
    {
        let len = self.keys.len();
        let ghost way = self@.walk(start as int, direction, count as nat);
        let mut found: Vec<String> = Vec::new();
        let mut at: usize = start;
        let mut steps: usize = 0;
        while steps < count && found.len() < n
            invariant
                self@.wf(),
                len == self.keys.len(),
                start < len,
                steps <= count <= len,
                at < len,
                at == step_index(len as int, start as int, steps as int, direction),
                way == self@.walk(start as int, direction, count as nat),
                found.len() <= n,
                identities(found@) == first_seen(way.take(steps as int)),
            decreases count - steps,
        {
            let point = self.keys[at];
            proof {
                assert(self@.keyspace.contains(point));
                assert(self@.owners.contains_key(point));
                assert(way[steps as int] == self.owners@[point]@);
                lemma_first_seen_step(way, steps as int);
            }
            let ghost earlier = identities(found@);
            match self.owners.get(&point) {
                Some(owner) => {
                    if !holds(&found, owner) {
                        found.push(owner.clone());
                        assert(identities(found@) =~= earlier.push(owner@));
                    }
                },
                None => {},
            }
            at = match direction {
                Direction::Forward => if at + 1 < len {
                    at + 1
                } else {
                    0
                },
                Direction::Backward => if at == 0 {
                    len - 1
                } else {
                    at - 1
                },
            };
            steps += 1;
        }
        proof {
            lemma_first_seen_of_front(way, steps as int);
            if steps == count {
                assert(way.take(steps as int) =~= way);
            }
        }
        found
    }

    /// The `n` distinct nodes nearest to position `h`, nearest first: the
    /// walk begins at the point that owns `h` and goes once round the ring
    /// in `direction`. A ring with fewer than `n` nodes yields them all.
    pub fn locate_n(&self, h: u64, n: usize, direction: Direction) -> (found: Vec<String>)
        requires
            self@.wf(),
        ensures
            identities(found@) == self@.get_n(h, n as nat, direction),
            identities(found@).no_duplicates(),
            identities(found@).to_set().subset_of(self@.nodes()),
            found.len() == if n < self@.nodes().len() {
                n as nat
            } else {
                self@.nodes().len()
            },
    {
        proof {
            self@.lemma_get_n_distinct(h, n as nat, direction);
        }
        let len = self.keys.len();
        if len == 0 || n == 0 {
            return Vec::new();
        }
        let r = lower_bound(&self.keys, h);
        let start = if r < len { r } else { 0 };
        self.gather(start, len, n, direction)
    }

    /// The `n` distinct nodes nearest to `key`, nearest first, once round
    /// the ring in `direction`. A ring with fewer than `n` nodes yields them
    /// all; `n == 0` and a ring without points yield nothing.
    pub fn get_n(&self, key: &str, n: usize, direction: Direction) -> (found: Vec<String>)
        requires
            self@.wf(),
        ensures
            identities(found@) == self@.get_n(self.position(key@), n as nat, direction),
            identities(found@).no_duplicates(),
            identities(found@).to_set().subset_of(self@.nodes()),
            found.len() == if n < self@.nodes().len() {
                n as nat
            } else {
                self@.nodes().len()
            },
    {
        if self.is_empty() || n == 0 {
            proof {
                self@.lemma_get_n_distinct(self.position(key@), n as nat, direction);
            }
            return Vec::new();
        }
        let h = self.hasher.hash(key.as_bytes());
        self.locate_n(h, n, direction)
    }

    /// The distinct nodes from the point that owns position `h` up to the
    /// highest point of the ring, until there are `n` of them. This walk
    /// does not go round: it ends at the end of the keyspace.
    pub fn locate_n_to_end(&self, h: u64, n: usize) -> (found: Vec<String>)
        requires
            self@.wf(),
        ensures
            identities(found@) == self@.get_n_to_end(h, n as nat),
            identities(found@).no_duplicates(),
            identities(found@).to_set().subset_of(self@.nodes()),
            found.len() <= n,
            found.len() <= self@.nodes().len(),
    {
        proof {
            self@.lemma_get_n_to_end_distinct(h, n as nat);
        }
        let len = self.keys.len();
        if len == 0 || n == 0 {
            return Vec::new();
        }
        let r = lower_bound(&self.keys, h);
        let start = if r < len { r } else { 0 };
        self.gather(start, len - start, n, Direction::Forward)
    }

    /// The distinct nodes from the point that owns `key` up to the highest
    /// point of the ring, until there are `n` of them, without going round.
    pub fn get_n_to_end(&self, key: &str, n: usize) -> (found: Vec<String>)
        requires
            self@.wf(),
        ensures
            identities(found@) == self@.get_n_to_end(self.position(key@), n as nat),
            identities(found@).no_duplicates(),
            identities(found@).to_set().subset_of(self@.nodes()),
            found.len() <= n,
            found.len() <= self@.nodes().len(),
    {
        if self.is_empty() || n == 0 {
            proof {
                self@.lemma_get_n_to_end_distinct(self.position(key@), n as nat);
            }
            return Vec::new();
        }
        let h = self.hasher.hash(key.as_bytes());
        self.locate_n_to_end(h, n)
    }
}

impl HashRing<Xxh3> {
    /// An empty ring with the default number of replicas, hashed by XXH3.
    pub fn new() -> (ring: Self)
        ensures
            ring@ == RingState::empty(),
            ring@.wf(),
            ring.replica_count() == DEFAULT_REPLICAS,
            ring.policy() == Xxh3,
    {
        HashRing::with_hash_and_replicas(DEFAULT_REPLICAS, Xxh3)
    }

    /// An empty ring on which each node places `replicas` virtual points,
    /// hashed by XXH3.
    pub fn new_with_replicas(replicas: usize) -> (ring: Self)
        ensures
            ring@ == RingState::empty(),
            ring@.wf(),
            ring.replica_count() == replicas,
            ring.policy() == Xxh3,
    {
        HashRing::with_hash_and_replicas(replicas, Xxh3)
    }
}

} // verus!
