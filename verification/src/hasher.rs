//! The hash policy of a ring: a deterministic map from bytes to a 64-bit
//! position, and the built-in policy, XXH3.

use vstd::prelude::*;

verus! {

/// A hash policy. `digest` is the mathematical function that the policy
/// computes; `hash` computes it. Since `digest` is a function, a policy hashes
/// equal inputs to equal positions.
pub trait KeyHasher {
    /// The position that this policy assigns to `input`.
    spec fn digest(&self, input: Seq<u8>) -> u64;

    /// Hashes `input`.
    fn hash(&self, input: &[u8]) -> (h: u64)
        ensures
            h == self.digest(input@),
    ;
}

/// The 64-bit XXH3 hash, unseeded, of `input`.
pub uninterp spec fn xxh3_64_of(input: Seq<u8>) -> u64;

/// Calls `xxhash_rust::xxh3::xxh3_64`. The contract claims only that the
/// result is a function of the input bytes, named `xxh3_64_of`: the function
/// takes no seed and reads no state, and never panics.
#[verifier::external_body]
fn xxh3_64(input: &[u8]) -> (h: u64)
    ensures
        h == xxh3_64_of(input@),
{
    xxhash_rust::xxh3::xxh3_64(input)
}

/// The built-in hash policy: unseeded 64-bit XXH3.
#[derive(Clone, Copy, Debug)]
pub struct Xxh3;

impl KeyHasher for Xxh3 {
    open spec fn digest(&self, input: Seq<u8>) -> u64 {
        xxh3_64_of(input)
    }

    fn hash(&self, input: &[u8]) -> (h: u64) {
        xxh3_64(input)
    }
}

/// Whether `f` can be called on every input and gives one result for each:
/// inputs with the same bytes give the same position.
pub open spec fn is_function<F: Fn(&[u8]) -> u64>(f: F) -> bool {
    &&& forall|input: &[u8]| call_requires(f, (input,))
    &&& forall|a: &[u8], b: &[u8], x: u64, y: u64|
        a@ == b@ && #[trigger] call_ensures(f, (a,), x) && #[trigger] call_ensures(f, (b,), y)
            ==> x == y
}

/// Whether a call of `f` on the bytes `input` can return `h`.
pub open spec fn may_give<F: Fn(&[u8]) -> u64>(f: F, input: Seq<u8>, h: u64) -> bool {
    exists|bytes: &[u8]| bytes@ == input && #[trigger] call_ensures(f, (bytes,), h)
}

/// The position that the function `f` gives to `input`.
pub open spec fn result_of<F: Fn(&[u8]) -> u64>(f: F, input: Seq<u8>) -> u64 {
    choose|h: u64| may_give(f, input, h)
}

/// The hash policy made of a function value, such as a closure or the name
/// of a function.
pub struct FnHasher<F: Fn(&[u8]) -> u64> {
    f: F,
}

impl<F: Fn(&[u8]) -> u64> FnHasher<F> {
    #[verifier::type_invariant]
    spec fn inv(self) -> bool {
        is_function(self.f)
    }

    /// The function that this policy calls.
    pub closed spec fn function(&self) -> F {
        self.f
    }

    /// The policy that hashes by calling `f`.
    pub fn new(f: F) -> (hasher: Self)
        requires
            is_function(f),
        ensures
            hasher.function() == f,
    {
        FnHasher { f }
    }
}

impl<F: Fn(&[u8]) -> u64> KeyHasher for FnHasher<F> {
    open spec fn digest(&self, input: Seq<u8>) -> u64 {
        result_of(self.function(), input)
    }

    fn hash(&self, input: &[u8]) -> (h: u64)
        ensures
            call_ensures(self.function(), (input,), h),
    {
        proof {
            use_type_invariant(self);
        }
        let h = (self.f)(input);
        assert(may_give(self.f, input@, h));
        h
    }
}

} // verus!
