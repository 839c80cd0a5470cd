//! A consistent-hashing ring: node identities are placed on a circle of
//! 64-bit positions through a fixed number of virtual points each, and a key
//! belongs to the node whose virtual point follows the key's position.

pub mod digits;
pub mod hasher;
pub mod keyspace;
pub mod laws;
pub mod ring;
pub mod state;
pub mod walk;

pub use hasher::{FnHasher, KeyHasher, Xxh3};
pub use ring::{HashRing, DEFAULT_REPLICAS};
pub use state::RingState;
pub use walk::Direction;
