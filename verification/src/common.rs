//! Common types shared across the library: the cache entry wrapper, the
//! operation tag stored in log records, the typed log record, and the
//! assumptions a key type must satisfy for the cache's contracts to be
//! meaningful.

use vstd::prelude::*;
use vstd::std_specs::cmp::PartialEqSpec;
use vstd::std_specs::hash::obeys_key_model;
use vstd::pervasive::cloned;
use core::hash::Hash;

verus! {

/// A single cached entry holding the user value.
#[derive(Clone, Debug)]
pub struct CacheEntry<T> {
    /// The actual value stored in the cache entry.
    pub value: T,
}

impl<T> CacheEntry<T> {
    /// Creates a new `CacheEntry` holding `value`.
    pub fn new(value: T) -> (r: Self)
        ensures
            r.value == value,
    {
        CacheEntry { value }
    }
}

/// The kind of mutation or access a log record describes.
#[derive(PartialEq, Eq, Structural, Debug, Clone, Copy)]
pub enum Operation {
    Put,
    Get,
    Remove,
}

impl Operation {
    /// The wire code of this operation: `Get` is 0, `Put` is 1, `Remove` is 2.
    pub open spec fn spec_code(self) -> u8 {
        match self {
            Operation::Get => 0,
            Operation::Put => 1,
            Operation::Remove => 2,
        }
    }

    /// Returns the number identifying this operation in the append-only log:
    /// `Get` is 0, `Put` is 1, `Remove` is 2.
    pub fn to_int(&self) -> (r: i8)
        ensures
            r == self.spec_code() as i8,
    {
        match self {
            Self::Get => 0,
            Self::Put => 1,
            Self::Remove => 2,
        }
    }

    /// Reads an operation back from its wire code; only 0, 1 and 2 name
    /// operations.
    pub fn from_int(i: u8) -> (r: Self)
        requires
            i <= 2,
        ensures
            r.spec_code() == i,
    {
        if i == 0 {
            Self::Get
        } else if i == 1 {
            Self::Put
        } else {
            Self::Remove
        }
    }
}

/// A single typed record of the append-only log: the operation, the key it
/// concerns, and the new value when the operation is a `Put`.
#[derive(Clone, Debug)]
pub struct AOFRecord<K, V> {
    pub key: K,
    pub value: Option<V>,
    pub operation: Operation,
}

/// The executable `==` of `K` agrees with logical equality: `eq` obeys its
/// specification and that specification coincides with `==` in contracts.
pub open spec fn eq_is_logical_eq<K: PartialEq>() -> bool {
    &&& K::obeys_eq_spec()
    &&& forall|a: K, b: K| #[trigger] a.eq_spec(&b) <==> a == b
}

/// Every possible result of `K::clone` is equal to the value cloned.
pub open spec fn clone_is_identity<K: Clone>() -> bool {
    forall|a: K, b: K| #[trigger] cloned::<K>(a, b) ==> b == a
}

/// What the cache asks of a key type: it behaves as a hash-table key (its
/// hash is deterministic and agrees with `==`), its `==` means logical
/// equality, and cloning it yields an equal key. Primitive integer keys
/// satisfy all three; for other key types these are the same assumptions
/// `vstd`'s own hash-map wrappers make.
pub open spec fn reliable_key<K: Eq + Hash + Clone>() -> bool {
    &&& obeys_key_model::<K>()
    &&& eq_is_logical_eq::<K>()
    &&& clone_is_identity::<K>()
}

} // verus!
