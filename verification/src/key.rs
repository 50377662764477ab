//! A convenience key type: a fixed-width key derived from any hashable
//! value.

use vstd::prelude::*;
use core::hash::Hash;
use core::hash::Hasher;
use core::marker::PhantomData;
use std::collections::hash_map::DefaultHasher;
use crate::model::key_model;

verus! {

/// Relies on `PhantomData`'s `Clone`: `PhantomData<T>` has a single
/// value, so a clone is that same value.  The standard library's
/// implementation simply returns `Self`.
pub assume_specification<T: core::marker::PointeeSized>[ <PhantomData<T> as Clone>::clone ](
    m: &PhantomData<T>,
) -> (r: PhantomData<T>)
    ensures
        r == *m,
;

/// A key derived from a value that implements `Hash`: the key holds the
/// value's 64-bit hash.  Two keys are equal exactly when their hashes
/// are, so hash collisions are treated as identical keys — a documented
/// trade-off of this helper, not a defect.
#[derive(Clone)]
pub struct S3FIFOKey<V: Hash> {
    /// The 64-bit hash standing in for the value.
    pub hash: u64,
    /// Marks the key with the type it was derived from.
    pub phantom: PhantomData<V>,
}

impl<V: Hash> PartialEq for S3FIFOKey<V> {
    fn eq(&self, other: &Self) -> (r: bool)
        ensures
            r == (self.hash == other.hash),
    {
        self.hash == other.hash
    }
}

impl<V: Hash> vstd::std_specs::cmp::PartialEqSpecImpl for S3FIFOKey<V> {
    open spec fn obeys_eq_spec() -> bool {
        true
    }

    open spec fn eq_spec(&self, other: &Self) -> bool {
        self.hash == other.hash
    }
}

impl<V: Hash> S3FIFOKey<V> {
    /// Derive a key from a value: the value's hash under the standard
    /// library's default hasher.
    pub fn new(value: &V) -> (r: Self) {
        let mut state = DefaultHasher::new();
        feed(value, &mut state);
        let hash = state.finish();
        S3FIFOKey { hash, phantom: PhantomData }
    }
}

/// Relies on `Hash::hash`: feeds the value's representation into the
/// hasher's state.  The `Hash` trait does not promise determinism, so
/// nothing is claimed of the resulting state.
#[verifier::external_body]
fn feed<V: Hash>(value: &V, state: &mut DefaultHasher) {
    value.hash(state);
}

/// Hash equality is an equivalence relation on `S3FIFOKey`, and the
/// runtime `==` implements it, so `S3FIFOKey` is fit to serve as the
/// cache's key type.
pub proof fn lemma_s3fifokey_is_key_model<V: Hash>()
    ensures
        key_model::<S3FIFOKey<V>>(),
{
}

} // verus!
