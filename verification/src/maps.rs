//! Concurrent hash maps of the `scc` crate, with the `ahash` hasher.
//!
//! The declarations make the types known to the verifier; what each map holds, and what
//! its operations do, is stated where the map is used.

use std::hash::BuildHasher;

use vstd::prelude::*;

verus! {

/// Hasher state of the `ahash` crate.
#[verifier::external_type_specification]
#[verifier::external_body]
pub struct ExRandomState(ahash::RandomState);

/// Hasher of the `ahash` crate.
#[verifier::external_type_specification]
#[verifier::external_body]
pub struct ExAHasher(ahash::AHasher);

/// Concurrent hash map of the `scc` crate.
#[verifier::external_type_specification]
#[verifier::external_body]
#[verifier::reject_recursive_types(K)]
#[verifier::reject_recursive_types(V)]
#[verifier::reject_recursive_types(H)]
pub struct ExSccHashMap<K, V, H: BuildHasher>(scc::HashMap<K, V, H>);

/// Concurrent bounded cache of the `scc` crate.
#[verifier::external_type_specification]
#[verifier::external_body]
#[verifier::reject_recursive_types(K)]
#[verifier::reject_recursive_types(V)]
#[verifier::reject_recursive_types(H)]
pub struct ExSccHashCache<K, V, H: BuildHasher>(scc::HashCache<K, V, H>);

} // verus!
