//! Two small, stateless utilities: a canonical transaction-message digest
//! pipeline over serialized mock transactions, and a password bit-strength
//! scorer with a character-class policy and an exact, integer-only entropy
//! computation.

use vstd::prelude::*;

pub mod entropy;
pub mod password;
pub mod digest;

verus! {

/// Namespace for the utility entry points.
pub struct Util;

} // verus!
