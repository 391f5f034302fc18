//! Seal for the lawful cost models.
use vstd::prelude::*;

verus! {

/// Implemented only by this crate's lawful cost models.
pub trait Sealed {}

} // verus!
