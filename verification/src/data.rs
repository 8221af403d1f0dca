//! `Data`: what an object dataizes to.

use vstd::prelude::*;

verus! {

/// A sixteen-bit signed integer.
pub type Data = i16;

} // verus!
