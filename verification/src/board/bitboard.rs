//! The position as bit masks, under the name of its representation.

use super::position::Position;
use vstd::prelude::*;

verus! {

/// A position packed in bit masks.
pub type BitboardPosition = Position;

} // verus!
