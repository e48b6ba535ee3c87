//! Error types shared by the protocols.

use vstd::prelude::*;

verus! {

/// The shapes of the inputs disagree: a point whose length is not the number
/// of variables, or matrices whose dimensions do not fit together.
#[derive(Clone, Copy, Debug, PartialEq, Eq, Structural)]
pub struct DimensionError;

} // verus!
