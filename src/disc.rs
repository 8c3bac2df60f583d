//! Classification of a light disc against a shading hemisphere.

use vstd::prelude::*;

verus! {

/// How much of a disc lies above the horizon of a hemisphere.
#[derive(Clone, Copy, Debug, PartialEq, Eq, Structural)]
pub enum Visibility {
    Full,
    Partial,
    Hidden,
}

} // verus!
