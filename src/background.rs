//! Background models without parameters. Their radiance is evaluated by the
//! floating-point shading code around this library.

use vstd::prelude::*;

verus! {

/// A vertical gradient from white at the horizon to pale blue overhead.
#[derive(Clone, Copy, Debug, PartialEq, Eq, Structural)]
pub struct Sky {}

/// A directional wash of light from above, black below the horizon.
#[derive(Clone, Copy, Debug, PartialEq, Eq, Structural)]
pub struct OverheadLight {}

/// The overhead-light background.
pub fn overhead_light() -> (r: OverheadLight)
    ensures
        r == (OverheadLight {}),
{
    OverheadLight {}
}

/// The sky-gradient background.
pub fn sky() -> (r: Sky)
    ensures
        r == (Sky {}),
{
    Sky {}
}

} // verus!
