//! Why a configuration cannot be turned into a site.

use vstd::prelude::*;

verus! {

/// A configuration that yields no page for some day.
#[derive(Clone, Copy, PartialEq, Eq, Structural, Debug)]
pub enum ConfigurationError {
    /// The list of offsets is empty, so no month gets a shortcut.
    EmptyOffsets,
    /// No assignment falls in `year`, though days of that year are asked for.
    NoAssignmentsInYear { year: i32 },
}

} // verus!
