//! Image patterns.

use vstd::prelude::*;

verus! {

/// How a pattern is sampled.
#[derive(Copy, Clone, Debug, PartialEq, Eq, Structural)]
pub enum FilterQuality {
    Nearest,
}

} // verus!
