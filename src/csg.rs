//! The operations a solid-geometry tree combines its operands with.
use vstd::prelude::*;

verus! {

/// A boolean operation on two solids.
#[derive(Clone, Copy, PartialEq, Eq, Structural, Debug)]
pub enum CsgOperation {
    Union,
    Intersection,
    Difference,
}

} // verus!
