//! Flat cross-sections of a packing.

use vstd::prelude::*;

use crate::IntType;

verus! {

/// One brick of a two-dimensional cross-section: its corner and its extent
/// along the two axes that vary.
#[derive(Clone, Copy, Debug, PartialEq, Eq, Structural)]
pub struct Rectangle {
    pub x: IntType,
    pub y: IntType,
    pub width: IntType,
    pub height: IntType,
}

} // verus!
