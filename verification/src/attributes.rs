//! The attribute names the tree core can recognize.
//!
//! The core itself reads only `Transform`; the rest of a property bag is
//! forwarded to the per-element behavior.

use vstd::prelude::*;

verus! {

/// A recognized attribute name.
#[derive(Clone, Copy, Debug, PartialEq, Eq, Structural)]
pub enum Attribute {
    Transform,
    Color,
    Opacity,
    Overflow,
}

} // verus!
