//! The style values that the cascade works on.
//!
//! A node carries a `State` with the properties its element specified, and a
//! cached `ComputedValues` with the fully resolved style written by the last
//! cascade pass.  The cascade resolves a node by merging its parent's
//! `ComputedValues` with the node's own `SpecifiedValues`, property by
//! property: an unspecified property keeps the inherited value.

use vstd::prelude::*;

verus! {

/// Overflow handling for an element's viewport: the one property the tree
/// core itself ever writes (see `Tree::set_overflow_hidden`).
#[derive(Clone, Copy, Debug, PartialEq, Eq, Structural)]
pub enum Overflow {
    Visible,
    Hidden,
}

/// A property as an element wrote it: left unspecified, so the cascade keeps
/// the inherited value, or specified outright.
#[derive(Clone, Copy, Debug, PartialEq, Eq, Structural)]
pub enum SpecifiedValue<T> {
    Unspecified,
    Specified(T),
}

/// The properties one element may specify for itself.
#[derive(Clone, Copy, Debug, PartialEq, Eq, Structural)]
pub struct SpecifiedValues {
    pub color: SpecifiedValue<u32>,
    pub opacity: SpecifiedValue<u32>,
    pub overflow: SpecifiedValue<Overflow>,
}

/// Fully resolved style values for one node, cached after a cascade pass.
#[derive(Clone, Copy, Debug, PartialEq, Eq, Structural)]
pub struct ComputedValues {
    pub color: u32,
    pub opacity: u32,
    pub overflow: Overflow,
}

/// The style state attached to one node: what its element specified.
#[derive(Clone, Copy, Debug, PartialEq, Eq, Structural)]
pub struct State {
    pub values: SpecifiedValues,
}

/// One property's merge step: a specified value overrides the inherited one.
pub open spec fn spec_override<T>(inherited: T, v: SpecifiedValue<T>) -> T {
    match v {
        SpecifiedValue::Unspecified => inherited,
        SpecifiedValue::Specified(x) => x,
    }
}

/// The cascade's merge: `inherited` overridden, property by property, by
/// whatever `specified` sets.
pub open spec fn spec_merge(inherited: ComputedValues, specified: SpecifiedValues) -> ComputedValues {
    ComputedValues {
        color: spec_override(inherited.color, specified.color),
        opacity: spec_override(inherited.opacity, specified.opacity),
        overflow: spec_override(inherited.overflow, specified.overflow),
    }
}

impl SpecifiedValues {
    /// Specified values of an element that wrote nothing at all.
    pub fn empty() -> (v: SpecifiedValues)
        ensures
            v == (SpecifiedValues {
                color: SpecifiedValue::Unspecified,
                opacity: SpecifiedValue::Unspecified,
                overflow: SpecifiedValue::Unspecified,
            }),
    {
        SpecifiedValues {
            color: SpecifiedValue::Unspecified,
            opacity: SpecifiedValue::Unspecified,
            overflow: SpecifiedValue::Unspecified,
        }
    }
}

impl Default for SpecifiedValues {
    fn default() -> (v: SpecifiedValues)
        ensures
            v == (SpecifiedValues {
                color: SpecifiedValue::Unspecified,
                opacity: SpecifiedValue::Unspecified,
                overflow: SpecifiedValue::Unspecified,
            }),
    {
        SpecifiedValues::empty()
    }
}

impl ComputedValues {
    /// The initial style a cascade starts from at the root: black, fully
    /// opaque, overflow visible.
    pub open spec fn spec_initial() -> ComputedValues {
        ComputedValues { color: 0, opacity: 255, overflow: Overflow::Visible }
    }
}

impl Default for ComputedValues {
    fn default() -> (v: ComputedValues)
        ensures
            v == ComputedValues::spec_initial(),
    {
        ComputedValues { color: 0, opacity: 255, overflow: Overflow::Visible }
    }
}

impl State {
    pub fn new() -> (s: State)
        ensures
            s == (State { values: SpecifiedValues {
                color: SpecifiedValue::Unspecified,
                opacity: SpecifiedValue::Unspecified,
                overflow: SpecifiedValue::Unspecified,
            } }),
    {
        State { values: SpecifiedValues::empty() }
    }

    /// Writes into `values` the style that results from cascading `*old(values)`
    /// through this state's specified overrides.
    pub fn to_computed_values(&self, values: &mut ComputedValues)
        ensures
            *final(values) == spec_merge(*old(values), self.values),
    {
        match self.values.color {
            SpecifiedValue::Unspecified => {},
            SpecifiedValue::Specified(c) => {
                values.color = c;
            },
        }
        match self.values.opacity {
            SpecifiedValue::Unspecified => {},
            SpecifiedValue::Specified(o) => {
                values.opacity = o;
            },
        }
        match self.values.overflow {
            SpecifiedValue::Unspecified => {},
            SpecifiedValue::Specified(f) => {
                values.overflow = f;
            },
        }
    }
}

impl Default for State {
    fn default() -> (s: State)
        ensures
            s.values == (SpecifiedValues {
                color: SpecifiedValue::Unspecified,
                opacity: SpecifiedValue::Unspecified,
                overflow: SpecifiedValue::Unspecified,
            }),
    {
        State::new()
    }
}

} // verus!
