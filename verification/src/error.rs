//! The error model: a node either processed its attributes successfully or
//! is "in error", carrying which attribute failed and why.  A node in error
//! stays in the tree for structural queries but is skipped, with its whole
//! subtree, by every draw pass.

use vstd::prelude::*;
use crate::attributes::Attribute;

verus! {

/// A raw attribute value that failed to parse.
#[derive(Clone, Debug)]
pub struct ParseError {
    pub description: String,
}

impl ParseError {
    pub fn new(description: &str) -> (e: ParseError)
        ensures
            e.description@ == description@,
    {
        ParseError { description: description.to_owned() }
    }
}

/// The failure recorded on a node: which attribute failed, and a description.
#[derive(Clone, Debug)]
pub struct NodeError {
    pub attribute: Attribute,
    pub description: String,
}

impl NodeError {
    /// A failure of `attribute` whose raw value failed to parse.
    pub fn parse_error(attribute: Attribute, error: ParseError) -> (e: NodeError)
        ensures
            e.attribute == attribute,
            e.description@ == error.description@,
    {
        NodeError { attribute, description: error.description }
    }

    /// A failure of `attribute` whose parsed value was rejected.
    pub fn value_error(attribute: Attribute, description: &str) -> (e: NodeError)
        ensures
            e.attribute == attribute,
            e.description@ == description@,
    {
        NodeError { attribute, description: description.to_owned() }
    }
}

/// How processing a node's attributes ended.
pub type NodeResult = Result<(), NodeError>;

} // verus!
