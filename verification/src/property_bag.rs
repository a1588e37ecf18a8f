//! An ordered bag of raw attributes, as a document source hands them to a
//! node: for each attribute its name, the recognized tag when there is one,
//! and the raw value bytes.  The order of entries is whatever the source
//! produced; the core does not assume any particular order.

use vstd::prelude::*;
use crate::attributes::Attribute;

verus! {

/// One raw attribute.
#[derive(Debug)]
pub struct PropertyBagEntry {
    pub name: String,
    pub attribute: Option<Attribute>,
    pub value: Vec<u8>,
}

/// The ordered attributes of one element.
#[derive(Debug)]
pub struct PropertyBag {
    pub entries: Vec<PropertyBagEntry>,
}

impl PropertyBag {
    pub fn new() -> (bag: PropertyBag)
        ensures
            bag.entries@.len() == 0,
    {
        PropertyBag { entries: Vec::new() }
    }

    pub fn push(&mut self, entry: PropertyBagEntry)
        ensures
            final(self).entries@ == old(self).entries@.push(entry),
    {
        self.entries.push(entry);
    }

    pub fn len(&self) -> (n: usize)
        ensures
            n == self.entries@.len(),
    {
        self.entries.len()
    }
}

} // verus!
