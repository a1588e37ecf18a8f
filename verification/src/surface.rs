//! The drawing surface the draw pass talks to: it keeps a current transform
//! and records the drawing commands a pass produces, so that what a pass drew
//! — and what it skipped — is observable.

use vstd::prelude::*;
use crate::matrix::{Matrix, spec_multiply};
use crate::state::ComputedValues;

verus! {

/// One recorded drawing command.
#[derive(Clone, Copy, Debug, PartialEq, Eq, Structural)]
pub enum DrawOp {
    /// An isolated compositing layer opens, keyed by the style it composites
    /// under and the clipping flag.
    PushLayer(ComputedValues, bool),
    /// The matching layer closes.
    PopLayer(ComputedValues, bool),
    /// The shape of the named node is painted.
    Shape(usize),
}

/// A drawing surface: the current transform, and the log of commands drawn
/// onto it.
pub struct Surface {
    pub transform: Matrix,
    pub log: Vec<DrawOp>,
}

impl Surface {
    /// A fresh surface with the identity transform and nothing drawn.
    pub fn new() -> (s: Surface)
        ensures
            s.transform == Matrix::spec_identity(),
            s.log@.len() == 0,
    {
        Surface { transform: Matrix::identity(), log: Vec::new() }
    }

    /// The current transform.
    pub fn get_matrix(&self) -> (m: Matrix)
        ensures
            m == self.transform,
    {
        self.transform
    }

    /// Replaces the current transform.
    pub fn set_matrix(&mut self, m: Matrix)
        ensures
            final(self).transform == m,
            final(self).log@ == old(self).log@,
    {
        self.transform = m;
    }

    /// Composes `m` onto the current transform: `m` applies first, then what
    /// was current.
    pub fn compose_transform(&mut self, m: Matrix)
        ensures
            final(self).transform == spec_multiply(old(self).transform, m),
            final(self).log@ == old(self).log@,
    {
        self.transform = self.transform.multiply(&m);
    }

    /// Opens an isolated compositing layer.
    pub fn push_layer(&mut self, values: &ComputedValues, clipping: bool)
        ensures
            final(self).transform == old(self).transform,
            final(self).log@ == old(self).log@.push(DrawOp::PushLayer(*values, clipping)),
    {
        self.log.push(DrawOp::PushLayer(*values, clipping));
    }

    /// Closes the matching compositing layer.
    pub fn pop_layer(&mut self, values: &ComputedValues, clipping: bool)
        ensures
            final(self).transform == old(self).transform,
            final(self).log@ == old(self).log@.push(DrawOp::PopLayer(*values, clipping)),
    {
        self.log.push(DrawOp::PopLayer(*values, clipping));
    }

    /// Paints the shape of the named node.
    pub fn draw_shape(&mut self, id: usize)
        ensures
            final(self).transform == old(self).transform,
            final(self).log@ == old(self).log@.push(DrawOp::Shape(id)),
    {
        self.log.push(DrawOp::Shape(id));
    }
}

} // verus!
