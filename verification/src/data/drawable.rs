//! Drawables: shapes with a stable cache identity, eligible for on-demand
//! rasterization.

use crate::data::shape::Shape;
use crate::node::graph::NodeRef;
use vstd::prelude::*;

verus! {

/// The stable cache identity of a drawable: the producing node plus a
/// per-node index.
#[derive(Debug, Clone, Copy, PartialEq, Eq, Hash, Structural)]
pub struct DrawableId {
    pub node: NodeRef,
    pub index: u64,
}

/// A drawable: a vector shape plus a stable cache identity.
#[derive(Debug, Clone)]
pub struct Drawable {
    pub id: DrawableId,
    pub shape: Shape,
}

impl Drawable {
    /// An exact copy of this drawable.
    pub fn duplicate(&self) -> (r: Drawable)
        ensures
            r.eq_spec(*self),
    {
        Drawable { id: self.id, shape: self.shape.duplicate() }
    }

    /// Drawable equality, at the specification level.
    pub open spec fn eq_spec(self, other: Drawable) -> bool {
        self.id == other.id && self.shape.eq_spec(other.shape)
    }

    pub fn drawable_eq(&self, other: &Drawable) -> (r: bool)
        ensures
            r == self.eq_spec(*other),
    {
        self.id.node == other.id.node && self.id.index == other.id.index && self.shape.shape_eq(
            &other.shape,
        )
    }
}

} // verus!
