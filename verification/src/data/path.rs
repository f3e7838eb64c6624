//! Two-dimensional vector paths.

use crate::data::value::arr2_eq;
use vstd::prelude::*;

verus! {

/// Two-dimensional path.
#[derive(Debug, Clone)]
pub struct Path2D(pub Vec<Path2DCmd>);

/// Path2D commands.
#[derive(Debug, Clone, Copy)]
pub enum Path2DCmd {
    /// Jump to a point (analogous to SVG M).
    JumpTo([i64; 2]),
    /// Line to a point (analogous to SVG L).
    LineTo([i64; 2]),
    /// Quadratic Bezier curve (analogous to SVG Q).
    QuadTo([i64; 2], [i64; 2]),
    /// Cubic Bezier curve (analogous to SVG C).
    CubicTo([i64; 2], [i64; 2], [i64; 2]),
    /// Close the current shape (analogous to SVG Z).
    CloseShape,
}

impl Path2DCmd {
    pub fn cmd_eq(&self, other: &Path2DCmd) -> (r: bool)
        ensures
            r == (*self == *other),
    {
        match (self, other) {
            (Path2DCmd::JumpTo(a), Path2DCmd::JumpTo(b)) => arr2_eq(a, b),
            (Path2DCmd::LineTo(a), Path2DCmd::LineTo(b)) => arr2_eq(a, b),
            (Path2DCmd::QuadTo(a1, a2), Path2DCmd::QuadTo(b1, b2)) => arr2_eq(a1, b1) && arr2_eq(
                a2,
                b2,
            ),
            (Path2DCmd::CubicTo(a1, a2, a3), Path2DCmd::CubicTo(b1, b2, b3)) => arr2_eq(a1, b1)
                && arr2_eq(a2, b2) && arr2_eq(a3, b3),
            (Path2DCmd::CloseShape, Path2DCmd::CloseShape) => true,
            _ => false,
        }
    }
}

impl Path2D {
    /// Path equality, at the specification level: the same commands in the
    /// same order.
    pub open spec fn eq_spec(self, other: Path2D) -> bool {
        self.0@ == other.0@
    }

    /// Creates a new empty path.
    pub fn new() -> (r: Path2D)
        ensures
            r.0@ =~= Seq::<Path2DCmd>::empty(),
    {
        Path2D(Vec::new())
    }

    /// Returns a reference to the list of path commands.
    pub fn commands(&self) -> (r: &Vec<Path2DCmd>)
        ensures
            r@ == self.0@,
    {
        &self.0
    }

    /// Returns a mutable reference to the path commands.
    pub fn commands_mut(&mut self) -> (r: &mut Vec<Path2DCmd>)
        ensures
            r@ == old(self).0@,
            final(self).0@ == final(r)@,
    {
        &mut self.0
    }

    /// An exact copy of this path.
    pub fn duplicate(&self) -> (r: Path2D)
        ensures
            r.eq_spec(*self),
    {
        let mut cmds: Vec<Path2DCmd> = Vec::new();
        let mut j: usize = 0;
        while j < self.0.len()
            invariant
                j <= self.0@.len(),
                cmds@ == self.0@.take(j as int),
            decreases self.0@.len() - j,
        {
            cmds.push(self.0[j]);
            proof {
                assert(cmds@ =~= self.0@.take(j + 1));
            }
            j += 1;
        }
        proof {
            assert(cmds@ =~= self.0@);
        }
        Path2D(cmds)
    }

    pub fn path_eq(&self, other: &Path2D) -> (r: bool)
        ensures
            r == self.eq_spec(*other),
    {
        if self.0.len() != other.0.len() {
            return false;
        }
        let mut j: usize = 0;
        while j < self.0.len()
            invariant
                j <= self.0@.len(),
                self.0@.len() == other.0@.len(),
                forall|i: int| 0 <= i < j ==> self.0@[i] == other.0@[i],
            decreases self.0@.len() - j,
        {
            if !self.0[j].cmd_eq(&other.0[j]) {
                return false;
            }
            j += 1;
        }
        proof {
            assert(self.0@ =~= other.0@);
        }
        true
    }
}

} // verus!
