//! Stroke weight profiles.

use crate::data::value::arr3_eq;
use vstd::prelude::*;

verus! {

/// Stroke weight profile. X corresponds to the normalized position, Y
/// corresponds to weight, Z corresponds to offset; all in library units.
#[derive(Debug, Clone)]
pub struct StrokeWeight(pub Vec<WeightCmd>);

/// Stroke weight commands.
#[derive(Debug, Clone, Copy)]
pub enum WeightCmd {
    /// Line to a point (analogous to SVG L).
    LineTo([i64; 3]),
    /// Quadratic Bezier curve (analogous to SVG Q).
    QuadTo([i64; 3], [i64; 3]),
    /// Cubic Bezier curve (analogous to SVG C).
    CubicTo([i64; 3], [i64; 3], [i64; 3]),
}

impl WeightCmd {
    pub fn cmd_eq(&self, other: &WeightCmd) -> (r: bool)
        ensures
            r == (*self == *other),
    {
        match (self, other) {
            (WeightCmd::LineTo(a), WeightCmd::LineTo(b)) => arr3_eq(a, b),
            (WeightCmd::QuadTo(a1, a2), WeightCmd::QuadTo(b1, b2)) => arr3_eq(a1, b1) && arr3_eq(
                a2,
                b2,
            ),
            (WeightCmd::CubicTo(a1, a2, a3), WeightCmd::CubicTo(b1, b2, b3)) => arr3_eq(a1, b1)
                && arr3_eq(a2, b2) && arr3_eq(a3, b3),
            _ => false,
        }
    }
}

impl StrokeWeight {
    /// Profile equality, at the specification level: the same commands in
    /// the same order.
    pub open spec fn eq_spec(self, other: StrokeWeight) -> bool {
        self.0@ == other.0@
    }

    /// Creates a new empty stroke weight profile.
    pub fn new() -> (r: StrokeWeight)
        ensures
            r.0@ =~= Seq::<WeightCmd>::empty(),
    {
        StrokeWeight(Vec::new())
    }

    /// Creates a new constant stroke weight profile (i.e. full weight all the
    /// way).
    pub fn constant() -> (r: StrokeWeight)
        ensures
            r.0@.len() == 2,
            r.0@[0] == WeightCmd::LineTo([0, 1, 0]),
            r.0@[1] == WeightCmd::LineTo([1, 1, 0]),
    {
        let mut cmds: Vec<WeightCmd> = Vec::new();
        cmds.push(WeightCmd::LineTo([0, 1, 0]));
        cmds.push(WeightCmd::LineTo([1, 1, 0]));
        StrokeWeight(cmds)
    }

    /// An exact copy of this profile.
    pub fn duplicate(&self) -> (r: StrokeWeight)
        ensures
            r.eq_spec(*self),
    {
        let mut cmds: Vec<WeightCmd> = Vec::new();
        let mut j: usize = 0;
        while j < self.0.len()
            invariant
                j <= self.0@.len(),
                cmds@ == self.0@.take(j as int),
            decreases self.0@.len() - j,
        {
            cmds.push(self.0[j]);
            proof {
                assert(cmds@ =~= self.0@.take(j + 1));
            }
            j += 1;
        }
        proof {
            assert(cmds@ =~= self.0@);
        }
        StrokeWeight(cmds)
    }

    pub fn weight_eq(&self, other: &StrokeWeight) -> (r: bool)
        ensures
            r == self.eq_spec(*other),
    {
        if self.0.len() != other.0.len() {
            return false;
        }
        let mut j: usize = 0;
        while j < self.0.len()
            invariant
                j <= self.0@.len(),
                self.0@.len() == other.0@.len(),
                forall|i: int| 0 <= i < j ==> self.0@[i] == other.0@[i],
            decreases self.0@.len() - j,
        {
            if !self.0[j].cmd_eq(&other.0[j]) {
                return false;
            }
            j += 1;
        }
        proof {
            assert(self.0@ =~= other.0@);
        }
        true
    }
}

} // verus!
