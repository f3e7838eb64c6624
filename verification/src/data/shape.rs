//! A 2D shape: a path with optional stroke, fill and transform.

use crate::data::color::Color;
use crate::data::path::Path2D;
use crate::data::value::arr16_eq;
use crate::data::weight::StrokeWeight;
use vstd::prelude::*;

verus! {

/// A 2D shape.
#[derive(Debug, Clone)]
pub struct Shape {
    pub path: Path2D,
    pub stroke: Option<(StrokeWeight, i64, Color)>,
    pub fill: Option<Color>,
    pub transform: Option<[i64; 16]>,
}

impl Shape {
    /// Shape equality, at the specification level.
    pub open spec fn eq_spec(self, other: Shape) -> bool {
        &&& self.path.eq_spec(other.path)
        &&& match (self.stroke, other.stroke) {
            (None, None) => true,
            (Some((w1, s1, c1)), Some((w2, s2, c2))) => w1.eq_spec(w2) && s1 == s2 && c1 == c2,
            _ => false,
        }
        &&& self.fill == other.fill
        &&& self.transform == other.transform
    }

    /// An exact copy of this shape.
    pub fn duplicate(&self) -> (r: Shape)
        ensures
            r.eq_spec(*self),
    {
        let stroke = match &self.stroke {
            None => None,
            Some((w, s, c)) => Some((w.duplicate(), *s, *c)),
        };
        let fill = self.fill;
        let transform = self.transform;
        Shape { path: self.path.duplicate(), stroke, fill, transform }
    }

    pub fn shape_eq(&self, other: &Shape) -> (r: bool)
        ensures
            r == self.eq_spec(*other),
    {
        if !self.path.path_eq(&other.path) {
            return false;
        }
        let stroke_eq = match (&self.stroke, &other.stroke) {
            (None, None) => true,
            (Some((w1, s1, c1)), Some((w2, s2, c2))) => w1.weight_eq(w2) && *s1 == *s2
                && c1.color_eq(c2),
            _ => false,
        };
        if !stroke_eq {
            return false;
        }
        let fill_eq = match (&self.fill, &other.fill) {
            (None, None) => true,
            (Some(c1), Some(c2)) => {
                let e = c1.color_eq(c2);
                proof {
                    if e {
                        assert(self.fill == other.fill);
                    }
                }
                e
            }
            _ => false,
        };
        if !fill_eq {
            return false;
        }
        match (&self.transform, &other.transform) {
            (None, None) => true,
            (Some(t1), Some(t2)) => {
                let e = arr16_eq(t1, t2);
                proof {
                    if e {
                        assert(self.transform == other.transform);
                    }
                }
                e
            }
            _ => false,
        }
    }
}

} // verus!
