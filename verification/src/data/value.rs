//! The value union passed between nodes.
//!
//! Scalar components are held in fixed integer library units; the engine
//! stores, compares and routes them but never computes with them.

use crate::data::color::Color;
use crate::data::path::Path2D;
use crate::data::weight::StrokeWeight;
use crate::data::drawable::Drawable;
use crate::render::texture::TextureRef;
use vstd::prelude::*;

verus! {

/// A type-erased dynamic value: a tag chosen by the producer plus its encoded
/// fields. Consumers check the tag before decoding, a capability-checked
/// downcast.
#[derive(Debug, Clone)]
pub struct AnyValue {
    pub type_tag: u64,
    pub data: Vec<i64>,
}

/// A value.
#[derive(Debug, Clone)]
pub enum Value {
    /// A scalar number, in library units.
    Float(i64),
    /// An arbitrary string.
    String(String),
    /// Two scalars.
    Vec2([i64; 2]),
    /// Three scalars.
    Vec3([i64; 3]),
    /// Four scalars.
    Vec4([i64; 4]),
    /// A 3D transformation matrix, row by row.
    Mat4([i64; 16]),
    /// A color.
    Color(Color),
    /// A path.
    Path2D(Path2D),
    /// A stroke weight profile.
    StrokeWeight(StrokeWeight),
    /// A list of drawables.
    Drawables(Vec<Drawable>),
    /// A 2D bitmap texture.
    Texture(TextureRef),
    /// Unknown or undefined type with raw bytes.
    Raw(Vec<u8>),
    /// Any intermediate value representation.
    Any(AnyValue),
}

/// Value types.
#[derive(Debug, Clone, Copy, PartialEq, Eq, Hash, Structural)]
pub enum ValueType {
    Float,
    String,
    Vec2,
    Vec3,
    Vec4,
    Mat4,
    Color,
    Path2D,
    StrokeWeight,
    Drawables,
    Texture,
    Raw,
    Any,
}

impl Value {
    /// The type name (i.e. the discriminant), at the specification level.
    pub open spec fn value_type_spec(self) -> ValueType {
        match self {
            Value::Float(..) => ValueType::Float,
            Value::String(..) => ValueType::String,
            Value::Vec2(..) => ValueType::Vec2,
            Value::Vec3(..) => ValueType::Vec3,
            Value::Vec4(..) => ValueType::Vec4,
            Value::Mat4(..) => ValueType::Mat4,
            Value::Color(..) => ValueType::Color,
            Value::Path2D(..) => ValueType::Path2D,
            Value::StrokeWeight(..) => ValueType::StrokeWeight,
            Value::Drawables(..) => ValueType::Drawables,
            Value::Texture(..) => ValueType::Texture,
            Value::Raw(..) => ValueType::Raw,
            Value::Any(..) => ValueType::Any,
        }
    }

    /// Returns the type name (i.e. the discriminant).
    pub fn value_type(&self) -> (r: ValueType)
        ensures
            r == self.value_type_spec(),
    {
        match self {
            Value::Float(..) => ValueType::Float,
            Value::String(..) => ValueType::String,
            Value::Vec2(..) => ValueType::Vec2,
            Value::Vec3(..) => ValueType::Vec3,
            Value::Vec4(..) => ValueType::Vec4,
            Value::Mat4(..) => ValueType::Mat4,
            Value::Color(..) => ValueType::Color,
            Value::Path2D(..) => ValueType::Path2D,
            Value::StrokeWeight(..) => ValueType::StrokeWeight,
            Value::Drawables(..) => ValueType::Drawables,
            Value::Texture(..) => ValueType::Texture,
            Value::Raw(..) => ValueType::Raw,
            Value::Any(..) => ValueType::Any,
        }
    }

    /// Value equality, at the specification level: componentwise equality on
    /// every variant, except that two dynamic values never compare equal.
    pub open spec fn eq_spec(self, other: Value) -> bool {
        match (self, other) {
            (Value::Float(a), Value::Float(b)) => a == b,
            (Value::String(a), Value::String(b)) => a@ == b@,
            (Value::Vec2(a), Value::Vec2(b)) => a == b,
            (Value::Vec3(a), Value::Vec3(b)) => a == b,
            (Value::Vec4(a), Value::Vec4(b)) => a == b,
            (Value::Mat4(a), Value::Mat4(b)) => a == b,
            (Value::Color(a), Value::Color(b)) => a == b,
            (Value::Path2D(a), Value::Path2D(b)) => a.eq_spec(b),
            (Value::StrokeWeight(a), Value::StrokeWeight(b)) => a.eq_spec(b),
            (Value::Drawables(a), Value::Drawables(b)) => drawables_eq_spec(a@, b@),
            (Value::Texture(a), Value::Texture(b)) => a == b,
            (Value::Raw(a), Value::Raw(b)) => a@ == b@,
            _ => false,
        }
    }

    /// Whether this value compares equal to another.
    pub fn value_eq(&self, other: &Value) -> (r: bool)
        ensures
            r == self.eq_spec(*other),
    {
        match (self, other) {
            (Value::Float(a), Value::Float(b)) => *a == *b,
            (Value::String(a), Value::String(b)) => *a == *b,
            (Value::Vec2(a), Value::Vec2(b)) => arr2_eq(a, b),
            (Value::Vec3(a), Value::Vec3(b)) => arr3_eq(a, b),
            (Value::Vec4(a), Value::Vec4(b)) => arr4_eq(a, b),
            (Value::Mat4(a), Value::Mat4(b)) => arr16_eq(a, b),
            (Value::Color(a), Value::Color(b)) => a.color_eq(b),
            (Value::Path2D(a), Value::Path2D(b)) => a.path_eq(b),
            (Value::StrokeWeight(a), Value::StrokeWeight(b)) => a.weight_eq(b),
            (Value::Drawables(a), Value::Drawables(b)) => drawables_eq(a, b),
            (Value::Texture(a), Value::Texture(b)) => a.texture_eq(b),
            (Value::Raw(a), Value::Raw(b)) => bytes_eq(a, b),
            (Value::Any(_), Value::Any(_)) => false,
            _ => false,
        }
    }
}

/// Elementwise equality of drawable lists, at the specification level.
pub open spec fn drawables_eq_spec(
    a: Seq<crate::data::drawable::Drawable>,
    b: Seq<crate::data::drawable::Drawable>,
) -> bool {
    a.len() == b.len() && forall|i: int| 0 <= i < a.len() ==> #[trigger] a[i].eq_spec(b[i])
}

pub fn arr2_eq(a: &[i64; 2], b: &[i64; 2]) -> (r: bool)
    ensures
        r == (*a == *b),
{
    let r = a[0] == b[0] && a[1] == b[1];
    proof {
        if r {
            assert(*a =~= *b);
        } else {
            assert(a@ != b@);
        }
    }
    r
}

pub fn arr3_eq(a: &[i64; 3], b: &[i64; 3]) -> (r: bool)
    ensures
        r == (*a == *b),
{
    let r = a[0] == b[0] && a[1] == b[1] && a[2] == b[2];
    proof {
        if r {
            assert(*a =~= *b);
        } else {
            assert(a@ != b@);
        }
    }
    r
}

pub fn arr4_eq(a: &[i64; 4], b: &[i64; 4]) -> (r: bool)
    ensures
        r == (*a == *b),
{
    let r = a[0] == b[0] && a[1] == b[1] && a[2] == b[2] && a[3] == b[3];
    proof {
        if r {
            assert(*a =~= *b);
        } else {
            assert(a@ != b@);
        }
    }
    r
}

pub fn arr16_eq(a: &[i64; 16], b: &[i64; 16]) -> (r: bool)
    ensures
        r == (*a == *b),
{
    let mut j: usize = 0;
    while j < 16
        invariant
            j <= 16,
            forall|i: int| 0 <= i < j ==> a@[i] == b@[i],
        decreases 16 - j,
    {
        if a[j] != b[j] {
            proof {
                assert(a@ != b@);
            }
            return false;
        }
        j += 1;
    }
    proof {
        assert(*a =~= *b);
    }
    true
}

pub fn bytes_eq(a: &Vec<u8>, b: &Vec<u8>) -> (r: bool)
    ensures
        r == (a@ == b@),
{
    if a.len() != b.len() {
        return false;
    }
    let mut j: usize = 0;
    while j < a.len()
        invariant
            j <= a@.len(),
            a@.len() == b@.len(),
            forall|i: int| 0 <= i < j ==> a@[i] == b@[i],
        decreases a@.len() - j,
    {
        if a[j] != b[j] {
            return false;
        }
        j += 1;
    }
    proof {
        assert(a@ =~= b@);
    }
    true
}

pub fn drawables_eq(a: &Vec<Drawable>, b: &Vec<Drawable>) -> (r: bool)
    ensures
        r == drawables_eq_spec(a@, b@),
{
    if a.len() != b.len() {
        return false;
    }
    let mut j: usize = 0;
    while j < a.len()
        invariant
            j <= a@.len(),
            a@.len() == b@.len(),
            forall|i: int| 0 <= i < j ==> #[trigger] a@[i].eq_spec(b@[i]),
        decreases a@.len() - j,
    {
        if !a[j].drawable_eq(&b[j]) {
            return false;
        }
        j += 1;
    }
    true
}

/// Componentwise sameness: like [`Value::eq_spec`], but dynamic values are
/// compared by their tag and payload instead of never being equal. This is
/// what an exact copy preserves.
#[verifier::opaque]
pub open spec fn same_value(a: Value, b: Value) -> bool {
    match (a, b) {
        (Value::Any(x), Value::Any(y)) => x.type_tag == y.type_tag && x.data@ == y.data@,
        _ => a.eq_spec(b),
    }
}

impl Value {
    /// An exact copy of this value; unlike a derived clone, the result is
    /// known to be the same value, component by component.
    pub fn duplicate(&self) -> (r: Value)
        ensures
            same_value(r, *self),
    {
        proof {
            reveal(same_value);
        }
        match self {
            Value::Float(x) => Value::Float(*x),
            Value::String(s) => Value::String(s.clone()),
            Value::Vec2(a) => Value::Vec2(*a),
            Value::Vec3(a) => Value::Vec3(*a),
            Value::Vec4(a) => Value::Vec4(*a),
            Value::Mat4(a) => Value::Mat4(*a),
            Value::Color(c) => Value::Color(*c),
            Value::Path2D(p) => Value::Path2D(p.duplicate()),
            Value::StrokeWeight(w) => Value::StrokeWeight(w.duplicate()),
            Value::Drawables(d) => Value::Drawables(duplicate_drawables(d)),
            Value::Texture(t) => Value::Texture(*t),
            Value::Raw(b) => Value::Raw(duplicate_bytes(b)),
            Value::Any(a) => Value::Any(a.duplicate()),
        }
    }
}

impl AnyValue {
    /// An exact copy of this container.
    pub fn duplicate(&self) -> (r: AnyValue)
        ensures
            r.type_tag == self.type_tag,
            r.data@ == self.data@,
    {
        let mut data: Vec<i64> = Vec::new();
        let mut j: usize = 0;
        while j < self.data.len()
            invariant
                j <= self.data@.len(),
                data@ == self.data@.take(j as int),
            decreases self.data@.len() - j,
        {
            data.push(self.data[j]);
            proof {
                assert(data@ =~= self.data@.take(j + 1));
            }
            j += 1;
        }
        proof {
            assert(data@ =~= self.data@);
        }
        AnyValue { type_tag: self.type_tag, data }
    }
}

pub fn duplicate_bytes(v: &Vec<u8>) -> (r: Vec<u8>)
    ensures
        r@ == v@,
{
    let mut r: Vec<u8> = Vec::new();
    let mut j: usize = 0;
    while j < v.len()
        invariant
            j <= v@.len(),
            r@ == v@.take(j as int),
        decreases v@.len() - j,
    {
        r.push(v[j]);
        proof {
            assert(r@ =~= v@.take(j + 1));
        }
        j += 1;
    }
    proof {
        assert(r@ =~= v@);
    }
    r
}

pub fn duplicate_drawables(v: &Vec<Drawable>) -> (r: Vec<Drawable>)
    ensures
        drawables_eq_spec(r@, v@),
{
    let mut r: Vec<Drawable> = Vec::new();
    let mut j: usize = 0;
    while j < v.len()
        invariant
            j <= v@.len(),
            r@.len() == j,
            forall|i: int| 0 <= i < j ==> (#[trigger] r@[i]).eq_spec(v@[i]),
        decreases v@.len() - j,
    {
        r.push(v[j].duplicate());
        j += 1;
    }
    r
}

} // verus!