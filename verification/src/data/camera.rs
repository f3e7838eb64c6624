//! The viewport camera.
//!
//! All components are scalars in library units; the engine carries and merges
//! them but leaves projection mathematics to the GPU backend.

use crate::data::value::{arr16_eq, arr2_eq, AnyValue};
use vstd::prelude::*;

verus! {

/// The tag under which a camera travels as a dynamic value.
pub const CAMERA_ANY_TAG: u64 = 1;

/// A perspective camera.
#[derive(Debug, Clone, Copy)]
pub struct Camera {
    /// Viewport offset.
    pub offset: [i64; 2],
    /// Viewport width.
    pub width: i64,
    /// Viewport height.
    pub height: i64,
    /// Transform matrix, carried but never interpreted by the engine.
    pub transform: [i64; 16],
    /// Field of view, carried but never interpreted by the engine.
    pub fov: i64,
    /// Near clip plane.
    pub clip_near: i64,
    /// Far clip plane.
    pub clip_far: i64,
}

impl Camera {
    /// Creates a new camera with an identity transform, near and far clip
    /// planes, and a 1x1 viewport at the origin.
    pub fn new() -> (r: Camera)
        ensures
            r.offset@ =~= seq![0i64, 0i64],
            r.width == 1,
            r.height == 1,
            r.fov == 1,
            r.clip_near == 0,
            r.clip_far == 100,
    {
        Camera {
            offset: [0, 0],
            width: 1,
            height: 1,
            transform: [1, 0, 0, 0, 0, 1, 0, 0, 0, 0, 1, 0, 0, 0, 0, 1],
            fov: 1,
            clip_near: 0,
            clip_far: 100,
        }
    }

    pub fn camera_eq(&self, other: &Camera) -> (r: bool)
        ensures
            r == (*self == *other),
    {
        let e = arr2_eq(&self.offset, &other.offset) && self.width == other.width && self.height
            == other.height && arr16_eq(&self.transform, &other.transform) && self.fov == other.fov
            && self.clip_near == other.clip_near && self.clip_far == other.clip_far;
        proof {
            if e {
                assert(self.offset =~= other.offset);
                assert(self.transform =~= other.transform);
            }
        }
        e
    }

    /// Packs this camera into a tagged dynamic value.
    pub fn into_any(&self) -> (r: AnyValue)
        ensures
            r.type_tag == CAMERA_ANY_TAG,
            r.data@.len() == 23,
            r.data@[0] == self.offset@[0],
            r.data@[1] == self.offset@[1],
            r.data@[2] == self.width,
            r.data@[3] == self.height,
            forall|i: int| 0 <= i < 16 ==> r.data@[4 + i] == self.transform@[i],
            r.data@[20] == self.fov,
            r.data@[21] == self.clip_near,
            r.data@[22] == self.clip_far,
    {
        let mut data: Vec<i64> = Vec::new();
        data.push(self.offset[0]);
        data.push(self.offset[1]);
        data.push(self.width);
        data.push(self.height);
        let mut j: usize = 0;
        while j < 16
            invariant
                j <= 16,
                data@.len() == 4 + j,
                data@[0] == self.offset@[0],
                data@[1] == self.offset@[1],
                data@[2] == self.width,
                data@[3] == self.height,
                forall|i: int| 0 <= i < j ==> data@[4 + i] == self.transform@[i],
            decreases 16 - j,
        {
            data.push(self.transform[j]);
            j += 1;
        }
        data.push(self.fov);
        data.push(self.clip_near);
        data.push(self.clip_far);
        AnyValue { type_tag: CAMERA_ANY_TAG, data }
    }

    /// Unpacks a camera from a tagged dynamic value, checking the tag.
    pub fn from_any(v: &AnyValue) -> (r: Option<Camera>)
        ensures
            match r {
                Some(c) => {
                    &&& v.type_tag == CAMERA_ANY_TAG
                    &&& v.data@.len() == 23
                    &&& c.offset@[0] == v.data@[0]
                    &&& c.offset@[1] == v.data@[1]
                    &&& c.width == v.data@[2]
                    &&& c.height == v.data@[3]
                    &&& forall|i: int| 0 <= i < 16 ==> c.transform@[i] == v.data@[4 + i]
                    &&& c.fov == v.data@[20]
                    &&& c.clip_near == v.data@[21]
                    &&& c.clip_far == v.data@[22]
                },
                None => v.type_tag != CAMERA_ANY_TAG || v.data@.len() != 23,
            },
    {
        if v.type_tag != CAMERA_ANY_TAG || v.data.len() != 23 {
            return None;
        }
        let mut transform: [i64; 16] = [0, 0, 0, 0, 0, 0, 0, 0, 0, 0, 0, 0, 0, 0, 0, 0];
        let mut j: usize = 0;
        while j < 16
            invariant
                j <= 16,
                v.data@.len() == 23,
                forall|i: int| 0 <= i < j ==> transform@[i] == v.data@[4 + i],
            decreases 16 - j,
        {
            transform[j] = v.data[4 + j];
            j += 1;
        }
        Some(
            Camera {
                offset: [v.data[0], v.data[1]],
                width: v.data[2],
                height: v.data[3],
                transform,
                fov: v.data[20],
                clip_near: v.data[21],
                clip_far: v.data[22],
            },
        )
    }
}

/// A camera, packed and unpacked again, comes back unchanged.
pub proof fn lemma_camera_any_round_trip(c: Camera, packed: AnyValue, unpacked: Option<Camera>)
    requires
        packed.type_tag == CAMERA_ANY_TAG,
        packed.data.len() == 23,
        packed.data@[0] == c.offset@[0],
        packed.data@[1] == c.offset@[1],
        packed.data@[2] == c.width,
        packed.data@[3] == c.height,
        forall|i: int| 0 <= i < 16 ==> packed.data@[4 + i] == c.transform@[i],
        packed.data@[20] == c.fov,
        packed.data@[21] == c.clip_near,
        packed.data@[22] == c.clip_far,
        unpacked is Some,
        ({
            let u = unpacked->Some_0;
            &&& u.offset@[0] == packed.data@[0]
            &&& u.offset@[1] == packed.data@[1]
            &&& u.width == packed.data@[2]
            &&& u.height == packed.data@[3]
            &&& forall|i: int| 0 <= i < 16 ==> u.transform@[i] == packed.data@[4 + i]
            &&& u.fov == packed.data@[20]
            &&& u.clip_near == packed.data@[21]
            &&& u.clip_far == packed.data@[22]
        }),
    ensures
        unpacked == Some(c),
{
    let u = unpacked->Some_0;
    assert(u.offset =~= c.offset);
    assert(u.transform =~= c.transform);
}

} // verus!
