//! Port assignments of the built-in node types, and shared property value
//! enums. The GPU work these nodes perform is the backend's concern; the
//! engine only needs their port layout.

use vstd::prelude::*;

verus! {

/// The name of the camera node type.
pub fn camera_name() -> (r: String)
    ensures
        r@ == "narwhal.camera"@,
{
    "narwhal.camera".to_string()
}

/// The name of the composite node type.
pub fn composite_name() -> (r: String)
    ensures
        r@ == "narwhal.composite"@,
{
    "narwhal.composite".to_string()
}

/// The name of the gaussian blur node type.
pub fn gaussian_name() -> (r: String)
    ensures
        r@ == "narwhal.gaussian"@,
{
    "narwhal.gaussian".to_string()
}

/// The name of the mask node type.
pub fn mask_name() -> (r: String)
    ensures
        r@ == "narwhal.mask"@,
{
    "narwhal.mask".to_string()
}

/// Ports of the camera node.
#[derive(Debug, Clone, Copy, PartialEq, Eq, Hash, Structural)]
pub enum CameraProps {
    In,
    Size,
    Offset,
    Transform,
    Fov,
    ClipNear,
    ClipFar,
}

impl CameraProps {
    /// The port index.
    pub fn index(self) -> (r: usize)
        ensures
            r == match self {
                CameraProps::In => 0usize,
                CameraProps::Size => 1usize,
                CameraProps::Offset => 2usize,
                CameraProps::Transform => 3usize,
                CameraProps::Fov => 4usize,
                CameraProps::ClipNear => 5usize,
                CameraProps::ClipFar => 6usize,
            },
    {
        match self {
            CameraProps::In => 0,
            CameraProps::Size => 1,
            CameraProps::Offset => 2,
            CameraProps::Transform => 3,
            CameraProps::Fov => 4,
            CameraProps::ClipNear => 5,
            CameraProps::ClipFar => 6,
        }
    }
}

/// Ports of the composite node.
#[derive(Debug, Clone, Copy, PartialEq, Eq, Hash, Structural)]
pub enum CompositeProps {
    In,
    Out,
}

impl CompositeProps {
    /// The port index.
    pub fn index(self) -> (r: usize)
        ensures
            r == match self {
                CompositeProps::In => 0usize,
                CompositeProps::Out => 1usize,
            },
    {
        match self {
            CompositeProps::In => 0,
            CompositeProps::Out => 1,
        }
    }
}

/// Ports of the gaussian blur node.
#[derive(Debug, Clone, Copy, PartialEq, Eq, Hash, Structural)]
pub enum GaussianProps {
    In,
    Out,
    Radius,
}

impl GaussianProps {
    /// The port index.
    pub fn index(self) -> (r: usize)
        ensures
            r == match self {
                GaussianProps::In => 0usize,
                GaussianProps::Out => 1usize,
                GaussianProps::Radius => 2usize,
            },
    {
        match self {
            GaussianProps::In => 0,
            GaussianProps::Out => 1,
            GaussianProps::Radius => 2,
        }
    }
}

/// Ports of the mask node.
#[derive(Debug, Clone, Copy, PartialEq, Eq, Hash, Structural)]
pub enum MaskProps {
    In,
    Out,
    Mask,
    Mode,
}

impl MaskProps {
    /// The port index.
    pub fn index(self) -> (r: usize)
        ensures
            r == match self {
                MaskProps::In => 0usize,
                MaskProps::Out => 1usize,
                MaskProps::Mask => 2usize,
                MaskProps::Mode => 3usize,
            },
    {
        match self {
            MaskProps::In => 0,
            MaskProps::Out => 1,
            MaskProps::Mask => 2,
            MaskProps::Mode => 3,
        }
    }
}

/// Mask modes.
///
/// Luma is obtained by taking the average of the three color channels
/// multiplied by alpha.
#[derive(Debug, Clone, Copy, PartialEq, Eq, Hash, Structural)]
pub enum MaskMode {
    /// Sets the texture alpha to the alpha of the matte.
    AlphaMatte,
    /// Sets the texture alpha to the luma of the matte.
    LumaMatte,
    /// Sets the texture alpha to the inverse of the alpha of the matte.
    AlphaCutter,
    /// Sets the texture alpha to the inverse of the luma of the matte.
    LumaCutter,
}

} // verus!
