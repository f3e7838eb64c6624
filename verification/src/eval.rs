//! Node evaluation interfaces: typed access to upstream values, outputs, the
//! evaluation context, and the capability traits node implementations
//! provide.

use crate::data::camera::Camera;
use crate::data::value::Value;
use crate::node::graph::NodeRef;
use crate::render::texture::{TexturePool, TextureRef};
use crate::util::{entries_sorted, keys_distinct, BSMap};
use vstd::prelude::*;

verus! {

/// An evaluation error.
#[derive(Debug, Clone)]
pub enum EvalError {
    /// Internal node error.
    Internal(String),
    /// Some node input is invalid.
    Input(String),
    /// Input for a node property is missing.
    MissingInput(usize),
    /// Input type mismatch.
    InputType(usize),
}

/// Node input values: for every port, the values cached upstream outputs
/// provide, or the node's own property as a fallback.
pub struct Input {
    pub values: BSMap<usize, Vec<Value>>,
    pub node: NodeRef,
}

impl Input {
    /// The port-to-values table.
    #[verifier::inline]
    pub open spec fn values_view(self) -> Seq<(usize, Vec<Value>)> {
        self.values@
    }

    pub open spec fn wf(self) -> bool {
        entries_sorted(self.values_view()) && keys_distinct(self.values_view())
    }

    /// Whether this port carries at least one value.
    pub open spec fn spec_has_port(self, key: usize) -> bool {
        exists|i: int|
            0 <= i < self.values_view().len() && (#[trigger] self.values_view()[i]).0 == key
                && self.values_view()[i].1@.len() > 0
    }

    /// Returns all values for the given key, or `MissingInput` if the port
    /// carries none.
    pub fn get(&self, key: usize) -> (r: Result<&Vec<Value>, EvalError>)
        requires
            self.wf(),
        ensures
            match r {
                Ok(vs) => exists|i: int|
                    0 <= i < self.values_view().len() && #[trigger] self.values_view()[i] == (
                    key,
                    *vs,
                ),
                Err(e) => e == EvalError::MissingInput(key) && !exists|i: int|
                    0 <= i < self.values_view().len() && (#[trigger] self.values_view()[i]).0
                        == key,
            },
    {
        match self.values.get(&key) {
            Some(vs) => Ok(vs),
            None => Err(EvalError::MissingInput(key)),
        }
    }

    /// Returns the first value for the key, or `MissingInput` if the port
    /// carries none.
    pub fn one(&self, key: usize) -> (r: Result<&Value, EvalError>)
        requires
            self.wf(),
        ensures
            match r {
                Ok(v) => exists|i: int|
                    {
                        &&& 0 <= i < self.values_view().len()
                        &&& (#[trigger] self.values_view()[i]).0 == key
                        &&& self.values_view()[i].1@.len() > 0
                        &&& self.values_view()[i].1@[0] == *v
                    },
                Err(e) => e == EvalError::MissingInput(key) && !self.spec_has_port(key),
            },
    {
        match self.values.get(&key) {
            Some(vs) => {
                if vs.len() > 0 {
                    Ok(&vs[0])
                } else {
                    Err(EvalError::MissingInput(key))
                }
            }
            None => Err(EvalError::MissingInput(key)),
        }
    }

    /// Returns a reference to the current node.
    pub fn node(&self) -> (r: NodeRef)
        ensures
            r == self.node,
    {
        self.node
    }
}

/// Node outputs: one value per output port.
pub struct Output {
    pub values: BSMap<usize, Value>,
}

impl Output {
    /// The port-to-value table.
    #[verifier::inline]
    pub open spec fn values_view(self) -> Seq<(usize, Value)> {
        self.values@
    }

    pub open spec fn wf(self) -> bool {
        entries_sorted(self.values_view()) && keys_distinct(self.values_view())
    }

    pub fn new() -> (r: Output)
        ensures
            r.wf(),
            r.values_view() =~= Seq::<(usize, Value)>::empty(),
    {
        Output { values: BSMap::new() }
    }

    /// Sets an output value.
    pub fn set(&mut self, key: usize, value: Value)
        requires
            old(self).wf(),
        ensures
            final(self).wf(),
            final(self).values_view().contains((key, value)),
            forall|e: (usize, Value)|
                #[trigger] final(self).values_view().contains(e) <==> ((old(
                    self,
                ).values_view().contains(e) && e.0 != key) || e == (key, value)),
    {
        self.values.insert(key, value);
    }
}

/// The node evaluation context handed to graphics nodes: the merged camera
/// and resolution requirements of its consumers.
#[derive(Debug, Clone, Copy)]
pub struct NodeContext {
    pub camera: Camera,
    pub resolution: i64,
}

impl NodeContext {
    pub fn camera(&self) -> (r: Camera)
        ensures
            r == self.camera,
    {
        self.camera
    }

    pub fn resolution(&self) -> (r: i64)
        ensures
            r == self.resolution,
    {
        self.resolution
    }

    /// Allocates a storage texture from the texture pool.
    pub fn new_storage_texture(
        &self,
        pool: &mut TexturePool,
        width: i64,
        height: i64,
        resolution: i64,
    ) -> (r: TextureRef)
        ensures
            r.width == width && r.height == height && r.resolution == resolution,
            r.texture_id == old(pool).next_id_spec(),
    {
        pool.storage(width, height, resolution)
    }

    /// Allocates an attachment texture from the texture pool.
    pub fn new_attachment(
        &self,
        pool: &mut TexturePool,
        width: i64,
        height: i64,
        resolution: i64,
    ) -> (r: TextureRef)
        ensures
            r.width == width && r.height == height && r.resolution == resolution,
            r.texture_id == old(pool).next_id_spec(),
    {
        pool.attachment(width, height, resolution)
    }
}

/// A data node that may only handle values directly and without context.
///
/// This is the only kind of node that may be used to compute the camera
/// transform. Implementations live outside the engine; nothing is assumed of
/// what they compute.
pub trait DataNode {
    /// Evaluates the outputs from the given inputs.
    fn eval(&mut self, input: &Input, output: &mut Output) -> Result<(), EvalError>;

    /// If true, this node will only be considered dirty if its inputs change;
    /// impure nodes are re-evaluated on every pass. True by default. The
    /// engine samples this once, when the instance is created.
    fn is_pure(&self) -> bool {
        true
    }
}

/// A graphics node with access to the render context and the texture pool.
pub trait GraphicsNode {
    /// Evaluates the outputs from the given inputs and the context. GPU
    /// command recording is the backend's concern.
    fn eval(
        &mut self,
        input: &Input,
        context: NodeContext,
        output: &mut Output,
        pool: &mut TexturePool,
    ) -> Result<(), EvalError>;
}

/// An instantiated data node.
pub struct DataInstance {
    pub node: Box<dyn DataNode>,
}

/// An instantiated graphics node.
pub struct GraphicsInstance {
    pub node: Box<dyn GraphicsNode>,
}

/// A shared data node type that may hold shared data and can create data
/// nodes.
pub trait SharedDataType {
    fn name(&self) -> String;

    fn create(&mut self) -> DataInstance;
}

/// A shared graphics node type that may hold shared data (such as shaders)
/// and can create graphics nodes.
pub trait SharedGraphicsType {
    fn name(&self) -> String;

    fn create(&mut self) -> GraphicsInstance;
}

/// A node type definition: what the renderer instantiates nodes from.
pub enum NodeTypeDef {
    Data(Box<dyn SharedDataType>),
    Graphics(Box<dyn SharedGraphicsType>),
}

} // verus!
