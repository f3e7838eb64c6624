//! The graph renderer: node-instance lifecycle, per-node-per-port output
//! caching, context propagation, incremental re-evaluation and periodic
//! resource reclamation.

use crate::data::camera::Camera;
use crate::data::value::{same_value, Value};
use crate::eval::{
    DataInstance, EvalError, GraphicsInstance, Input, NodeContext, NodeTypeDef, Output,
};
use crate::node::graph::{
    contains_ref, is_cycle, reaches_downstream, Graph, Link, NodeRef, OrderError,
};
use crate::node::node::Node;
use crate::render::texture::{TexturePool, TextureRef};
use crate::util::{entries_sorted, keys_distinct, BSMap};
use vstd::prelude::*;

verus! {

/// Number of render calls between garbage collections.
pub const CYCLES_UNTIL_GC: u8 = 128;

/// A live node instance. The purity of a data node is sampled once, when the
/// instance is created.
pub enum NodeInstance {
    Data { inst: DataInstance, pure: bool },
    Graphics { inst: GraphicsInstance },
}

impl NodeInstance {
    /// Whether this instance consumes the render context (graphics nodes
    /// only).
    pub open spec fn is_graphics_spec(self) -> bool {
        self is Graphics
    }

    /// Whether this instance opted out of caching.
    pub open spec fn is_impure_spec(self) -> bool {
        match self {
            NodeInstance::Data { pure, .. } => !pure,
            NodeInstance::Graphics { .. } => false,
        }
    }

    /// Graphics nodes want their vector inputs rasterized.
    fn wants_rasterized(&self) -> (r: bool)
        ensures
            r == self.is_graphics_spec(),
    {
        match self {
            NodeInstance::Graphics { .. } => true,
            NodeInstance::Data { .. } => false,
        }
    }

    fn is_contextful(&self) -> (r: bool)
        ensures
            r == self.is_graphics_spec(),
    {
        match self {
            NodeInstance::Graphics { .. } => true,
            NodeInstance::Data { .. } => false,
        }
    }

    fn is_impure(&self) -> (r: bool)
        ensures
            r == self.is_impure_spec(),
    {
        match self {
            NodeInstance::Graphics { .. } => false,
            NodeInstance::Data { pure, .. } => !*pure,
        }
    }
}

/// Internal renderer errors that occur when something is very wrong.
#[derive(Debug, Clone)]
pub enum InternalRendererError {
    /// A node is supposed to exist but does not.
    MissingNode(NodeRef),
    /// A node was not assigned any context data even though it should have
    /// been.
    NoContext(NodeRef),
}

/// Rendering errors.
#[derive(Debug, Clone)]
pub enum RenderError {
    /// A node failed to evaluate its outputs.
    Eval(NodeRef, EvalError),
    /// A node type is missing.
    MissingNodeType(String),
    /// An internal error occurred.
    Internal(InternalRendererError),
    /// A node that is not of the Data type feeds the output node's camera
    /// inputs, but non-data nodes cannot run before the camera transform is
    /// determined.
    NonDataCameraInput(NodeRef),
    /// The graph is not acyclic.
    OrderError(OrderError),
    /// The output node did not produce a camera at its data output port.
    NoCameraData,
    /// The output node did not receive a texture at its scene input port.
    NoScene,
}

/// The value a per-port table holds at one port, if any.
pub open spec fn table_value(t: Seq<(usize, Value)>, p: usize) -> Option<Value> {
    if exists|j: int| 0 <= j < t.len() && (#[trigger] t[j]).0 == p {
        Some(t[choose|j: int| 0 <= j < t.len() && (#[trigger] t[j]).0 == p].1)
    } else {
        None
    }
}

/// The bucket a per-port input table holds at one port, if any.
pub open spec fn bucket_value(t: Seq<(usize, Vec<Value>)>, p: usize) -> Option<Vec<Value>> {
    if exists|j: int| 0 <= j < t.len() && (#[trigger] t[j]).0 == p {
        Some(t[choose|j: int| 0 <= j < t.len() && (#[trigger] t[j]).0 == p].1)
    } else {
        None
    }
}

/// Whether a gathered bucket holds, value for value, the same contents as its
/// model.
pub open spec fn bucket_matches(b: Seq<Value>, model: Seq<Value>) -> bool {
    b.len() == model.len() && forall|k: int| 0 <= k < b.len() ==> same_value(#[trigger] b[k], model[k])
}

/// Whether some entry of a cache table holds a texture with this id.
pub open spec fn seq_references(c: Seq<(NodeRef, BSMap<usize, Value>)>, id: u64) -> bool {
    exists|i: int, j: int|
        0 <= i < c.len() && 0 <= j < c[i].1@.len() && ((#[trigger] c[i].1@[j]).1 matches Value::Texture(t)
            && t.texture_id == id)
}

/// Whether a dynamic value carries a packed camera.
pub open spec fn holds_camera(av: crate::data::value::AnyValue) -> bool {
    av.type_tag == crate::data::camera::CAMERA_ANY_TAG && av.data@.len() == 23
}

/// Whether a port is the one an input gathering was told to ignore.
pub open spec fn port_ignored(ignore: Option<usize>, p: usize) -> bool {
    match ignore {
        Some(q) => q == p,
        None => false,
    }
}

/// Whether two per-port output tables hold equal values (dynamic values never
/// compare equal).
pub open spec fn ports_eq_spec(a: Seq<(usize, Value)>, b: Seq<(usize, Value)>) -> bool {
    a.len() == b.len() && forall|i: int|
        0 <= i < a.len() ==> (#[trigger] a[i]).0 == b[i].0 && a[i].1.eq_spec(b[i].1)
}

fn ports_eq(a: &BSMap<usize, Value>, b: &BSMap<usize, Value>) -> (r: bool)
    ensures
        r == ports_eq_spec(a@, b@),
{
    let av = a.iter();
    let bv = b.iter();
    if av.len() != bv.len() {
        return false;
    }
    let mut j: usize = 0;
    while j < av.len()
        invariant
            j <= av@.len(),
            av@.len() == bv@.len(),
            av@ == a@,
            bv@ == b@,
            forall|i: int|
                0 <= i < j ==> (#[trigger] av@[i]).0 == bv@[i].0 && av@[i].1.eq_spec(bv@[i].1),
        decreases av@.len() - j,
    {
        let (ka, va) = &av[j];
        let (kb, vb) = &bv[j];
        if *ka != *kb || !va.value_eq(vb) {
            return false;
        }
        j += 1;
    }
    true
}

/// In a key-distinct table, a contained pair decides the value at its key.
proof fn lemma_table_value_present(t: Seq<(usize, Value)>, k: usize, v: Value)
    requires
        keys_distinct(t),
        t.contains((k, v)),
    ensures
        table_value(t, k) == Some(v),
{
    let i = choose|i: int| 0 <= i < t.len() && t[i] == (k, v);
    assert(t[i].0 == k);
    let j = choose|j: int| 0 <= j < t.len() && (#[trigger] t[j]).0 == k;
    if i != j {
        if i < j {
            assert(t[i].0 != t[j].0);
        } else {
            assert(t[j].0 != t[i].0);
        }
    }
}

/// In a key-distinct input table, a contained pair decides the bucket at its
/// key.
proof fn lemma_bucket_value_present(t: Seq<(usize, Vec<Value>)>, k: usize, b: Vec<Value>)
    requires
        keys_distinct(t),
        t.contains((k, b)),
    ensures
        bucket_value(t, k) == Some(b),
{
    let i = choose|i: int| 0 <= i < t.len() && t[i] == (k, b);
    assert(t[i].0 == k);
    let j = choose|j: int| 0 <= j < t.len() && (#[trigger] t[j]).0 == k;
    if i != j {
        if i < j {
            assert(t[i].0 != t[j].0);
        } else {
            assert(t[j].0 != t[i].0);
        }
    }
}

/// Graph renderer.
pub struct Renderer {
    graph: Graph,
    texture_pool: TexturePool,
    ctx_cache: BSMap<NodeRef, NodeContext>,
    cache: BSMap<NodeRef, BSMap<usize, Value>>,
    node_types: Vec<(String, NodeTypeDef)>,
    nodes: BSMap<NodeRef, NodeInstance>,
    resolution: i64,
    cycle: u8,
    evaluated: Vec<NodeRef>,
}

impl Renderer {
    pub closed spec fn graph_spec(self) -> Graph {
        self.graph
    }

    pub closed spec fn cache_view(self) -> Seq<(NodeRef, BSMap<usize, Value>)> {
        self.cache@
    }

    pub closed spec fn insts_view(self) -> Seq<(NodeRef, NodeInstance)> {
        self.nodes@
    }

    pub closed spec fn evaluated_view(self) -> Seq<NodeRef> {
        self.evaluated@
    }

    pub closed spec fn resolution_spec(self) -> i64 {
        self.resolution
    }

    pub closed spec fn pool_spec(self) -> TexturePool {
        self.texture_pool
    }

    pub closed spec fn ctx_view(self) -> Seq<(NodeRef, NodeContext)> {
        self.ctx_cache@
    }

    /// The registered node types, in registration order.
    pub closed spec fn registry_view(self) -> Seq<(String, NodeTypeDef)> {
        self.node_types@
    }

    /// Whether a type of this name is registered.
    pub open spec fn registry_has(self, name: Seq<char>) -> bool {
        exists|i: int|
            0 <= i < self.registry_view().len() && (#[trigger] self.registry_view()[i]).0@ == name
    }

    /// Whether the cache holds an entry for this node.
    pub open spec fn has_cache(self, n: NodeRef) -> bool {
        exists|i: int| 0 <= i < self.cache_view().len() && (#[trigger] self.cache_view()[i]).0 == n
    }

    /// The cached value at one node's output port, if any.
    #[verifier::opaque]
    pub open spec fn cache_value(self, n: NodeRef, p: usize) -> Option<Value> {
        if self.has_cache(n) {
            table_value(
                self.cache_view()[choose|i: int|
                    0 <= i < self.cache_view().len() && (#[trigger] self.cache_view()[i]).0
                        == n].1@,
                p,
            )
        } else {
            None
        }
    }

    /// Whether an instance exists for this node.
    pub open spec fn has_instance(self, n: NodeRef) -> bool {
        exists|i: int| 0 <= i < self.insts_view().len() && (#[trigger] self.insts_view()[i]).0 == n
    }

    /// Whether this node's instance is a graphics instance.
    pub open spec fn inst_graphics(self, n: NodeRef) -> bool {
        exists|i: int|
            0 <= i < self.insts_view().len() && (#[trigger] self.insts_view()[i]).0 == n
                && self.insts_view()[i].1.is_graphics_spec()
    }

    /// Whether this node's instance opted out of caching.
    pub open spec fn inst_impure(self, n: NodeRef) -> bool {
        exists|i: int|
            0 <= i < self.insts_view().len() && (#[trigger] self.insts_view()[i]).0 == n
                && self.insts_view()[i].1.is_impure_spec()
    }

    /// Whether a propagated evaluation context is stored for this node.
    pub open spec fn has_ctx(self, n: NodeRef) -> bool {
        exists|i: int| 0 <= i < self.ctx_view().len() && (#[trigger] self.ctx_view()[i]).0 == n
    }

    /// Whether a port's produced drawables are due for rasterization: some
    /// consumer of the port is a graphics instance, and this node has a
    /// propagated context to size the target texture from.
    pub open spec fn rasterize_due(self, node_ref: NodeRef, p: usize) -> bool {
        self.has_ctx(node_ref) && exists|c: NodeRef, l: Link|
            #[trigger] self.graph_spec().links_index().has_link(node_ref, c, l) && l.out_prop == p
                && self.inst_graphics(c)
    }

    /// Whether a texture was allocated against this node's stored context:
    /// an attachment of the context camera's viewport, at the context
    /// resolution.
    pub open spec fn ctx_sized(self, node_ref: NodeRef, t: TextureRef) -> bool {
        t.kind == crate::render::texture::TexKind::Attachment && exists|cx: NodeContext|
            #[trigger] self.ctx_view().contains((node_ref, cx)) && t.width == cx.camera.width
                && t.height == cx.camera.height && t.resolution == cx.resolution
    }

    /// What caching does to a produced output table: a drawables port due
    /// for rasterization is replaced by a texture allocated against the
    /// node's context, so graphics consumers never see vector data; every
    /// other port keeps its produced value.
    pub open spec fn outputs_processed(
        self,
        node_ref: NodeRef,
        produced: Seq<(usize, Value)>,
        r: Seq<(usize, Value)>,
    ) -> bool {
        forall|p: usize|
            match #[trigger] table_value(produced, p) {
                Some(v) => {
                    if v is Drawables && self.rasterize_due(node_ref, p) {
                        table_value(r, p) matches Some(w) && w matches Value::Texture(t)
                            && self.ctx_sized(node_ref, t)
                    } else {
                        table_value(r, p) == Some(v)
                    }
                },
                None => table_value(r, p) is None,
            }
    }

    /// Whether `v` is what the output node's scene input resolves to: the
    /// cached output feeding port 0 over some link, or the output node's own
    /// scene property.
    pub open spec fn scene_source(self, io: NodeRef, v: Value) -> bool {
        (exists|u: NodeRef, l: Link|
            #[trigger] self.graph_spec().links_index().has_link(u, io, l) && l.in_prop == 0 && (
            self.cache_value(u, l.out_prop) matches Some(w) && same_value(v, w))) || (
        self.spec_prop(io, 0) matches Some(w) && same_value(v, w))
    }

    /// Whether this node needs re-evaluation on its own account: its flag is
    /// set, the camera was dirty and it is context-sensitive, or it is
    /// impure.
    pub open spec fn pre_trigger(self, camera_dirty: bool, m: NodeRef) -> bool {
        self.graph_spec().is_dirty_spec(m) || (camera_dirty && self.inst_graphics(m)) || self.inst_impure(m)
    }

    /// Whether this node must come out re-evaluated: it lacks a valid cache
    /// entry, or some triggering node upstream invalidates it.
    pub open spec fn pre_miss(self, o: Seq<NodeRef>, camera_dirty: bool, n: NodeRef) -> bool {
        o.contains(n) && (!self.has_cache(n) || exists|m: NodeRef|
            o.contains(m) && #[trigger] self.pre_trigger(camera_dirty, m) && reaches_downstream(
                self.graph_spec().links_index(),
                m,
                n,
            ))
    }

    /// A node that can cause work this pass: uncached, triggering, or not
    /// yet instantiated (a fresh instance's purity is sampled from outside).
    pub open spec fn loose_source(self, o: Seq<NodeRef>, camera_dirty: bool, m: NodeRef) -> bool {
        o.contains(m) && (!self.has_cache(m) || self.pre_trigger(camera_dirty, m)
            || !self.has_instance(m))
    }

    /// What a successful render promises of its evaluation log, relative to
    /// the state the call began in (`r0`), the order `o` it ran over and
    /// whether the camera was dirty (`cd`): everything forced was evaluated,
    /// and everything evaluated lies in the order, downstream of a work
    /// source.
    pub open spec fn log_accounted(self, r0: Renderer, o: Seq<NodeRef>, cd: bool) -> bool {
        &&& forall|n: NodeRef|
            #[trigger] r0.pre_miss(o, cd, n) ==> self.evaluated_view().contains(n)
        &&& forall|t: int|
            0 <= t < self.evaluated_view().len() ==> (o.contains(
                #[trigger] self.evaluated_view()[t],
            ) && exists|m: NodeRef|
                #[trigger] r0.loose_source(o, cd, m) && reaches_downstream(
                    r0.graph_spec().links_index(),
                    m,
                    self.evaluated_view()[t],
                ))
    }

    pub open spec fn wf(self) -> bool {
        &&& self.graph_spec().wf()
        &&& entries_sorted(self.cache_view())
        &&& keys_distinct(self.cache_view())
        &&& forall|i: int|
            0 <= i < self.cache_view().len() ==> entries_sorted(
                (#[trigger] self.cache_view()[i]).1@,
            ) && keys_distinct(self.cache_view()[i].1@)
        &&& entries_sorted(self.insts_view())
        &&& keys_distinct(self.insts_view())
        &&& entries_sorted(self.ctx_view())
        &&& keys_distinct(self.ctx_view())
    }

    /// Creates a new renderer over a graph.
    pub fn new(graph: Graph) -> (r: Renderer)
        requires
            graph.wf(),
        ensures
            r.wf(),
            r.graph_spec() == graph,
            r.cache_view() =~= Seq::<(NodeRef, BSMap<usize, Value>)>::empty(),
            r.insts_view() =~= Seq::<(NodeRef, NodeInstance)>::empty(),
            r.resolution_spec() == 1,
    {
        Renderer {
            graph,
            texture_pool: TexturePool::new(),
            ctx_cache: BSMap::new(),
            cache: BSMap::new(),
            node_types: Vec::new(),
            nodes: BSMap::new(),
            resolution: 1,
            cycle: 0,
            evaluated: Vec::new(),
        }
    }

    /// Registers a node type under its own name. A later registration under
    /// the same name takes precedence.
    pub fn add_node_type(&mut self, type_def: NodeTypeDef)
        requires
            old(self).wf(),
        ensures
            final(self).wf(),
            final(self).graph_spec() == old(self).graph_spec(),
            final(self).cache_view() == old(self).cache_view(),
            final(self).insts_view() == old(self).insts_view(),
            exists|nm: String|
                final(self).registry_view() == old(self).registry_view().push((nm, type_def)),
    {
        let name = match &type_def {
            NodeTypeDef::Data(t) => t.name(),
            NodeTypeDef::Graphics(t) => t.name(),
        };
        let ghost td = type_def;
        self.node_types.push((name, type_def));
        proof {
            assert(self.registry_view() == old(self).registry_view().push((name, td)));
        }
    }

    /// Mutable access to the registered node types.
    pub fn node_types_mut(&mut self) -> (r: &mut Vec<(String, NodeTypeDef)>)
        ensures
            r@ == old(self).registry_view(),
            final(self).registry_view() == final(r)@,
            final(self).graph_spec() == old(self).graph_spec(),
            final(self).cache_view() == old(self).cache_view(),
            final(self).insts_view() == old(self).insts_view(),
            old(self).wf() ==> final(self).wf(),
    {
        &mut self.node_types
    }

    /// Returns a reference to the graph.
    pub fn graph(&self) -> (r: &Graph)
        ensures
            *r == self.graph_spec(),
    {
        &self.graph
    }

    /// Returns a mutable reference to the graph.
    pub fn graph_mut(&mut self) -> (r: &mut Graph)
        ensures
            *r == old(self).graph_spec(),
            final(self).graph_spec() == *final(r),
            final(self).cache_view() == old(self).cache_view(),
            final(self).insts_view() == old(self).insts_view(),
            final(self).evaluated_view() == old(self).evaluated_view(),
            final(self).resolution_spec() == old(self).resolution_spec(),
            final(self).pool_spec() == old(self).pool_spec(),
            old(self).wf() && final(r).wf() ==> final(self).wf(),
    {
        &mut self.graph
    }

    /// Returns the rendering resolution.
    pub fn resolution(&self) -> (r: i64)
        ensures
            r == self.resolution_spec(),
    {
        self.resolution
    }

    /// Sets the rendering resolution.
    pub fn set_resolution(&mut self, value: i64)
        requires
            old(self).wf(),
        ensures
            final(self).wf(),
            final(self).resolution_spec() == value,
            final(self).graph_spec() == old(self).graph_spec(),
            final(self).cache_view() == old(self).cache_view(),
    {
        self.resolution = value;
    }

    /// The nodes the last render call evaluated, in evaluation order. A node
    /// appears once per evaluation.
    pub fn last_evaluated(&self) -> (r: &Vec<NodeRef>)
        ensures
            r@ == self.evaluated_view(),
    {
        &self.evaluated
    }

    /// Drops all caches and other inessential data: the output cache, the
    /// context cache and the pooled textures.
    pub fn clear_caches(&mut self)
        requires
            old(self).wf(),
        ensures
            final(self).wf(),
            final(self).cache_view() =~= Seq::<(NodeRef, BSMap<usize, Value>)>::empty(),
            final(self).ctx_view() =~= Seq::<(NodeRef, NodeContext)>::empty(),
            final(self).pool_spec().slots_view() =~= Seq::<crate::render::texture::TexSlot>::empty(),
            final(self).graph_spec() == old(self).graph_spec(),
            final(self).insts_view() == old(self).insts_view(),
    {
        self.texture_pool.clear_caches();
        self.ctx_cache.clear();
        self.cache.clear();
    }
}

/// Copies a list of node references.
fn copy_refs(v: &Vec<NodeRef>) -> (r: Vec<NodeRef>)
    ensures
        r@ == v@,
{
    let mut r: Vec<NodeRef> = Vec::new();
    let mut j: usize = 0;
    while j < v.len()
        invariant
            j <= v@.len(),
            r@ == v@.take(j as int),
        decreases v@.len() - j,
    {
        r.push(v[j]);
        proof {
            assert(r@ =~= v@.take(j + 1));
        }
        j += 1;
    }
    proof {
        assert(r@ =~= v@);
    }
    r
}

impl Renderer {
    /// The bookkeeping that holds through one render pass: cache entries
    /// appear only for evaluated nodes, disappear only downstream of a work
    /// source, every evaluation is accounted for, and instances persist.
    pub open spec fn frame_inv(self, r0: Renderer, o: Seq<NodeRef>, camera_dirty: bool) -> bool {
        &&& self.graph_spec().links_index() == r0.graph_spec().links_index()
        &&& forall|n: NodeRef|
            #[trigger] self.has_cache(n) ==> r0.has_cache(n) || self.evaluated_view().contains(n)
        &&& forall|n: NodeRef|
            r0.has_cache(n) && !(#[trigger] self.has_cache(n)) ==> exists|m: NodeRef|
                #[trigger] r0.loose_source(o, camera_dirty, m) && reaches_downstream(
                    r0.graph_spec().links_index(),
                    m,
                    n,
                )
        &&& forall|t: int|
            0 <= t < self.evaluated_view().len() ==> o.contains(
                #[trigger] self.evaluated_view()[t],
            ) && exists|m: NodeRef|
                #[trigger] r0.loose_source(o, camera_dirty, m) && reaches_downstream(
                    r0.graph_spec().links_index(),
                    m,
                    self.evaluated_view()[t],
                )
        &&& insts_compat(r0, self)
    }

    /// Ensures the existence of a node instance for the given node,
    /// instantiating its registered type on first reference.
    fn ensure_node_instance(&mut self, node_ref: NodeRef) -> (r: Result<(), RenderError>)
        requires
            old(self).wf(),
        ensures
            final(self).wf(),
            final(self).graph_spec() == old(self).graph_spec(),
            final(self).cache_view() == old(self).cache_view(),
            final(self).evaluated_view() == old(self).evaluated_view(),
            final(self).ctx_view() == old(self).ctx_view(),
            final(self).pool_spec() == old(self).pool_spec(),
            final(self).resolution_spec() == old(self).resolution_spec(),
            insts_compat(*old(self), *final(self)),
            forall|k: NodeRef|
                #[trigger] final(self).has_instance(k) <==> (old(self).has_instance(k) || (r is Ok
                    && k == node_ref)),
            r is Ok ==> final(self).has_instance(node_ref),
            r is Err ==> *final(self) == *old(self),
            // the registered names survive instantiation
            final(self).registry_view().len() == old(self).registry_view().len(),
            forall|i: int|
                0 <= i < final(self).registry_view().len()
                    ==> (#[trigger] final(self).registry_view()[i]).0 == old(
                    self,
                ).registry_view()[i].0,
            // success is owed: an existing instance is kept, and a node whose
            // type is registered is instantiated
            old(self).has_instance(node_ref) ==> (r is Ok && *final(self) == *old(self)),
            forall|w: int|
                0 <= w < old(self).graph_spec().nodes_view().len() && (#[trigger] old(
                    self,
                ).graph_spec().nodes_view()[w]).0 == node_ref && old(self).registry_has(
                    old(self).graph_spec().nodes_view()[w].1.node_type@,
                ) ==> r is Ok,
            match r {
                Err(RenderError::Internal(InternalRendererError::MissingNode(n))) => n == node_ref
                    && !old(self).has_instance(node_ref) && !old(self).graph_spec().has_node(
                    node_ref,
                ),
                Err(RenderError::MissingNodeType(t)) => {
                    &&& !old(self).has_instance(node_ref)
                    &&& !old(self).registry_has(t@)
                    &&& exists|w: int|
                        0 <= w < old(self).graph_spec().nodes_view().len() && (#[trigger] old(
                            self,
                        ).graph_spec().nodes_view()[w]).0 == node_ref && old(
                            self,
                        ).graph_spec().nodes_view()[w].1.node_type@ == t@
                },
                Err(_) => false,
                Ok(()) => true,
            },
    {
        if self.nodes.contains_key(&node_ref) {
            proof {
                assert forall|k: NodeRef|
                    self.has_instance(k) <==> (old(self).has_instance(k) || k == node_ref) by {
                    if k == node_ref {
                        let i = choose|i: int|
                            0 <= i < self.nodes@.len() && (#[trigger] self.nodes@[i]).0 == k;
                        assert(self.insts_view()[i].0 == k);
                    }
                }
            }
            return Ok(());
        }
        proof {
            assert(!self.has_instance(node_ref)) by {
                if self.has_instance(node_ref) {
                    let i = choose|i: int|
                        0 <= i < self.insts_view().len() && (#[trigger] self.insts_view()[i]).0
                            == node_ref;
                    assert(self.nodes@[i].0 == node_ref);
                    assert(self.nodes.spec_contains_key(node_ref));
                }
            }
        }
        let ghost pre_name = *self;
        let kind_name = match self.node(&node_ref) {
            Some(node) => {
                let nm = node.node_type.clone();
                proof {
                    let i = choose|i: int|
                        0 <= i < self.graph_spec().nodes_view().len()
                            && #[trigger] self.graph_spec().nodes_view()[i] == (node_ref, *node);
                    assert(self.graph_spec().nodes_view()[i].1.node_type@ == nm@);
                }
                nm
            }
            None => {
                proof {
                    assert forall|w: int|
                        0 <= w < self.graph_spec().nodes_view().len() && (
                        #[trigger] self.graph_spec().nodes_view()[w]).0 == node_ref
                            implies false by {
                        assert(self.graph_spec().has_node(node_ref)) by {
                            assert(self.graph_spec().nodes_view()[w].0 == node_ref);
                        }
                    }
                }
                return Err(RenderError::Internal(InternalRendererError::MissingNode(node_ref)));
            }
        };
        // the last registration under a name wins
        let mut found: Option<usize> = None;
        let mut j: usize = 0;
        while j < self.node_types.len()
            invariant
                j <= self.node_types@.len(),
                match found {
                    Some(i) => i < self.node_types@.len() && self.registry_view()[i as int].0@
                        == kind_name@,
                    None => forall|i: int|
                        0 <= i < j ==> (#[trigger] self.registry_view()[i]).0@ != kind_name@,
                },
            decreases self.node_types@.len() - j,
        {
            if self.node_types[j].0 == kind_name {
                found = Some(j);
            }
            j += 1;
        }
        let idx = match found {
            Some(i) => i,
            None => {
                proof {
                    assert(!self.registry_has(kind_name@)) by {
                        if self.registry_has(kind_name@) {
                            let i = choose|i: int|
                                0 <= i < self.registry_view().len() && (
                                #[trigger] self.registry_view()[i]).0@ == kind_name@;
                        }
                    }
                    // the node under this reference is unique, so every
                    // occurrence carries the unregistered type name
                    assert forall|w: int|
                        0 <= w < self.graph_spec().nodes_view().len() && (
                        #[trigger] self.graph_spec().nodes_view()[w]).0 == node_ref
                            implies self.graph_spec().nodes_view()[w].1.node_type@
                            == kind_name@ by {
                        let w0 = choose|w0: int|
                            0 <= w0 < self.graph_spec().nodes_view().len() && (
                            #[trigger] self.graph_spec().nodes_view()[w0]).0 == node_ref
                                && self.graph_spec().nodes_view()[w0].1.node_type@ == kind_name@;
                        if w != w0 {
                            if w < w0 {
                                assert(self.graph_spec().nodes_view()[w].0
                                    != self.graph_spec().nodes_view()[w0].0);
                            } else {
                                assert(self.graph_spec().nodes_view()[w0].0
                                    != self.graph_spec().nodes_view()[w].0);
                            }
                        }
                    }
                }
                return Err(RenderError::MissingNodeType(kind_name));
            }
        };
        let instance = match &mut self.node_types[idx].1 {
            NodeTypeDef::Data(t) => {
                let inst = t.create();
                let pure = inst.node.is_pure();
                NodeInstance::Data { inst, pure }
            }
            NodeTypeDef::Graphics(t) => {
                let inst = t.create();
                NodeInstance::Graphics { inst }
            }
        };
        let ghost i0 = self.nodes;
        let ghost inst_snap = instance;
        self.nodes.insert(node_ref, instance);
        proof {
            lemma_inst_flags_insert(*old(self), *self, node_ref, inst_snap);
            assert forall|k: NodeRef| #[trigger] old(self).has_instance(k) implies (
            self.has_instance(k) && (self.inst_graphics(k) <==> old(self).inst_graphics(k)) && (
            self.inst_impure(k) <==> old(self).inst_impure(k))) by {
                assert(k != node_ref) by {
                    if k == node_ref {
                        assert(!old(self).has_instance(node_ref));
                    }
                }
            }
            assert forall|k: NodeRef|
                self.has_instance(k) <==> (old(self).has_instance(k) || k == node_ref) by {
                if self.has_instance(k) {
                    let i = choose|i: int|
                        0 <= i < self.nodes@.len() && (#[trigger] self.nodes@[i]).0 == k;
                    assert(self.nodes.spec_contains_key(k));
                    if k != node_ref {
                        assert(i0.spec_contains_key(k));
                        let v = choose|v: int|
                            0 <= v < i0@.len() && (#[trigger] i0@[v]).0 == k;
                        assert(old(self).insts_view()[v].0 == k);
                    }
                }
                if old(self).has_instance(k) {
                    let i = choose|i: int|
                        0 <= i < i0@.len() && (#[trigger] i0@[i]).0 == k;
                    assert(i0.spec_contains_key(k));
                    assert(self.nodes.spec_contains_key(k));
                    let v = choose|v: int|
                        0 <= v < self.nodes@.len() && (#[trigger] self.nodes@[v]).0 == k;
                    assert(self.insts_view()[v].0 == k);
                }
                if k == node_ref {
                    assert(self.nodes.spec_contains_key(k));
                    let v = choose|v: int|
                        0 <= v < self.nodes@.len() && (#[trigger] self.nodes@[v]).0 == k;
                    assert(self.insts_view()[v].0 == k);
                }
            }
        }
        Ok(())
    }

    fn node(&self, node_ref: &NodeRef) -> (r: Option<&Node>)
        requires
            self.wf(),
        ensures
            match r {
                Some(v) => exists|i: int|
                    0 <= i < self.graph_spec().nodes_view().len()
                        && #[trigger] self.graph_spec().nodes_view()[i] == (*node_ref, *v),
                None => !self.graph_spec().has_node(*node_ref),
            },
    {
        self.graph.node(node_ref)
    }

    /// Looks up the cached value at one node's output port.
    #[verifier::spinoff_prover]
    fn lookup_cache(&self, n: NodeRef, p: usize) -> (r: Option<&Value>)
        requires
            self.wf(),
        ensures
            match r {
                Some(v) => self.cache_value(n, p) == Some(*v),
                None => self.cache_value(n, p) is None,
            },
    {
        proof {
            reveal(Renderer::cache_value);
        }
        match self.cache.get(&n) {
            Some(ports) => {
                proof {
                    let i = choose|i: int|
                        0 <= i < self.cache@.len() && #[trigger] self.cache@[i] == (n, *ports);
                    assert(self.cache_view()[i] == (n, *ports));
                    assert(self.has_cache(n)) by {
                        assert(self.cache_view()[i].0 == n);
                    }
                    let i2 = choose|i2: int|
                        0 <= i2 < self.cache_view().len() && (#[trigger] self.cache_view()[i2]).0
                            == n;
                    assert(i2 == i) by {
                        if i2 != i {
                            assert(self.cache_view()[i2].0 != self.cache_view()[i].0);
                        }
                    }
                }
                let ghost sp = self.cache_view()[choose|i: int|
                    0 <= i < self.cache_view().len() && (#[trigger] self.cache_view()[i]).0
                        == n].1;
                proof {
                    assert(sp == *ports);
                }
                match ports.get(&p) {
                    Some(v) => {
                        proof {
                            let j = choose|j: int|
                                0 <= j < ports@.len() && #[trigger] ports@[j] == (p, *v);
                            assert(ports@[j].0 == p);
                            assert(sp@[j].0 == p);
                            let j2 = choose|j2: int|
                                0 <= j2 < sp@.len() && (#[trigger] sp@[j2]).0 == p;
                            assert(j2 == j) by {
                                if j2 != j {
                                    assert(ports@[j2].0 != ports@[j].0);
                                }
                            }
                            assert(sp@[j2].1 == *v);
                            assert(table_value(sp@, p) == Some(*v));
                        }
                        Some(v)
                    }
                    None => {
                        proof {
                            if exists|j: int| 0 <= j < sp@.len() && (#[trigger] sp@[j]).0 == p {
                                let j = choose|j: int|
                                    0 <= j < sp@.len() && (#[trigger] sp@[j]).0 == p;
                                assert(ports@[j].0 == p);
                                assert(ports.spec_contains_key(p));
                            }
                            assert(table_value(sp@, p) is None);
                        }
                        None
                    }
                }
            }
            None => {
                proof {
                    if self.has_cache(n) {
                        let i = choose|i: int|
                            0 <= i < self.cache_view().len() && (#[trigger] self.cache_view()[
                                i
                            ]).0 == n;
                        assert(self.cache@[i].0 == n);
                        assert(self.cache.spec_contains_key(n));
                    }
                }
                None
            }
        }
    }

    /// Taking one more link into account extends exactly the bucket model of
    /// its own port, and only when the link is live.
    proof fn lemma_link_bucket_step(
        self,
        ls: Seq<(NodeRef, usize, usize)>,
        ignore: Option<usize>,
        pi: usize,
        j: int,
    )
        requires
            0 <= j < ls.len(),
        ensures
            ({
                let e = ls[j];
                if e.2 == pi && !port_ignored(ignore, pi) && self.cache_value(e.0, e.1) is Some {
                    self.link_bucket(ls.take(j + 1), ignore, pi) == self.link_bucket(
                        ls.take(j),
                        ignore,
                        pi,
                    ).push(self.cache_value(e.0, e.1)->Some_0)
                } else {
                    self.link_bucket(ls.take(j + 1), ignore, pi) == self.link_bucket(
                        ls.take(j),
                        ignore,
                        pi,
                    )
                }
            }),
    {
        assert(ls.take(j + 1).drop_last() =~= ls.take(j));
        assert(ls.take(j + 1).last() == ls[j]);
    }

    /// Every value of a bucket model is the cached output of one of the
    /// listed links into its port.
    proof fn lemma_link_bucket_elem(
        self,
        ls: Seq<(NodeRef, usize, usize)>,
        ignore: Option<usize>,
        pi: usize,
        k: int,
    )
        requires
            0 <= k < self.link_bucket(ls, ignore, pi).len(),
        ensures
            exists|i: int|
                0 <= i < ls.len() && (#[trigger] ls[i]).2 == pi && !port_ignored(ignore, pi)
                    && self.cache_value(ls[i].0, ls[i].1) == Some(
                    self.link_bucket(ls, ignore, pi)[k],
                ),
        decreases ls.len(),
    {
        let b = self.link_bucket(ls, ignore, pi);
        let pre = self.link_bucket(ls.drop_last(), ignore, pi);
        let e = ls.last();
        if e.2 == pi && !port_ignored(ignore, pi) && self.cache_value(e.0, e.1) is Some {
            if k < pre.len() {
                self.lemma_link_bucket_elem(ls.drop_last(), ignore, pi, k);
                let i = choose|i: int|
                    0 <= i < ls.drop_last().len() && (#[trigger] ls.drop_last()[i]).2 == pi
                        && !port_ignored(ignore, pi) && self.cache_value(
                        ls.drop_last()[i].0,
                        ls.drop_last()[i].1,
                    ) == Some(pre[k]);
                assert(ls[i] == ls.drop_last()[i]);
                assert(b[k] == pre[k]);
            } else {
                assert(b[k] == self.cache_value(e.0, e.1)->Some_0);
                assert(ls[ls.len() - 1] == e);
            }
        } else {
            self.lemma_link_bucket_elem(ls.drop_last(), ignore, pi, k);
            let i = choose|i: int|
                0 <= i < ls.drop_last().len() && (#[trigger] ls.drop_last()[i]).2 == pi
                    && !port_ignored(ignore, pi) && self.cache_value(
                    ls.drop_last()[i].0,
                    ls.drop_last()[i].1,
                ) == Some(pre[k]);
            assert(ls[i] == ls.drop_last()[i]);
        }
    }

    /// A listed link into a port whose upstream output is cached makes the
    /// port's bucket model nonempty.
    proof fn lemma_link_bucket_nonempty(
        self,
        ls: Seq<(NodeRef, usize, usize)>,
        ignore: Option<usize>,
        pi: usize,
        i: int,
    )
        requires
            0 <= i < ls.len(),
            ls[i].2 == pi,
            !port_ignored(ignore, pi),
            self.cache_value(ls[i].0, ls[i].1) is Some,
        ensures
            self.link_bucket(ls, ignore, pi).len() > 0,
        decreases ls.len(),
    {
        let e = ls.last();
        if i == ls.len() - 1 {
        } else {
            assert(ls.drop_last()[i] == ls[i]);
            self.lemma_link_bucket_nonempty(ls.drop_last(), ignore, pi, i);
        }
    }

    /// One gathering step: appending a fresh copy of the cached value of one
    /// more link keeps every port's bucket matched to its model.
    proof fn lemma_gather_step(
        self,
        ls: Seq<(NodeRef, usize, usize)>,
        ignore: Option<usize>,
        j: int,
        v0: Seq<(usize, Vec<Value>)>,
        v1: Seq<(usize, Vec<Value>)>,
        bsnap: Vec<Value>,
        d: Value,
        v: Value,
    )
        requires
            0 <= j < ls.len(),
            !port_ignored(ignore, ls[j].2),
            self.cache_value(ls[j].0, ls[j].1) == Some(v),
            same_value(d, v),
            keys_distinct(v0),
            keys_distinct(v1),
            forall|pi: usize|
                match #[trigger] bucket_value(v0, pi) {
                    Some(b) => self.link_bucket(ls.take(j), ignore, pi).len() > 0
                        && bucket_matches(b@, self.link_bucket(ls.take(j), ignore, pi)),
                    None => self.link_bucket(ls.take(j), ignore, pi).len() == 0,
                },
            match bucket_value(v0, ls[j].2) {
                Some(b0) => bsnap@ == b0@.push(d),
                None => bsnap@ == seq![d],
            },
            forall|e: (usize, Vec<Value>)|
                #[trigger] v1.contains(e) <==> ((v0.contains(e) && e.0 != ls[j].2) || e == (
                ls[j].2,
                bsnap,
            )),
        ensures
            forall|pi: usize|
                match #[trigger] bucket_value(v1, pi) {
                    Some(b) => self.link_bucket(ls.take(j + 1), ignore, pi).len() > 0
                        && bucket_matches(b@, self.link_bucket(ls.take(j + 1), ignore, pi)),
                    None => self.link_bucket(ls.take(j + 1), ignore, pi).len() == 0,
                },
    {
        let ip = ls[j].2;
        assert(v1.contains((ip, bsnap)));
        assert forall|pi: usize|
            match #[trigger] bucket_value(v1, pi) {
                Some(b) => self.link_bucket(ls.take(j + 1), ignore, pi).len() > 0
                    && bucket_matches(b@, self.link_bucket(ls.take(j + 1), ignore, pi)),
                None => self.link_bucket(ls.take(j + 1), ignore, pi).len() == 0,
            } by {
            self.lemma_link_bucket_step(ls, ignore, pi, j);
            let model0 = self.link_bucket(ls.take(j), ignore, pi);
            let model1 = self.link_bucket(ls.take(j + 1), ignore, pi);
            if pi == ip {
                lemma_bucket_value_present(v1, ip, bsnap);
                assert(model1 == model0.push(v));
                match bucket_value(v0, ip) {
                    Some(b0) => {
                        assert(bucket_matches(b0@, model0));
                        assert forall|k: int| 0 <= k < bsnap@.len() implies same_value(
                            #[trigger] bsnap@[k],
                            model1[k],
                        ) by {
                            if k < b0@.len() {
                                assert(same_value(b0@[k], model0[k]));
                                assert(bsnap@[k] == b0@[k]);
                                assert(model1[k] == model0[k]);
                            } else {
                                assert(bsnap@[k] == d);
                                assert(model1[k] == v);
                            }
                        }
                        assert(bucket_matches(bsnap@, model1));
                    },
                    None => {
                        assert(model0.len() == 0);
                        assert(bsnap@.len() == 1);
                        assert(bsnap@[0] == d);
                        assert(model1.len() == 1);
                        assert(model1[0] == v);
                        assert(bucket_matches(bsnap@, model1));
                    },
                }
            } else {
                assert(model1 == model0);
                match bucket_value(v1, pi) {
                    Some(b) => {
                        let w = choose|w: int|
                            0 <= w < v1.len() && (#[trigger] v1[w]).0 == pi;
                        assert(v1[w] == ((v1[w].0), v1[w].1));
                        assert(v1.contains((pi, b)));
                        assert(v0.contains((pi, b)));
                        lemma_bucket_value_present(v0, pi, b);
                    },
                    None => {
                        match bucket_value(v0, pi) {
                            Some(b) => {
                                let w = choose|w: int|
                                    0 <= w < v0.len() && (#[trigger] v0[w]).0 == pi;
                                assert(v0[w] == ((v0[w].0), v0[w].1));
                                assert(v0.contains((pi, b)));
                                assert(v1.contains((pi, b)));
                                lemma_bucket_value_present(v1, pi, b);
                            },
                            None => {},
                        }
                    },
                }
            }
        }
    }

    /// One fallback step: a port no link feeds gains the node's own property
    /// value, alone in its bucket; every other port keeps its contents.
    proof fn lemma_fallback_step(
        self,
        ls: Seq<(NodeRef, usize, usize)>,
        ignore: Option<usize>,
        props: Seq<(usize, Value)>,
        t: int,
        v0: Seq<(usize, Vec<Value>)>,
        v1: Seq<(usize, Vec<Value>)>,
        bsnap: Vec<Value>,
        d: Value,
    )
        requires
            0 <= t < props.len(),
            keys_distinct(v0),
            keys_distinct(v1),
            same_value(d, props[t].1),
            bsnap@ == seq![d],
            forall|i: int| 0 <= i < v0.len() ==> (#[trigger] v0[i]).0 != props[t].0,
            forall|pi: usize|
                match #[trigger] bucket_value(v0, pi) {
                    Some(b) => if self.link_bucket(ls, ignore, pi).len() > 0 {
                        bucket_matches(b@, self.link_bucket(ls, ignore, pi))
                    } else {
                        exists|t2: int|
                            0 <= t2 < t && (#[trigger] props[t2]).0 == pi && b@.len() == 1
                                && same_value(b@[0], props[t2].1)
                    },
                    None => self.link_bucket(ls, ignore, pi).len() == 0 && forall|t2: int|
                        0 <= t2 < t ==> (#[trigger] props[t2]).0 != pi,
                },
            forall|e: (usize, Vec<Value>)|
                #[trigger] v1.contains(e) <==> ((v0.contains(e) && e.0 != props[t].0) || e == (
                props[t].0,
                bsnap,
            )),
        ensures
            forall|pi: usize|
                match #[trigger] bucket_value(v1, pi) {
                    Some(b) => if self.link_bucket(ls, ignore, pi).len() > 0 {
                        bucket_matches(b@, self.link_bucket(ls, ignore, pi))
                    } else {
                        exists|t2: int|
                            0 <= t2 < t + 1 && (#[trigger] props[t2]).0 == pi && b@.len() == 1
                                && same_value(b@[0], props[t2].1)
                    },
                    None => self.link_bucket(ls, ignore, pi).len() == 0 && forall|t2: int|
                        0 <= t2 < t + 1 ==> (#[trigger] props[t2]).0 != pi,
                },
    {
        let key = props[t].0;
        assert(v1.contains((key, bsnap)));
        assert forall|pi: usize|
            match #[trigger] bucket_value(v1, pi) {
                Some(b) => if self.link_bucket(ls, ignore, pi).len() > 0 {
                    bucket_matches(b@, self.link_bucket(ls, ignore, pi))
                } else {
                    exists|t2: int|
                        0 <= t2 < t + 1 && (#[trigger] props[t2]).0 == pi && b@.len() == 1
                            && same_value(b@[0], props[t2].1)
                },
                None => self.link_bucket(ls, ignore, pi).len() == 0 && forall|t2: int|
                    0 <= t2 < t + 1 ==> (#[trigger] props[t2]).0 != pi,
            } by {
            if pi == key {
                lemma_bucket_value_present(v1, key, bsnap);
                assert(bucket_value(v0, key) is None) by {
                    if bucket_value(v0, key) is Some {
                        let w = choose|w: int|
                            0 <= w < v0.len() && (#[trigger] v0[w]).0 == key;
                        assert(v0[w].0 != key);
                    }
                }
                assert(self.link_bucket(ls, ignore, key).len() == 0);
                assert(bsnap@[0] == d);
                assert((props[t]).0 == pi && bsnap@.len() == 1 && same_value(
                    bsnap@[0],
                    props[t].1,
                ));
            } else {
                match bucket_value(v1, pi) {
                    Some(b) => {
                        let w = choose|w: int|
                            0 <= w < v1.len() && (#[trigger] v1[w]).0 == pi;
                        assert(v1[w] == ((v1[w].0), v1[w].1));
                        assert(v1.contains((pi, b)));
                        assert(v0.contains((pi, b)));
                        lemma_bucket_value_present(v0, pi, b);
                        if self.link_bucket(ls, ignore, pi).len() == 0 {
                            let t2 = choose|t2: int|
                                0 <= t2 < t && (#[trigger] props[t2]).0 == pi && b@.len() == 1
                                    && same_value(b@[0], props[t2].1);
                            assert(0 <= t2 < t + 1 && (props[t2]).0 == pi && b@.len() == 1
                                && same_value(b@[0], props[t2].1));
                        }
                    },
                    None => {
                        match bucket_value(v0, pi) {
                            Some(b) => {
                                let w = choose|w: int|
                                    0 <= w < v0.len() && (#[trigger] v0[w]).0 == pi;
                                assert(v0[w] == ((v0[w].0), v0[w].1));
                                assert(v0.contains((pi, b)));
                                assert(v1.contains((pi, b)));
                                lemma_bucket_value_present(v1, pi, b);
                            },
                            None => {
                                assert forall|t2: int| 0 <= t2 < t + 1 implies (
                                #[trigger] props[t2]).0 != pi by {
                                    if t2 == t {
                                        assert(props[t].0 == key);
                                    }
                                }
                            },
                        }
                    },
                }
            }
        }
    }

    /// Returns all node inputs: cached upstream outputs per linked port,
    /// falling back to the node's own property values where a port has no
    /// incoming link. Fails with `MissingInput` when a linked upstream value
    /// is not cached.
    #[verifier::spinoff_prover]
    fn build_inputs(&self, node_ref: NodeRef, ignore_prop: Option<usize>) -> (r: Result<
        Input,
        EvalError,
    >)
        requires
            self.wf(),
        ensures
            match r {
                Ok(inp) => self.inputs_gathered(node_ref, ignore_prop, inp),
                Err(e) => exists|u: NodeRef, l: Link|
                    {
                        &&& #[trigger] self.graph_spec().links_index().has_link(u, node_ref, l)
                        &&& !port_ignored(ignore_prop, l.in_prop)
                        &&& e == EvalError::MissingInput(l.in_prop)
                        &&& self.cache_value(u, l.out_prop) is None
                    },
            },
    {
        let mut values: BSMap<usize, Vec<Value>> = BSMap::new();
        let links = self.graph.node_inputs(node_ref);
        let ghost lks = self.graph_spec().links_index();
        let mut j: usize = 0;
        while j < links.len()
            invariant
                j <= links@.len(),
                self.wf(),
                lks == self.graph_spec().links_index(),
                crate::util::entries_sorted(values@),
                crate::util::keys_distinct(values@),
                links@.no_duplicates(),
                forall|i: int|
                    0 <= i < links@.len() ==> lks.has_link(
                        (#[trigger] links@[i]).0,
                        node_ref,
                        (Link { out_prop: links@[i].1, in_prop: links@[i].2 }),
                    ),
                forall|n2: NodeRef, l2: Link|
                    lks.has_link(n2, node_ref, l2) ==> links@.contains(
                        (n2, l2.out_prop, l2.in_prop),
                    ),
                forall|t: int|
                    0 <= t < j && !port_ignored(ignore_prop, (#[trigger] links@[t]).2) ==> (
                    self.cache_value(links@[t].0, links@[t].1) is Some && exists|i: int|
                        0 <= i < values@.len() && (#[trigger] values@[i]).0 == links@[t].2
                            && values@[i].1@.len() > 0),
                forall|pi: usize|
                    match #[trigger] bucket_value(values@, pi) {
                        Some(b) => self.link_bucket(links@.take(j as int), ignore_prop, pi).len()
                            > 0 && bucket_matches(
                            b@,
                            self.link_bucket(links@.take(j as int), ignore_prop, pi),
                        ),
                        None => self.link_bucket(links@.take(j as int), ignore_prop, pi).len()
                            == 0,
                    },
            decreases links@.len() - j,
        {
            let (src_node, out_prop, in_prop) = links[j];
            let skip = match ignore_prop {
                Some(p) => p == in_prop,
                None => false,
            };
            if !skip {
                match self.lookup_cache(src_node, out_prop) {
                    Some(v) => {
                        let ghost v0 = values;
                        let mut bucket: Vec<Value> = match values.remove(&in_prop) {
                            Some(b) => {
                                proof {
                                    lemma_bucket_value_present(v0@, in_prop, b);
                                }
                                b
                            }
                            None => {
                                proof {
                                    assert(bucket_value(v0@, in_prop) is None) by {
                                        if bucket_value(v0@, in_prop) is Some {
                                            let w = choose|w: int|
                                                0 <= w < v0@.len() && (#[trigger] v0@[w]).0
                                                    == in_prop;
                                            assert(v0.spec_contains_key(in_prop));
                                        }
                                    }
                                }
                                Vec::new()
                            }
                        };
                        let dup = v.duplicate();
                        let ghost dval = dup;
                        bucket.push(dup);
                        let ghost bsnap = bucket;
                        values.insert(in_prop, bucket);
                        proof {
                            assert(links@[j as int] == (src_node, out_prop, in_prop));
                            match bucket_value(v0@, in_prop) {
                                Some(b0) => {
                                    assert(bsnap@ == b0@.push(dval));
                                }
                                None => {
                                    assert(bsnap@ =~= seq![dval]);
                                }
                            }
                            self.lemma_gather_step(
                                links@,
                                ignore_prop,
                                j as int,
                                v0@,
                                values@,
                                bsnap,
                                dval,
                                *v,
                            );
                            assert(values@.contains((in_prop, bsnap)));
                            assert forall|t: int|
                                0 <= t < j + 1 && !port_ignored(
                                    ignore_prop,
                                    (#[trigger] links@[t]).2,
                                ) implies (self.cache_value(links@[t].0, links@[t].1) is Some
                                && exists|i: int|
                                0 <= i < values@.len() && (#[trigger] values@[i]).0 == links@[t].2
                                    && values@[i].1@.len() > 0) by {
                                if links@[t].2 == in_prop || t == j {
                                    let i = choose|i: int|
                                        0 <= i < values@.len() && values@[i] == (in_prop, bsnap);
                                    assert(values@[i].0 == in_prop);
                                } else {
                                    let i0 = choose|i0: int|
                                        0 <= i0 < v0@.len() && (#[trigger] v0@[i0]).0 == links@[t].2
                                            && v0@[i0].1@.len() > 0;
                                    assert(v0@.contains(v0@[i0]));
                                    assert(v0@[i0] == ((v0@[i0].0), v0@[i0].1));
                                    assert(values@.contains(v0@[i0]));
                                    let i1 = choose|i1: int|
                                        0 <= i1 < values@.len() && values@[i1] == v0@[i0];
                                }
                            }
                        }
                    }
                    None => {
                        proof {
                            assert(lks.has_link(
                                src_node,
                                node_ref,
                                (Link { out_prop, in_prop }),
                            ));
                        }
                        return Err(EvalError::MissingInput(in_prop));
                    }
                }
            } else {
                proof {
                    assert(port_ignored(ignore_prop, in_prop));
                    assert(links@[j as int] == (src_node, out_prop, in_prop));
                    assert forall|pi: usize|
                        match #[trigger] bucket_value(values@, pi) {
                            Some(b) => self.link_bucket(
                                links@.take(j + 1),
                                ignore_prop,
                                pi,
                            ).len() > 0 && bucket_matches(
                                b@,
                                self.link_bucket(links@.take(j + 1), ignore_prop, pi),
                            ),
                            None => self.link_bucket(links@.take(j + 1), ignore_prop, pi).len()
                                == 0,
                        } by {
                        self.lemma_link_bucket_step(links@, ignore_prop, pi, j as int);
                        assert(links@[j as int] == (src_node, out_prop, in_prop));
                        if (links@[j as int]).2 == pi {
                            assert(port_ignored(ignore_prop, pi));
                        }
                    }
                }
            }
            j += 1;
        }
        proof {
            assert(links@.take(links@.len() as int) =~= links@);
        }
        // collect fallback property values
        match self.graph.node(&node_ref) {
            Some(node) => {
                proof {
                    let w = choose|w: int|
                        0 <= w < self.graph_spec().nodes_view().len()
                            && #[trigger] self.graph_spec().nodes_view()[w] == (node_ref, *node);
                    assert(self.graph_spec().nodes_view()[w].1.wf());
                    assert(self.graph_spec().has_node(node_ref)) by {
                        assert(self.graph_spec().nodes_view()[w].0 == node_ref);
                    }
                    let w2 = choose|w2: int|
                        0 <= w2 < self.graph_spec().nodes_view().len()
                            && (#[trigger] self.graph_spec().nodes_view()[w2]).0 == node_ref;
                    assert(w2 == w) by {
                        if w2 != w {
                            if w2 < w {
                                assert(self.graph_spec().nodes_view()[w2].0
                                    != self.graph_spec().nodes_view()[w].0);
                            } else {
                                assert(self.graph_spec().nodes_view()[w].0
                                    != self.graph_spec().nodes_view()[w2].0);
                            }
                        }
                    }
                    assert(self.graph_spec().spec_node(node_ref) == Some(*node));
                }
                let props = node.props.iter();
                let mut t: usize = 0;
                while t < props.len()
                    invariant
                        t <= props@.len(),
                        self.wf(),
                        props@ == node.props_view(),
                        node.wf(),
                        self.graph_spec().spec_node(node_ref) == Some(*node),
                        crate::util::entries_sorted(values@),
                        crate::util::keys_distinct(values@),
                        forall|t2: int|
                            0 <= t2 < links@.len() && !port_ignored(
                                ignore_prop,
                                (#[trigger] links@[t2]).2,
                            ) ==> (self.cache_value(links@[t2].0, links@[t2].1) is Some && exists|
                                i: int,
                            |
                                0 <= i < values@.len() && (#[trigger] values@[i]).0
                                    == links@[t2].2 && values@[i].1@.len() > 0),
                        forall|pi: usize|
                            match #[trigger] bucket_value(values@, pi) {
                                Some(b) => if self.link_bucket(links@, ignore_prop, pi).len()
                                    > 0 {
                                    bucket_matches(
                                        b@,
                                        self.link_bucket(links@, ignore_prop, pi),
                                    )
                                } else {
                                    exists|t2: int|
                                        0 <= t2 < t && (#[trigger] props@[t2]).0 == pi && b@.len()
                                            == 1 && same_value(b@[0], props@[t2].1)
                                },
                                None => self.link_bucket(links@, ignore_prop, pi).len() == 0
                                    && forall|t2: int|
                                    0 <= t2 < t ==> (#[trigger] props@[t2]).0 != pi,
                            },
                    decreases props@.len() - t,
                {
                    let (k, v) = &props[t];
                    if !values.contains_key(k) {
                        let ghost vpre = values;
                        let mut bucket: Vec<Value> = Vec::new();
                        let dup = v.duplicate();
                        let ghost dval = dup;
                        bucket.push(dup);
                        let ghost bsnap = bucket;
                        values.insert(*k, bucket);
                        proof {
                            assert(props@[t as int] == (*k, *v));
                            assert(bsnap@ =~= seq![dval]);
                            self.lemma_fallback_step(
                                links@,
                                ignore_prop,
                                props@,
                                t as int,
                                vpre@,
                                values@,
                                bsnap,
                                dval,
                            );
                            assert forall|t2: int|
                                0 <= t2 < links@.len() && !port_ignored(
                                    ignore_prop,
                                    (#[trigger] links@[t2]).2,
                                ) implies (self.cache_value(links@[t2].0, links@[t2].1) is Some
                                && exists|i: int|
                                0 <= i < values@.len() && (#[trigger] values@[i]).0
                                    == links@[t2].2 && values@[i].1@.len() > 0) by {
                                let i0 = choose|i0: int|
                                    0 <= i0 < vpre@.len() && (#[trigger] vpre@[i0]).0
                                        == links@[t2].2 && vpre@[i0].1@.len() > 0;
                                assert(vpre@.contains(vpre@[i0]));
                                assert(vpre@[i0] == ((vpre@[i0].0), vpre@[i0].1));
                                assert(vpre@[i0].0 != *k) by {
                                    if vpre@[i0].0 == *k {
                                        assert(vpre.spec_contains_key(*k));
                                    }
                                }
                                assert(values@.contains(vpre@[i0]));
                                let i1 = choose|i1: int|
                                    0 <= i1 < values@.len() && values@[i1] == vpre@[i0];
                            }
                        }
                    } else {
                        proof {
                            assert forall|pi: usize|
                                match #[trigger] bucket_value(values@, pi) {
                                    Some(b) => if self.link_bucket(
                                        links@,
                                        ignore_prop,
                                        pi,
                                    ).len() > 0 {
                                        bucket_matches(
                                            b@,
                                            self.link_bucket(links@, ignore_prop, pi),
                                        )
                                    } else {
                                        exists|t2: int|
                                            0 <= t2 < t + 1 && (#[trigger] props@[t2]).0 == pi
                                                && b@.len() == 1 && same_value(
                                                b@[0],
                                                props@[t2].1,
                                            )
                                    },
                                    None => self.link_bucket(links@, ignore_prop, pi).len() == 0
                                        && forall|t2: int|
                                        0 <= t2 < t + 1 ==> (#[trigger] props@[t2]).0 != pi,
                                } by {
                                match bucket_value(values@, pi) {
                                    Some(b) => {
                                        if self.link_bucket(links@, ignore_prop, pi).len() == 0 {
                                            let t2 = choose|t2: int|
                                                0 <= t2 < t && (#[trigger] props@[t2]).0 == pi
                                                    && b@.len() == 1 && same_value(
                                                    b@[0],
                                                    props@[t2].1,
                                                );
                                            assert(0 <= t2 < t + 1 && (props@[t2]).0 == pi
                                                && b@.len() == 1 && same_value(
                                                b@[0],
                                                props@[t2].1,
                                            ));
                                        }
                                    },
                                    None => {
                                        assert forall|t2: int| 0 <= t2 < t + 1 implies (
                                        #[trigger] props@[t2]).0 != pi by {
                                            if t2 == t {
                                                assert(props@[t as int] == (*k, *v));
                                                if pi == *k {
                                                    let w = choose|w: int|
                                                        0 <= w < values@.len() && (
                                                        #[trigger] values@[w]).0 == *k;
                                                    assert(bucket_value(values@, *k) is Some);
                                                }
                                            }
                                        }
                                    },
                                }
                            }
                        }
                    }
                    t += 1;
                }
                proof {
                    assert forall|pi: usize|
                        match #[trigger] bucket_value(values@, pi) {
                            Some(b) => if self.link_bucket(links@, ignore_prop, pi).len() > 0 {
                                bucket_matches(b@, self.link_bucket(links@, ignore_prop, pi))
                            } else {
                                self.spec_prop(node_ref, pi) matches Some(pv) && b@.len() == 1
                                    && same_value(b@[0], pv)
                            },
                            None => self.link_bucket(links@, ignore_prop, pi).len() == 0
                                && self.spec_prop(node_ref, pi) is None,
                        } by {
                        match bucket_value(values@, pi) {
                            Some(b) => {
                                if self.link_bucket(links@, ignore_prop, pi).len() == 0 {
                                    let t2 = choose|t2: int|
                                        0 <= t2 < props@.len() && (#[trigger] props@[t2]).0 == pi
                                            && b@.len() == 1 && same_value(b@[0], props@[t2].1);
                                    assert(props@.contains((pi, props@[t2].1))) by {
                                        assert(props@[t2] == ((props@[t2].0), props@[t2].1));
                                    }
                                    lemma_table_value_present(props@, pi, props@[t2].1);
                                    assert(self.spec_prop(node_ref, pi) == Some(props@[t2].1));
                                }
                            },
                            None => {
                                assert(table_value(props@, pi) is None) by {
                                    if table_value(props@, pi) is Some {
                                        let w = choose|w: int|
                                            0 <= w < props@.len() && (#[trigger] props@[w]).0
                                                == pi;
                                    }
                                }
                            },
                        }
                    }
                }
            }
            None => {
                proof {
                    assert(self.graph_spec().spec_node(node_ref) is None);
                    assert forall|pi: usize|
                        match #[trigger] bucket_value(values@, pi) {
                            Some(b) => if self.link_bucket(links@, ignore_prop, pi).len() > 0 {
                                bucket_matches(b@, self.link_bucket(links@, ignore_prop, pi))
                            } else {
                                self.spec_prop(node_ref, pi) matches Some(pv) && b@.len() == 1
                                    && same_value(b@[0], pv)
                            },
                            None => self.link_bucket(links@, ignore_prop, pi).len() == 0
                                && self.spec_prop(node_ref, pi) is None,
                        } by {
                        match bucket_value(values@, pi) {
                            Some(b) => {
                                assert(self.link_bucket(links@, ignore_prop, pi).len() > 0);
                            },
                            None => {},
                        }
                    }
                }
            }
        }
        let inp = Input { values, node: node_ref };
        proof {
            assert forall|u: NodeRef, l: Link|
                #[trigger] lks.has_link(u, node_ref, l) && !port_ignored(
                    ignore_prop,
                    l.in_prop,
                ) implies (self.cache_value(u, l.out_prop) is Some && exists|i: int|
                0 <= i < inp.values_view().len() && (#[trigger] inp.values_view()[i]).0
                    == l.in_prop && inp.values_view()[i].1@.len() > 0) by {
                assert(links@.contains((u, l.out_prop, l.in_prop)));
                let t2 = choose|t2: int|
                    0 <= t2 < links@.len() && links@[t2] == (u, l.out_prop, l.in_prop);
                let i = choose|i: int|
                    0 <= i < inp.values@.len() && (#[trigger] inp.values@[i]).0 == links@[t2].2
                        && inp.values@[i].1@.len() > 0;
                assert(inp.values_view()[i].0 == l.in_prop);
            }
            assert(self.gathered_exactly(node_ref, ignore_prop, inp, links@));
        }
        Ok(inp)
    }

    /// Whether a non-ignored link feeds this input port.
    pub open spec fn port_linked(self, node_ref: NodeRef, ignore: Option<usize>, pi: usize) -> bool {
        exists|u: NodeRef, l: Link|
            #[trigger] self.graph_spec().links_index().has_link(u, node_ref, l) && l.in_prop == pi
                && !port_ignored(ignore, pi)
    }

    /// The values the links of one list feed into one port, in list order:
    /// for every non-ignored entry into the port whose upstream output is
    /// cached, that cached value.
    pub open spec fn link_bucket(
        self,
        ls: Seq<(NodeRef, usize, usize)>,
        ignore: Option<usize>,
        pi: usize,
    ) -> Seq<Value>
        decreases ls.len(),
    {
        if ls.len() == 0 {
            Seq::empty()
        } else {
            let pre = self.link_bucket(ls.drop_last(), ignore, pi);
            let e = ls.last();
            if e.2 == pi && !port_ignored(ignore, pi) && self.cache_value(e.0, e.1) is Some {
                pre.push(self.cache_value(e.0, e.1)->Some_0)
            } else {
                pre
            }
        }
    }

    /// The literal property a graph node carries on one port, if any.
    pub open spec fn spec_prop(self, node_ref: NodeRef, pi: usize) -> Option<Value> {
        match self.graph_spec().spec_node(node_ref) {
            Some(nd) => table_value(nd.props_view(), pi),
            None => None,
        }
    }

    /// Exact contents of a gathered input table, relative to one listing `ls`
    /// of the links into the node: a port carries the cached upstream values
    /// its non-ignored links provide, in list order; a port none of them
    /// feeds falls back to the node's own property value, alone in its
    /// bucket; every other port is absent.
    pub open spec fn gathered_exactly(
        self,
        node_ref: NodeRef,
        ignore: Option<usize>,
        inp: Input,
        ls: Seq<(NodeRef, usize, usize)>,
    ) -> bool {
        &&& ls.no_duplicates()
        &&& forall|i: int|
            0 <= i < ls.len() ==> self.graph_spec().links_index().has_link(
                (#[trigger] ls[i]).0,
                node_ref,
                (Link { out_prop: ls[i].1, in_prop: ls[i].2 }),
            )
        &&& forall|u: NodeRef, l: Link|
            #[trigger] self.graph_spec().links_index().has_link(u, node_ref, l) ==> ls.contains(
                (u, l.out_prop, l.in_prop),
            )
        &&& forall|pi: usize|
            match #[trigger] bucket_value(inp.values_view(), pi) {
                Some(b) => {
                    if self.link_bucket(ls, ignore, pi).len() > 0 {
                        bucket_matches(b@, self.link_bucket(ls, ignore, pi))
                    } else {
                        self.spec_prop(node_ref, pi) matches Some(v) && b@.len() == 1
                            && same_value(b@[0], v)
                    }
                },
                None => self.link_bucket(ls, ignore, pi).len() == 0 && self.spec_prop(
                    node_ref,
                    pi,
                ) is None,
            }
    }

    /// What a gathered input table promises: every linked, non-ignored port
    /// is backed by a cached upstream value and carries a nonempty bucket,
    /// and for some listing of the node's incoming links the table holds
    /// exactly the values [`Renderer::gathered_exactly`] describes.
    pub open spec fn inputs_gathered(
        self,
        node_ref: NodeRef,
        ignore: Option<usize>,
        inp: Input,
    ) -> bool {
        &&& inp.wf()
        &&& inp.node == node_ref
        &&& forall|u: NodeRef, l: Link|
            #[trigger] self.graph_spec().links_index().has_link(u, node_ref, l) && !port_ignored(
                ignore,
                l.in_prop,
            ) ==> (self.cache_value(u, l.out_prop) is Some && exists|i: int|
                0 <= i < inp.values_view().len() && (#[trigger] inp.values_view()[i]).0
                    == l.in_prop && inp.values_view()[i].1@.len() > 0)
        &&& exists|ls: Seq<(NodeRef, usize, usize)>|
            self.gathered_exactly(node_ref, ignore, inp, ls)
    }

    /// Updates the output cache for the given node.
    ///
    /// If no entry exists, the outputs are stored and every cache entry
    /// downstream is invalidated. If an entry exists and the fresh outputs
    /// differ, the update is conservatively rejected and the stale entry is
    /// retained, without propagation.
    fn set_cache(&mut self, node: NodeRef, outputs: BSMap<usize, Value>)
        requires
            old(self).wf(),
            crate::util::entries_sorted(outputs@),
            crate::util::keys_distinct(outputs@),
        ensures
            final(self).wf(),
            final(self).graph_spec() == old(self).graph_spec(),
            final(self).insts_view() == old(self).insts_view(),
            final(self).evaluated_view() == old(self).evaluated_view(),
            final(self).ctx_view() == old(self).ctx_view(),
            final(self).pool_spec() == old(self).pool_spec(),
            final(self).resolution_spec() == old(self).resolution_spec(),
            final(self).has_cache(node) || old(self).has_cache(node),
            forall|k: NodeRef|
                k != node && #[trigger] final(self).has_cache(k) ==> old(self).has_cache(k),
            forall|k: NodeRef|
                old(self).has_cache(k) && !(#[trigger] final(self).has_cache(k)) ==> (k != node
                    && reaches_downstream(old(self).graph_spec().links_index(), node, k)),
            // an entry the update does not touch keeps its value
            forall|e: (NodeRef, BSMap<usize, Value>)|
                (#[trigger] old(self).cache_view().contains(e)) && e.0 != node
                    && final(self).has_cache(e.0) ==> final(self).cache_view().contains(e),
            // a differing update against an existing entry is rejected and
            // the stale entry retained, without propagation
            forall|m: BSMap<usize, Value>|
                old(self).cache_view().contains((node, m)) && !ports_eq_spec(m@, outputs@)
                    ==> *final(self) == *old(self),
            // otherwise the fresh outputs are stored and every entry strictly
            // downstream is invalidated
            (forall|m: BSMap<usize, Value>|
                old(self).cache_view().contains((node, m)) ==> ports_eq_spec(m@, outputs@)) ==> (
            final(self).cache_view().contains((node, outputs)) && forall|k: NodeRef|
                k != node && reaches_downstream(old(self).graph_spec().links_index(), node, k)
                    ==> !(#[trigger] final(self).has_cache(k))),
    {
        let reject = match self.cache.get(&node) {
            Some(cached) => {
                let eq = ports_eq(cached, &outputs);
                proof {
                    let i = choose|i: int|
                        0 <= i < self.cache@.len() && #[trigger] self.cache@[i] == (node, *cached);
                    assert(self.cache_view()[i] == (node, *cached));
                    assert(self.cache_view().contains((node, *cached)));
                    assert forall|m: BSMap<usize, Value>|
                        self.cache_view().contains((node, m)) implies m == *cached by {
                        let w = choose|w: int|
                            0 <= w < self.cache_view().len() && self.cache_view()[w] == (node, m);
                        assert(w == i) by {
                            if w != i {
                                assert(self.cache_view()[w].0 != self.cache_view()[i].0);
                            }
                        }
                    }
                }
                !eq
            }
            None => {
                proof {
                    assert forall|m: BSMap<usize, Value>|
                        !self.cache_view().contains((node, m)) by {
                        if self.cache_view().contains((node, m)) {
                            let w = choose|w: int|
                                0 <= w < self.cache_view().len() && self.cache_view()[w] == (
                                node,
                                m,
                            );
                            assert(self.cache@[w].0 == node);
                            assert(self.cache.spec_contains_key(node));
                            if !self.has_cache(node) {
                                assert(self.cache_view()[w].0 == node);
                            }
                        }
                    }
                }
                false
            }
        };
        if reject {
            return;
        }
        let ghost c0 = self.cache;
        let ghost outs_snap = outputs;
        self.cache.insert(node, outputs);
        proof {
            self.lemma_cache_key_iff(c0, node);
            assert(self.cache@.contains((node, outs_snap)));
            assert(self.cache_view().contains((node, outs_snap)));
            assert forall|i: int| 0 <= i < self.cache@.len() implies crate::util::entries_sorted(
                (#[trigger] self.cache@[i]).1@,
            ) && crate::util::keys_distinct(self.cache@[i].1@) by {
                assert(self.cache@.contains(self.cache@[i]));
                let e = self.cache@[i];
                assert(e == ((e.0), e.1));
                if e == (node, outs_snap) {
                } else {
                    assert(c0@.contains(e));
                    let w = choose|w: int| 0 <= w < c0@.len() && c0@[w] == e;
                    assert(old(self).cache_view()[w] == e);
                }
            }
        }
        let mut seeds: Vec<NodeRef> = Vec::new();
        seeds.push(node);
        let down = self.graph.downstream_closure(&seeds);
        proof {
            assert(seeds@ =~= seq![node]);
            assert forall|k: NodeRef|
                down@.contains(k) <==> reaches_downstream(
                    old(self).graph_spec().links_index(),
                    node,
                    k,
                ) by {
                if down@.contains(k) {
                    let i0 = choose|i0: int|
                        0 <= i0 < seeds@.len() && reaches_downstream(
                            self.graph_spec().links_index(),
                            #[trigger] seeds@[i0],
                            k,
                        );
                    assert(seeds@[i0] == node);
                }
                if reaches_downstream(old(self).graph_spec().links_index(), node, k) {
                    assert(seeds@[0] == node);
                }
            }
            assert forall|i: int| 0 <= i < down@.len() implies reaches_downstream(
                old(self).graph_spec().links_index(),
                node,
                #[trigger] down@[i],
            ) by {
                assert(down@.contains(down@[i]));
            }
        }
        let ghost c1 = self.cache;
        let mut j: usize = 0;
        while j < down.len()
            invariant
                j <= down@.len(),
                self.graph == old(self).graph,
                self.texture_pool == old(self).texture_pool,
                self.nodes == old(self).nodes,
                self.evaluated == old(self).evaluated,
                self.ctx_cache == old(self).ctx_cache,
                self.resolution == old(self).resolution,
                self.cycle == old(self).cycle,
                self.node_types == old(self).node_types,
                crate::util::entries_sorted(self.cache@),
                crate::util::keys_distinct(self.cache@),
                forall|i: int|
                    0 <= i < self.cache@.len() ==> crate::util::entries_sorted(
                        (#[trigger] self.cache@[i]).1@,
                    ) && crate::util::keys_distinct(self.cache@[i].1@),
                seeds@ =~= seq![node],
                forall|i: int|
                    0 <= i < down@.len() ==> reaches_downstream(
                        old(self).graph_spec().links_index(),
                        node,
                        #[trigger] down@[i],
                    ),
                self.cache.spec_contains_key(node),
                self.cache@.contains((node, outs_snap)),
                forall|k: NodeRef|
                    #[trigger] self.cache.spec_contains_key(k) ==> c1.spec_contains_key(k),
                forall|k: NodeRef|
                    c1.spec_contains_key(k) && !(#[trigger] self.cache.spec_contains_key(k)) ==> (
                    k != node && reaches_downstream(
                        old(self).graph_spec().links_index(),
                        node,
                        k,
                    )),
                forall|e: (NodeRef, BSMap<usize, Value>)|
                    c1@.contains(e) && #[trigger] self.cache.spec_contains_key(e.0)
                        ==> self.cache@.contains(e),
                forall|i: int|
                    0 <= i < j && down@[i] != node ==> !self.cache.spec_contains_key(
                        #[trigger] down@[i],
                    ),
            decreases down@.len() - j,
        {
            let d = down[j];
            if d.0 != node.0 {
                let ghost cpre = self.cache;
                self.cache.remove(&d);
                proof {
                    assert(d != node) by {
                        if d == node {
                        }
                    }
                    assert(self.cache@.contains((node, outs_snap))) by {
                        assert(cpre@.contains((node, outs_snap)));
                    }
                    assert forall|k: NodeRef|
                        #[trigger] self.cache.spec_contains_key(k) implies c1.spec_contains_key(
                        k,
                    ) by {
                        assert(cpre.spec_contains_key(k));
                    }
                    assert forall|k: NodeRef|
                        c1.spec_contains_key(k) && !(#[trigger] self.cache.spec_contains_key(k))
                            implies (k != node && reaches_downstream(
                        old(self).graph_spec().links_index(),
                        node,
                        k,
                    )) by {
                        if cpre.spec_contains_key(k) {
                            assert(k == d);
                            assert(down@.contains(d));
                            let i = choose|i: int| 0 <= i < down@.len() && down@[i] == d;
                        }
                    }
                    assert forall|i: int|
                        0 <= i < j + 1 && down@[i] != node implies !self.cache.spec_contains_key(
                        #[trigger] down@[i],
                    ) by {
                        if i < j {
                            assert(!cpre.spec_contains_key(down@[i]));
                        } else {
                            assert(down@[i] == d);
                        }
                    }
                    assert forall|e: (NodeRef, BSMap<usize, Value>)|
                        c1@.contains(e) && #[trigger] self.cache.spec_contains_key(e.0)
                            implies self.cache@.contains(e) by {
                        assert(e.0 != d);
                        assert(cpre.spec_contains_key(e.0));
                        assert(cpre@.contains(e));
                    }
                }
            } else {
                proof {
                    assert forall|i: int|
                        0 <= i < j + 1 && down@[i] != node implies !self.cache.spec_contains_key(
                        #[trigger] down@[i],
                    ) by {
                        if i == j {
                            assert(down@[i] == d);
                            assert(d == node);
                        }
                    }
                }
            }
            j += 1;
        }
        proof {
            self.lemma_cache_bridges(*old(self), c1, node);
            // every strictly-downstream entry is gone
            assert forall|k: NodeRef|
                k != node && reaches_downstream(old(self).graph_spec().links_index(), node, k)
                    implies !(#[trigger] self.has_cache(k)) by {
                assert(down@.contains(k));
                let i = choose|i: int| 0 <= i < down@.len() && down@[i] == k;
                assert(!self.cache.spec_contains_key(k));
                if self.has_cache(k) {
                    let w = choose|w: int|
                        0 <= w < self.cache_view().len() && (#[trigger] self.cache_view()[w]).0
                            == k;
                    assert(self.cache@[w].0 == k);
                }
            }
            // untouched entries keep their values
            assert forall|e: (NodeRef, BSMap<usize, Value>)|
                #[trigger] old(self).cache_view().contains(e) && e.0 != node && self.has_cache(
                    e.0,
                ) implies self.cache_view().contains(e) by {
                assert(c0@.contains(e));
                assert(c1@.contains(e));
                assert(self.cache.spec_contains_key(e.0)) by {
                    let w = choose|w: int|
                        0 <= w < self.cache_view().len() && (#[trigger] self.cache_view()[w]).0
                            == e.0;
                    assert(self.cache@[w].0 == e.0);
                }
            }
        }
    }

    /// Key membership of the cache map after an insert.
    proof fn lemma_cache_key_iff(self, c0: BSMap<NodeRef, BSMap<usize, Value>>, node: NodeRef)
        requires
            forall|k: NodeRef|
                #[trigger] self.cache.spec_contains_key(k) <==> (c0.spec_contains_key(k) || k
                    == node),
        ensures
            self.cache.spec_contains_key(node),
    {
    }

    /// Carries key-level facts over to the `has_cache` view.
    proof fn lemma_cache_bridges(
        self,
        r0: Renderer,
        c1: BSMap<NodeRef, BSMap<usize, Value>>,
        node: NodeRef,
    )
        requires
            self.cache.spec_contains_key(node),
            forall|k: NodeRef|
                #[trigger] self.cache.spec_contains_key(k) ==> c1.spec_contains_key(k),
            forall|k: NodeRef|
                c1.spec_contains_key(k) && !(#[trigger] self.cache.spec_contains_key(k)) ==> (k
                    != node && reaches_downstream(r0.graph_spec().links_index(), node, k)),
            forall|k: NodeRef|
                #[trigger] c1.spec_contains_key(k) <==> (r0.cache.spec_contains_key(k) || k
                    == node),
        ensures
            self.has_cache(node),
            forall|k: NodeRef| k != node && #[trigger] self.has_cache(k) ==> r0.has_cache(k),
            forall|k: NodeRef|
                r0.has_cache(k) && !(#[trigger] self.has_cache(k)) ==> (k != node
                    && reaches_downstream(r0.graph_spec().links_index(), node, k)),
    {
        assert forall|k: NodeRef| #[trigger] self.has_cache(k) <==> self.cache.spec_contains_key(
            k,
        ) by {
            if self.has_cache(k) {
                let i = choose|i: int|
                    0 <= i < self.cache@.len() && (#[trigger] self.cache_view()[i]).0 == k;
                assert(self.cache@[i].0 == k);
            }
            if self.cache.spec_contains_key(k) {
                let i = choose|i: int|
                    0 <= i < self.cache@.len() && (#[trigger] self.cache@[i]).0 == k;
                assert(self.cache_view()[i].0 == k);
            }
        }
        assert forall|k: NodeRef| #[trigger] r0.has_cache(k) <==> r0.cache.spec_contains_key(
            k,
        ) by {
            if r0.has_cache(k) {
                let i = choose|i: int|
                    0 <= i < r0.cache@.len() && (#[trigger] r0.cache_view()[i]).0 == k;
                assert(r0.cache@[i].0 == k);
            }
            if r0.cache.spec_contains_key(k) {
                let i = choose|i: int|
                    0 <= i < r0.cache@.len() && (#[trigger] r0.cache@[i]).0 == k;
                assert(r0.cache_view()[i].0 == k);
            }
        }
    }
}

/// Instance flags across a map update that replaces one key.
proof fn lemma_inst_flags_insert(
    r0: Renderer,
    r1: Renderer,
    key: NodeRef,
    v: NodeInstance,
)
    requires
        forall|e: (NodeRef, NodeInstance)|
            #[trigger] r1.insts_view().contains(e) <==> ((r0.insts_view().contains(e) && e.0
                != key) || e == (key, v)),
    ensures
        forall|k: NodeRef|
            k != key ==> (#[trigger] r1.has_instance(k) <==> r0.has_instance(k)),
        forall|k: NodeRef|
            k != key ==> (#[trigger] r1.inst_graphics(k) <==> r0.inst_graphics(k)),
        forall|k: NodeRef|
            k != key ==> (#[trigger] r1.inst_impure(k) <==> r0.inst_impure(k)),
        r1.has_instance(key),
        r1.inst_graphics(key) <==> v.is_graphics_spec(),
        r1.inst_impure(key) <==> v.is_impure_spec(),
    decreases 0nat,
{
    assert(r1.insts_view().contains((key, v)));
    let iw = choose|iw: int| 0 <= iw < r1.insts_view().len() && r1.insts_view()[iw] == (key, v);
    assert(r1.insts_view()[iw].0 == key);
    assert forall|i: int, j: int|
        0 <= i < r1.insts_view().len() && 0 <= j < r1.insts_view().len() && (
        #[trigger] r1.insts_view()[i]).0 == key && (#[trigger] r1.insts_view()[j]).0
            == key implies r1.insts_view()[i] == r1.insts_view()[j] by {
        let e1 = r1.insts_view()[i];
        let e2 = r1.insts_view()[j];
        assert(e1 == ((e1.0), e1.1) && e2 == ((e2.0), e2.1));
        assert(r1.insts_view().contains(e1) && r1.insts_view().contains(e2));
        assert(e1 == (key, v) && e2 == (key, v));
    }
    assert(r1.inst_graphics(key) <==> v.is_graphics_spec()) by {
        if r1.inst_graphics(key) {
            let i = choose|i: int|
                0 <= i < r1.insts_view().len() && (#[trigger] r1.insts_view()[i]).0 == key
                    && r1.insts_view()[i].1.is_graphics_spec();
            assert(r1.insts_view()[i] == r1.insts_view()[iw]);
        }
    }
    assert(r1.inst_impure(key) <==> v.is_impure_spec()) by {
        if r1.inst_impure(key) {
            let i = choose|i: int|
                0 <= i < r1.insts_view().len() && (#[trigger] r1.insts_view()[i]).0 == key
                    && r1.insts_view()[i].1.is_impure_spec();
            assert(r1.insts_view()[i] == r1.insts_view()[iw]);
        }
    }
    assert forall|k: NodeRef| k != key implies (#[trigger] r1.has_instance(k)
        <==> r0.has_instance(k)) by {
        if r1.has_instance(k) {
            let i = choose|i: int|
                0 <= i < r1.insts_view().len() && (#[trigger] r1.insts_view()[i]).0 == k;
            let e = r1.insts_view()[i];
            assert(e == ((e.0), e.1));
            assert(r1.insts_view().contains(e));
            assert(r0.insts_view().contains(e));
            let w = choose|w: int| 0 <= w < r0.insts_view().len() && r0.insts_view()[w] == e;
        }
        if r0.has_instance(k) {
            let i = choose|i: int|
                0 <= i < r0.insts_view().len() && (#[trigger] r0.insts_view()[i]).0 == k;
            let e = r0.insts_view()[i];
            assert(e == ((e.0), e.1));
            assert(r0.insts_view().contains(e));
            assert(r1.insts_view().contains(e));
            let w = choose|w: int| 0 <= w < r1.insts_view().len() && r1.insts_view()[w] == e;
        }
    }
    assert forall|k: NodeRef| k != key implies (#[trigger] r1.inst_graphics(k)
        <==> r0.inst_graphics(k)) by {
        if r1.inst_graphics(k) {
            let i = choose|i: int|
                0 <= i < r1.insts_view().len() && (#[trigger] r1.insts_view()[i]).0 == k
                    && r1.insts_view()[i].1.is_graphics_spec();
            let e = r1.insts_view()[i];
            assert(e == ((e.0), e.1));
            assert(r1.insts_view().contains(e));
            assert(r0.insts_view().contains(e));
            let w = choose|w: int| 0 <= w < r0.insts_view().len() && r0.insts_view()[w] == e;
            assert(r0.insts_view()[w].0 == k && r0.insts_view()[w].1.is_graphics_spec());
        }
        if r0.inst_graphics(k) {
            let i = choose|i: int|
                0 <= i < r0.insts_view().len() && (#[trigger] r0.insts_view()[i]).0 == k
                    && r0.insts_view()[i].1.is_graphics_spec();
            let e = r0.insts_view()[i];
            assert(e == ((e.0), e.1));
            assert(r0.insts_view().contains(e));
            assert(r1.insts_view().contains(e));
            let w = choose|w: int| 0 <= w < r1.insts_view().len() && r1.insts_view()[w] == e;
            assert(r1.insts_view()[w].0 == k && r1.insts_view()[w].1.is_graphics_spec());
        }
    }
    assert forall|k: NodeRef| k != key implies (#[trigger] r1.inst_impure(k)
        <==> r0.inst_impure(k)) by {
        if r1.inst_impure(k) {
            let i = choose|i: int|
                0 <= i < r1.insts_view().len() && (#[trigger] r1.insts_view()[i]).0 == k
                    && r1.insts_view()[i].1.is_impure_spec();
            let e = r1.insts_view()[i];
            assert(e == ((e.0), e.1));
            assert(r1.insts_view().contains(e));
            assert(r0.insts_view().contains(e));
            let w = choose|w: int| 0 <= w < r0.insts_view().len() && r0.insts_view()[w] == e;
            assert(r0.insts_view()[w].0 == k && r0.insts_view()[w].1.is_impure_spec());
        }
        if r0.inst_impure(k) {
            let i = choose|i: int|
                0 <= i < r0.insts_view().len() && (#[trigger] r0.insts_view()[i]).0 == k
                    && r0.insts_view()[i].1.is_impure_spec();
            let e = r0.insts_view()[i];
            assert(e == ((e.0), e.1));
            assert(r0.insts_view().contains(e));
            assert(r1.insts_view().contains(e));
            let w = choose|w: int| 0 <= w < r1.insts_view().len() && r1.insts_view()[w] == e;
            assert(r1.insts_view()[w].0 == k && r1.insts_view()[w].1.is_impure_spec());
        }
    }
}

/// Instances persist and keep their kind and purity.
pub open spec fn insts_compat(r0: Renderer, r1: Renderer) -> bool {
    forall|k: NodeRef|
        #[trigger] r0.has_instance(k) ==> (r1.has_instance(k) && (r1.inst_graphics(k)
            <==> r0.inst_graphics(k)) && (r1.inst_impure(k) <==> r0.inst_impure(k)))
}

/// Cache membership only looks at the cache table.
proof fn lemma_has_cache_same(a: Renderer, b: Renderer)
    requires
        b.cache_view() == a.cache_view(),
    ensures
        forall|n: NodeRef| #[trigger] b.has_cache(n) <==> a.has_cache(n),
{
    assert forall|n: NodeRef| #[trigger] b.has_cache(n) <==> a.has_cache(n) by {
        if b.has_cache(n) {
            let i = choose|i: int|
                0 <= i < b.cache_view().len() && (#[trigger] b.cache_view()[i]).0 == n;
            assert(a.cache_view()[i].0 == n);
        }
        if a.has_cache(n) {
            let i = choose|i: int|
                0 <= i < a.cache_view().len() && (#[trigger] a.cache_view()[i]).0 == n;
            assert(b.cache_view()[i].0 == n);
        }
    }
}

/// Equal cache tables give equal cached values.
proof fn lemma_cache_value_same(a: Renderer, b: Renderer)
    requires
        b.cache_view() == a.cache_view(),
        keys_distinct(a.cache_view()),
    ensures
        forall|n: NodeRef, p: usize| #[trigger] b.cache_value(n, p) == a.cache_value(n, p),
{
    reveal(Renderer::cache_value);
    lemma_has_cache_same(a, b);
    assert forall|n: NodeRef, p: usize| #[trigger] b.cache_value(n, p) == a.cache_value(n, p) by {
        if a.has_cache(n) {
            let ia = choose|i: int|
                0 <= i < a.cache_view().len() && (#[trigger] a.cache_view()[i]).0 == n;
            let ib = choose|i: int|
                0 <= i < b.cache_view().len() && (#[trigger] b.cache_view()[i]).0 == n;
            assert(a.cache_view()[ib].0 == n);
            assert(ia == ib) by {
                if ia != ib {
                    if ia < ib {
                        assert(a.cache_view()[ia].0 != a.cache_view()[ib].0);
                    } else {
                        assert(a.cache_view()[ib].0 != a.cache_view()[ia].0);
                    }
                }
            }
            assert(b.cache_view()[ib] == a.cache_view()[ia]);
        }
    }
}

/// Two states with the same contexts, instances and links agree on what
/// processing a produced table means.
proof fn lemma_processed_transfer(
    a: Renderer,
    b: Renderer,
    node_ref: NodeRef,
    produced: Seq<(usize, Value)>,
    r: Seq<(usize, Value)>,
)
    requires
        b.ctx_view() == a.ctx_view(),
        b.insts_view() == a.insts_view(),
        b.graph_spec().links_index() == a.graph_spec().links_index(),
        a.outputs_processed(node_ref, produced, r),
    ensures
        b.outputs_processed(node_ref, produced, r),
{
    assert(a.has_ctx(node_ref) <==> b.has_ctx(node_ref)) by {
        if a.has_ctx(node_ref) {
            let i = choose|i: int|
                0 <= i < a.ctx_view().len() && (#[trigger] a.ctx_view()[i]).0 == node_ref;
            assert(b.ctx_view()[i].0 == node_ref);
        }
        if b.has_ctx(node_ref) {
            let i = choose|i: int|
                0 <= i < b.ctx_view().len() && (#[trigger] b.ctx_view()[i]).0 == node_ref;
            assert(a.ctx_view()[i].0 == node_ref);
        }
    }
    assert forall|c: NodeRef| #[trigger] a.inst_graphics(c) <==> b.inst_graphics(c) by {
        if a.inst_graphics(c) {
            let i = choose|i: int|
                0 <= i < a.insts_view().len() && (#[trigger] a.insts_view()[i]).0 == c
                    && a.insts_view()[i].1.is_graphics_spec();
            assert(b.insts_view()[i].0 == c && b.insts_view()[i].1.is_graphics_spec());
        }
        if b.inst_graphics(c) {
            let i = choose|i: int|
                0 <= i < b.insts_view().len() && (#[trigger] b.insts_view()[i]).0 == c
                    && b.insts_view()[i].1.is_graphics_spec();
            assert(a.insts_view()[i].0 == c && a.insts_view()[i].1.is_graphics_spec());
        }
    }
    assert forall|p: usize|
        match #[trigger] table_value(produced, p) {
            Some(v) => {
                if v is Drawables && b.rasterize_due(node_ref, p) {
                    table_value(r, p) matches Some(w) && w matches Value::Texture(t)
                        && b.ctx_sized(node_ref, t)
                } else {
                    table_value(r, p) == Some(v)
                }
            },
            None => table_value(r, p) is None,
        } by {
        assert forall|t: TextureRef|
            #[trigger] a.ctx_sized(node_ref, t) <==> b.ctx_sized(node_ref, t) by {
            if a.ctx_sized(node_ref, t) {
                let cx = choose|cx: NodeContext|
                    #[trigger] a.ctx_view().contains((node_ref, cx)) && t.width
                        == cx.camera.width && t.height == cx.camera.height && t.resolution
                        == cx.resolution;
                assert(b.ctx_view().contains((node_ref, cx)));
            }
            if b.ctx_sized(node_ref, t) {
                let cx = choose|cx: NodeContext|
                    #[trigger] b.ctx_view().contains((node_ref, cx)) && t.width
                        == cx.camera.width && t.height == cx.camera.height && t.resolution
                        == cx.resolution;
                assert(a.ctx_view().contains((node_ref, cx)));
            }
        }
        assert(a.rasterize_due(node_ref, p) <==> b.rasterize_due(node_ref, p)) by {
            if a.rasterize_due(node_ref, p) {
                let (c, l) = choose|c: NodeRef, l: Link|
                    #[trigger] a.graph_spec().links_index().has_link(node_ref, c, l)
                        && l.out_prop == p && a.inst_graphics(c);
                assert(b.graph_spec().links_index().has_link(node_ref, c, l)
                    && b.inst_graphics(c));
            }
            if b.rasterize_due(node_ref, p) {
                let (c, l) = choose|c: NodeRef, l: Link|
                    #[trigger] b.graph_spec().links_index().has_link(node_ref, c, l)
                        && l.out_prop == p && b.inst_graphics(c);
                assert(a.graph_spec().links_index().has_link(node_ref, c, l)
                    && a.inst_graphics(c));
            }
        }
    }
}

/// Compatibility only looks at the instance table.
proof fn lemma_compat_same_insts(r0: Renderer, a: Renderer, b: Renderer)
    requires
        insts_compat(r0, a),
        b.insts_view() == a.insts_view(),
    ensures
        insts_compat(r0, b),
{
    assert forall|k: NodeRef| #[trigger] r0.has_instance(k) implies (b.has_instance(k) && (
    b.inst_graphics(k) <==> r0.inst_graphics(k)) && (b.inst_impure(k)
        <==> r0.inst_impure(k))) by {
        assert(a.has_instance(k));
        assert(b.has_instance(k) <==> a.has_instance(k));
        assert(b.inst_graphics(k) <==> a.inst_graphics(k));
        assert(b.inst_impure(k) <==> a.inst_impure(k));
    }
}

/// The frame bookkeeping carries over to any state with the same cache,
/// evaluation log, links and compatible instances.
proof fn lemma_frame_inv_transfer(r0: Renderer, a: Renderer, b: Renderer, o: Seq<NodeRef>, cd: bool)
    requires
        a.frame_inv(r0, o, cd),
        b.cache_view() == a.cache_view(),
        b.evaluated_view() == a.evaluated_view(),
        b.graph_spec().links_index() == a.graph_spec().links_index(),
        insts_compat(r0, b),
    ensures
        b.frame_inv(r0, o, cd),
{
    lemma_has_cache_same(a, b);
    assert forall|n: NodeRef| #[trigger] b.has_cache(n) implies (r0.has_cache(n)
        || b.evaluated_view().contains(n)) by {
        assert(b.has_cache(n) <==> a.has_cache(n));
    }
    assert forall|n: NodeRef|
        r0.has_cache(n) && !(#[trigger] b.has_cache(n)) implies exists|m: NodeRef|
        #[trigger] r0.loose_source(o, cd, m) && reaches_downstream(
            r0.graph_spec().links_index(),
            m,
            n,
        ) by {
        assert(b.has_cache(n) <==> a.has_cache(n));
    }
}

proof fn lemma_compat_trans(r0: Renderer, r1: Renderer, r2: Renderer)
    requires
        insts_compat(r0, r1),
        insts_compat(r1, r2),
    ensures
        insts_compat(r0, r2),
{
    assert forall|k: NodeRef| #[trigger] r0.has_instance(k) implies (r2.has_instance(k) && (
    r2.inst_graphics(k) <==> r0.inst_graphics(k)) && (r2.inst_impure(k)
        <==> r0.inst_impure(k))) by {
        assert(r1.has_instance(k));
    }
}

impl Renderer {
    /// Partial processing state: against the first `upto` consumers, every
    /// drawables port one of them wants rasterized has become a texture, and
    /// every other port still holds its produced value.
    pub open spec fn rast_inv(
        self,
        node_ref: NodeRef,
        consumers: Seq<(NodeRef, usize, usize)>,
        upto: int,
        produced: Seq<(usize, Value)>,
        cur: Seq<(usize, Value)>,
    ) -> bool {
        forall|p: usize|
            match #[trigger] table_value(produced, p) {
                Some(v) => {
                    if v is Drawables && self.has_ctx(node_ref) && (exists|i: int|
                        0 <= i < upto && (#[trigger] consumers[i]).1 == p && self.inst_graphics(
                            consumers[i].0,
                        )) {
                        table_value(cur, p) matches Some(w) && w matches Value::Texture(t)
                            && self.ctx_sized(node_ref, t)
                    } else {
                        table_value(cur, p) == Some(v)
                    }
                },
                None => table_value(cur, p) is None,
            }
    }

    /// The processing state only looks at the contexts and the instances.
    proof fn lemma_rast_inv_transfer(
        self,
        b: Renderer,
        node_ref: NodeRef,
        consumers: Seq<(NodeRef, usize, usize)>,
        upto: int,
        produced: Seq<(usize, Value)>,
        cur: Seq<(usize, Value)>,
    )
        requires
            b.ctx_view() == self.ctx_view(),
            b.insts_view() == self.insts_view(),
            self.rast_inv(node_ref, consumers, upto, produced, cur),
        ensures
            b.rast_inv(node_ref, consumers, upto, produced, cur),
    {
        assert(self.has_ctx(node_ref) <==> b.has_ctx(node_ref)) by {
            if self.has_ctx(node_ref) {
                let i = choose|i: int|
                    0 <= i < self.ctx_view().len() && (#[trigger] self.ctx_view()[i]).0
                        == node_ref;
                assert(b.ctx_view()[i].0 == node_ref);
            }
            if b.has_ctx(node_ref) {
                let i = choose|i: int|
                    0 <= i < b.ctx_view().len() && (#[trigger] b.ctx_view()[i]).0 == node_ref;
                assert(self.ctx_view()[i].0 == node_ref);
            }
        }
        assert forall|c: NodeRef| #[trigger] self.inst_graphics(c) <==> b.inst_graphics(c) by {
            if self.inst_graphics(c) {
                let i = choose|i: int|
                    0 <= i < self.insts_view().len() && (#[trigger] self.insts_view()[i]).0 == c
                        && self.insts_view()[i].1.is_graphics_spec();
                assert(b.insts_view()[i].0 == c && b.insts_view()[i].1.is_graphics_spec());
            }
            if b.inst_graphics(c) {
                let i = choose|i: int|
                    0 <= i < b.insts_view().len() && (#[trigger] b.insts_view()[i]).0 == c
                        && b.insts_view()[i].1.is_graphics_spec();
                assert(self.insts_view()[i].0 == c && self.insts_view()[i].1.is_graphics_spec());
            }
        }
        assert forall|p: usize|
            match #[trigger] table_value(produced, p) {
                Some(v) => {
                    if v is Drawables && b.has_ctx(node_ref) && (exists|i: int|
                        0 <= i < upto && (#[trigger] consumers[i]).1 == p && b.inst_graphics(
                            consumers[i].0,
                        )) {
                        table_value(cur, p) matches Some(w) && w matches Value::Texture(t)
                            && b.ctx_sized(node_ref, t)
                    } else {
                        table_value(cur, p) == Some(v)
                    }
                },
                None => table_value(cur, p) is None,
            } by {
            assert forall|t: TextureRef|
                #[trigger] self.ctx_sized(node_ref, t) <==> b.ctx_sized(node_ref, t) by {
                if self.ctx_sized(node_ref, t) {
                    let cx = choose|cx: NodeContext|
                        #[trigger] self.ctx_view().contains((node_ref, cx)) && t.width
                            == cx.camera.width && t.height == cx.camera.height && t.resolution
                            == cx.resolution;
                    assert(b.ctx_view().contains((node_ref, cx)));
                }
                if b.ctx_sized(node_ref, t) {
                    let cx = choose|cx: NodeContext|
                        #[trigger] b.ctx_view().contains((node_ref, cx)) && t.width
                            == cx.camera.width && t.height == cx.camera.height && t.resolution
                            == cx.resolution;
                    assert(self.ctx_view().contains((node_ref, cx)));
                }
            }
            assert((exists|i: int|
                0 <= i < upto && (#[trigger] consumers[i]).1 == p && b.inst_graphics(
                    consumers[i].0,
                )) <==> (exists|i: int|
                0 <= i < upto && (#[trigger] consumers[i]).1 == p && self.inst_graphics(
                    consumers[i].0,
                ))) by {
                if exists|i: int|
                    0 <= i < upto && (#[trigger] consumers[i]).1 == p && b.inst_graphics(
                        consumers[i].0,
                    ) {
                    let i = choose|i: int|
                        0 <= i < upto && (#[trigger] consumers[i]).1 == p && b.inst_graphics(
                            consumers[i].0,
                        );
                    assert(self.inst_graphics(consumers[i].0));
                }
                if exists|i: int|
                    0 <= i < upto && (#[trigger] consumers[i]).1 == p && self.inst_graphics(
                        consumers[i].0,
                    ) {
                    let i = choose|i: int|
                        0 <= i < upto && (#[trigger] consumers[i]).1 == p && self.inst_graphics(
                            consumers[i].0,
                        );
                    assert(b.inst_graphics(consumers[i].0));
                }
            }
        }
    }

    /// A step that replaces nothing keeps the processing state.
    proof fn lemma_rast_step_keep(
        self,
        node_ref: NodeRef,
        consumers: Seq<(NodeRef, usize, usize)>,
        rj: int,
        produced: Seq<(usize, Value)>,
        cur: Seq<(usize, Value)>,
    )
        requires
            0 <= rj < consumers.len(),
            self.rast_inv(node_ref, consumers, rj, produced, cur),
            !self.inst_graphics(consumers[rj].0) || !(table_value(
                cur,
                consumers[rj].1,
            ) matches Some(v) && v is Drawables) || !self.has_ctx(node_ref),
        ensures
            self.rast_inv(node_ref, consumers, rj + 1, produced, cur),
    {
        assert forall|p: usize|
            match #[trigger] table_value(produced, p) {
                Some(v) => {
                    if v is Drawables && self.has_ctx(node_ref) && (exists|i: int|
                        0 <= i < rj + 1 && (#[trigger] consumers[i]).1 == p
                            && self.inst_graphics(consumers[i].0)) {
                        table_value(cur, p) matches Some(w) && w matches Value::Texture(t)
                            && self.ctx_sized(node_ref, t)
                    } else {
                        table_value(cur, p) == Some(v)
                    }
                },
                None => table_value(cur, p) is None,
            } by {
            match table_value(produced, p) {
                Some(v) => {
                    if v is Drawables && self.has_ctx(node_ref) && (exists|i: int|
                        0 <= i < rj + 1 && (#[trigger] consumers[i]).1 == p
                            && self.inst_graphics(consumers[i].0)) {
                        if !(exists|i: int|
                            0 <= i < rj && (#[trigger] consumers[i]).1 == p
                                && self.inst_graphics(consumers[i].0)) {
                            let i = choose|i: int|
                                0 <= i < rj + 1 && (#[trigger] consumers[i]).1 == p
                                    && self.inst_graphics(consumers[i].0);
                            assert(i == rj);
                            assert(table_value(cur, p) == Some(v));
                            assert(false);
                        }
                    }
                },
                None => {},
            }
        }
    }

    /// A replacing step: the port one more graphics consumer reads loses its
    /// drawables for a texture; every other port keeps its contents.
    proof fn lemma_rast_step_replace(
        self,
        node_ref: NodeRef,
        consumers: Seq<(NodeRef, usize, usize)>,
        rj: int,
        produced: Seq<(usize, Value)>,
        cur0: Seq<(usize, Value)>,
        cur1: Seq<(usize, Value)>,
        tex: TextureRef,
    )
        requires
            0 <= rj < consumers.len(),
            keys_distinct(cur0),
            keys_distinct(cur1),
            self.rast_inv(node_ref, consumers, rj, produced, cur0),
            self.inst_graphics(consumers[rj].0),
            self.has_ctx(node_ref),
            self.ctx_sized(node_ref, tex),
            table_value(cur0, consumers[rj].1) matches Some(v) && v is Drawables,
            forall|e: (usize, Value)|
                #[trigger] cur1.contains(e) <==> ((cur0.contains(e) && e.0 != consumers[rj].1)
                    || e == (consumers[rj].1, Value::Texture(tex))),
        ensures
            self.rast_inv(node_ref, consumers, rj + 1, produced, cur1),
    {
        let op = consumers[rj].1;
        assert(cur1.contains((op, Value::Texture(tex))));
        lemma_table_value_present(cur1, op, Value::Texture(tex));
        assert forall|p: usize|
            match #[trigger] table_value(produced, p) {
                Some(v) => {
                    if v is Drawables && self.has_ctx(node_ref) && (exists|i: int|
                        0 <= i < rj + 1 && (#[trigger] consumers[i]).1 == p
                            && self.inst_graphics(consumers[i].0)) {
                        table_value(cur1, p) matches Some(w) && w matches Value::Texture(t)
                            && self.ctx_sized(node_ref, t)
                    } else {
                        table_value(cur1, p) == Some(v)
                    }
                },
                None => table_value(cur1, p) is None,
            } by {
            if p == op {
                match table_value(produced, p) {
                    Some(v) => {
                        if exists|i: int|
                            0 <= i < rj && (#[trigger] consumers[i]).1 == p
                                && self.inst_graphics(consumers[i].0) {
                            assert(table_value(cur0, p) matches Some(w) && w is Texture);
                            assert(false);
                        }
                        assert(table_value(cur0, p) == Some(v));
                        assert(v is Drawables);
                        assert(0 <= rj < rj + 1 && (consumers[rj]).1 == p && self.inst_graphics(
                            consumers[rj].0,
                        ));
                    },
                    None => {
                        assert(table_value(cur0, p) is None);
                        assert(false);
                    },
                }
            } else {
                assert(table_value(cur1, p) == table_value(cur0, p)) by {
                    match table_value(cur1, p) {
                        Some(b) => {
                            let w = choose|w: int|
                                0 <= w < cur1.len() && (#[trigger] cur1[w]).0 == p;
                            assert(cur1[w] == ((cur1[w].0), cur1[w].1));
                            assert(cur1.contains((p, b)));
                            assert(cur0.contains((p, b)));
                            lemma_table_value_present(cur0, p, b);
                        },
                        None => {
                            match table_value(cur0, p) {
                                Some(b) => {
                                    let w = choose|w: int|
                                        0 <= w < cur0.len() && (#[trigger] cur0[w]).0 == p;
                                    assert(cur0[w] == ((cur0[w].0), cur0[w].1));
                                    assert(cur0.contains((p, b)));
                                    assert(cur1.contains((p, b)));
                                    lemma_table_value_present(cur1, p, b);
                                },
                                None => {},
                            }
                        },
                    }
                }
                assert forall|i: int|
                    0 <= i < rj + 1 && (#[trigger] consumers[i]).1 == p && self.inst_graphics(
                        consumers[i].0,
                    ) implies (exists|i2: int|
                    0 <= i2 < rj && (#[trigger] consumers[i2]).1 == p && self.inst_graphics(
                        consumers[i2].0,
                    )) by {
                    if i == rj {
                        assert(consumers[i].1 == op);
                    }
                }
            }
        }
    }

    /// After every consumer was seen, the processing state is exactly what
    /// caching promises of a produced table.
    proof fn lemma_rast_done(
        self,
        node_ref: NodeRef,
        consumers: Seq<(NodeRef, usize, usize)>,
        produced: Seq<(usize, Value)>,
        cur: Seq<(usize, Value)>,
    )
        requires
            self.rast_inv(node_ref, consumers, consumers.len() as int, produced, cur),
            forall|i: int|
                0 <= i < consumers.len() ==> self.graph_spec().links_index().has_link(
                    node_ref,
                    (#[trigger] consumers[i]).0,
                    (Link { out_prop: consumers[i].1, in_prop: consumers[i].2 }),
                ),
            forall|c: NodeRef, l: Link|
                self.graph_spec().links_index().has_link(node_ref, c, l) ==> consumers.contains(
                    (c, l.out_prop, l.in_prop),
                ),
        ensures
            self.outputs_processed(node_ref, produced, cur),
    {
        assert forall|p: usize|
            match #[trigger] table_value(produced, p) {
                Some(v) => {
                    if v is Drawables && self.rasterize_due(node_ref, p) {
                        table_value(cur, p) matches Some(w) && w matches Value::Texture(t)
                            && self.ctx_sized(node_ref, t)
                    } else {
                        table_value(cur, p) == Some(v)
                    }
                },
                None => table_value(cur, p) is None,
            } by {
            assert((self.has_ctx(node_ref) && exists|i: int|
                0 <= i < consumers.len() && (#[trigger] consumers[i]).1 == p
                    && self.inst_graphics(consumers[i].0)) <==> self.rasterize_due(
                node_ref,
                p,
            )) by {
                if self.has_ctx(node_ref) && exists|i: int|
                    0 <= i < consumers.len() && (#[trigger] consumers[i]).1 == p
                        && self.inst_graphics(consumers[i].0) {
                    let i = choose|i: int|
                        0 <= i < consumers.len() && (#[trigger] consumers[i]).1 == p
                            && self.inst_graphics(consumers[i].0);
                    assert(self.graph_spec().links_index().has_link(
                        node_ref,
                        consumers[i].0,
                        (Link { out_prop: consumers[i].1, in_prop: consumers[i].2 }),
                    ));
                }
                if self.rasterize_due(node_ref, p) {
                    let (c, l) = choose|c: NodeRef, l: Link|
                        #[trigger] self.graph_spec().links_index().has_link(node_ref, c, l)
                            && l.out_prop == p && self.inst_graphics(c);
                    assert(consumers.contains((c, l.out_prop, l.in_prop)));
                    let i = choose|i: int|
                        0 <= i < consumers.len() && consumers[i] == (c, l.out_prop, l.in_prop);
                    assert(consumers[i].1 == p && self.inst_graphics(consumers[i].0));
                }
            }
        }
    }

    /// Rebuilds a produced output table for caching: every drawables port a
    /// graphics consumer reads is replaced, under a known context, by a
    /// texture allocated for it; every other port keeps its produced value.
    #[verifier::spinoff_prover]
    fn process_outputs(&mut self, node_ref: NodeRef, produced: BSMap<usize, Value>) -> (r: BSMap<
        usize,
        Value,
    >)
        requires
            old(self).wf(),
            crate::util::entries_sorted(produced@),
            crate::util::keys_distinct(produced@),
        ensures
            final(self).wf(),
            crate::util::entries_sorted(r@),
            crate::util::keys_distinct(r@),
            final(self).graph_spec() == old(self).graph_spec(),
            final(self).cache_view() == old(self).cache_view(),
            final(self).insts_view() == old(self).insts_view(),
            final(self).ctx_view() == old(self).ctx_view(),
            final(self).evaluated_view() == old(self).evaluated_view(),
            final(self).resolution_spec() == old(self).resolution_spec(),
            final(self).outputs_processed(node_ref, produced@, r@),
    {
        let mut ports = produced;
        let ghost prod = ports@;
        let consumers = self.graph.node_outputs(node_ref);
        let mut rj: usize = 0;
        while rj < consumers.len()
            invariant
                rj <= consumers@.len(),
                self.wf(),
                self.graph == old(self).graph,
                self.cache == old(self).cache,
                self.nodes == old(self).nodes,
                self.ctx_cache == old(self).ctx_cache,
                self.evaluated == old(self).evaluated,
                self.resolution == old(self).resolution,
                self.cycle == old(self).cycle,
                crate::util::entries_sorted(ports@),
                crate::util::keys_distinct(ports@),
                crate::util::entries_sorted(prod),
                crate::util::keys_distinct(prod),
                forall|i: int|
                    0 <= i < consumers@.len() ==> self.graph_spec().links_index().has_link(
                        node_ref,
                        (#[trigger] consumers@[i]).0,
                        (Link { out_prop: consumers@[i].1, in_prop: consumers@[i].2 }),
                    ),
                forall|c: NodeRef, l: Link|
                    self.graph_spec().links_index().has_link(node_ref, c, l)
                        ==> consumers@.contains((c, l.out_prop, l.in_prop)),
                self.rast_inv(node_ref, consumers@, rj as int, prod, ports@),
            decreases consumers@.len() - rj,
        {
            let (consumer, out_prop, _ip) = consumers[rj];
            let wants: bool;
            match self.nodes.get(&consumer) {
                Some(inst) => {
                    wants = inst.wants_rasterized();
                    proof {
                        let w = choose|w: int|
                            0 <= w < self.nodes@.len() && #[trigger] self.nodes@[w] == (
                            consumer,
                            *inst,
                        );
                        if inst.is_graphics_spec() {
                            assert(self.inst_graphics(consumer)) by {
                                assert(self.insts_view()[w].0 == consumer
                                    && self.insts_view()[w].1.is_graphics_spec());
                            }
                        } else {
                            assert(!self.inst_graphics(consumer)) by {
                                if self.inst_graphics(consumer) {
                                    let w2 = choose|w2: int|
                                        0 <= w2 < self.insts_view().len() && (
                                        #[trigger] self.insts_view()[w2]).0 == consumer
                                            && self.insts_view()[w2].1.is_graphics_spec();
                                    assert(w2 == w) by {
                                        if w2 != w {
                                            if w2 < w {
                                                assert(self.nodes@[w2].0 != self.nodes@[w].0);
                                            } else {
                                                assert(self.nodes@[w].0 != self.nodes@[w2].0);
                                            }
                                        }
                                    }
                                }
                            }
                        }
                    }
                }
                None => {
                    wants = false;
                    proof {
                        assert(!self.inst_graphics(consumer)) by {
                            if self.inst_graphics(consumer) {
                                let w2 = choose|w2: int|
                                    0 <= w2 < self.insts_view().len() && (
                                    #[trigger] self.insts_view()[w2]).0 == consumer
                                        && self.insts_view()[w2].1.is_graphics_spec();
                                assert(self.nodes@[w2].0 == consumer);
                                assert(self.nodes.spec_contains_key(consumer));
                            }
                        }
                    }
                }
            }
            proof {
                assert(wants == self.inst_graphics(consumer));
                assert(consumers@[rj as int] == (consumer, out_prop, _ip));
            }
            let mut replaced = false;
            if wants {
                let is_drawables: bool;
                match ports.get(&out_prop) {
                    Some(vv) => {
                        proof {
                            let w = choose|w: int|
                                0 <= w < ports@.len() && #[trigger] ports@[w] == (out_prop, *vv);
                            assert(ports@[w] == ((ports@[w].0), ports@[w].1));
                            lemma_table_value_present(ports@, out_prop, *vv);
                        }
                        is_drawables = match vv {
                            Value::Drawables(_) => true,
                            _ => false,
                        };
                    }
                    None => {
                        proof {
                            assert(table_value(ports@, out_prop) is None) by {
                                if table_value(ports@, out_prop) is Some {
                                    let w = choose|w: int|
                                        0 <= w < ports@.len() && (#[trigger] ports@[w]).0
                                            == out_prop;
                                    assert(ports.spec_contains_key(out_prop));
                                }
                            }
                        }
                        is_drawables = false;
                    }
                }
                proof {
                    assert(is_drawables == (table_value(ports@, out_prop) matches Some(v)
                        && v is Drawables));
                }
                if is_drawables {
                    match self.ctx_cache.get(&node_ref) {
                        Some(c) => {
                            let ctx = *c;
                            let ghost p_pre = ports@;
                            let ghost s_it = *self;
                            let tex = self.texture_pool.attachment(
                                ctx.camera.width,
                                ctx.camera.height,
                                ctx.resolution,
                            );
                            ports.insert(out_prop, Value::Texture(tex));
                            replaced = true;
                            proof {
                                assert(s_it.has_ctx(node_ref)) by {
                                    let w = choose|w: int|
                                        0 <= w < s_it.ctx_cache@.len()
                                            && #[trigger] s_it.ctx_cache@[w] == (node_ref, ctx);
                                    assert(s_it.ctx_view()[w].0 == node_ref);
                                }
                                assert(s_it.ctx_sized(node_ref, tex)) by {
                                    assert(s_it.ctx_view().contains((node_ref, ctx))) by {
                                        let w = choose|w: int|
                                            0 <= w < s_it.ctx_cache@.len()
                                                && #[trigger] s_it.ctx_cache@[w] == (
                                            node_ref,
                                            ctx,
                                        );
                                    }
                                    assert(tex.kind
                                        == crate::render::texture::TexKind::Attachment);
                                }
                                s_it.lemma_rast_step_replace(
                                    node_ref,
                                    consumers@,
                                    rj as int,
                                    prod,
                                    p_pre,
                                    ports@,
                                    tex,
                                );
                                s_it.lemma_rast_inv_transfer(
                                    *self,
                                    node_ref,
                                    consumers@,
                                    rj + 1,
                                    prod,
                                    ports@,
                                );
                            }
                        }
                        None => {
                            proof {
                                assert(!self.has_ctx(node_ref)) by {
                                    if self.has_ctx(node_ref) {
                                        let w = choose|w: int|
                                            0 <= w < self.ctx_view().len() && (
                                            #[trigger] self.ctx_view()[w]).0 == node_ref;
                                        assert(self.ctx_cache@[w].0 == node_ref);
                                        assert(self.ctx_cache.spec_contains_key(node_ref));
                                    }
                                }
                            }
                        }
                    }
                }
            }
            proof {
                if !replaced {
                    self.lemma_rast_step_keep(node_ref, consumers@, rj as int, prod, ports@);
                }
            }
            rj += 1;
        }
        proof {
            self.lemma_rast_done(node_ref, consumers@, prod, ports@);
        }
        ports
    }

    /// Evaluates a single node and caches its outputs, appending it to the
    /// evaluation log. `camera_only` restricts evaluation to data nodes, for
    /// the camera pre-pass.
    #[verifier::spinoff_prover]
    fn eval_one(
        &mut self,
        node_ref: NodeRef,
        ignore_prop: Option<usize>,
        camera_only: bool,
        Ghost(r0): Ghost<Renderer>,
        Ghost(o): Ghost<Seq<NodeRef>>,
        Ghost(cd): Ghost<bool>,
    ) -> (r: Result<(), RenderError>)
        requires
            old(self).wf(),
            old(self).frame_inv(r0, o, cd),
            insts_compat(r0, *old(self)),
            o.contains(node_ref),
            exists|m: NodeRef|
                #[trigger] r0.loose_source(o, cd, m) && reaches_downstream(
                    r0.graph_spec().links_index(),
                    m,
                    node_ref,
                ),
        ensures
            final(self).wf(),
            final(self).frame_inv(r0, o, cd),
            insts_compat(r0, *final(self)),
            final(self).graph_spec() == old(self).graph_spec(),
            final(self).ctx_view() == old(self).ctx_view(),
            final(self).resolution_spec() == old(self).resolution_spec(),
            final(self).evaluated_view() == old(self).evaluated_view().push(node_ref),
            r is Ok ==> final(self).has_cache(node_ref),
            forall|k: NodeRef|
                k != node_ref && #[trigger] final(self).has_cache(k) ==> old(self).has_cache(k),
            !(r matches Err(RenderError::OrderError(_))),
            !(r matches Err(RenderError::NoCameraData)),
            !(r matches Err(RenderError::NoScene)),
            // the camera pass refuses graphics nodes outright
            camera_only && old(self).inst_graphics(node_ref) ==> r is Err,
            r matches Err(RenderError::NonDataCameraInput(n)) ==> (n == node_ref && camera_only
                && final(self).cache_view() == old(self).cache_view()),
            // a wrapped evaluation error names this node
            r matches Err(RenderError::Eval(n, _)) ==> n == node_ref,
            // internal errors are pinned down: the node is gone from the
            // graph, or a graphics node was reached without a context
            r matches Err(RenderError::Internal(ie)) ==> (match ie {
                InternalRendererError::MissingNode(n) => n == node_ref
                    && !final(self).has_instance(node_ref)
                    && !final(self).graph_spec().has_node(node_ref),
                InternalRendererError::NoContext(n) => n == node_ref
                    && !final(self).has_ctx(node_ref)
                    && final(self).inst_graphics(node_ref) && !camera_only,
            }),
            // a missing type names this node's unregistered type
            r matches Err(RenderError::MissingNodeType(t)) ==> (!final(self).registry_has(t@)
                && exists|w: int|
                0 <= w < final(self).graph_spec().nodes_view().len()
                    && (#[trigger] final(self).graph_spec().nodes_view()[w]).0 == node_ref
                    && final(self).graph_spec().nodes_view()[w].1.node_type@ == t@),
            // inputs were gathered from the cache, the ignored port exempt
            r is Ok ==> forall|u: NodeRef, l: Link|
                #[trigger] old(self).graph_spec().links_index().has_link(u, node_ref, l)
                    && !port_ignored(ignore_prop, l.in_prop) ==> old(self).cache_value(
                    u,
                    l.out_prop,
                ) is Some,
            // what was cached: either the update was rejected in favour of a
            // differing stale entry, or the processed form of some produced
            // output table
            r is Ok ==> forall|tbl: BSMap<usize, Value>|
                #[trigger] final(self).cache_view().contains((node_ref, tbl)) ==> (old(
                    self,
                ).cache_view().contains((node_ref, tbl)) || exists|produced: Seq<(usize, Value)>|
                    final(self).outputs_processed(node_ref, produced, tbl@)),
    {
        self.evaluated.push(node_ref);
        proof {
            assert forall|t: int|
                0 <= t < self.evaluated@.len() implies o.contains(
                #[trigger] self.evaluated@[t],
            ) && exists|m: NodeRef|
                #[trigger] r0.loose_source(o, cd, m) && reaches_downstream(
                    r0.graph_spec().links_index(),
                    m,
                    self.evaluated@[t],
                ) by {
                if t < self.evaluated@.len() - 1 {
                    assert(self.evaluated@[t] == old(self).evaluated_view()[t]);
                }
            }
            lemma_compat_same_insts(r0, *old(self), *self);
            lemma_has_cache_same(*old(self), *self);
            assert forall|n: NodeRef| #[trigger] self.has_cache(n) implies (r0.has_cache(n)
                || self.evaluated_view().contains(n)) by {
                assert(self.has_cache(n) <==> old(self).has_cache(n));
                if !r0.has_cache(n) && self.has_cache(n) {
                    assert(old(self).evaluated_view().contains(n));
                    let t = choose|t: int|
                        0 <= t < old(self).evaluated_view().len() && old(self).evaluated_view()[t]
                            == n;
                    assert(self.evaluated@[t] == n);
                }
            }
            assert forall|n: NodeRef|
                r0.has_cache(n) && !(#[trigger] self.has_cache(n)) implies exists|m: NodeRef|
                #[trigger] r0.loose_source(o, cd, m) && reaches_downstream(
                    r0.graph_spec().links_index(),
                    m,
                    n,
                ) by {
                assert(self.has_cache(n) <==> old(self).has_cache(n));
            }
            assert(self.frame_inv(r0, o, cd));
        }
        let ghost s1 = *self;
        let r_inst = self.ensure_node_instance(node_ref);
        proof {
            lemma_compat_trans(r0, s1, *self);
            lemma_frame_inv_transfer(r0, s1, *self, o, cd);
        }
        match r_inst {
            Ok(()) => {}
            Err(e) => {
                return Err(e);
            }
        }
        let input = match self.build_inputs(node_ref, ignore_prop) {
            Ok(i) => i,
            Err(e) => {
                return Err(RenderError::Eval(node_ref, e));
            }
        };
        proof {
            lemma_cache_value_same(*old(self), *self);
            assert forall|u: NodeRef, l: Link|
                #[trigger] old(self).graph_spec().links_index().has_link(u, node_ref, l)
                    && !port_ignored(ignore_prop, l.in_prop) implies old(self).cache_value(
                u,
                l.out_prop,
            ) is Some by {
                assert(self.graph_spec().links_index().has_link(u, node_ref, l));
                assert(self.cache_value(u, l.out_prop) is Some);
            }
        }
        let mut out = Output::new();
        let ghost pre_take = *self;
        let inst0 = match self.nodes.remove(&node_ref) {
            Some(i) => i,
            None => {
                // unreachable: the instance was just ensured
                proof {
                    assert(false) by {
                        assert(pre_take.has_instance(node_ref));
                        let w = choose|w: int|
                            0 <= w < pre_take.insts_view().len() && (
                            #[trigger] pre_take.insts_view()[w]).0 == node_ref;
                        assert(pre_take.nodes@[w].0 == node_ref);
                        assert(pre_take.nodes.spec_contains_key(node_ref));
                    }
                }
                return Err(RenderError::Internal(InternalRendererError::MissingNode(node_ref)));
            }
        };
        let ghost mid_r = *self;
        let ghost v0 = inst0;
        let eval_ok: Result<(), EvalError>;
        let inst1: NodeInstance;
        match inst0 {
            NodeInstance::Data { mut inst, pure } => {
                proof {
                    if camera_only && old(self).inst_graphics(node_ref) {
                        // the instance taken out is the graphics one
                        let i = choose|i: int|
                            0 <= i < old(self).insts_view().len() && (#[trigger] old(
                                self,
                            ).insts_view()[i]).0 == node_ref && old(
                                self,
                            ).insts_view()[i].1.is_graphics_spec();
                        assert(s1.insts_view() == old(self).insts_view());
                        assert(s1.inst_graphics(node_ref)) by {
                            assert(s1.insts_view()[i].0 == node_ref
                                && s1.insts_view()[i].1.is_graphics_spec());
                        }
                        assert(s1.has_instance(node_ref)) by {
                            assert(s1.insts_view()[i].0 == node_ref);
                        }
                        assert(pre_take.inst_graphics(node_ref));
                        let w = choose|w: int|
                            0 <= w < pre_take.insts_view().len() && (
                            #[trigger] pre_take.insts_view()[w]).0 == node_ref
                                && pre_take.insts_view()[w].1.is_graphics_spec();
                        let w2 = choose|w2: int|
                            0 <= w2 < pre_take.nodes@.len() && #[trigger] pre_take.nodes@[w2] == (
                            node_ref,
                            inst0,
                        );
                        assert(w == w2) by {
                            if w != w2 {
                                assert(pre_take.insts_view()[w].0 != pre_take.insts_view()[w2].0);
                            }
                        }
                        assert(pre_take.insts_view()[w2] == (node_ref, inst0));
                        assert(inst0.is_graphics_spec());
                        assert(false);
                    }
                }
                eval_ok = inst.node.eval(&input, &mut out);
                inst1 = NodeInstance::Data { inst, pure };
            }
            NodeInstance::Graphics { mut inst } => {
                if camera_only {
                    let put = NodeInstance::Graphics { inst };
                    let ghost v1 = put;
                    self.nodes.insert(node_ref, put);
                    proof {
                        lemma_instance_restored(pre_take, mid_r, *self, node_ref, v0, v1);
                        lemma_compat_trans(r0, pre_take, *self);
                        lemma_frame_inv_transfer(r0, pre_take, *self, o, cd);
                    }
                    return Err(RenderError::NonDataCameraInput(node_ref));
                }
                let ctx = match self.ctx_cache.get(&node_ref) {
                    Some(c) => *c,
                    None => {
                        let put = NodeInstance::Graphics { inst };
                        let ghost v1 = put;
                        self.nodes.insert(node_ref, put);
                        proof {
                            lemma_instance_restored(pre_take, mid_r, *self, node_ref, v0, v1);
                            lemma_compat_trans(r0, pre_take, *self);
                            lemma_frame_inv_transfer(r0, pre_take, *self, o, cd);
                            assert(!self.has_ctx(node_ref)) by {
                                if self.has_ctx(node_ref) {
                                    let w = choose|w: int|
                                        0 <= w < self.ctx_view().len() && (
                                        #[trigger] self.ctx_view()[w]).0 == node_ref;
                                    assert(self.ctx_cache@[w].0 == node_ref);
                                    assert(self.ctx_cache.spec_contains_key(node_ref));
                                }
                            }
                            assert(pre_take.inst_graphics(node_ref)) by {
                                let w = choose|w: int|
                                    0 <= w < pre_take.nodes@.len()
                                        && #[trigger] pre_take.nodes@[w] == (node_ref, v0);
                                assert(pre_take.insts_view()[w].0 == node_ref
                                    && pre_take.insts_view()[w].1.is_graphics_spec());
                            }
                        }
                        return Err(
                            RenderError::Internal(InternalRendererError::NoContext(node_ref)),
                        );
                    }
                };
                eval_ok = inst.node.eval(&input, ctx, &mut out, &mut self.texture_pool);
                inst1 = NodeInstance::Graphics { inst };
            }
        }
        let ghost v1 = inst1;
        self.nodes.insert(node_ref, inst1);
        proof {
            lemma_instance_restored(pre_take, mid_r, *self, node_ref, v0, v1);
            lemma_compat_trans(r0, pre_take, *self);
            lemma_frame_inv_transfer(r0, pre_take, *self, o, cd);
        }
        match eval_ok {
            Ok(()) => {}
            Err(e) => {
                return Err(RenderError::Eval(node_ref, e));
            }
        }
        // rebuild the outputs into a well-formed table; node implementations
        // are unverified
        let mut ports0: BSMap<usize, Value> = BSMap::new();
        let raw = out.values.iter();
        let mut pj: usize = 0;
        while pj < raw.len()
            invariant
                pj <= raw@.len(),
                crate::util::entries_sorted(ports0@),
                crate::util::keys_distinct(ports0@),
            decreases raw@.len() - pj,
        {
            let (pk, pv) = &raw[pj];
            ports0.insert(*pk, pv.clone());
            pj += 1;
        }
        let ghost produced = ports0@;
        // rasterization: an output port holding drawables whose consumer
        // expects rasterized input is eagerly replaced by a texture, so
        // downstream consumers never special-case vector data
        let ghost pre_rast = *self;
        let ports = self.process_outputs(node_ref, ports0);
        proof {
            lemma_has_cache_same(pre_rast, *self);
            lemma_compat_same_insts(r0, pre_rast, *self);
            lemma_frame_inv_transfer(r0, pre_rast, *self, o, cd);
        }
        let ghost pre_cache = *self;
        let ghost ports_snap = ports;
        self.set_cache(node_ref, ports);
        proof {
            let lks = r0.graph_spec().links_index();
            let m0 = choose|m0: NodeRef|
                #[trigger] r0.loose_source(o, cd, m0) && reaches_downstream(lks, m0, node_ref);
            assert forall|n: NodeRef| #[trigger] self.has_cache(n) implies (r0.has_cache(n)
                || self.evaluated_view().contains(n)) by {
                if n == node_ref {
                    assert(self.evaluated@[self.evaluated@.len() - 1] == node_ref);
                } else {
                    assert(pre_cache.has_cache(n));
                }
            }
            assert forall|n: NodeRef|
                r0.has_cache(n) && !(#[trigger] self.has_cache(n)) implies exists|m: NodeRef|
                #[trigger] r0.loose_source(o, cd, m) && reaches_downstream(lks, m, n) by {
                if pre_cache.has_cache(n) {
                    // removed by this update: it lies downstream of this node
                    assert(reaches_downstream(pre_cache.graph_spec().links_index(), node_ref, n));
                    crate::node::graph::lemma_reaches_downstream_trans(lks, m0, node_ref, n);
                }
            }
            lemma_compat_same_insts(r0, pre_cache, *self);
            assert(self.evaluated_view() == pre_cache.evaluated_view());
            assert(self.frame_inv(r0, o, cd));
            assert(self.has_cache(node_ref) || pre_cache.has_cache(node_ref));
            if !self.has_cache(node_ref) && pre_cache.has_cache(node_ref) {
                assert(false) by {
                    if pre_cache.has_cache(node_ref) && !self.has_cache(node_ref) {
                        assert(reaches_downstream(
                            pre_cache.graph_spec().links_index(),
                            node_ref,
                            node_ref,
                        ) ==> false);
                    }
                }
            }
            // the cached entry: the stale rejection or the processed table
            assert(pre_cache.cache_view() == old(self).cache_view());
            if exists|m: BSMap<usize, Value>|
                #[trigger] pre_cache.cache_view().contains((node_ref, m)) && !ports_eq_spec(
                    m@,
                    ports_snap@,
                ) {
                let m = choose|m: BSMap<usize, Value>|
                    #[trigger] pre_cache.cache_view().contains((node_ref, m)) && !ports_eq_spec(
                        m@,
                        ports_snap@,
                    );
                assert(*self == pre_cache);
                assert forall|tbl: BSMap<usize, Value>|
                    #[trigger] self.cache_view().contains((node_ref, tbl)) implies (old(
                    self,
                ).cache_view().contains((node_ref, tbl)) || exists|pr: Seq<(usize, Value)>|
                    self.outputs_processed(node_ref, pr, tbl@)) by {
                    let i1 = choose|i: int|
                        0 <= i < self.cache_view().len() && self.cache_view()[i] == (
                        node_ref,
                        tbl,
                    );
                    let i2 = choose|i: int|
                        0 <= i < self.cache_view().len() && self.cache_view()[i] == (node_ref, m);
                    assert(tbl == m) by {
                        if i1 != i2 {
                            if i1 < i2 {
                                assert(self.cache_view()[i1].0 != self.cache_view()[i2].0);
                            } else {
                                assert(self.cache_view()[i2].0 != self.cache_view()[i1].0);
                            }
                        }
                    }
                    assert(old(self).cache_view().contains((node_ref, m)));
                }
            } else {
                assert(self.cache_view().contains((node_ref, ports_snap)));
                lemma_processed_transfer(pre_cache, *self, node_ref, produced, ports_snap@);
                assert forall|tbl: BSMap<usize, Value>|
                    #[trigger] self.cache_view().contains((node_ref, tbl)) implies (old(
                    self,
                ).cache_view().contains((node_ref, tbl)) || exists|pr: Seq<(usize, Value)>|
                    self.outputs_processed(node_ref, pr, tbl@)) by {
                    let i1 = choose|i: int|
                        0 <= i < self.cache_view().len() && self.cache_view()[i] == (
                        node_ref,
                        tbl,
                    );
                    let i2 = choose|i: int|
                        0 <= i < self.cache_view().len() && self.cache_view()[i] == (
                        node_ref,
                        ports_snap,
                    );
                    assert(tbl == ports_snap) by {
                        if i1 != i2 {
                            if i1 < i2 {
                                assert(self.cache_view()[i1].0 != self.cache_view()[i2].0);
                            } else {
                                assert(self.cache_view()[i2].0 != self.cache_view()[i1].0);
                            }
                        }
                    }
                    assert(self.outputs_processed(node_ref, produced, tbl@));
                }
            }
        }
        Ok(())
    }

}

/// After taking an instance out and putting one of the same kind and purity
/// back in, every instance fact is restored.
proof fn lemma_instance_restored(
    pre: Renderer,
    mid: Renderer,
    cur: Renderer,
    key: NodeRef,
    v0: NodeInstance,
    v1: NodeInstance,
)
    requires
        forall|e: (NodeRef, NodeInstance)|
            #[trigger] mid.insts_view().contains(e) <==> (pre.insts_view().contains(e) && e.0
                != key),
        pre.insts_view().contains((key, v0)),
        forall|e: (NodeRef, NodeInstance)|
            #[trigger] cur.insts_view().contains(e) <==> ((mid.insts_view().contains(e) && e.0
                != key) || e == (key, v1)),
        v1.is_graphics_spec() == v0.is_graphics_spec(),
        v1.is_impure_spec() == v0.is_impure_spec(),
        keys_distinct(pre.insts_view()),
    ensures
        insts_compat(pre, cur),
        forall|k: NodeRef| #[trigger] cur.has_instance(k) <==> pre.has_instance(k),
        forall|k: NodeRef| #[trigger] cur.inst_graphics(k) <==> pre.inst_graphics(k),
        forall|k: NodeRef| #[trigger] cur.inst_impure(k) <==> pre.inst_impure(k),
{
    assert forall|e: (NodeRef, NodeInstance)|
        #[trigger] cur.insts_view().contains(e) <==> ((pre.insts_view().contains(e) && e.0 != key)
            || e == (key, v1)) by {}
    lemma_inst_flags_insert(pre, cur, key, v1);
    let w0 = choose|w0: int| 0 <= w0 < pre.insts_view().len() && pre.insts_view()[w0] == (key, v0);
    assert(pre.has_instance(key)) by {
        assert(pre.insts_view()[w0].0 == key);
    }
    assert(pre.inst_graphics(key) <==> v0.is_graphics_spec()) by {
        if pre.inst_graphics(key) {
            let i = choose|i: int|
                0 <= i < pre.insts_view().len() && (#[trigger] pre.insts_view()[i]).0 == key
                    && pre.insts_view()[i].1.is_graphics_spec();
            assert(i == w0) by {
                if i != w0 {
                    assert(pre.insts_view()[i].0 != pre.insts_view()[w0].0);
                }
            }
        }
        if v0.is_graphics_spec() {
            assert(pre.insts_view()[w0].0 == key && pre.insts_view()[w0].1.is_graphics_spec());
        }
    }
    assert(pre.inst_impure(key) <==> v0.is_impure_spec()) by {
        if pre.inst_impure(key) {
            let i = choose|i: int|
                0 <= i < pre.insts_view().len() && (#[trigger] pre.insts_view()[i]).0 == key
                    && pre.insts_view()[i].1.is_impure_spec();
            assert(i == w0) by {
                if i != w0 {
                    assert(pre.insts_view()[i].0 != pre.insts_view()[w0].0);
                }
            }
        }
        if v0.is_impure_spec() {
            assert(pre.insts_view()[w0].0 == key && pre.insts_view()[w0].1.is_impure_spec());
        }
    }
    assert forall|k: NodeRef| #[trigger] cur.has_instance(k) <==> pre.has_instance(k) by {}
    assert forall|k: NodeRef| #[trigger] cur.inst_graphics(k) <==> pre.inst_graphics(k) by {}
    assert forall|k: NodeRef| #[trigger] cur.inst_impure(k) <==> pre.inst_impure(k) by {}
    assert forall|k: NodeRef| #[trigger] pre.has_instance(k) implies (cur.has_instance(k) && (
    cur.inst_graphics(k) <==> pre.inst_graphics(k)) && (cur.inst_impure(k)
        <==> pre.inst_impure(k))) by {}
}

/// Dirtiness only looks at the dirty set.
proof fn lemma_dirty_same(a: Graph, b: Graph)
    requires
        b.dirty_view() == a.dirty_view(),
    ensures
        forall|n: NodeRef| #[trigger] b.is_dirty_spec(n) <==> a.is_dirty_spec(n),
{
    assert forall|n: NodeRef| #[trigger] b.is_dirty_spec(n) <==> a.is_dirty_spec(n) by {
        if b.is_dirty_spec(n) {
            let i = choose|i: int|
                0 <= i < b.dirty_view().len() && (#[trigger] b.dirty_view()[i]).0 == n;
            assert(a.dirty_view()[i].0 == n);
        }
        if a.is_dirty_spec(n) {
            let i = choose|i: int|
                0 <= i < a.dirty_view().len() && (#[trigger] a.dirty_view()[i]).0 == n;
            assert(b.dirty_view()[i].0 == n);
        }
    }
}

impl Renderer {
    /// Shows that a node needing work right now is downstream of a loose
    /// source of the entry state.
    proof fn lemma_explain_need(
        self,
        r0: Renderer,
        o: Seq<NodeRef>,
        cd: bool,
        n: NodeRef,
        dirty_now: bool,
        impure_now: bool,
        cached_now: bool,
    )
        requires
            self.frame_inv(r0, o, cd),
            insts_compat(r0, self),
            o.contains(n),
            dirty_now ==> r0.graph_spec().is_dirty_spec(n),
            impure_now ==> self.inst_impure(n),
            cached_now == self.has_cache(n),
            dirty_now || impure_now || !cached_now,
        ensures
            exists|m: NodeRef|
                #[trigger] r0.loose_source(o, cd, m) && reaches_downstream(
                    r0.graph_spec().links_index(),
                    m,
                    n,
                ),
    {
        let lks = r0.graph_spec().links_index();
        if dirty_now {
            assert(r0.pre_trigger(cd, n));
            assert(r0.loose_source(o, cd, n));
            crate::node::graph::lemma_reaches_downstream_self(lks, n);
        } else if impure_now {
            if r0.has_instance(n) {
                assert(r0.inst_impure(n));
                assert(r0.pre_trigger(cd, n));
            }
            assert(r0.loose_source(o, cd, n));
            crate::node::graph::lemma_reaches_downstream_self(lks, n);
        } else {
            assert(!self.has_cache(n));
            if r0.has_cache(n) {
                // it was lost along the way, which the bookkeeping explains
                assert(exists|m: NodeRef|
                    #[trigger] r0.loose_source(o, cd, m) && reaches_downstream(lks, m, n));
            } else {
                assert(r0.loose_source(o, cd, n));
                crate::node::graph::lemma_reaches_downstream_self(lks, n);
            }
        }
    }

    /// Whether this node's instance reports itself impure right now.
    fn impure_now(&self, n: NodeRef) -> (r: bool)
        requires
            self.wf(),
        ensures
            r == self.inst_impure(n),
    {
        match self.nodes.get(&n) {
            Some(i) => {
                let imp = i.is_impure();
                proof {
                    let w = choose|w: int|
                        0 <= w < self.nodes@.len() && #[trigger] self.nodes@[w] == (n, *i);
                    if imp {
                        assert(self.insts_view()[w].0 == n
                            && self.insts_view()[w].1.is_impure_spec());
                    } else {
                        if self.inst_impure(n) {
                            let v = choose|v: int|
                                0 <= v < self.insts_view().len() && (
                                #[trigger] self.insts_view()[v]).0 == n
                                    && self.insts_view()[v].1.is_impure_spec();
                            assert(v == w) by {
                                if v != w {
                                    assert(self.insts_view()[v].0 != self.insts_view()[w].0);
                                }
                            }
                        }
                    }
                }
                imp
            }
            None => {
                proof {
                    if self.inst_impure(n) {
                        let v = choose|v: int|
                            0 <= v < self.insts_view().len() && (
                            #[trigger] self.insts_view()[v]).0 == n
                                && self.insts_view()[v].1.is_impure_spec();
                        assert(self.nodes.spec_contains_key(n)) by {
                            assert(self.nodes@[v].0 == n);
                        }
                    }
                }
                false
            }
        }
    }

    /// Whether this node's instance is context-sensitive right now.
    fn contextful_now(&self, n: NodeRef) -> (r: bool)
        requires
            self.wf(),
        ensures
            r == self.inst_graphics(n),
    {
        match self.nodes.get(&n) {
            Some(i) => {
                let g = i.is_contextful();
                proof {
                    let w = choose|w: int|
                        0 <= w < self.nodes@.len() && #[trigger] self.nodes@[w] == (n, *i);
                    if g {
                        assert(self.insts_view()[w].0 == n
                            && self.insts_view()[w].1.is_graphics_spec());
                    } else {
                        if self.inst_graphics(n) {
                            let v = choose|v: int|
                                0 <= v < self.insts_view().len() && (
                                #[trigger] self.insts_view()[v]).0 == n
                                    && self.insts_view()[v].1.is_graphics_spec();
                            assert(v == w) by {
                                if v != w {
                                    assert(self.insts_view()[v].0 != self.insts_view()[w].0);
                                }
                            }
                        }
                    }
                }
                g
            }
            None => {
                proof {
                    if self.inst_graphics(n) {
                        let v = choose|v: int|
                            0 <= v < self.insts_view().len() && (
                            #[trigger] self.insts_view()[v]).0 == n
                                && self.insts_view()[v].1.is_graphics_spec();
                        assert(self.nodes.spec_contains_key(n)) by {
                            assert(self.nodes@[v].0 == n);
                        }
                    }
                }
                false
            }
        }
    }

    fn cache_has(&self, n: NodeRef) -> (r: bool)
        requires
            self.wf(),
        ensures
            r == self.has_cache(n),
    {
        let r = self.cache.contains_key(&n);
        proof {
            if r {
                let i = choose|i: int|
                    0 <= i < self.cache@.len() && (#[trigger] self.cache@[i]).0 == n;
                assert(self.cache_view()[i].0 == n);
            } else {
                if self.has_cache(n) {
                    let i = choose|i: int|
                        0 <= i < self.cache_view().len() && (#[trigger] self.cache_view()[i]).0
                            == n;
                    assert(self.cache@[i].0 == n);
                }
            }
        }
        r
    }

    /// Camera pre-pass: evaluate, in order, the pure data dependencies of the
    /// output node's camera inputs that need it, so a camera is available
    /// before full evaluation. When the output node itself is evaluated here,
    /// its scene input (port 0) is the ignored port of the gathering, so the
    /// pass never demands a cached scene.
    #[verifier::spinoff_prover]
    fn camera_prepass(
        &mut self,
        order: &Vec<NodeRef>,
        s_set: &Vec<NodeRef>,
        io: NodeRef,
        Ghost(r0): Ghost<Renderer>,
        Ghost(cd): Ghost<bool>,
    ) -> (r: Result<(), RenderError>)
        requires
            old(self).wf(),
            old(self).frame_inv(r0, order@, cd),
            insts_compat(r0, *old(self)),
            old(self).graph_spec().dirty_view() == r0.graph_spec().dirty_view(),
            forall|t: int| 0 <= t < order@.len() ==> order@.contains(#[trigger] order@[t]),
        ensures
            final(self).wf(),
            final(self).frame_inv(r0, order@, cd),
            insts_compat(r0, *final(self)),
            final(self).graph_spec() == old(self).graph_spec(),
            final(self).resolution_spec() == old(self).resolution_spec(),
            !(r matches Err(RenderError::OrderError(_))),
            !(r matches Err(RenderError::NoCameraData)),
            !(r matches Err(RenderError::NoScene)),
            // a failure names a node of the order
            r matches Err(RenderError::Eval(n, _)) ==> order@.contains(n),
            r matches Err(RenderError::NonDataCameraInput(n)) ==> order@.contains(n),
            r matches Err(RenderError::MissingNodeType(t)) ==> (!final(self).registry_has(t@)
                && exists|w: int|
                0 <= w < final(self).graph_spec().nodes_view().len() && order@.contains(
                    (#[trigger] final(self).graph_spec().nodes_view()[w]).0,
                ) && final(self).graph_spec().nodes_view()[w].1.node_type@ == t@),
            // every camera-subtree node that needed work was evaluated
            r is Ok ==> (forall|t: int|
                0 <= t < order@.len() && (s_set@.contains(#[trigger] order@[t]) || order@[t] == io)
                    && (r0.graph_spec().is_dirty_spec(order@[t]) || !r0.has_cache(order@[t]))
                    ==> final(self).evaluated_view().contains(order@[t])),
    {
        let mut t: usize = 0;
        while t < order.len()
            invariant
                t <= order@.len(),
                self.wf(),
                self.frame_inv(r0, order@, cd),
                insts_compat(r0, *self),
                self.graph_spec() == old(self).graph_spec(),
                self.resolution_spec() == old(self).resolution_spec(),
                old(self).graph_spec().dirty_view() == r0.graph_spec().dirty_view(),
                forall|t2: int| 0 <= t2 < order@.len() ==> order@.contains(#[trigger] order@[t2]),
                forall|t2: int|
                    0 <= t2 < t && (s_set@.contains(#[trigger] order@[t2]) || order@[t2] == io)
                        && (r0.graph_spec().is_dirty_spec(order@[t2]) || !r0.has_cache(
                        order@[t2],
                    )) ==> self.evaluated_view().contains(order@[t2]),
            decreases order@.len() - t,
        {
            let n = order[t];
            let ghost pre_it = *self;
            if contains_ref(s_set, n) || n == io {
                let dirty_now = self.graph.is_dirty(&n);
                let cached_now = self.cache_has(n);
                let impure_now = self.impure_now(n);
                proof {
                    lemma_dirty_same(r0.graph_spec(), self.graph_spec());
                }
                if dirty_now || impure_now || !cached_now {
                    proof {
                        assert(order@.contains(order@[t as int]));
                        if dirty_now {
                            lemma_dirty_same(r0.graph_spec(), self.graph_spec());
                        }
                        self.lemma_explain_need(
                            r0,
                            order@,
                            cd,
                            n,
                            dirty_now,
                            impure_now,
                            cached_now,
                        );
                    }
                    let ignore: Option<usize> = if n == io {
                        Some(0)
                    } else {
                        None
                    };
                    match self.eval_one(n, ignore, true, Ghost(r0), Ghost(order@), Ghost(cd)) {
                        Ok(()) => {}
                        Err(e) => {
                            return Err(e);
                        }
                    }
                    proof {
                        assert(self.evaluated_view().contains(order@[t as int])) by {
                            assert(self.evaluated_view().last() == n);
                        }
                    }
                } else {
                    proof {
                        assert((r0.graph_spec().is_dirty_spec(n) || !r0.has_cache(n))
                            ==> self.evaluated_view().contains(order@[t as int])) by {
                            if r0.graph_spec().is_dirty_spec(n) {
                                assert(dirty_now);
                                assert(false);
                            } else if !r0.has_cache(n) {
                                assert(pre_it.has_cache(n));
                                assert(pre_it.evaluated_view().contains(n));
                            }
                        }
                    }
                }
            }
            proof {
                assert forall|t2: int|
                    0 <= t2 < t + 1 && (s_set@.contains(#[trigger] order@[t2]) || order@[t2] == io)
                        && (r0.graph_spec().is_dirty_spec(order@[t2]) || !r0.has_cache(
                        order@[t2],
                    )) implies self.evaluated_view().contains(order@[t2]) by {
                    if t2 < t {
                        assert(pre_it.evaluated_view().contains(order@[t2]));
                        let w = choose|w: int|
                            0 <= w < pre_it.evaluated_view().len() && pre_it.evaluated_view()[w]
                                == order@[t2];
                        assert(self.evaluated_view()[w] == order@[t2]);
                    } else {
                        assert(order@[t2] == order@[t as int]);
                    }
                }
            }
            t += 1;
        }
        Ok(())
    }

    /// Dirty resolution: purge the cache entry of every triggering node and
    /// everything downstream of it, then clear those nodes' flags.
    #[verifier::spinoff_prover]
    fn purge_pass(
        &mut self,
        order: &Vec<NodeRef>,
        cd_exec: bool,
        Ghost(r0): Ghost<Renderer>,
        Ghost(cd): Ghost<bool>,
    )
        requires
            old(self).wf(),
            old(self).frame_inv(r0, order@, cd),
            insts_compat(r0, *old(self)),
            old(self).graph_spec().dirty_view() == r0.graph_spec().dirty_view(),
            cd == cd_exec,
            forall|t: int| 0 <= t < order@.len() ==> order@.contains(#[trigger] order@[t]),
        ensures
            final(self).wf(),
            final(self).frame_inv(r0, order@, cd),
            insts_compat(r0, *final(self)),
            final(self).evaluated_view() == old(self).evaluated_view(),
            final(self).graph_spec().links_index() == old(self).graph_spec().links_index(),
            final(self).graph_spec().nodes_view() == old(self).graph_spec().nodes_view(),
            final(self).graph_spec().output_spec() == old(self).graph_spec().output_spec(),
            final(self).graph_spec().order_view() == old(self).graph_spec().order_view(),
            final(self).resolution_spec() == old(self).resolution_spec(),
            final(self).ctx_view() == old(self).ctx_view(),
            forall|m: NodeRef, k: NodeRef|
                order@.contains(m) && #[trigger] r0.pre_trigger(cd, m) && reaches_downstream(
                    r0.graph_spec().links_index(),
                    m,
                    k,
                ) ==> !(#[trigger] final(self).has_cache(k)),
    {
        let mut triggered: Vec<NodeRef> = Vec::new();
        let mut t: usize = 0;
        while t < order.len()
            invariant
                t <= order@.len(),
                self.wf(),
                self.frame_inv(r0, order@, cd),
                insts_compat(r0, *self),
                self.evaluated == old(self).evaluated,
                self.graph == old(self).graph,
                self.ctx_cache == old(self).ctx_cache,
                self.resolution == old(self).resolution,
                old(self).graph_spec().dirty_view() == r0.graph_spec().dirty_view(),
                cd == cd_exec,
                forall|t2: int| 0 <= t2 < order@.len() ==> order@.contains(#[trigger] order@[t2]),
                forall|t2: int, k: NodeRef|
                    0 <= t2 < t && #[trigger] r0.pre_trigger(cd, order@[t2]) && reaches_downstream(
                        r0.graph_spec().links_index(),
                        order@[t2],
                        k,
                    ) ==> !(#[trigger] self.has_cache(k)),
            decreases order@.len() - t,
        {
            let n = order[t];
            let dirty_now = self.graph.is_dirty(&n);
            let contextful = self.contextful_now(n);
            let impure = self.impure_now(n);
            let trig = dirty_now || (cd_exec && contextful) || impure;
            let ghost pre_state = *self;
            if trig {
                triggered.push(n);
                let mut seeds2: Vec<NodeRef> = Vec::new();
                seeds2.push(n);
                let down = self.graph.downstream_closure(&seeds2);
                proof {
                    assert(seeds2@ =~= seq![n]);
                    assert forall|k: NodeRef|
                        down@.contains(k) <==> reaches_downstream(
                            self.graph_spec().links_index(),
                            n,
                            k,
                        ) by {
                        if down@.contains(k) {
                            let i = choose|i: int|
                                0 <= i < seeds2@.len() && reaches_downstream(
                                    self.graph_spec().links_index(),
                                    #[trigger] seeds2@[i],
                                    k,
                                );
                            assert(seeds2@[i] == n);
                        }
                        if reaches_downstream(self.graph_spec().links_index(), n, k) {
                            assert(seeds2@[0] == n);
                        }
                    }
                }
                let mut dj: usize = 0;
                while dj < down.len()
                    invariant
                        dj <= down@.len(),
                        self.wf(),
                        self.evaluated == pre_state.evaluated,
                        self.graph == pre_state.graph,
                        self.ctx_cache == pre_state.ctx_cache,
                        self.nodes == pre_state.nodes,
                        self.resolution == pre_state.resolution,
                        self.texture_pool == pre_state.texture_pool,
                        seeds2@ =~= seq![n],
                        forall|i: int|
                            0 <= i < down@.len() ==> (down@.contains(#[trigger] down@[i])),
                        forall|k: NodeRef|
                            down@.contains(k) <==> reaches_downstream(
                                self.graph_spec().links_index(),
                                n,
                                k,
                            ),
                        forall|k: NodeRef|
                            #[trigger] self.has_cache(k) ==> pre_state.has_cache(k),
                        forall|k: NodeRef|
                            pre_state.has_cache(k) && !(#[trigger] self.has_cache(k))
                                ==> down@.contains(k),
                        forall|i: int| 0 <= i < dj ==> !(#[trigger] self.has_cache(down@[i])),
                    decreases down@.len() - dj,
                {
                    let d = down[dj];
                    let ghost mid = *self;
                    self.cache.remove(&d);
                    proof {
                        assert forall|k: NodeRef| #[trigger] self.has_cache(k) implies (
                        mid.has_cache(k) && k != d) by {
                            if self.has_cache(k) {
                                let i = choose|i: int|
                                    0 <= i < self.cache_view().len() && (
                                    #[trigger] self.cache_view()[i]).0 == k;
                                assert(self.cache.spec_contains_key(k)) by {
                                    assert(self.cache@[i].0 == k);
                                }
                                assert(mid.cache.spec_contains_key(k) && k != d);
                                let w = choose|w: int|
                                    0 <= w < mid.cache@.len() && (#[trigger] mid.cache@[w]).0
                                        == k;
                                assert(mid.cache_view()[w].0 == k);
                            }
                        }
                        assert forall|k: NodeRef|
                            mid.has_cache(k) && k != d implies #[trigger] self.has_cache(k) by {
                            let i = choose|i: int|
                                0 <= i < mid.cache_view().len() && (
                                #[trigger] mid.cache_view()[i]).0 == k;
                            assert(mid.cache.spec_contains_key(k)) by {
                                assert(mid.cache@[i].0 == k);
                            }
                            assert(self.cache.spec_contains_key(k));
                            let w = choose|w: int|
                                0 <= w < self.cache@.len() && (#[trigger] self.cache@[w]).0 == k;
                            assert(self.cache_view()[w].0 == k);
                        }
                        assert forall|i: int| 0 <= i < dj + 1 implies !(#[trigger] self.has_cache(
                            down@[i],
                        )) by {
                            if i < dj {
                                assert(!mid.has_cache(down@[i]));
                            } else {
                                assert(down@[i] == d);
                            }
                        }
                        assert forall|i: int|
                            0 <= i < self.cache_view().len() implies crate::util::entries_sorted(
                            (#[trigger] self.cache_view()[i]).1@,
                        ) && crate::util::keys_distinct(self.cache_view()[i].1@) by {
                            assert(self.cache_view().contains(self.cache_view()[i]));
                            let e = self.cache_view()[i];
                            assert(e == ((e.0), e.1));
                            assert(mid.cache@.contains(e));
                            let w = choose|w: int| 0 <= w < mid.cache@.len() && mid.cache@[w] == e;
                            assert(mid.cache_view()[w] == e);
                        }
                    }
                    dj += 1;
                }
                proof {
                    // every removal this round lies downstream of the
                    // triggering node, which is a loose source
                    assert(order@.contains(order@[t as int]));
                    self.lemma_explain_trigger(r0, pre_state, order@, cd, n, dirty_now, contextful, impure, cd_exec);
                    let lks0 = r0.graph_spec().links_index();
                    assert forall|k: NodeRef|
                        r0.has_cache(k) && !(#[trigger] self.has_cache(k)) implies exists|
                            m: NodeRef,
                        |
                        #[trigger] r0.loose_source(order@, cd, m) && reaches_downstream(
                            lks0,
                            m,
                            k,
                        ) by {
                        if pre_state.has_cache(k) {
                            assert(down@.contains(k));
                            assert(reaches_downstream(lks0, n, k));
                            assert(r0.loose_source(order@, cd, n));
                        }
                    }
                    assert forall|k: NodeRef| #[trigger] self.has_cache(k) implies (
                    r0.has_cache(k) || self.evaluated_view().contains(k)) by {
                        assert(pre_state.has_cache(k));
                    }
                    lemma_compat_same_insts(r0, pre_state, *self);
                    assert(self.evaluated_view() == pre_state.evaluated_view());
                    assert forall|t2: int|
                        0 <= t2 < self.evaluated_view().len() implies order@.contains(
                        #[trigger] self.evaluated_view()[t2],
                    ) && exists|m: NodeRef|
                        #[trigger] r0.loose_source(order@, cd, m) && reaches_downstream(
                            lks0,
                            m,
                            self.evaluated_view()[t2],
                        ) by {
                        assert(pre_state.evaluated_view()[t2] == self.evaluated_view()[t2]);
                    }
                    assert(self.frame_inv(r0, order@, cd));
                    assert forall|t2: int, k: NodeRef|
                        0 <= t2 < t + 1 && #[trigger] r0.pre_trigger(cd, order@[t2])
                            && reaches_downstream(
                            r0.graph_spec().links_index(),
                            order@[t2],
                            k,
                        ) implies !(#[trigger] self.has_cache(k)) by {
                        if t2 < t {
                            assert(!pre_state.has_cache(k));
                        } else {
                            assert(order@[t2] == n);
                            assert(down@.contains(k));
                            let w = choose|w: int| 0 <= w < down@.len() && down@[w] == k;
                        }
                    }
                }
            } else {
                proof {
                    assert forall|t2: int, k: NodeRef|
                        0 <= t2 < t + 1 && #[trigger] r0.pre_trigger(cd, order@[t2])
                            && reaches_downstream(
                            r0.graph_spec().links_index(),
                            order@[t2],
                            k,
                        ) implies !(#[trigger] self.has_cache(k)) by {
                        if t2 == t {
                            assert(order@[t2] == n);
                            // a triggering node of the entry state would
                            // trigger now as well
                            self.lemma_trigger_forward(r0, order@, cd, n);
                            assert(false);
                        }
                    }
                }
            }
            t += 1;
        }
        // clear the flags of what was purged
        let mut cj: usize = 0;
        let ghost purged_state = *self;
        while cj < triggered.len()
            invariant
                cj <= triggered@.len(),
                self.wf(),
                self.cache == purged_state.cache,
                self.evaluated == purged_state.evaluated,
                self.nodes == purged_state.nodes,
                self.ctx_cache == purged_state.ctx_cache,
                self.resolution == purged_state.resolution,
                self.texture_pool == purged_state.texture_pool,
                self.graph_spec().links_index() == purged_state.graph_spec().links_index(),
                self.graph_spec().nodes_view() == purged_state.graph_spec().nodes_view(),
                self.graph_spec().output_spec() == purged_state.graph_spec().output_spec(),
                self.graph_spec().order_view() == purged_state.graph_spec().order_view(),
                self.graph_spec().wf(),
            decreases triggered@.len() - cj,
        {
            let m = triggered[cj];
            self.graph.mark_clean(&m);
            cj += 1;
        }
        proof {
            lemma_has_cache_same(purged_state, *self);
            lemma_compat_same_insts(r0, purged_state, *self);
            lemma_frame_inv_transfer(r0, purged_state, *self, order@, cd);
        }
    }

    /// A triggering node of the entry state triggers in any compatible later
    /// state with the same flags.
    proof fn lemma_trigger_forward(self, r0: Renderer, o: Seq<NodeRef>, cd: bool, n: NodeRef)
        requires
            insts_compat(r0, self),
            self.graph_spec().dirty_view() == r0.graph_spec().dirty_view(),
            r0.pre_trigger(cd, n),
        ensures
            self.graph_spec().is_dirty_spec(n) || (cd && self.inst_graphics(n))
                || self.inst_impure(n),
    {
        lemma_dirty_same(r0.graph_spec(), self.graph_spec());
        if r0.graph_spec().is_dirty_spec(n) {
        } else if cd && r0.inst_graphics(n) {
            assert(r0.has_instance(n)) by {
                let i = choose|i: int|
                    0 <= i < r0.insts_view().len() && (#[trigger] r0.insts_view()[i]).0 == n
                        && r0.insts_view()[i].1.is_graphics_spec();
                assert(r0.insts_view()[i].0 == n);
            }
        } else {
            assert(r0.inst_impure(n));
            assert(r0.has_instance(n)) by {
                let i = choose|i: int|
                    0 <= i < r0.insts_view().len() && (#[trigger] r0.insts_view()[i]).0 == n
                        && r0.insts_view()[i].1.is_impure_spec();
                assert(r0.insts_view()[i].0 == n);
            }
        }
    }

    /// A node triggering right now is a loose source of the entry state.
    proof fn lemma_explain_trigger(
        self,
        r0: Renderer,
        pre_state: Renderer,
        o: Seq<NodeRef>,
        cd: bool,
        n: NodeRef,
        dirty_now: bool,
        contextful: bool,
        impure: bool,
        cd_exec: bool,
    )
        requires
            o.contains(n),
            cd == cd_exec,
            insts_compat(r0, pre_state),
            pre_state.graph_spec().dirty_view() == r0.graph_spec().dirty_view(),
            dirty_now ==> pre_state.graph_spec().is_dirty_spec(n),
            contextful ==> pre_state.inst_graphics(n),
            impure ==> pre_state.inst_impure(n),
            dirty_now || (cd_exec && contextful) || impure,
        ensures
            r0.loose_source(o, cd, n),
    {
        if dirty_now {
            lemma_dirty_same(r0.graph_spec(), pre_state.graph_spec());
            assert(r0.graph_spec().is_dirty_spec(n));
        } else if cd_exec && contextful {
            if r0.has_instance(n) {
                assert(r0.inst_graphics(n));
            }
        } else {
            if r0.has_instance(n) {
                assert(r0.inst_impure(n));
            }
        }
    }
}

impl Renderer {
    /// Full evaluation: every node in order that lacks a valid cache entry
    /// is evaluated.
    #[verifier::spinoff_prover]
    fn eval_pass(
        &mut self,
        order: &Vec<NodeRef>,
        Ghost(r0): Ghost<Renderer>,
        Ghost(cd): Ghost<bool>,
    ) -> (r: Result<(), RenderError>)
        requires
            old(self).wf(),
            old(self).frame_inv(r0, order@, cd),
            insts_compat(r0, *old(self)),
            forall|t: int| 0 <= t < order@.len() ==> order@.contains(#[trigger] order@[t]),
            forall|n: NodeRef|
                r0.pre_miss(order@, cd, n) ==> (!(#[trigger] old(self).has_cache(n)) || old(
                    self,
                ).evaluated_view().contains(n)),
        ensures
            final(self).wf(),
            final(self).frame_inv(r0, order@, cd),
            insts_compat(r0, *final(self)),
            final(self).graph_spec() == old(self).graph_spec(),
            final(self).resolution_spec() == old(self).resolution_spec(),
            r is Ok ==> (forall|t: int|
                0 <= t < order@.len() ==> (r0.pre_miss(order@, cd, #[trigger] order@[t])
                    ==> final(self).evaluated_view().contains(order@[t]))),
            !(r matches Err(RenderError::OrderError(_))),
            !(r matches Err(RenderError::NoCameraData)),
            !(r matches Err(RenderError::NoScene)),
            // a failure names a node of the order
            r matches Err(RenderError::Eval(n, _)) ==> order@.contains(n),
            r matches Err(RenderError::NonDataCameraInput(n)) ==> order@.contains(n),
            r matches Err(RenderError::MissingNodeType(t)) ==> (!final(self).registry_has(t@)
                && exists|w: int|
                0 <= w < final(self).graph_spec().nodes_view().len() && order@.contains(
                    (#[trigger] final(self).graph_spec().nodes_view()[w]).0,
                ) && final(self).graph_spec().nodes_view()[w].1.node_type@ == t@),
    {
        let mut t: usize = 0;
        while t < order.len()
            invariant
                t <= order@.len(),
                self.wf(),
                self.frame_inv(r0, order@, cd),
                insts_compat(r0, *self),
                self.graph_spec() == old(self).graph_spec(),
                self.resolution_spec() == old(self).resolution_spec(),
                forall|t2: int| 0 <= t2 < order@.len() ==> order@.contains(#[trigger] order@[t2]),
                forall|n: NodeRef|
                    r0.pre_miss(order@, cd, n) ==> (!(#[trigger] self.has_cache(n))
                        || self.evaluated_view().contains(n)),
                forall|t2: int|
                    0 <= t2 < t ==> (r0.pre_miss(order@, cd, #[trigger] order@[t2])
                        ==> self.evaluated_view().contains(order@[t2])),
            decreases order@.len() - t,
        {
            let n = order[t];
            let cached_now = self.cache_has(n);
            let ghost pre = *self;
            if !cached_now {
                proof {
                    assert(order@.contains(order@[t as int]));
                    self.lemma_explain_need(r0, order@, cd, n, false, false, cached_now);
                }
                match self.eval_one(n, None, false, Ghost(r0), Ghost(order@), Ghost(cd)) {
                    Ok(()) => {}
                    Err(e) => {
                        return Err(e);
                    }
                }
            }
            proof {
                assert forall|n2: NodeRef|
                    r0.pre_miss(order@, cd, n2) implies (!(#[trigger] self.has_cache(n2))
                        || self.evaluated_view().contains(n2)) by {
                    if self.has_cache(n2) && !pre.has_cache(n2) {
                        // only the node just evaluated gained an entry
                        assert(n2 == n);
                        assert(self.evaluated_view().last() == n);
                    } else if self.has_cache(n2) {
                        if pre.evaluated_view().contains(n2) {
                            let w = choose|w: int|
                                0 <= w < pre.evaluated_view().len() && pre.evaluated_view()[w]
                                    == n2;
                            assert(self.evaluated_view()[w] == n2);
                        }
                    }
                }
                assert forall|t2: int|
                    0 <= t2 < t + 1 implies (r0.pre_miss(order@, cd, #[trigger] order@[t2])
                        ==> self.evaluated_view().contains(order@[t2])) by {
                    if r0.pre_miss(order@, cd, order@[t2]) {
                        if t2 < t {
                            assert(pre.evaluated_view().contains(order@[t2]));
                            let w = choose|w: int|
                                0 <= w < pre.evaluated_view().len() && pre.evaluated_view()[w]
                                    == order@[t2];
                            assert(self.evaluated_view()[w] == order@[t2]);
                        } else {
                            assert(order@[t2] == n);
                            if cached_now {
                                assert(pre.evaluated_view().contains(n));
                                let w = choose|w: int|
                                    0 <= w < pre.evaluated_view().len()
                                        && pre.evaluated_view()[w] == n;
                                assert(self.evaluated_view()[w] == n);
                            } else {
                                assert(self.evaluated_view().last() == n);
                            }
                        }
                    }
                }
            }
            t += 1;
        }
        Ok(())
    }

    /// Renders the entire scene.
    ///
    /// Ensures the topological order, runs the camera pre-pass, resolves the
    /// camera, fills the render contexts, resolves dirtiness, evaluates every
    /// node lacking a valid cache entry, periodically reclaims unused
    /// resources, and returns the texture arriving at the output node's scene
    /// input.
    ///
    /// On success, the evaluation log holds every node that had to be
    /// re-evaluated (those marked dirty, those depending on a dirty or
    /// impure or fresh node, and those without a valid cache entry), and
    /// nothing that was not downstream of such a node.
    #[verifier::spinoff_prover]
    pub fn render(&mut self) -> (r: Result<TextureRef, RenderError>)
        requires
            old(self).wf(),
        ensures
            final(self).wf(),
            final(self).graph_spec().links_index() == old(self).graph_spec().links_index(),
            final(self).graph_spec().nodes_view() == old(self).graph_spec().nodes_view(),
            final(self).graph_spec().output_spec() == old(self).graph_spec().output_spec(),
            final(self).resolution_spec() == old(self).resolution_spec(),
            (r is Ok && old(self).graph_spec().order_view() is Some)
                ==> final(self).graph_spec().order_view() == old(self).graph_spec().order_view(),
            r matches Err(RenderError::OrderError(_)) ==> (old(self).graph_spec().order_view()
                is None && exists|c: Seq<NodeRef>|
                crate::node::graph::is_cycle(old(self).graph_spec().links_index(), c) && c.len()
                    > 0 && (forall|i: int|
                    0 <= i < c.len() ==> #[trigger] c[i] != old(self).graph_spec().output_spec())),
            r is Ok ==> final(self).graph_spec().order_view() is Some,
            r is Ok ==> final(self).log_accounted(
                *old(self),
                final(self).graph_spec().order_view()->Some_0,
                old(self).graph_spec().is_dirty_spec(old(self).graph_spec().output_spec()),
            ),
            // a failing node is named, and lies in the order
            r matches Err(RenderError::Eval(n, _)) ==> (final(self).graph_spec().order_view()
                matches Some(o2) && o2.contains(n)),
            r matches Err(RenderError::NonDataCameraInput(n))
                ==> (final(self).graph_spec().order_view() matches Some(o2) && o2.contains(n)),
            // a missing type is unregistered and configured on a node of the
            // order
            r matches Err(RenderError::MissingNodeType(t)) ==> ({
                &&& !final(self).registry_has(t@)
                &&& (final(self).graph_spec().order_view() matches Some(o2) && exists|w: int|
                    0 <= w < final(self).graph_spec().nodes_view().len() && o2.contains(
                        (#[trigger] final(self).graph_spec().nodes_view()[w]).0,
                    ) && final(self).graph_spec().nodes_view()[w].1.node_type@ == t@)
            }),
            // missing camera: after the pre-pass the output node's camera
            // port held no packed camera
            r matches Err(RenderError::NoCameraData) ==> !(final(self).cache_value(
                final(self).graph_spec().output_spec(),
                0,
            ) matches Some(v) && v matches Value::Any(av) && holds_camera(av)),
            // the returned frame is what arrives at the output node's scene
            // input
            r matches Ok(tex) ==> final(self).scene_source(
                final(self).graph_spec().output_spec(),
                Value::Texture(tex),
            ),
            // missing scene: nothing feeds the scene input, or what feeds it
            // first is not a texture
            r matches Err(RenderError::NoScene) ==> (((forall|u: NodeRef, l: Link|
                #[trigger] final(self).graph_spec().links_index().has_link(
                    u,
                    final(self).graph_spec().output_spec(),
                    l,
                ) ==> l.in_prop != 0) && final(self).spec_prop(
                final(self).graph_spec().output_spec(),
                0,
            ) is None) || (exists|v: Value|
                final(self).scene_source(final(self).graph_spec().output_spec(), v) && !(
                v is Texture))),
    {
        let ghost r0 = *old(self);
        self.evaluated = Vec::new();
        // ensure the topological order
        if !self.graph.has_order() {
            match self.graph.update_order() {
                Ok(()) => {}
                Err(e) => {
                    proof {
                        let c = e->Cycle_0;
                        assert(is_cycle(old(self).graph_spec().links_index(), c@));
                        assert(c@.len() > 0);
                    }
                    return Err(RenderError::OrderError(e));
                }
            }
        }
        let order = match self.graph.order() {
            Some(o) => copy_refs(o),
            None => {
                return Err(
                    RenderError::Internal(
                        InternalRendererError::MissingNode(self.graph.output()),
                    ),
                );
            }
        };
        let ghost o = order@;
        proof {
            assert(self.graph_spec().order_view() == Some(o));
        }
        let io = self.graph.output();
        let cd_exec = self.graph.is_dirty(&io);
        let ghost cd = cd_exec;
        proof {
            lemma_dirty_same(r0.graph_spec(), self.graph_spec());
            lemma_has_cache_same(r0, *self);
            lemma_compat_same_insts(r0, r0, *self);
            assert(self.frame_inv(r0, o, cd));
            assert forall|t: int| 0 <= t < order@.len() implies order@.contains(
                #[trigger] order@[t],
            ) by {}
            assert(cd == r0.graph_spec().is_dirty_spec(r0.graph_spec().output_spec()));
        }
        // camera pre-pass over the upstream closure of the camera inputs
        let io_links = self.graph.node_inputs(io);
        let mut cam_seeds: Vec<NodeRef> = Vec::new();
        let mut sj: usize = 0;
        while sj < io_links.len()
            invariant
                sj <= io_links@.len(),
            decreases io_links@.len() - sj,
        {
            let (src_node, _op, in_prop) = io_links[sj];
            if in_prop != 0 {
                cam_seeds.push(src_node);
            }
            sj += 1;
        }
        let s_set = self.graph.upstream_closure(&cam_seeds);
        match self.camera_prepass(&order, &s_set, io, Ghost(r0), Ghost(cd)) {
            Ok(()) => {}
            Err(e) => {
                return Err(e);
            }
        }
        proof {
            assert(self.graph_spec().order_view() == Some(o));
        }
        // resolve the camera from the output node's data output port
        proof {
            assert(io == self.graph_spec().output_spec());
        }
        let camera = match self.lookup_cache(io, 0) {
            Some(v) => match v {
                Value::Any(av) => match Camera::from_any(av) {
                    Some(c) => c,
                    None => {
                        return Err(RenderError::NoCameraData);
                    }
                },
                _ => {
                    return Err(RenderError::NoCameraData);
                }
            },
            None => {
                return Err(RenderError::NoCameraData);
            }
        };
        // make sure every node in the order has an instance, so consumers can
        // be asked about their input expectations
        let ghost pre_inst = *self;
        let mut ij: usize = 0;
        while ij < order.len()
            invariant
                ij <= order@.len(),
                self.wf(),
                self.frame_inv(r0, o, cd),
                insts_compat(r0, *self),
                self.graph_spec() == pre_inst.graph_spec(),
                self.graph_spec().links_index() == old(self).graph_spec().links_index(),
                self.graph_spec().nodes_view() == old(self).graph_spec().nodes_view(),
                self.graph_spec().output_spec() == old(self).graph_spec().output_spec(),
                self.graph_spec().dirty_view() == r0.graph_spec().dirty_view(),
                self.resolution_spec() == old(self).resolution_spec(),
                self.graph_spec().order_view() == Some(o),
                o == order@,
            decreases order@.len() - ij,
        {
            let ghost step0 = *self;
            match self.ensure_node_instance(order[ij]) {
                Ok(()) => {}
                Err(e) => {
                    proof {
                        assert(self.graph_spec().order_view() == Some(o));
                        assert(o.contains(order@[ij as int])) by {
                            assert(o[ij as int] == order@[ij as int]);
                        }
                    }
                    return Err(e);
                }
            }
            proof {
                lemma_compat_trans(r0, step0, *self);
                lemma_frame_inv_transfer(r0, step0, *self, o, cd);
            }
            ij += 1;
        }
        // context propagation: each node in the order sees the merged
        // requirements of its consumers, which, with no narrowing hooks, is
        // the frame context itself
        let ghost pre_ctx = *self;
        self.ctx_cache.clear();
        let frame_ctx = NodeContext { camera, resolution: self.resolution };
        let mut cj: usize = 0;
        while cj < order.len()
            invariant
                cj <= order@.len(),
                crate::util::entries_sorted(self.ctx_cache@),
                crate::util::keys_distinct(self.ctx_cache@),
                self.cache == pre_ctx.cache,
                self.nodes == pre_ctx.nodes,
                self.evaluated == pre_ctx.evaluated,
                self.graph == pre_ctx.graph,
                self.resolution == pre_ctx.resolution,
                self.texture_pool == pre_ctx.texture_pool,
            decreases order@.len() - cj,
        {
            self.ctx_cache.insert(order[cj], frame_ctx);
            cj += 1;
        }
        proof {
            lemma_has_cache_same(pre_ctx, *self);
            lemma_compat_same_insts(r0, pre_ctx, *self);
            lemma_frame_inv_transfer(r0, pre_ctx, *self, o, cd);
        }
        // dirty resolution
        self.purge_pass(&order, cd_exec, Ghost(r0), Ghost(cd));
        proof {
            // after the purge, everything forced is either gone from the
            // cache or already evaluated
            assert forall|n: NodeRef|
                r0.pre_miss(o, cd, n) implies (!(#[trigger] self.has_cache(n))
                    || self.evaluated_view().contains(n)) by {
                if self.has_cache(n) {
                    if !r0.has_cache(n) {
                        assert(self.evaluated_view().contains(n));
                    } else {
                        if exists|m: NodeRef|
                            o.contains(m) && #[trigger] r0.pre_trigger(cd, m)
                                && reaches_downstream(r0.graph_spec().links_index(), m, n) {
                            let m = choose|m: NodeRef|
                                o.contains(m) && #[trigger] r0.pre_trigger(cd, m)
                                    && reaches_downstream(
                                    r0.graph_spec().links_index(),
                                    m,
                                    n,
                                );
                            assert(!self.has_cache(n));
                        }
                    }
                }
            }
        }
        proof {
            assert(self.graph_spec().order_view() == Some(o));
        }
        // evaluation
        match self.eval_pass(&order, Ghost(r0), Ghost(cd)) {
            Ok(()) => {}
            Err(e) => {
                return Err(e);
            }
        }
        proof {
            assert(self.graph_spec().order_view() == Some(o));
        }
        proof {
            assert forall|n: NodeRef| r0.pre_miss(o, cd, n) implies
                self.evaluated_view().contains(n) by {
                if r0.pre_miss(o, cd, n) {
                    assert(o.contains(n));
                    let t = choose|t: int| 0 <= t < o.len() && o[t] == n;
                    assert(r0.pre_miss(o, cd, o[t]));
                }
            }
        }
        let ghost done = *self;
        // periodic reclamation
        if self.cycle >= CYCLES_UNTIL_GC - 1 {
            self.cycle = 0;
            self.collect_garbage(&order);
        } else {
            self.cycle = self.cycle + 1;
        }
        proof {
            assert(self.evaluated_view() == done.evaluated_view());
            assert forall|t: int|
                0 <= t < self.evaluated_view().len() implies o.contains(
                #[trigger] self.evaluated_view()[t],
            ) && exists|m: NodeRef|
                #[trigger] r0.loose_source(o, cd, m) && reaches_downstream(
                    r0.graph_spec().links_index(),
                    m,
                    self.evaluated_view()[t],
                ) by {
                assert(done.evaluated_view()[t] == self.evaluated_view()[t]);
            }
            assert forall|n: NodeRef| #[trigger] r0.pre_miss(o, cd, n) implies
                self.evaluated_view().contains(n) by {
                assert(done.evaluated_view().contains(n));
                let w = choose|w: int|
                    0 <= w < done.evaluated_view().len() && done.evaluated_view()[w] == n;
                assert(self.evaluated_view()[w] == n);
            }
            assert(self.graph_spec().order_view() == Some(o));
            assert(self.graph_spec().order_view()->Some_0 == o);
            assert(r0.graph_spec().is_dirty_spec(r0.graph_spec().output_spec()) == cd);
            assert(self.log_accounted(r0, o, cd));

        }
        // the rendered scene is whatever arrives at the output node's scene
        // input
        proof {
            assert(io == self.graph_spec().output_spec());
            assert(o.contains(io)) by {
                assert(o.last() == self.graph_spec().output_spec());
                assert(o.contains(o[o.len() - 1]));
            }
        }
        let out_inputs = match self.build_inputs(io, None) {
            Ok(i) => i,
            Err(e) => {
                return Err(RenderError::Eval(io, e));
            }
        };
        let ghost ls = choose|ls: Seq<(NodeRef, usize, usize)>|
            self.gathered_exactly(io, None, out_inputs, ls);
        match out_inputs.get(0) {
            Ok(vs) => {
                proof {
                    let i = choose|i: int|
                        0 <= i < out_inputs.values_view().len()
                            && #[trigger] out_inputs.values_view()[i] == (0usize, *vs);
                    assert(out_inputs.values_view()[i] == ((out_inputs.values_view()[i].0),
                    out_inputs.values_view()[i].1));
                    assert(out_inputs.values_view().contains((0usize, *vs)));
                    lemma_bucket_value_present(out_inputs.values_view(), 0, *vs);
                    let lb = self.link_bucket(ls, None, 0);
                    if lb.len() > 0 {
                        assert(bucket_matches(vs@, lb));
                        assert(same_value(vs@[0], lb[0]));
                        self.lemma_link_bucket_elem(ls, None, 0, 0);
                        let w = choose|w: int|
                            0 <= w < ls.len() && (#[trigger] ls[w]).2 == 0 && !port_ignored(
                                None,
                                0,
                            ) && self.cache_value(ls[w].0, ls[w].1) == Some(lb[0]);
                        assert(self.graph_spec().links_index().has_link(
                            ls[w].0,
                            io,
                            (Link { out_prop: ls[w].1, in_prop: ls[w].2 }),
                        ));
                        assert(self.scene_source(io, vs@[0]));
                    } else {
                        assert(self.spec_prop(io, 0) matches Some(pv) && vs@.len() == 1
                            && same_value(vs@[0], pv));
                        assert(self.scene_source(io, vs@[0]));
                    }
                    assert(vs@.len() > 0);
                }
                if vs.len() > 0 {
                    match &vs[0] {
                        Value::Texture(tex) => {
                            proof {
                                assert(vs@[0] == Value::Texture(*tex));
                            }
                            Ok(*tex)
                        }
                        _ => {
                            proof {
                                assert(self.scene_source(
                                    self.graph_spec().output_spec(),
                                    vs@[0],
                                ) && !(vs@[0] is Texture));
                            }
                            Err(RenderError::NoScene)
                        }
                    }
                } else {
                    // unreachable: a port present in a gathered table always
                    // carries at least one value
                    proof {
                        assert(false);
                    }
                    Err(RenderError::NoScene)
                }
            }
            Err(_) => {
                proof {
                    assert(bucket_value(out_inputs.values_view(), 0) is None) by {
                        if bucket_value(out_inputs.values_view(), 0) is Some {
                            let w = choose|w: int|
                                0 <= w < out_inputs.values_view().len() && (
                                #[trigger] out_inputs.values_view()[w]).0 == 0usize;
                        }
                    }
                    assert(self.link_bucket(ls, None, 0).len() == 0 && self.spec_prop(
                        io,
                        0,
                    ) is None);
                    assert forall|u: NodeRef, l: Link|
                        #[trigger] self.graph_spec().links_index().has_link(u, io, l)
                            implies l.in_prop != 0 by {
                        if l.in_prop == 0 {
                            assert(ls.contains((u, l.out_prop, l.in_prop)));
                            let w = choose|w: int|
                                0 <= w < ls.len() && ls[w] == (u, l.out_prop, l.in_prop);
                            assert(self.cache_value(u, l.out_prop) is Some);
                            self.lemma_link_bucket_nonempty(ls, None, 0, w);
                        }
                    }
                }
                Err(RenderError::NoScene)
            }
        }
    }

    /// Evicts every node instance and cache entry absent from the current
    /// order, and drops pooled textures no surviving cache entry references.
    #[verifier::spinoff_prover]
    fn collect_garbage(&mut self, order: &Vec<NodeRef>)
        requires
            old(self).wf(),
        ensures
            final(self).wf(),
            final(self).graph_spec() == old(self).graph_spec(),
            final(self).evaluated_view() == old(self).evaluated_view(),
            final(self).ctx_view() == old(self).ctx_view(),
            final(self).resolution_spec() == old(self).resolution_spec(),
            // exactly the entries of nodes in the order survive
            forall|k: NodeRef|
                #[trigger] final(self).has_cache(k) <==> (old(self).has_cache(k)
                    && order@.contains(k)),
            forall|k: NodeRef|
                #[trigger] final(self).has_instance(k) <==> (old(self).has_instance(k)
                    && order@.contains(k)),
            // and they keep their values
            forall|e: (NodeRef, BSMap<usize, Value>)|
                (#[trigger] old(self).cache_view().contains(e)) && order@.contains(e.0)
                    ==> final(self).cache_view().contains(e),
            forall|e: (NodeRef, NodeInstance)|
                (#[trigger] old(self).insts_view().contains(e)) && order@.contains(e.0)
                    ==> final(self).insts_view().contains(e),
            // the pool keeps exactly the textures the surviving cache
            // references
            forall|s: crate::render::texture::TexSlot|
                #[trigger] final(self).pool_spec().slots_view().contains(s) ==> (s.used
                    && seq_references(final(self).cache_view(), s.tex.texture_id)),
            forall|i: int|
                0 <= i < old(self).pool_spec().slots_view().len() && seq_references(
                    final(self).cache_view(),
                    (#[trigger] old(self).pool_spec().slots_view()[i]).tex.texture_id,
                ) ==> final(self).pool_spec().slots_view().contains(
                    (crate::render::texture::TexSlot {
                        tex: old(self).pool_spec().slots_view()[i].tex,
                        used: true,
                    }),
                ),
    {
        // gather the dead keys
        let mut dead: Vec<NodeRef> = Vec::new();
        let entries = self.cache.iter();
        let mut j: usize = 0;
        while j < entries.len()
            invariant
                j <= entries@.len(),
                entries@ == self.cache@,
                forall|d: int| 0 <= d < dead@.len() ==> !order@.contains(#[trigger] dead@[d]),
                forall|i: int|
                    0 <= i < j ==> (order@.contains((#[trigger] entries@[i]).0)
                        || dead@.contains(entries@[i].0)),
            decreases entries@.len() - j,
        {
            let k = entries[j].0;
            let ghost d0 = dead@;
            if !contains_ref(order, k) {
                dead.push(k);
            }
            proof {
                assert forall|i: int|
                    0 <= i < j + 1 implies (order@.contains((#[trigger] entries@[i]).0)
                        || dead@.contains(entries@[i].0)) by {
                    if i < j {
                        if d0.contains(entries@[i].0) {
                            let w = choose|w: int| 0 <= w < d0.len() && d0[w] == entries@[i].0;
                            assert(dead@[w] == entries@[i].0);
                        }
                    } else {
                        if !order@.contains(k) {
                            assert(dead@.last() == k);
                        }
                    }
                }
            }
            j += 1;
        }
        let insts = self.nodes.iter();
        let mut j2: usize = 0;
        while j2 < insts.len()
            invariant
                j2 <= insts@.len(),
                insts@ == self.nodes@,
                forall|d: int| 0 <= d < dead@.len() ==> !order@.contains(#[trigger] dead@[d]),
                forall|i: int|
                    0 <= i < self.cache@.len() ==> (order@.contains(
                        (#[trigger] self.cache@[i]).0,
                    ) || dead@.contains(self.cache@[i].0)),
                forall|i: int|
                    0 <= i < j2 ==> (order@.contains((#[trigger] insts@[i]).0) || dead@.contains(
                        insts@[i].0,
                    )),
            decreases insts@.len() - j2,
        {
            let k = insts[j2].0;
            let ghost d0 = dead@;
            if !contains_ref(order, k) {
                dead.push(k);
            }
            proof {
                assert forall|i: int|
                    0 <= i < self.cache@.len() implies (order@.contains(
                    (#[trigger] self.cache@[i]).0,
                ) || dead@.contains(self.cache@[i].0)) by {
                    if d0.contains(self.cache@[i].0) {
                        let w = choose|w: int| 0 <= w < d0.len() && d0[w] == self.cache@[i].0;
                        assert(dead@[w] == self.cache@[i].0);
                    }
                }
                assert forall|i: int|
                    0 <= i < j2 + 1 implies (order@.contains((#[trigger] insts@[i]).0)
                        || dead@.contains(insts@[i].0)) by {
                    if i < j2 {
                        if d0.contains(insts@[i].0) {
                            let w = choose|w: int| 0 <= w < d0.len() && d0[w] == insts@[i].0;
                            assert(dead@[w] == insts@[i].0);
                        }
                    } else {
                        if !order@.contains(k) {
                            assert(dead@.last() == k);
                        }
                    }
                }
            }
            j2 += 1;
        }
        let mut j3: usize = 0;
        while j3 < dead.len()
            invariant
                j3 <= dead@.len(),
                self.wf(),
                self.graph == old(self).graph,
                self.evaluated == old(self).evaluated,
                self.resolution == old(self).resolution,
                self.ctx_cache == old(self).ctx_cache,
                self.texture_pool == old(self).texture_pool,
                self.cycle == old(self).cycle,
                self.node_types == old(self).node_types,
                forall|d: int| 0 <= d < dead@.len() ==> !order@.contains(#[trigger] dead@[d]),
                forall|i: int|
                    0 <= i < old(self).cache@.len() ==> (order@.contains(
                        (#[trigger] old(self).cache@[i]).0,
                    ) || dead@.contains(old(self).cache@[i].0)),
                forall|i: int|
                    0 <= i < old(self).nodes@.len() ==> (order@.contains(
                        (#[trigger] old(self).nodes@[i]).0,
                    ) || dead@.contains(old(self).nodes@[i].0)),
                forall|k: NodeRef|
                    #[trigger] self.cache.spec_contains_key(k) ==> old(
                        self,
                    ).cache.spec_contains_key(k),
                forall|k: NodeRef|
                    #[trigger] self.nodes.spec_contains_key(k) ==> old(
                        self,
                    ).nodes.spec_contains_key(k),
                forall|e: (NodeRef, BSMap<usize, Value>)|
                    (#[trigger] old(self).cache@.contains(e)) && order@.contains(e.0)
                        ==> self.cache@.contains(e),
                forall|e: (NodeRef, NodeInstance)|
                    (#[trigger] old(self).nodes@.contains(e)) && order@.contains(e.0)
                        ==> self.nodes@.contains(e),
                forall|d: int|
                    0 <= d < j3 ==> (!self.cache.spec_contains_key(#[trigger] dead@[d])
                        && !self.nodes.spec_contains_key(dead@[d])),
            decreases dead@.len() - j3,
        {
            let k = dead[j3];
            let ghost pre = *self;
            self.cache.remove(&k);
            self.nodes.remove(&k);
            proof {
                assert forall|i: int|
                    0 <= i < self.cache_view().len() implies crate::util::entries_sorted(
                    (#[trigger] self.cache_view()[i]).1@,
                ) && crate::util::keys_distinct(self.cache_view()[i].1@) by {
                    assert(self.cache_view().contains(self.cache_view()[i]));
                    let e = self.cache_view()[i];
                    assert(e == ((e.0), e.1));
                    assert(pre.cache@.contains(e));
                    let w = choose|w: int| 0 <= w < pre.cache@.len() && pre.cache@[w] == e;
                    assert(pre.cache_view()[w] == e);
                }
                assert forall|d: int|
                    0 <= d < j3 + 1 implies (!self.cache.spec_contains_key(#[trigger] dead@[d])
                        && !self.nodes.spec_contains_key(dead@[d])) by {
                    if d < j3 {
                        assert(!pre.cache.spec_contains_key(dead@[d]));
                        assert(!pre.nodes.spec_contains_key(dead@[d]));
                    } else {
                        assert(dead@[d] == k);
                    }
                }
            }
            j3 += 1;
        }
        proof {
            assert forall|k: NodeRef|
                #[trigger] self.has_cache(k) <==> (old(self).has_cache(k) && order@.contains(
                    k,
                )) by {
                if self.has_cache(k) {
                    let i = choose|i: int|
                        0 <= i < self.cache_view().len() && (#[trigger] self.cache_view()[i]).0
                            == k;
                    assert(self.cache@[i].0 == k);
                    assert(self.cache.spec_contains_key(k));
                    assert(old(self).cache.spec_contains_key(k));
                    let w = choose|w: int|
                        0 <= w < old(self).cache@.len() && (#[trigger] old(self).cache@[w]).0
                            == k;
                    assert(old(self).cache_view()[w].0 == k);
                    assert(old(self).has_cache(k));
                    if !order@.contains(k) {
                        assert(dead@.contains(k));
                        let d = choose|d: int| 0 <= d < dead@.len() && dead@[d] == k;
                        assert(!self.cache.spec_contains_key(dead@[d]));
                    }
                }
                if old(self).has_cache(k) && order@.contains(k) {
                    let i = choose|i: int|
                        0 <= i < old(self).cache_view().len() && (#[trigger] old(
                            self,
                        ).cache_view()[i]).0 == k;
                    let e = old(self).cache@[i];
                    assert(e == ((e.0), e.1));
                    assert(old(self).cache@.contains(e));
                    assert(self.cache@.contains(e));
                    let w = choose|w: int| 0 <= w < self.cache@.len() && self.cache@[w] == e;
                    assert(self.cache_view()[w].0 == k);
                }
            }
            assert forall|k: NodeRef|
                #[trigger] self.has_instance(k) <==> (old(self).has_instance(k)
                    && order@.contains(k)) by {
                if self.has_instance(k) {
                    let i = choose|i: int|
                        0 <= i < self.insts_view().len() && (#[trigger] self.insts_view()[i]).0
                            == k;
                    assert(self.nodes@[i].0 == k);
                    assert(self.nodes.spec_contains_key(k));
                    assert(old(self).nodes.spec_contains_key(k));
                    let w = choose|w: int|
                        0 <= w < old(self).nodes@.len() && (#[trigger] old(self).nodes@[w]).0
                            == k;
                    assert(old(self).insts_view()[w].0 == k);
                    assert(old(self).has_instance(k));
                    if !order@.contains(k) {
                        assert(dead@.contains(k));
                        let d = choose|d: int| 0 <= d < dead@.len() && dead@[d] == k;
                        assert(!self.nodes.spec_contains_key(dead@[d]));
                    }
                }
                if old(self).has_instance(k) && order@.contains(k) {
                    let i = choose|i: int|
                        0 <= i < old(self).insts_view().len() && (#[trigger] old(
                            self,
                        ).insts_view()[i]).0 == k;
                    let e = old(self).nodes@[i];
                    assert(e == ((e.0), e.1));
                    assert(old(self).nodes@.contains(e));
                    assert(self.nodes@.contains(e));
                    let w = choose|w: int| 0 <= w < self.nodes@.len() && self.nodes@[w] == e;
                    assert(self.insts_view()[w].0 == k);
                }
            }
        }
        // mark-sweep the texture pool: keep what the surviving cache entries
        // reference
        let ghost pre_pool = *self;
        let ghost pool0 = self.texture_pool;
        self.texture_pool.clear_marks();
        let ghost pool1 = self.texture_pool;
        let mut live_ids: Vec<u64> = Vec::new();
        let entries2 = self.cache.iter();
        let mut j4: usize = 0;
        while j4 < entries2.len()
            invariant
                j4 <= entries2@.len(),
                entries2@ == self.cache@,
                forall|t: int|
                    0 <= t < live_ids@.len() ==> seq_references(
                        entries2@,
                        #[trigger] live_ids@[t],
                    ),
                forall|i: int, jx: int|
                    0 <= i < j4 && 0 <= jx < entries2@[i].1@.len() ==> ((
                    #[trigger] entries2@[i].1@[jx]).1 matches Value::Texture(t)
                        ==> live_ids@.contains(t.texture_id)),
            decreases entries2@.len() - j4,
        {
            let ports = entries2[j4].1.iter();
            let mut j5: usize = 0;
            while j5 < ports.len()
                invariant
                    j5 <= ports@.len(),
                    j4 < entries2@.len(),
                    entries2@ == self.cache@,
                    ports@ == entries2@[j4 as int].1@,
                    forall|t: int|
                        0 <= t < live_ids@.len() ==> seq_references(
                            entries2@,
                            #[trigger] live_ids@[t],
                        ),
                    forall|i: int, jx: int|
                        0 <= i < j4 && 0 <= jx < entries2@[i].1@.len() ==> ((
                        #[trigger] entries2@[i].1@[jx]).1 matches Value::Texture(t)
                            ==> live_ids@.contains(t.texture_id)),
                    forall|jx: int|
                        0 <= jx < j5 ==> ((#[trigger] entries2@[j4 as int].1@[jx]).1 matches Value::Texture(
                            t,
                        ) ==> live_ids@.contains(t.texture_id)),
                decreases ports@.len() - j5,
            {
                let ghost l0 = live_ids@;
                match &ports[j5].1 {
                    Value::Texture(tex) => {
                        live_ids.push(tex.texture_id);
                        proof {
                            assert(seq_references(entries2@, tex.texture_id)) by {
                                assert((entries2@[j4 as int].1@[j5 as int]).1
                                    == Value::Texture(*tex));
                            }
                        }
                    }
                    _ => {}
                }
                proof {
                    assert forall|t: int|
                        0 <= t < live_ids@.len() implies seq_references(
                        entries2@,
                        #[trigger] live_ids@[t],
                    ) by {
                        if t < l0.len() {
                            assert(live_ids@[t] == l0[t]);
                        }
                    }
                    assert forall|i: int, jx: int|
                        0 <= i < j4 && 0 <= jx < entries2@[i].1@.len() implies ((
                    #[trigger] entries2@[i].1@[jx]).1 matches Value::Texture(t)
                        ==> live_ids@.contains(t.texture_id)) by {
                        if (entries2@[i].1@[jx]).1 is Texture {
                            let tid = ((entries2@[i].1@[jx]).1)->Texture_0.texture_id;
                            assert(l0.contains(tid));
                            let w = choose|w: int| 0 <= w < l0.len() && l0[w] == tid;
                            assert(live_ids@[w] == tid);
                        }
                    }
                    assert forall|jx: int|
                        0 <= jx < j5 + 1 implies ((
                    #[trigger] entries2@[j4 as int].1@[jx]).1 matches Value::Texture(t)
                        ==> live_ids@.contains(t.texture_id)) by {
                        if (entries2@[j4 as int].1@[jx]).1 is Texture {
                            let tid = ((entries2@[j4 as int].1@[jx]).1)->Texture_0.texture_id;
                            if jx < j5 {
                                assert(l0.contains(tid));
                                let w = choose|w: int| 0 <= w < l0.len() && l0[w] == tid;
                                assert(live_ids@[w] == tid);
                            } else {
                                assert(live_ids@.last() == tid);
                            }
                        }
                    }
                }
                j5 += 1;
            }
            j4 += 1;
        }
        let mut j6: usize = 0;
        while j6 < live_ids.len()
            invariant
                j6 <= live_ids@.len(),
                self.cache == pre_pool.cache,
                self.nodes == pre_pool.nodes,
                self.ctx_cache == pre_pool.ctx_cache,
                self.graph == pre_pool.graph,
                self.evaluated == pre_pool.evaluated,
                self.resolution == pre_pool.resolution,
                self.cycle == pre_pool.cycle,
                self.wf(),
                self.texture_pool.slots_view().len() == pool1.slots_view().len(),
                forall|i: int|
                    0 <= i < self.texture_pool.slots_view().len()
                        ==> #[trigger] self.texture_pool.slots_view()[i] == (if (exists|t: int|
                        0 <= t < j6 && pool1.slots_view()[i].tex.texture_id == #[trigger] live_ids@[t]) {
                        (crate::render::texture::TexSlot {
                            tex: pool1.slots_view()[i].tex,
                            used: true,
                        })
                    } else {
                        pool1.slots_view()[i]
                    }),
            decreases live_ids@.len() - j6,
        {
            let ghost sl0 = self.texture_pool.slots_view();
            self.texture_pool.mark_used(live_ids[j6]);
            proof {
                assert forall|i: int|
                    0 <= i < self.texture_pool.slots_view().len()
                        implies #[trigger] self.texture_pool.slots_view()[i] == (if (exists|
                    t: int,
                |
                    0 <= t < j6 + 1 && pool1.slots_view()[i].tex.texture_id
                        == #[trigger] live_ids@[t]) {
                    (crate::render::texture::TexSlot {
                        tex: pool1.slots_view()[i].tex,
                        used: true,
                    })
                } else {
                    pool1.slots_view()[i]
                }) by {
                    assert(sl0[i].tex == pool1.slots_view()[i].tex);
                    if exists|t: int|
                        0 <= t < j6 + 1 && pool1.slots_view()[i].tex.texture_id
                            == #[trigger] live_ids@[t] {
                        let t = choose|t: int|
                            0 <= t < j6 + 1 && pool1.slots_view()[i].tex.texture_id
                                == #[trigger] live_ids@[t];
                        if t < j6 {
                            assert(sl0[i] == (crate::render::texture::TexSlot {
                                tex: pool1.slots_view()[i].tex,
                                used: true,
                            }));
                        }
                    }
                }
            }
            j6 += 1;
        }
        let ghost pre_drop = self.texture_pool.slots_view();
        self.texture_pool.drop_unused();
        proof {
            lemma_has_cache_same(pre_pool, *self);
            assert forall|k: NodeRef| #[trigger] self.has_instance(k) <==> pre_pool.has_instance(
                k,
            ) by {
                if self.has_instance(k) {
                    let i = choose|i: int|
                        0 <= i < self.insts_view().len() && (#[trigger] self.insts_view()[i]).0
                            == k;
                    assert(pre_pool.insts_view()[i].0 == k);
                }
                if pre_pool.has_instance(k) {
                    let i = choose|i: int|
                        0 <= i < pre_pool.insts_view().len() && (
                        #[trigger] pre_pool.insts_view()[i]).0 == k;
                    assert(self.insts_view()[i].0 == k);
                }
            }
            assert forall|s: crate::render::texture::TexSlot|
                #[trigger] self.texture_pool.slots_view().contains(s) implies (s.used
                    && seq_references(self.cache@, s.tex.texture_id)) by {
                assert(pre_drop.contains(s) && s.used);
                let i = choose|i: int| 0 <= i < pre_drop.len() && pre_drop[i] == s;
                assert(pre_drop[i] == (if (exists|t: int|
                    0 <= t < live_ids@.len() && pool1.slots_view()[i].tex.texture_id
                        == #[trigger] live_ids@[t]) {
                    (crate::render::texture::TexSlot {
                        tex: pool1.slots_view()[i].tex,
                        used: true,
                    })
                } else {
                    pool1.slots_view()[i]
                }));
                assert(pool1.slots_view()[i].used == false);
                let t = choose|t: int|
                    0 <= t < live_ids@.len() && pool1.slots_view()[i].tex.texture_id
                        == #[trigger] live_ids@[t];
                assert(seq_references(entries2@, live_ids@[t]));
            }
            assert forall|i: int|
                0 <= i < pool0.slots_view().len() && seq_references(
                    self.cache@,
                    (#[trigger] pool0.slots_view()[i]).tex.texture_id,
                ) implies self.texture_pool.slots_view().contains(
                (crate::render::texture::TexSlot { tex: pool0.slots_view()[i].tex, used: true }),
            ) by {
                assert(pool1.slots_view()[i] == (crate::render::texture::TexSlot {
                    tex: pool0.slots_view()[i].tex,
                    used: false,
                }));
                let id = pool0.slots_view()[i].tex.texture_id;
                // the reference puts the id among the live ones
                let (w, jx) = choose|w: int, jx: int|
                    0 <= w < self.cache@.len() && 0 <= jx < self.cache@[w].1@.len() && ((
                    #[trigger] self.cache@[w].1@[jx]).1 matches Value::Texture(t)
                        && t.texture_id == id);
                assert(live_ids@.contains(id)) by {
                    assert(entries2@[w] == self.cache@[w]);
                }
                let t = choose|t: int| 0 <= t < live_ids@.len() && live_ids@[t] == id;
                assert(pre_drop[i] == (crate::render::texture::TexSlot {
                    tex: pool0.slots_view()[i].tex,
                    used: true,
                })) by {
                    assert(pool1.slots_view()[i].tex.texture_id == live_ids@[t]);
                }
                assert(self.texture_pool.slots_view().contains(pre_drop[i]));
            }
        }
    }
}

/// Full cache hit: re-rendering with no mutation, no impure nodes and all
/// instances and cache entries in place performs zero evaluations.
pub proof fn lemma_full_cache_hit(r0: Renderer, after: Renderer, o: Seq<NodeRef>, cd: bool)
    requires
        after.log_accounted(r0, o, cd),
        forall|n: NodeRef| o.contains(n) ==> #[trigger] r0.has_cache(n),
        forall|n: NodeRef| !(#[trigger] r0.graph_spec().is_dirty_spec(n)),
        forall|n: NodeRef| !(#[trigger] r0.inst_impure(n)),
        forall|n: NodeRef| o.contains(n) ==> #[trigger] r0.has_instance(n),
        !cd,
    ensures
        after.evaluated_view().len() == 0,
{
    if after.evaluated_view().len() > 0 {
        let n = after.evaluated_view()[0];
        let m = choose|m: NodeRef|
            #[trigger] r0.loose_source(o, cd, m) && reaches_downstream(
                r0.graph_spec().links_index(),
                m,
                n,
            );
        assert(o.contains(m));
        assert(r0.has_cache(m));
        assert(r0.has_instance(m));
        assert(!r0.pre_trigger(cd, m));
        assert(false);
    }
}

/// Mutating one node and re-rendering evaluates exactly that node and its
/// downstream set within the order.
pub proof fn lemma_single_mutation(
    r0: Renderer,
    after: Renderer,
    o: Seq<NodeRef>,
    cd: bool,
    x: NodeRef,
)
    requires
        after.log_accounted(r0, o, cd),
        forall|n: NodeRef| #[trigger] r0.graph_spec().is_dirty_spec(n) <==> n == x,
        o.contains(x),
        forall|n: NodeRef| o.contains(n) ==> #[trigger] r0.has_cache(n),
        forall|n: NodeRef| !(#[trigger] r0.inst_impure(n)),
        forall|n: NodeRef| o.contains(n) ==> #[trigger] r0.has_instance(n),
        !cd,
    ensures
        forall|n: NodeRef|
            #[trigger] after.evaluated_view().contains(n) <==> (o.contains(n)
                && reaches_downstream(r0.graph_spec().links_index(), x, n)),
{
    let lks = r0.graph_spec().links_index();
    assert forall|n: NodeRef|
        #[trigger] after.evaluated_view().contains(n) implies (o.contains(n)
            && reaches_downstream(lks, x, n)) by {
        let t = choose|t: int|
            0 <= t < after.evaluated_view().len() && after.evaluated_view()[t] == n;
        let m = choose|m: NodeRef|
            #[trigger] r0.loose_source(o, cd, m) && reaches_downstream(lks, m, n);
        assert(o.contains(m));
        assert(r0.has_cache(m));
        assert(r0.has_instance(m));
        assert(r0.pre_trigger(cd, m));
        assert(r0.graph_spec().is_dirty_spec(m));
        assert(m == x);
    }
    assert forall|n: NodeRef|
        o.contains(n) && reaches_downstream(lks, x, n) implies
        #[trigger] after.evaluated_view().contains(n) by {
        assert(r0.graph_spec().is_dirty_spec(x));
        assert(r0.pre_trigger(cd, x));
        assert(r0.pre_miss(o, cd, n));
    }
}

} // verus!