use narwhal::data::camera::Camera;
use narwhal::data::value::Value;
use narwhal::eval::{DataInstance, DataNode, EvalError, Input, NodeTypeDef, Output, SharedDataType};
use narwhal::node::graph::NodeRef;
use narwhal::node::node::Node;
use narwhal::render::renderer::Renderer;
use narwhal::render::texture::{TexKind, TextureRef};

// A node type that outputs a fixed texture on its first output port.
struct TexType;

impl SharedDataType for TexType {
    fn name(&self) -> String {
        "test.tex".to_string()
    }

    fn create(&mut self) -> DataInstance {
        DataInstance { node: Box::new(TexNode) }
    }
}

struct TexNode;

impl DataNode for TexNode {
    fn eval(&mut self, input: &Input, output: &mut Output) -> Result<(), EvalError> {
        let _ = input;
        output.set(
            0,
            Value::Texture(TextureRef {
                texture_id: 900,
                width: 1,
                height: 1,
                resolution: 1,
                kind: TexKind::Attachment,
            }),
        );
        Ok(())
    }
}

// A node type that outputs the camera on its data output port.
struct CamType;

impl SharedDataType for CamType {
    fn name(&self) -> String {
        "test.cam".to_string()
    }

    fn create(&mut self) -> DataInstance {
        DataInstance { node: Box::new(CamNode) }
    }
}

struct CamNode;

impl DataNode for CamNode {
    fn eval(&mut self, input: &Input, output: &mut Output) -> Result<(), EvalError> {
        let _ = input;
        output.set(0, Value::Any(Camera::new().into_any()));
        Ok(())
    }
}

fn eval_set(r: &Renderer) -> Vec<NodeRef> {
    let mut v: Vec<NodeRef> = Vec::new();
    for n in r.last_evaluated() {
        if !v.contains(n) {
            v.push(*n);
        }
    }
    v
}

fn build_chain() -> (Renderer, NodeRef, NodeRef, NodeRef) {
    // a -> b -> c, output = c; a and b produce textures, c produces the camera
    let mut graph = narwhal::node::graph::Graph::new();
    let a = graph.add_node(Node::empty("test.tex".to_string()));
    let b = graph.add_node(Node::empty("test.tex".to_string()));
    let c = graph.add_node(Node::empty("test.cam".to_string()));
    graph.link(a, 0, b, 0);
    graph.link(b, 0, c, 0);
    graph.set_output(c);

    let mut renderer = Renderer::new(graph);
    renderer.add_node_type(NodeTypeDef::Data(Box::new(TexType)));
    renderer.add_node_type(NodeTypeDef::Data(Box::new(CamType)));
    (renderer, a, b, c)
}

#[test]
fn first_render_evaluates_everything() {
    let (mut renderer, a, b, c) = build_chain();
    let tex = renderer.render().expect("first render failed");
    assert_eq!(tex.texture_id, 900);
    let evals = eval_set(&renderer);
    assert!(evals.contains(&a));
    assert!(evals.contains(&b));
    assert!(evals.contains(&c));
    assert_eq!(evals.len(), 3);
}

#[test]
fn second_render_evaluates_nothing() {
    let (mut renderer, _a, _b, _c) = build_chain();
    renderer.render().expect("first render failed");
    renderer.render().expect("second render failed");
    assert_eq!(renderer.last_evaluated().len(), 0, "full cache hit must evaluate nothing");
}

#[test]
fn mutating_one_node_evaluates_its_downstream_set() {
    let (mut renderer, a, b, c) = build_chain();
    renderer.render().expect("first render failed");
    renderer.graph_mut().node_mut(&b).unwrap();
    renderer.render().expect("third render failed");
    let evals = eval_set(&renderer);
    assert!(!evals.contains(&a), "upstream node must not be re-evaluated");
    assert!(evals.contains(&b));
    assert!(evals.contains(&c));
    assert_eq!(evals.len(), 2);
}

#[test]
fn unlinked_node_is_never_evaluated() {
    let (mut renderer, _a, _b, _c) = build_chain();
    let d = renderer.graph_mut().add_node(Node::empty("test.tex".to_string()));
    renderer.render().expect("render failed");
    assert!(!renderer.last_evaluated().contains(&d));
    assert!(!renderer.graph().order().unwrap().contains(&d));
}

#[test]
fn missing_node_type_fails() {
    let mut graph = narwhal::node::graph::Graph::new();
    let c = graph.add_node(Node::empty("test.unknown".to_string()));
    graph.set_output(c);
    let mut renderer = Renderer::new(graph);
    assert!(renderer.render().is_err());
}

#[test]
fn no_camera_data_fails() {
    // the output node produces a texture, not a camera
    let mut graph = narwhal::node::graph::Graph::new();
    let c = graph.add_node(Node::empty("test.tex".to_string()));
    graph.set_output(c);
    let mut renderer = Renderer::new(graph);
    renderer.add_node_type(NodeTypeDef::Data(Box::new(TexType)));
    assert!(renderer.render().is_err());
}

#[test]
fn cyclic_graph_fails_to_render() {
    let (mut renderer, a, b, _c) = build_chain();
    // a -> b -> a, avoiding the output node
    renderer.graph_mut().link(b, 0, a, 0);
    assert!(renderer.render().is_err());
}

#[test]
fn clear_caches_forces_reevaluation() {
    let (mut renderer, a, b, c) = build_chain();
    renderer.render().expect("first render failed");
    renderer.clear_caches();
    renderer.render().expect("second render failed");
    let evals = eval_set(&renderer);
    assert!(evals.contains(&a) && evals.contains(&b) && evals.contains(&c));
}

// A node type that outputs vector drawables, to be rasterized on demand.
struct DrawType;

impl SharedDataType for DrawType {
    fn name(&self) -> String {
        "test.draw".to_string()
    }

    fn create(&mut self) -> DataInstance {
        DataInstance { node: Box::new(DrawNode) }
    }
}

struct DrawNode;

impl DataNode for DrawNode {
    fn eval(&mut self, input: &Input, output: &mut Output) -> Result<(), EvalError> {
        let _ = input;
        output.set(0, Value::Drawables(Vec::new()));
        Ok(())
    }
}

// A graphics node that insists its input arrives rasterized.
struct GfxType;

impl narwhal::eval::SharedGraphicsType for GfxType {
    fn name(&self) -> String {
        "test.gfx".to_string()
    }

    fn create(&mut self) -> narwhal::eval::GraphicsInstance {
        narwhal::eval::GraphicsInstance { node: Box::new(GfxNode) }
    }
}

struct GfxNode;

impl narwhal::eval::GraphicsNode for GfxNode {
    fn eval(
        &mut self,
        input: &Input,
        context: narwhal::eval::NodeContext,
        output: &mut Output,
        pool: &mut narwhal::render::texture::TexturePool,
    ) -> Result<(), EvalError> {
        let _ = context;
        let _ = pool;
        match input.one(0)? {
            Value::Texture(tex) => {
                let t = *tex;
                output.set(0, Value::Texture(t));
                Ok(())
            }
            _ => Err(EvalError::InputType(0)),
        }
    }
}

#[test]
fn drawables_are_rasterized_for_graphics_consumers() {
    // a (drawables) -> b (graphics) -> c (camera/output)
    let mut graph = narwhal::node::graph::Graph::new();
    let a = graph.add_node(Node::empty("test.draw".to_string()));
    let b = graph.add_node(Node::empty("test.gfx".to_string()));
    let c = graph.add_node(Node::empty("test.cam".to_string()));
    graph.link(a, 0, b, 0);
    graph.link(b, 0, c, 0);
    graph.set_output(c);

    let mut renderer = Renderer::new(graph);
    renderer.add_node_type(NodeTypeDef::Data(Box::new(DrawType)));
    renderer.add_node_type(NodeTypeDef::Graphics(Box::new(GfxType)));
    renderer.add_node_type(NodeTypeDef::Data(Box::new(CamType)));

    // the graphics node errors unless its vector input was rasterized
    renderer.render().expect("drawables must arrive rasterized");
    let evals = eval_set(&renderer);
    assert!(evals.contains(&a) && evals.contains(&b) && evals.contains(&c));
}

#[test]
fn chain_render_scenario() {
    // a -> b -> c with output c: the order is [a, b, c]; the first render
    // evaluates all three, the second none, and after touching b the third
    // evaluates b and c only
    let (mut renderer, a, b, c) = build_chain();
    renderer.graph_mut().update_order().unwrap();
    assert_eq!(renderer.graph().order().unwrap().clone(), vec![a, b, c]);

    renderer.render().expect("first render failed");
    let first = eval_set(&renderer);
    assert!(first.contains(&a) && first.contains(&b) && first.contains(&c));
    assert_eq!(first.len(), 3);

    renderer.render().expect("second render failed");
    assert_eq!(renderer.last_evaluated().len(), 0);

    renderer.graph_mut().node_mut(&b).unwrap();
    renderer.render().expect("third render failed");
    let evals = eval_set(&renderer);
    assert_eq!(evals, vec![b, c]);
}

#[test]
fn collection_keeps_live_entries() {
    // the periodic reclamation must never evict entries of nodes in the
    // current order: across many renders with no mutation, every render
    // after the first stays a full cache hit
    let (mut renderer, _a, _b, _c) = build_chain();
    renderer.render().expect("first render failed");
    for i in 0..200 {
        renderer.render().expect("repeated render failed");
        assert_eq!(renderer.last_evaluated().len(), 0, "render {} re-evaluated", i);
    }
}

#[test]
fn scene_property_fallback_feeds_output() {
    // the output node has no incoming link on its scene port, but carries a
    // texture as a literal property there; input gathering falls back to it
    let mut graph = narwhal::node::graph::Graph::new();
    let c = graph.add_node(Node::empty("test.cam".to_string()));
    {
        let node = graph.node_mut(&c).unwrap();
        node.set(
            0,
            Value::Texture(TextureRef {
                texture_id: 77,
                width: 4,
                height: 4,
                resolution: 1,
                kind: TexKind::Storage,
            }),
        );
    }
    graph.set_output(c);
    let mut renderer = Renderer::new(graph);
    renderer.add_node_type(NodeTypeDef::Data(Box::new(CamType)));
    let tex = renderer.render().expect("property fallback render failed");
    assert_eq!(tex.texture_id, 77);
    assert_eq!(tex.kind, TexKind::Storage);
}
