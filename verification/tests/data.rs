use narwhal::data::camera::Camera;
use narwhal::data::color::Color;
use narwhal::data::path::{Path2D, Path2DCmd};
use narwhal::data::value::{Value, ValueType};
use narwhal::data::weight::{StrokeWeight, WeightCmd};
use narwhal::node::node::Node;
use narwhal::render::texture::{TexKind, TexturePool};
use narwhal::node::defs::{camera_name, CameraProps, CompositeProps, GaussianProps, MaskProps};
use narwhal::util::{BSMap, Interleaved, InterleavedItem, SingleValue, ValueSet};

#[test]
fn bsmap_insert_get_remove() {
    let mut m: BSMap<u64, u64, SingleValue> = BSMap::new();
    m.insert(5, 50);
    m.insert(1, 10);
    m.insert(9, 90);
    assert_eq!(m.len(), 3);
    assert_eq!(m.get(&1), Some(&10));
    assert_eq!(m.get(&5), Some(&50));
    assert_eq!(m.get(&9), Some(&90));
    assert_eq!(m.get(&7), None);
    // replacing keeps one entry per key
    m.insert(5, 55);
    assert_eq!(m.len(), 3);
    assert_eq!(m.get(&5), Some(&55));
    assert_eq!(m.remove(&5), Some(55));
    assert_eq!(m.get(&5), None);
    assert_eq!(m.remove(&5), None);
    assert_eq!(m.greatest_key(), Some(&9));
    assert!(m.contains_key(&1));
    assert!(!m.contains_key(&5));
}

#[test]
fn bsmap_keeps_entries_sorted() {
    let mut m: BSMap<u64, u64, SingleValue> = BSMap::new();
    for k in [8u64, 3, 6, 1, 9, 2] {
        m.insert(k, k * 10);
    }
    let entries = m.iter();
    for i in 1..entries.len() {
        assert!(entries[i - 1].0 < entries[i].0);
    }
}

#[test]
fn bsmap_multivalue_dedups_and_ranges() {
    let mut m: BSMap<u64, u64, ValueSet> = BSMap::new();
    m.insert_value(4, 1);
    m.insert_value(4, 2);
    m.insert_value(4, 1);
    m.insert_value(2, 7);
    assert_eq!(m.len(), 3, "an identical entry must not be inserted twice");
    assert!(m.contains_entry(&4, &1));
    assert!(m.contains_entry(&4, &2));
    assert!(!m.contains_entry(&4, &3));
    let band = m.range(4);
    assert_eq!(band.len(), 2);
    assert_eq!(m.remove_value(&4, &1), Some(1));
    assert!(!m.contains_entry(&4, &1));
    assert!(m.contains_entry(&4, &2));
    assert_eq!(m.remove_value(&4, &1), None);
}

#[test]
fn value_type_names() {
    assert_eq!(Value::Float(3).value_type(), ValueType::Float);
    assert_eq!(Value::String("x".to_string()).value_type(), ValueType::String);
    assert_eq!(Value::Vec2([1, 2]).value_type(), ValueType::Vec2);
    assert_eq!(Value::Raw(vec![1, 2, 3]).value_type(), ValueType::Raw);
}

#[test]
fn value_equality_rules() {
    assert!(Value::Float(3).value_eq(&Value::Float(3)));
    assert!(!Value::Float(3).value_eq(&Value::Float(4)));
    assert!(!Value::Float(3).value_eq(&Value::String("3".to_string())));
    assert!(Value::Raw(vec![1, 2]).value_eq(&Value::Raw(vec![1, 2])));
    assert!(!Value::Raw(vec![1, 2]).value_eq(&Value::Raw(vec![1, 3])));
    // dynamic values never compare equal, not even to themselves
    let cam = Value::Any(Camera::new().into_any());
    let cam2 = Value::Any(Camera::new().into_any());
    assert!(!cam.value_eq(&cam2));
    assert!(!cam.value_eq(&cam));
}

#[test]
fn path_and_weight_equality() {
    let p1 = Path2D(vec![Path2DCmd::JumpTo([0, 0]), Path2DCmd::LineTo([4, 5])]);
    let p2 = Path2D(vec![Path2DCmd::JumpTo([0, 0]), Path2DCmd::LineTo([4, 5])]);
    let p3 = Path2D(vec![Path2DCmd::JumpTo([0, 0]), Path2DCmd::LineTo([4, 6])]);
    assert!(p1.path_eq(&p2));
    assert!(!p1.path_eq(&p3));

    let w = StrokeWeight::constant();
    assert_eq!(w.0.len(), 2);
    let w2 = StrokeWeight(vec![WeightCmd::LineTo([0, 1, 0]), WeightCmd::LineTo([1, 1, 0])]);
    assert!(w.weight_eq(&w2));
}

#[test]
fn camera_round_trips_through_any() {
    let mut cam = Camera::new();
    cam.width = 640;
    cam.height = 480;
    cam.offset = [3, 4];
    cam.clip_far = 2000;
    let packed = cam.into_any();
    let unpacked = Camera::from_any(&packed).expect("camera must unpack");
    assert!(cam.camera_eq(&unpacked));

    let mut broken = cam.into_any();
    broken.type_tag = 77;
    assert!(Camera::from_any(&broken).is_none());
}

#[test]
fn node_properties() {
    let mut node = Node::empty("k".to_string());
    assert!(node.is_empty());
    node.set(3, Value::Float(30));
    node.set(1, Value::Float(10));
    node.set(3, Value::Float(33));
    assert_eq!(node.property_count(), 2);
    assert!(node.get(3).unwrap().value_eq(&Value::Float(33)));
    assert!(node.get(2).is_none());
    assert!(!node.has_dynamic_values());
    node.set_any(9, Camera::new().into_any());
    assert!(node.has_dynamic_values());
    assert!(node.get_any(9).is_some());
    assert!(node.get_any(1).is_none());
}

#[test]
fn texture_pool_mark_sweep() {
    let mut pool = TexturePool::new();
    let t1 = pool.attachment(10, 10, 1);
    let t2 = pool.storage(20, 20, 2);
    assert_ne!(t1.texture_id, t2.texture_id);
    assert_eq!(t1.kind, TexKind::Attachment);
    assert_eq!(t2.kind, TexKind::Storage);
    assert_eq!(t2.size(), (20, 20));
    assert_eq!(t2.resolution(), 2);

    pool.clear_marks();
    pool.mark_used(t1.texture_id);
    pool.drop_unused();
    // a fresh allocation still gets a fresh id
    let t3 = pool.attachment(1, 1, 1);
    assert_ne!(t3.texture_id, t1.texture_id);
    assert_ne!(t3.texture_id, t2.texture_id);
}

#[test]
fn interleaved_merges_by_cursor() {
    let a: Vec<(u64, u64)> = vec![(1, 100), (4, 400), (6, 600)];
    let b: Vec<(u64, u64)> = vec![(2, 200), (4, 444)];
    let mut it = Interleaved::new(a, b);
    let mut order: Vec<(char, u64, usize)> = Vec::new();
    for _ in 0..5 {
        match it.next() {
            Some(InterleavedItem::A(x, i)) => order.push(('a', x, i)),
            Some(InterleavedItem::B(x, i)) => order.push(('b', x, i)),
            None => panic!("ran out early"),
        }
    }
    assert_eq!(
        order,
        vec![('a', 100, 0), ('b', 200, 0), ('a', 400, 1), ('b', 444, 1), ('a', 600, 2)]
    );
}

#[test]
fn colors_compare_by_components() {
    let c1 = Color { red: 1, green: 2, blue: 3, alpha: 4 };
    let c2 = Color { red: 1, green: 2, blue: 3, alpha: 4 };
    let c3 = Color { red: 1, green: 2, blue: 3, alpha: 5 };
    assert!(c1.color_eq(&c2));
    assert!(!c1.color_eq(&c3));
    let clear = Color::clear();
    assert_eq!(clear.alpha, 0);
}

#[test]
fn port_indexes_of_builtin_types() {
    assert_eq!(CameraProps::In.index(), 0);
    assert_eq!(CameraProps::Size.index(), 1);
    assert_eq!(CameraProps::ClipFar.index(), 6);
    assert_eq!(CompositeProps::Out.index(), 1);
    assert_eq!(GaussianProps::Radius.index(), 2);
    assert_eq!(MaskProps::Mode.index(), 3);
    assert_eq!(camera_name(), "narwhal.camera");
}
