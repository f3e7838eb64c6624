use narwhal::node::graph::{Graph, Link, Links, OrderError};
use narwhal::node::node::Node;
use narwhal::util::BSMap;

#[test]
fn linking() {
    let mut graph = Graph::new();

    let a = graph.add_node(Node::empty("a".into()));
    let b = graph.add_node(Node::empty("b".into()));

    graph.link(a, 0, b, 0);
    graph.link(a, 0, b, 0);
    graph.link(a, 1, b, 0);
    graph.link(a, 1, b, 0);
    graph.link(a, 0, b, 1);
    graph.link(a, 1, b, 1);

    // links must have been deduplicated
    assert_eq!(graph.links().len(), 4);

    // only two nodes were linked, so there must be only one entry in the reverse link table
    assert_eq!(graph.links().node_pair_count(), 1);
}

#[test]
fn ordering() {
    let mut graph = Graph::new();

    // a --> b --> c -.             f --> g
    // |           ^   '-.-> e
    // '-----> d --'-----'
    //         |
    //         '--> h

    let a = graph.add_node(Node::empty("a".into()));
    let b = graph.add_node(Node::empty("b".into()));
    let c = graph.add_node(Node::empty("c".into()));
    let d = graph.add_node(Node::empty("d".into()));
    let e = graph.add_node(Node::empty("e".into()));
    let f = graph.add_node(Node::empty("f".into()));
    let g = graph.add_node(Node::empty("g".into()));
    let h = graph.add_node(Node::empty("h".into()));

    graph.link(a, 0, b, 0);
    graph.link(b, 0, c, 0);
    graph.link(c, 0, e, 0);
    graph.link(a, 0, d, 0);
    graph.link(d, 0, c, 0);
    graph.link(d, 0, e, 0);
    graph.link(d, 0, h, 0);
    graph.link(f, 0, g, 0);

    graph.set_output(e);
    graph.update_order().unwrap();

    {
        let order = graph.order().unwrap();

        let pos = |x| order.iter().position(|y| *y == x).unwrap();

        assert!(pos(a) < pos(b), "Wrong order: {} and {}", "a", "b");
        assert!(pos(b) < pos(c), "Wrong order: {} and {}", "b", "c");
        assert!(pos(c) < pos(e), "Wrong order: {} and {}", "c", "e");
        assert!(pos(a) < pos(d), "Wrong order: {} and {}", "a", "d");
        assert!(pos(d) < pos(c), "Wrong order: {} and {}", "d", "c");
        assert!(pos(d) < pos(e), "Wrong order: {} and {}", "d", "e");

        // f, g, and h must not be included
        assert!(!order.contains(&f));
        assert!(!order.contains(&g));
        assert!(!order.contains(&h));
    }

    // create a cycle by linking h to a
    graph.link(h, 0, a, 0);
    match graph.update_order() {
        Ok(_) => panic!("Graph did not detect a cycle"),
        Err(OrderError::Cycle(cycle)) => {
            assert_eq!(cycle.len(), 3);
            assert!(cycle.contains(&a));
            assert!(cycle.contains(&d));
            assert!(cycle.contains(&h));
        }
    }
}

#[test]
fn repeated_update_order_is_identical() {
    let mut graph = Graph::new();
    let a = graph.add_node(Node::empty("a".into()));
    let b = graph.add_node(Node::empty("b".into()));
    let c = graph.add_node(Node::empty("c".into()));
    graph.link(a, 0, b, 0);
    graph.link(b, 0, c, 0);
    graph.set_output(c);

    graph.update_order().unwrap();
    let first: Vec<_> = graph.order().unwrap().clone();
    graph.update_order().unwrap();
    let second: Vec<_> = graph.order().unwrap().clone();
    assert_eq!(first, second);
}

#[test]
fn relink_identical_tuple_is_noop() {
    let mut graph = Graph::new();
    let a = graph.add_node(Node::empty("a".into()));
    let b = graph.add_node(Node::empty("b".into()));
    graph.link(a, 0, b, 0);
    let count = graph.links().len();
    graph.link(a, 0, b, 0);
    assert_eq!(graph.links().len(), count);
}

#[test]
fn remove_node_removes_incident_links() {
    let mut graph = Graph::new();
    let a = graph.add_node(Node::empty("a".into()));
    let b = graph.add_node(Node::empty("b".into()));
    let c = graph.add_node(Node::empty("c".into()));
    graph.link(a, 0, b, 0);
    graph.link(b, 0, c, 0);
    graph.link(a, 1, b, 2);
    graph.link(c, 0, b, 1);

    graph.remove_node(b);

    for ((from, _), (to, _)) in graph.iter_links() {
        assert!(from != b && to != b);
    }
    assert_eq!(graph.links().len(), 0);
    assert_eq!(graph.links().node_pair_count(), 0);
}

#[test]
fn unlink_removes_one_link() {
    let mut graph = Graph::new();
    let a = graph.add_node(Node::empty("a".into()));
    let b = graph.add_node(Node::empty("b".into()));
    graph.link(a, 0, b, 0);
    graph.link(a, 1, b, 0);
    assert!(graph.unlink(a, 0, b, 0));
    assert_eq!(graph.links().len(), 1);
    assert!(!graph.unlink(a, 0, b, 0));
}

#[test]
fn propagate_dirtiness_marks_downstream_only() {
    let mut graph = Graph::new();
    let a = graph.add_node(Node::empty("a".into()));
    let b = graph.add_node(Node::empty("b".into()));
    let c = graph.add_node(Node::empty("c".into()));
    let d = graph.add_node(Node::empty("d".into()));
    let e = graph.add_node(Node::empty("e".into()));
    // a -> b -> c, d -> c, e isolated
    graph.link(a, 0, b, 0);
    graph.link(b, 0, c, 0);
    graph.link(d, 0, c, 0);

    // only b dirty
    graph.mark_clean(&a);
    graph.mark_clean(&b);
    graph.mark_clean(&c);
    graph.mark_clean(&d);
    graph.mark_clean(&e);
    graph.mark_dirty(b);

    graph.propagate_dirtiness();

    assert!(!graph.is_dirty(&a), "upstream node must stay clean");
    assert!(graph.is_dirty(&b));
    assert!(graph.is_dirty(&c));
    assert!(!graph.is_dirty(&d), "sibling upstream node must stay clean");
    assert!(!graph.is_dirty(&e), "unrelated node must stay clean");
}

#[test]
fn cycle_avoiding_output_is_reported() {
    // a <-> b feed c; the cycle avoids the output node itself
    let mut graph = Graph::new();
    let a = graph.add_node(Node::empty("a".into()));
    let b = graph.add_node(Node::empty("b".into()));
    let c = graph.add_node(Node::empty("c".into()));
    graph.link(a, 0, b, 0);
    graph.link(b, 0, c, 0);
    graph.link(b, 0, a, 0);
    graph.set_output(c);
    match graph.update_order() {
        Ok(_) => panic!("Graph did not detect a cycle"),
        Err(OrderError::Cycle(cycle)) => {
            assert_eq!(cycle.len(), 2);
            assert!(cycle.contains(&a));
            assert!(cycle.contains(&b));
        }
    }
}

#[test]
fn unlinked_node_never_in_order() {
    let mut graph = Graph::new();
    let a = graph.add_node(Node::empty("a".into()));
    let b = graph.add_node(Node::empty("b".into()));
    let c = graph.add_node(Node::empty("c".into()));
    let d = graph.add_node(Node::empty("d".into()));
    graph.link(a, 0, b, 0);
    graph.link(b, 0, c, 0);
    graph.set_output(c);
    graph.update_order().unwrap();
    assert!(!graph.order().unwrap().contains(&d));
    assert!(graph.order().unwrap().contains(&a));
}

#[test]
fn node_ids_count_up_and_start_dirty() {
    let mut graph = Graph::new();
    let a = graph.add_node(Node::empty("a".into()));
    let b = graph.add_node(Node::empty("b".into()));
    assert_ne!(a, b);
    assert!(graph.is_dirty(&a));
    assert!(graph.is_dirty(&b));
    graph.mark_clean(&a);
    assert!(!graph.is_dirty(&a));
    // the id is one above the greatest id in use
    graph.remove_node(a);
    let c = graph.add_node(Node::empty("c".into()));
    assert_ne!(c, b);
    assert_ne!(c, a);
}

#[test]
fn downstream_closure_reaches_exactly() {
    let mut graph = Graph::new();
    let a = graph.add_node(Node::empty("a".into()));
    let b = graph.add_node(Node::empty("b".into()));
    let c = graph.add_node(Node::empty("c".into()));
    let d = graph.add_node(Node::empty("d".into()));
    graph.link(a, 0, b, 0);
    graph.link(b, 0, c, 0);
    let closure = graph.downstream_closure(&vec![a]);
    assert!(closure.contains(&a));
    assert!(closure.contains(&b));
    assert!(closure.contains(&c));
    assert!(!closure.contains(&d));
}

#[test]
fn remap_drops_unmapped_links() {
    let mut graph = Graph::new();
    let a = graph.add_node(Node::empty("a".into()));
    let b = graph.add_node(Node::empty("b".into()));

    let mut links = Links::new();
    links.insert(a, b, Link { out_prop: 0, in_prop: 0 });
    links.insert(a, b, Link { out_prop: 1, in_prop: 0 });

    let mut mapping: BSMap<usize, usize> = BSMap::new();
    mapping.insert(0, 5);

    // remap ports of node `a` only: out port 0 becomes 5, out port 1 has no
    // entry and its link is dropped
    let dropped = links.remap_with_mapping(&vec![a], &mapping);
    assert!(dropped);
    assert_eq!(links.len(), 1);
    let outs = links.get_outs(a);
    assert_eq!(outs.len(), 1);
    assert_eq!(outs[0].1, Link { out_prop: 5, in_prop: 0 });
}
