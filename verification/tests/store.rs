use tgraph::graph::{Context, Graph, Transaction};
use tgraph::index::NodeIndex;
use tgraph::node::{FieldName, Node, NodeA, NodeB, NodeLink};

fn link(to: NodeIndex) -> Node {
    Node::Link(NodeLink { to, backs: Vec::new() })
}

#[test]
fn round_trip_new_node() {
    let ctx = Context::new();
    let mut graph = Graph::new(&ctx);
    let mut trans = Transaction::new(&graph);
    let x = trans.new_node(Node::A(NodeA { a: 1 }));
    graph.commit(trans);
    let got = graph.get_node(x);
    assert!(got.is_some());
    assert_eq!(*got.unwrap(), Node::A(NodeA { a: 1 }));
}

#[test]
fn round_trip_link_node() {
    let ctx = Context::new();
    let mut graph = Graph::new(&ctx);
    let mut trans = Transaction::new(&graph);
    let x = trans.new_node(link(NodeIndex::empty()));
    graph.commit(trans);
    assert_eq!(*graph.get_node(x).unwrap(), link(NodeIndex::empty()));
}

#[test]
fn empty_sentinel_never_resolves() {
    let ctx = Context::new();
    let mut graph = Graph::new(&ctx);
    let mut trans = Transaction::new(&graph);
    trans.new_node(Node::A(NodeA { a: 7 }));
    graph.commit(trans);
    assert!(NodeIndex::empty().is_empty());
    assert!(graph.get_node(NodeIndex::empty()).is_none());
}

#[test]
fn update_scenario_field_change() {
    // create a=1, commit, read back; replace with a=2, commit, read back
    let ctx = Context::new();
    let mut graph = Graph::new(&ctx);
    let mut trans = Transaction::new(&graph);
    let id = trans.new_node(Node::A(NodeA { a: 1 }));
    graph.commit(trans);
    assert_eq!(*graph.get_node(id).unwrap(), Node::A(NodeA { a: 1 }));

    let mut trans = Transaction::new(&graph);
    trans.update_node(id, Node::A(NodeA { a: 2 }));
    graph.commit(trans);
    assert_eq!(*graph.get_node(id).unwrap(), Node::A(NodeA { a: 2 }));
}

#[test]
fn mut_node_edits_fields_in_place() {
    let ctx = Context::new();
    let mut graph = Graph::new(&ctx);
    let mut trans = Transaction::new(&graph);
    let id = trans.new_node(Node::B(NodeB { b: 10 }));
    graph.commit(trans);

    let mut trans = Transaction::new(&graph);
    trans.mut_node(id, Node::B(NodeB { b: 11 }));
    graph.commit(trans);
    assert_eq!(*graph.get_node(id).unwrap(), Node::B(NodeB { b: 11 }));
}

#[test]
fn iter_nodes_by_variant_in_slot_order() {
    // two A-values and one B-value; filtering to the A variant yields the
    // two A-values in slot order
    let ctx = Context::new();
    let mut graph = Graph::new(&ctx);
    let mut trans = Transaction::new(&graph);
    trans.new_node(Node::A(NodeA { a: 1 }));
    trans.new_node(Node::A(NodeA { a: 2 }));
    trans.new_node(Node::B(NodeB { b: 0 }));
    graph.commit(trans);

    let all = graph.iter_nodes();
    assert_eq!(all.len(), 3);
    let a_values: Vec<u64> = all
        .iter()
        .filter_map(|(_, n)| n.as_a().map(|x| x.a))
        .collect();
    assert_eq!(a_values, vec![1, 2]);
    // slot order is ascending here
    for w in all.windows(2) {
        assert!(w[0].0.slot < w[1].0.slot);
    }
}

#[test]
fn removed_handle_never_resolves_after_reuse() {
    let ctx = Context::new();
    let mut graph = Graph::new(&ctx);
    let mut trans = Transaction::new(&graph);
    let old_idx = trans.new_node(Node::A(NodeA { a: 1 }));
    graph.commit(trans);

    let mut trans = Transaction::new(&graph);
    trans.remove_node(old_idx);
    graph.commit(trans);
    assert!(graph.get_node(old_idx).is_none());

    // the next creation reuses the slot under a fresh generation
    let mut trans = Transaction::new(&graph);
    let new_idx = trans.new_node(Node::A(NodeA { a: 2 }));
    graph.commit(trans);
    assert_eq!(new_idx.slot, old_idx.slot);
    assert_ne!(new_idx.generation, old_idx.generation);
    assert!(graph.get_node(old_idx).is_none());
    assert_eq!(*graph.get_node(new_idx).unwrap(), Node::A(NodeA { a: 2 }));
}

#[test]
fn discarded_transaction_has_no_effect() {
    let ctx = Context::new();
    let mut graph = Graph::new(&ctx);
    let mut trans = Transaction::new(&graph);
    let id = trans.new_node(Node::A(NodeA { a: 1 }));
    graph.commit(trans);

    {
        let mut trans = Transaction::new(&graph);
        trans.update_node(id, Node::A(NodeA { a: 99 }));
        trans.remove_node(id);
        // dropped without commit
    }
    assert_eq!(*graph.get_node(id).unwrap(), Node::A(NodeA { a: 1 }));
    assert_eq!(graph.iter_nodes().len(), 1);
}

#[test]
fn stale_operations_are_routine_no_ops() {
    let ctx = Context::new();
    let mut graph = Graph::new(&ctx);
    let mut trans = Transaction::new(&graph);
    let id = trans.new_node(Node::A(NodeA { a: 1 }));
    graph.commit(trans);

    let mut trans = Transaction::new(&graph);
    trans.remove_node(id);
    // a second removal of the same handle, and an update of it, hit a
    // tombstoned slot at commit: both are silent no-ops
    trans.remove_node(id);
    trans.update_node(id, Node::A(NodeA { a: 5 }));
    graph.commit(trans);
    assert!(graph.get_node(id).is_none());
    assert_eq!(graph.iter_nodes().len(), 0);
}

#[test]
fn data_ref_by_name_is_uniformly_absent_on_mismatch() {
    let a = Node::A(NodeA { a: 3 });
    let b = Node::B(NodeB { b: 4 });
    let l = link(NodeIndex::empty());
    assert_eq!(a.data_by_name(FieldName::A), Some(3));
    assert_eq!(a.data_by_name(FieldName::B), None);
    assert_eq!(b.data_by_name(FieldName::B), Some(4));
    assert_eq!(b.data_by_name(FieldName::A), None);
    assert_eq!(l.data_by_name(FieldName::A), None);
    assert_eq!(l.data_by_name(FieldName::B), None);
}

#[test]
fn downcasts_follow_the_active_variant() {
    let a = Node::A(NodeA { a: 3 });
    assert!(a.as_a().is_some());
    assert!(a.as_b().is_none());
    assert!(a.as_link().is_none());
    assert_eq!(a.as_a().unwrap().a, 3);
    let l = link(NodeIndex::empty());
    assert!(l.as_link().is_some());
    assert!(l.as_a().is_none());
}
