use tgraph::arena::Arena;
use tgraph::index::NodeIndex;
use tgraph::node::{Node, NodeA, NodeTypeMirror};

#[test]
fn arena_insert_get_remove() {
    let mut arena = Arena::new();
    let h1 = arena.insert(Node::A(NodeA { a: 1 }));
    let h2 = arena.insert(Node::A(NodeA { a: 2 }));
    assert_ne!(h1, h2);
    assert_eq!(*arena.get(h1).unwrap(), Node::A(NodeA { a: 1 }));
    assert_eq!(*arena.get(h2).unwrap(), Node::A(NodeA { a: 2 }));

    let removed = arena.remove(h1);
    assert_eq!(removed, Some(Node::A(NodeA { a: 1 })));
    assert!(arena.get(h1).is_none());
    assert!(arena.remove(h1).is_none());
}

#[test]
fn arena_reuses_slots_with_fresh_generations() {
    let mut arena = Arena::new();
    let h1 = arena.insert(Node::A(NodeA { a: 1 }));
    arena.remove(h1);
    let h2 = arena.insert(Node::A(NodeA { a: 2 }));
    assert_eq!(h2.slot, h1.slot);
    assert!(h2.generation > h1.generation);
    assert!(arena.get(h1).is_none());
    assert_eq!(*arena.get(h2).unwrap(), Node::A(NodeA { a: 2 }));
}

#[test]
fn arena_iteration_is_slot_order_and_skips_tombstones() {
    let mut arena = Arena::new();
    let h1 = arena.insert(Node::A(NodeA { a: 1 }));
    let h2 = arena.insert(Node::A(NodeA { a: 2 }));
    let h3 = arena.insert(Node::A(NodeA { a: 3 }));
    arena.remove(h2);
    let pairs = arena.iter();
    assert_eq!(
        pairs,
        vec![(h1, Node::A(NodeA { a: 1 })), (h3, Node::A(NodeA { a: 3 }))]
    );
    // stable across calls on an unmutated arena
    assert_eq!(arena.iter(), pairs);
}

#[test]
fn arena_set_replaces_only_live_values() {
    let mut arena = Arena::new();
    let h = arena.insert(Node::A(NodeA { a: 1 }));
    assert!(arena.set(h, Node::A(NodeA { a: 9 })));
    assert_eq!(*arena.get(h).unwrap(), Node::A(NodeA { a: 9 }));
    let stale = NodeIndex { slot: h.slot, generation: h.generation + 1 };
    assert!(!arena.set(stale, Node::A(NodeA { a: 0 })));
    assert_eq!(*arena.get(h).unwrap(), Node::A(NodeA { a: 9 }));
}

#[test]
fn node_type_tags_follow_the_variant() {
    assert_eq!(Node::A(NodeA { a: 0 }).node_type(), NodeTypeMirror::A);
    assert_eq!(
        Node::B(tgraph::node::NodeB { b: 0 }).node_type(),
        NodeTypeMirror::B
    );
    assert_eq!(
        Node::Link(tgraph::node::NodeLink { to: NodeIndex::empty(), backs: Vec::new() })
            .node_type(),
        NodeTypeMirror::Link
    );
}
