use tgraph::graph::{Context, Graph, Transaction};
use tgraph::index::NodeIndex;
use tgraph::node::{
    LinkMirror, LinkMirrorEnum, LinkSource, Node, NodeA, NodeLink, SourceEnum,
};

fn link(to: NodeIndex) -> Node {
    Node::Link(NodeLink { to, backs: Vec::new() })
}

fn backs_of(graph: &Graph, idx: NodeIndex) -> Vec<NodeIndex> {
    graph
        .get_node(idx)
        .unwrap()
        .iter_link(LinkMirrorEnum::Link(LinkMirror::Back))
}

/// Checks the bidirectional invariant over the whole committed graph: for
/// every live node and every (target, source) among its outgoing links, a
/// live link-capable target's mirror set contains the node's handle.
fn assert_bidirectional(graph: &Graph) {
    for (idx, node) in graph.iter_nodes() {
        for (target, _source) in node.iter_source() {
            if let Some(t) = graph.get_node(target) {
                if t.check_link(LinkMirrorEnum::Link(LinkMirror::Back)) {
                    assert!(
                        t.iter_link(LinkMirrorEnum::Link(LinkMirror::Back)).contains(&idx),
                        "missing mirror"
                    );
                }
            }
        }
    }
}

#[test]
fn commit_mirrors_new_links() {
    let ctx = Context::new();
    let mut graph = Graph::new(&ctx);
    let mut trans = Transaction::new(&graph);
    let c = trans.new_node(link(NodeIndex::empty()));
    graph.commit(trans);

    let mut trans = Transaction::new(&graph);
    let p = trans.new_node(link(c));
    graph.commit(trans);

    assert_eq!(backs_of(&graph, c), vec![p]);
    assert_bidirectional(&graph);
}

#[test]
fn same_transaction_link_to_earlier_staged_node() {
    let ctx = Context::new();
    let mut graph = Graph::new(&ctx);
    let mut trans = Transaction::new(&graph);
    let c = trans.new_node(link(NodeIndex::empty()));
    let p = trans.new_node(link(c));
    graph.commit(trans);

    assert_eq!(backs_of(&graph, c), vec![p]);
    assert_bidirectional(&graph);
}

#[test]
fn update_retargets_and_moves_the_mirror() {
    let ctx = Context::new();
    let mut graph = Graph::new(&ctx);
    let mut trans = Transaction::new(&graph);
    let c1 = trans.new_node(link(NodeIndex::empty()));
    let c2 = trans.new_node(link(NodeIndex::empty()));
    let p = trans.new_node(link(c1));
    graph.commit(trans);
    assert_eq!(backs_of(&graph, c1), vec![p]);
    assert_eq!(backs_of(&graph, c2), Vec::<NodeIndex>::new());

    // retarget p from c1 to c2, carrying its own mirror set over
    let mut trans = Transaction::new(&graph);
    let backs = backs_of(&graph, p);
    trans.update_node(p, Node::Link(NodeLink { to: c2, backs }));
    graph.commit(trans);

    assert_eq!(backs_of(&graph, c1), Vec::<NodeIndex>::new());
    assert_eq!(backs_of(&graph, c2), vec![p]);
    assert_bidirectional(&graph);
}

#[test]
fn update_without_link_change_touches_no_mirror() {
    let ctx = Context::new();
    let mut graph = Graph::new(&ctx);
    let mut trans = Transaction::new(&graph);
    let c = trans.new_node(link(NodeIndex::empty()));
    let p = trans.new_node(link(c));
    graph.commit(trans);

    // replace p with an equal value: the source sets are unchanged, so the
    // mirror set of c stays exactly as it was
    let mut trans = Transaction::new(&graph);
    trans.update_node(p, Node::Link(NodeLink { to: c, backs: Vec::new() }));
    graph.commit(trans);
    assert_eq!(backs_of(&graph, c), vec![p]);
    assert_bidirectional(&graph);
}

#[test]
fn removal_cleans_mirrors_everywhere() {
    // NodeP links to NodeC; removing NodeP cleans C's mirror set
    let ctx = Context::new();
    let mut graph = Graph::new(&ctx);
    let mut trans = Transaction::new(&graph);
    let c = trans.new_node(link(NodeIndex::empty()));
    let p = trans.new_node(link(c));
    graph.commit(trans);
    assert_eq!(backs_of(&graph, c), vec![p]);

    let mut trans = Transaction::new(&graph);
    trans.remove_node(p);
    graph.commit(trans);
    assert!(graph.get_node(p).is_none());
    assert_eq!(backs_of(&graph, c), Vec::<NodeIndex>::new());
    assert_bidirectional(&graph);
}

#[test]
fn removal_of_target_leaves_no_mirror_referencing_it() {
    // NodeP links to NodeC; removing NodeC and committing leaves no
    // remaining node's mirror set referencing NodeC's index
    let ctx = Context::new();
    let mut graph = Graph::new(&ctx);
    let mut trans = Transaction::new(&graph);
    let c = trans.new_node(link(NodeIndex::empty()));
    let p = trans.new_node(link(c));
    graph.commit(trans);

    let mut trans = Transaction::new(&graph);
    trans.remove_node(c);
    graph.commit(trans);
    assert!(graph.get_node(c).is_none());
    // p's forward link now dangles (resolves to None); no mirror set
    // anywhere references c
    for (_, node) in graph.iter_nodes() {
        if node.check_link(LinkMirrorEnum::Link(LinkMirror::Back)) {
            assert!(!node.iter_link(LinkMirrorEnum::Link(LinkMirror::Back)).contains(&c));
        }
    }
    assert!(graph.get_node(p).is_some());
    assert_bidirectional(&graph);
}

#[test]
fn add_link_is_idempotent() {
    let t = NodeIndex { slot: 5, generation: 2 };
    let mut n = link(NodeIndex::empty());
    let first = n.add_link(LinkMirrorEnum::Link(LinkMirror::Back), t);
    let snapshot = n.iter_link(LinkMirrorEnum::Link(LinkMirror::Back));
    let second = n.add_link(LinkMirrorEnum::Link(LinkMirror::Back), t);
    assert!(first);
    assert!(!second);
    assert_eq!(n.iter_link(LinkMirrorEnum::Link(LinkMirror::Back)), snapshot);
    assert_eq!(snapshot, vec![t]);
}

#[test]
fn remove_link_on_absent_target_is_a_no_op() {
    let t = NodeIndex { slot: 5, generation: 2 };
    let other = NodeIndex { slot: 6, generation: 1 };
    let mut n = link(NodeIndex::empty());
    assert!(n.add_link(LinkMirrorEnum::Link(LinkMirror::Back), t));
    let removed_absent = n.remove_link(LinkMirrorEnum::Link(LinkMirror::Back), other);
    assert!(!removed_absent);
    assert_eq!(n.iter_link(LinkMirrorEnum::Link(LinkMirror::Back)), vec![t]);
    let removed = n.remove_link(LinkMirrorEnum::Link(LinkMirror::Back), t);
    assert!(removed);
    let removed_again = n.remove_link(LinkMirrorEnum::Link(LinkMirror::Back), t);
    assert!(!removed_again);
    assert_eq!(
        n.iter_link(LinkMirrorEnum::Link(LinkMirror::Back)),
        Vec::<NodeIndex>::new()
    );
}

#[test]
fn add_link_on_linkless_variant_reports_no_change() {
    let t = NodeIndex { slot: 1, generation: 1 };
    let mut n = Node::A(NodeA { a: 0 });
    assert!(!n.add_link(LinkMirrorEnum::Link(LinkMirror::Back), t));
    assert!(!n.remove_link(LinkMirrorEnum::Link(LinkMirror::Back), t));
    assert_eq!(n, Node::A(NodeA { a: 0 }));
}

#[test]
fn check_link_is_a_variant_type_match() {
    let a = Node::A(NodeA { a: 0 });
    let l = link(NodeIndex::empty());
    assert!(!a.check_link(LinkMirrorEnum::Link(LinkMirror::Back)));
    assert!(l.check_link(LinkMirrorEnum::Link(LinkMirror::Back)));
}

#[test]
fn source_and_mirror_kinds_are_a_bijection() {
    let s = SourceEnum::Link(LinkSource::To);
    let m = Node::to_link_mirror_enum(s);
    assert_eq!(m, LinkMirrorEnum::Link(LinkMirror::Back));
    assert_eq!(Node::to_source_enum(m), s);
}

#[test]
fn iter_source_lists_the_outgoing_link() {
    let t = NodeIndex { slot: 3, generation: 1 };
    let n = link(t);
    assert_eq!(n.iter_source(), vec![(t, SourceEnum::Link(LinkSource::To))]);
    let unlinked = link(NodeIndex::empty());
    assert_eq!(unlinked.iter_source(), Vec::new());
    assert_eq!(Node::A(NodeA { a: 1 }).iter_source(), Vec::new());
}

#[test]
fn modify_link_reports_the_side_effect() {
    let t1 = NodeIndex { slot: 3, generation: 1 };
    let t2 = NodeIndex { slot: 4, generation: 1 };
    let mut n = link(t1);
    let e = n.modify_link(SourceEnum::Link(LinkSource::To), t1, t2);
    assert_eq!(e.mirror_kinds, vec![LinkMirrorEnum::Link(LinkMirror::Back)]);
    assert_eq!(e.remove, t1);
    assert_eq!(e.add, t2);
    assert_eq!(n.as_link().unwrap().to, t2);

    // dropping the link: nothing to add
    let e = n.modify_link(SourceEnum::Link(LinkSource::To), t2, NodeIndex::empty());
    assert_eq!(e.remove, t2);
    assert_eq!(e.add, NodeIndex::empty());

    // old target did not match: nothing to remove
    let e = n.modify_link(SourceEnum::Link(LinkSource::To), t1, t2);
    assert_eq!(e.remove, NodeIndex::empty());
    assert_eq!(e.add, t2);
}

#[test]
fn self_link_is_mirrored_on_the_node_itself() {
    let ctx = Context::new();
    let mut graph = Graph::new(&ctx);
    let mut trans = Transaction::new(&graph);
    let c = trans.new_node(link(NodeIndex::empty()));
    graph.commit(trans);

    let mut trans = Transaction::new(&graph);
    trans.update_node(c, Node::Link(NodeLink { to: c, backs: backs_of(&graph, c) }));
    graph.commit(trans);
    assert_eq!(backs_of(&graph, c), vec![c]);
    assert_bidirectional(&graph);
}
