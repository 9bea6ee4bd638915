use crate::arena::{pairs_view, Arena, ArenaModel};
use crate::index::NodeIndex;
use crate::node::{link_target, Node, NodeM};
use vstd::prelude::*;

verus! {

/// Process-wide scoping object that graphs and transactions are created
/// against. It supplies no behavior of its own.
pub struct Context {}

impl Context {
    pub fn new() -> (c: Context) {
        Context {  }
    }
}

// ---------------------------------------------------------------------------
// Staged operations and the commit model.
// ---------------------------------------------------------------------------

/// One staged operation of a transaction, in the form commit applies it.
pub enum Op {
    /// Materialize a value at the handle reserved at staging time.
    New(NodeIndex, Node),
    /// Replace a node's value without diffing (reserved for link-free
    /// field edits).
    Mut(NodeIndex, Node),
    /// Replace a node's value, diffing the outgoing links for mirror
    /// propagation.
    Update(NodeIndex, Node),
    /// Tombstone a node, cleaning the mirrors it holds elsewhere first.
    Remove(NodeIndex),
}

/// Spec-level value of a staged operation.
pub enum OpM {
    New(NodeIndex, NodeM),
    Mut(NodeIndex, NodeM),
    Update(NodeIndex, NodeM),
    Remove(NodeIndex),
}

impl View for Op {
    type V = OpM;

    open spec fn view(&self) -> OpM {
        match self {
            Op::New(h, v) => OpM::New(*h, v@),
            Op::Mut(h, v) => OpM::Mut(*h, v@),
            Op::Update(h, v) => OpM::Update(*h, v@),
            Op::Remove(h) => OpM::Remove(*h),
        }
    }
}

/// Commit of a staged creation: the value is materialized at the reserved
/// handle, then its outgoing link (if any) is mirrored at the target.
pub open spec fn apply_new(m: ArenaModel, h: NodeIndex, n: NodeM) -> ArenaModel {
    if m.new_ok(h) {
        let m1 = m.insert_model(h, n);
        match link_target(n) {
            Some(t) => m1.add_mirror_model(t, h),
            None => m1,
        }
    } else {
        m
    }
}

/// Commit of a staged field edit: the value is replaced, with no mirror
/// propagation; a no-op on a handle that is no longer live.
pub open spec fn apply_mut(m: ArenaModel, h: NodeIndex, n: NodeM) -> ArenaModel {
    if m.live(h) {
        m.set_node(h, n)
    } else {
        m
    }
}

/// Commit of a staged replacement: the value is replaced, and the outgoing
/// links of the old and new value are diffed. An entry only in the old set
/// is a removed link (its mirror is dropped at the old target); one only in
/// the new set is an added link (mirrored at the new target). A node holds
/// at most one outgoing link here, so the set difference collapses to one
/// comparison of targets.
pub open spec fn apply_update(m: ArenaModel, h: NodeIndex, n: NodeM) -> ArenaModel {
    if m.live(h) {
        let ot = link_target(m.node_at(h));
        let nt = link_target(n);
        let m1 = m.set_node(h, n);
        if ot == nt {
            m1
        } else {
            let m2 = match ot {
                Some(t) => m1.remove_mirror_model(t, h),
                None => m1,
            };
            match nt {
                Some(t) => m2.add_mirror_model(t, h),
                None => m2,
            }
        }
    } else {
        m
    }
}

/// Commit of a staged removal: before the slot is tombstoned, the node's
/// own outgoing link mirror is removed from its target, so no dangling
/// mirror survives; a no-op on a handle that is no longer live.
pub open spec fn apply_remove(m: ArenaModel, h: NodeIndex) -> ArenaModel {
    if m.live(h) {
        let m1 = match link_target(m.node_at(h)) {
            Some(t) => m.remove_mirror_model(t, h),
            None => m,
        };
        m1.vacate_model(h)
    } else {
        m
    }
}

/// Commit of one staged operation.
pub open spec fn apply_op(m: ArenaModel, op: OpM) -> ArenaModel {
    match op {
        OpM::New(h, n) => apply_new(m, h, n),
        OpM::Mut(h, n) => apply_mut(m, h, n),
        OpM::Update(h, n) => apply_update(m, h, n),
        OpM::Remove(h) => apply_remove(m, h),
    }
}

/// Commit of a whole log, in staging order: each operation's structural
/// change and its mirror propagation are applied before the next operation.
pub open spec fn apply_log(m: ArenaModel, ops: Seq<OpM>) -> ArenaModel
    decreases ops.len(),
{
    if ops.len() == 0 {
        m
    } else {
        apply_log(apply_op(m, ops[0]), ops.drop_first())
    }
}

/// Every commit step keeps the arena well-formed.
pub proof fn lemma_wf_apply_op(m: ArenaModel, op: OpM)
    requires
        m.wf(),
    ensures
        apply_op(m, op).wf(),
{
    match op {
        OpM::New(h, n) => {
            if m.new_ok(h) {
                let m1 = m.insert_model(h, n);
                crate::arena::lemma_wf_insert(m, h, n);
                match link_target(n) {
                    Some(t) => {
                        crate::arena::lemma_wf_mirror(m1, t, h);
                    },
                    None => {},
                }
            }
        },
        OpM::Mut(h, n) => {
            if m.live(h) {
                crate::arena::lemma_wf_set_node(m, h, n);
            }
        },
        OpM::Update(h, n) => {
            if m.live(h) {
                let ot = link_target(m.node_at(h));
                let nt = link_target(n);
                let m1 = m.set_node(h, n);
                crate::arena::lemma_wf_set_node(m, h, n);
                if ot != nt {
                    let m2 = match ot {
                        Some(t) => m1.remove_mirror_model(t, h),
                        None => m1,
                    };
                    match ot {
                        Some(t) => {
                            crate::arena::lemma_wf_mirror(m1, t, h);
                        },
                        None => {},
                    }
                    match nt {
                        Some(t) => {
                            crate::arena::lemma_wf_mirror(m2, t, h);
                        },
                        None => {},
                    }
                }
            }
        },
        OpM::Remove(h) => {
            if m.live(h) {
                let m1 = match link_target(m.node_at(h)) {
                    Some(t) => m.remove_mirror_model(t, h),
                    None => m,
                };
                match link_target(m.node_at(h)) {
                    Some(t) => {
                        crate::arena::lemma_wf_mirror(m, t, h);
                    },
                    None => {},
                }
                assert(m1.live(h));
                crate::arena::lemma_wf_vacate(m1, h);
            }
        },
    }
}

/// A whole commit keeps the arena well-formed.
pub proof fn lemma_wf_apply_log(m: ArenaModel, ops: Seq<OpM>)
    requires
        m.wf(),
    ensures
        apply_log(m, ops).wf(),
    decreases ops.len(),
{
    if ops.len() > 0 {
        lemma_wf_apply_op(m, ops[0]);
        lemma_wf_apply_log(apply_op(m, ops[0]), ops.drop_first());
    }
}

// ---------------------------------------------------------------------------
// Transaction: a staged, uncommitted batch of mutations.
// ---------------------------------------------------------------------------

/// The handle the next `new_node` reserves, given the free-slot snapshot
/// still available and the next fresh slot number.
pub open spec fn reserve_handle(avail: Seq<NodeIndex>, fresh_next: usize) -> NodeIndex {
    if avail.len() > 0 {
        avail.last()
    } else {
        NodeIndex { slot: fresh_next, generation: 1 }
    }
}

/// A staging area for one graph. Mutations are only recorded here, in
/// order; nothing is visible to readers of the graph until `commit`.
/// Discarding a transaction without committing has no effect. `new_node`
/// reserves handles immediately, against a snapshot of the graph's free
/// slots taken when the transaction was opened (one transaction is open
/// against a graph at a time).
pub struct Transaction {
    pub ops: Vec<Op>,
    pub avail: Vec<NodeIndex>,
    pub fresh_next: usize,
}

impl View for Transaction {
    type V = Seq<OpM>;

    open spec fn view(&self) -> Seq<OpM> {
        self.ops@.map_values(|o: Op| o@)
    }
}

impl Transaction {
    /// Opens a transaction against the graph's current state: an empty log,
    /// plus a snapshot of the reusable slots for handle reservation.
    pub fn new(graph: &Graph) -> (t: Transaction)
        requires
            graph.wf(),
        ensures
            t@ == Seq::<OpM>::empty(),
            t.avail@.len() == graph@.free.len(),
            forall|k: int|
                0 <= k < t.avail@.len() ==> #[trigger] t.avail@[k] == graph@.handle_of(
                    graph@.free[k] as int,
                ),
            t.fresh_next == graph@.slots.len(),
    {
        let mut avail: Vec<NodeIndex> = Vec::new();
        let mut k: usize = 0;
        while k < graph.arena.free.len()
            invariant
                graph.wf(),
                k <= graph.arena.free.len(),
                avail@.len() == k,
                forall|j: int|
                    0 <= j < k ==> #[trigger] avail@[j] == graph@.handle_of(graph@.free[j] as int),
            decreases graph.arena.free.len() - k,
        {
            let s = graph.arena.free[k];
            proof {
                assert(graph@.free[k as int] == s);
                assert((s as int) < graph@.slots.len());
            }
            let g = graph.arena.slots[s].generation;
            avail.push(NodeIndex { slot: s, generation: g });
            k += 1;
        }
        let t = Transaction { ops: Vec::new(), avail, fresh_next: graph.arena.slots.len() };
        proof {
            assert(t@ =~= Seq::<OpM>::empty());
        }
        t
    }

    /// Reserves a handle for a new node and stages its creation. The node
    /// materializes in the arena only at commit; the handle may already be
    /// used in later staged operations of this transaction.
    pub fn new_node(&mut self, value: Node) -> (h: NodeIndex)
        requires
            old(self).avail@.len() > 0 || old(self).fresh_next < usize::MAX,
        ensures
            h == reserve_handle(old(self).avail@, old(self).fresh_next),
            final(self)@ == old(self)@.push(OpM::New(h, value@)),
            old(self).avail@.len() > 0 ==> final(self).avail@ == old(self).avail@.drop_last(),
            old(self).avail@.len() > 0 ==> final(self).fresh_next == old(self).fresh_next,
            old(self).avail@.len() == 0 ==> final(self).avail@ == old(self).avail@,
            old(self).avail@.len() == 0 ==> final(self).fresh_next == old(self).fresh_next + 1,
    {
        let ghost ops0 = self@;
        let ghost gv = value@;
        let h = match self.avail.pop() {
            Some(h) => h,
            None => {
                let h = NodeIndex { slot: self.fresh_next, generation: 1 };
                self.fresh_next = self.fresh_next + 1;
                h
            },
        };
        self.ops.push(Op::New(h, value));
        proof {
            assert(self@ =~= ops0.push(OpM::New(h, gv)));
        }
        h
    }

    /// Stages an in-place value replacement that must not change link
    /// topology: commit applies it without diffing, so no mirror
    /// propagation happens for it.
    pub fn mut_node(&mut self, idx: NodeIndex, value: Node)
        ensures
            final(self)@ == old(self)@.push(OpM::Mut(idx, value@)),
            final(self).avail@ == old(self).avail@,
            final(self).fresh_next == old(self).fresh_next,
    {
        let ghost ops0 = self@;
        let ghost gv = value@;
        self.ops.push(Op::Mut(idx, value));
        proof {
            assert(self@ =~= ops0.push(OpM::Mut(idx, gv)));
        }
    }

    /// Stages a full value replacement: commit diffs the outgoing links of
    /// the prior value against the new one and propagates the mirror
    /// changes at the affected targets.
    pub fn update_node(&mut self, idx: NodeIndex, value: Node)
        ensures
            final(self)@ == old(self)@.push(OpM::Update(idx, value@)),
            final(self).avail@ == old(self).avail@,
            final(self).fresh_next == old(self).fresh_next,
    {
        let ghost ops0 = self@;
        let ghost gv = value@;
        self.ops.push(Op::Update(idx, value));
        proof {
            assert(self@ =~= ops0.push(OpM::Update(idx, gv)));
        }
    }

    /// Stages a removal: at commit the node's own outgoing link mirrors are
    /// cleaned from their targets, then its slot is tombstoned with a
    /// bumped generation.
    pub fn remove_node(&mut self, idx: NodeIndex)
        ensures
            final(self)@ == old(self)@.push(OpM::Remove(idx)),
            final(self).avail@ == old(self).avail@,
            final(self).fresh_next == old(self).fresh_next,
    {
        let ghost ops0 = self@;
        self.ops.push(Op::Remove(idx));
        proof {
            assert(self@ =~= ops0.push(OpM::Remove(idx)));
        }
    }
}

// ---------------------------------------------------------------------------
// Graph: the committed state, read-only outside commit.
// ---------------------------------------------------------------------------

/// Owner of the committed arena. Readers see only the last committed
/// state; `commit` is one atomic transition from the callers' view, since
/// the graph is borrowed exclusively for its whole duration.
pub struct Graph {
    pub arena: Arena,
}

impl View for Graph {
    type V = ArenaModel;

    open spec fn view(&self) -> ArenaModel {
        self.arena@
    }
}

impl Graph {
    pub open spec fn wf(self) -> bool {
        self@.wf()
    }

    /// An empty graph bound to a context.
    pub fn new(_ctx: &Context) -> (g: Graph)
        ensures
            g@ == ArenaModel::empty(),
            g.wf(),
    {
        Graph { arena: Arena::new() }
    }

    /// Pure read of the last committed state: `None` uniformly for
    /// removed, stale and never-issued handles.
    pub fn get_node(&self, idx: NodeIndex) -> (r: Option<&Node>)
        ensures
            match r {
                Some(n) => self@.get(idx) == Some(n@),
                None => self@.get(idx) is None,
            },
    {
        self.arena.get(idx)
    }

    /// Pure read of the last committed state: the live nodes in slot
    /// order, skipping tombstoned slots.
    pub fn iter_nodes(&self) -> (r: Vec<(NodeIndex, Node)>)
        ensures
            pairs_view(r@) == self@.iter_seq(),
    {
        self.arena.iter()
    }

    /// Applies all staged operations of the transaction in staging order:
    /// for each operation its structural change, then its mirror
    /// propagation, before the next one. The result is the new committed
    /// state; readers never observe an intermediate state since the graph
    /// is exclusively borrowed throughout.
    pub fn commit(&mut self, t: Transaction)
        requires
            old(self).wf(),
        ensures
            final(self)@ == apply_log(old(self)@, t@),
            final(self).wf(),
    {
        let ghost m0 = self@;
        let ghost opsm = t@;
        let Transaction { ops, avail: _, fresh_next: _ } = t;
        let mut i: usize = 0;
        proof {
            assert(opsm.skip(0) =~= opsm);
        }
        while i < ops.len()
            invariant
                i <= ops.len(),
                ops@.map_values(|o: Op| o@) == opsm,
                self@.wf(),
                apply_log(m0, opsm) == apply_log(self@, opsm.skip(i as int)),
            decreases ops.len() - i,
        {
            let ghost mcur = self@;
            let ghost op = opsm[i as int];
            proof {
                assert(opsm.skip(i as int)[0] == op);
                assert(opsm.skip(i as int).drop_first() =~= opsm.skip(i as int + 1));
                assert(ops@[i as int]@ == op);
            }
            match &ops[i] {
                Op::New(h, v) => {
                    let tgt = v.target();
                    let nv = v.clone();
                    let ok = self.arena.insert_at(*h, nv);
                    if ok {
                        match tgt {
                            Some(tt) => self.arena.add_mirror(tt, *h),
                            None => {},
                        }
                    }
                    proof {
                        assert(self@ == apply_op(mcur, op));
                    }
                },
                Op::Mut(h, v) => {
                    let nv = v.clone();
                    let _ = self.arena.set(*h, nv);
                    proof {
                        assert(self@ == apply_op(mcur, op));
                    }
                },
                Op::Update(h, v) => {
                    let mut is_live = false;
                    let mut ot: Option<NodeIndex> = None;
                    match self.arena.get(*h) {
                        Some(n) => {
                            is_live = true;
                            ot = n.target();
                        },
                        None => {},
                    }
                    if is_live {
                        let nt = v.target();
                        let nv = v.clone();
                        let _ = self.arena.set(*h, nv);
                        let same = match (ot, nt) {
                            (None, None) => true,
                            (Some(a), Some(b)) => a == b,
                            _ => false,
                        };
                        proof {
                            assert(same == (ot == nt));
                        }
                        if !same {
                            match ot {
                                Some(tt) => self.arena.remove_mirror(tt, *h),
                                None => {},
                            }
                            match nt {
                                Some(tt) => self.arena.add_mirror(tt, *h),
                                None => {},
                            }
                        }
                    }
                    proof {
                        assert(self@ == apply_op(mcur, op));
                    }
                },
                Op::Remove(h) => {
                    let mut is_live = false;
                    let mut ot: Option<NodeIndex> = None;
                    match self.arena.get(*h) {
                        Some(n) => {
                            is_live = true;
                            ot = n.target();
                        },
                        None => {},
                    }
                    if is_live {
                        match ot {
                            Some(tt) => self.arena.remove_mirror(tt, *h),
                            None => {},
                        }
                        proof {
                            assert(self@.live(*h));
                        }
                        let _ = self.arena.remove(*h);
                    }
                    proof {
                        assert(self@ == apply_op(mcur, op));
                    }
                },
            }
            proof {
                lemma_wf_apply_op(mcur, op);
                assert(apply_log(mcur, opsm.skip(i as int)) == apply_log(
                    self@,
                    opsm.skip(i as int + 1),
                ));
            }
            i += 1;
        }
        proof {
            assert(opsm.skip(ops@.len() as int) =~= Seq::<OpM>::empty());
        }
    }
}

} // verus!
