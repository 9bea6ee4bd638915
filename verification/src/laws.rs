use crate::arena::ArenaModel;
use crate::graph::{apply_log, apply_new, apply_op, OpM};
use crate::index::NodeIndex;
use crate::node::{
    add_link_spec, backs_add, backs_remove, is_link, lemma_backs_add_contains,
    lemma_backs_remove_contains, link_target, mirror_seq, remove_link_spec, NodeM,
};
use vstd::prelude::*;

verus! {

// ---------------------------------------------------------------------------
// The graph-wide invariants.
// ---------------------------------------------------------------------------

/// Slot `j` currently holds a node.
pub open spec fn occupied(m: ArenaModel, j: int) -> bool {
    0 <= j < m.slots.len() && m.slots[j].node is Some
}

/// The node held by occupied slot `j`.
pub open spec fn node_at_slot(m: ArenaModel, j: int) -> NodeM {
    m.slots[j].node->0
}

/// Handle `a` resolves to a node whose outgoing link points at slot `j`.
pub open spec fn points_at(m: ArenaModel, a: NodeIndex, j: int) -> bool {
    m.live(a) && link_target(m.node_at(a)) == Some(m.handle_of(j))
}

/// Mirror soundness at slot `j`: every member of its mirror set is a live
/// node whose outgoing link really points here.
pub open spec fn sound_at(m: ArenaModel, j: int) -> bool {
    forall|a: NodeIndex| #[trigger] mirror_seq(node_at_slot(m, j)).contains(a) ==> points_at(m, a, j)
}

/// Mirror soundness: no mirror set holds a stale or wrong entry.
pub open spec fn mirrors_sound(m: ArenaModel) -> bool {
    forall|j: int| occupied(m, j) ==> #[trigger] sound_at(m, j)
}

/// Mirror completeness at slot `i`: if its node's outgoing link points at a
/// live, mirror-capable target, the target's mirror set names this slot's
/// handle.
pub open spec fn complete_at(m: ArenaModel, i: int) -> bool {
    match link_target(node_at_slot(m, i)) {
        Some(t) => (m.live(t) && is_link(m.node_at(t))) ==> mirror_seq(m.node_at(t)).contains(
            m.handle_of(i),
        ),
        None => true,
    }
}

/// The bidirectional-link invariant: every forward link to a live,
/// mirror-capable target is mirrored there.
pub open spec fn mirrors_complete(m: ArenaModel) -> bool {
    forall|i: int| occupied(m, i) ==> #[trigger] complete_at(m, i)
}

/// Every live outgoing link target is within bounds, never of a generation
/// the target slot has not reached, and never names a still-reusable vacant
/// slot at its current generation (so reuse cannot capture it).
pub open spec fn targets_ok_at(m: ArenaModel, i: int) -> bool {
    match link_target(node_at_slot(m, i)) {
        Some(t) => {
            &&& (t.slot as int) < m.slots.len()
            &&& t.generation <= m.slots[t.slot as int].generation
            &&& ((m.slots[t.slot as int].node is None && m.slots[t.slot as int].generation
                == t.generation) ==> t.generation == u64::MAX)
        },
        None => true,
    }
}

pub open spec fn targets_ok(m: ArenaModel) -> bool {
    forall|i: int| occupied(m, i) ==> #[trigger] targets_ok_at(m, i)
}

/// The full invariant a committed graph maintains.
pub open spec fn inv(m: ArenaModel) -> bool {
    m.wf() && targets_ok(m) && mirrors_sound(m) && mirrors_complete(m)
}

/// The "no link" sentinel never equals a valid handle: every slot of a
/// well-formed arena carries a generation of at least 1, while the sentinel
/// carries 0, so it never resolves.
pub proof fn lemma_sentinel_never_resolves(m: ArenaModel)
    requires
        m.wf(),
    ensures
        !m.live(NodeIndex::empty_spec()),
        m.get(NodeIndex::empty_spec()) is None,
{
    if (0 as int) < m.slots.len() {
        assert(m.slots[0].generation >= 1);
    }
}

/// The empty graph satisfies the invariant.
pub proof fn lemma_inv_empty()
    ensures
        inv(ArenaModel::empty()),
{
}

// ---------------------------------------------------------------------------
// Conditions under which a staged log maintains the invariant.
// ---------------------------------------------------------------------------

/// A staged creation is orderly when its handle is materializable, its
/// mirror set starts empty, and its outgoing link (if any) targets itself
/// or a node live at application time. (A link to a node staged later in
/// the same transaction is not covered: its mirror cannot be added yet.)
pub open spec fn new_op_ok(m: ArenaModel, h: NodeIndex, n: NodeM) -> bool {
    &&& m.new_ok(h)
    &&& mirror_seq(n).len() == 0
    &&& match link_target(n) {
        Some(t) => t == h || m.live(t),
        None => true,
    }
}

/// A staged field edit is orderly when it changes neither the outgoing
/// link nor the mirror set (it is reserved for link-free field changes).
pub open spec fn mut_op_ok(m: ArenaModel, h: NodeIndex, n: NodeM) -> bool {
    m.live(h) ==> {
        &&& link_target(n) == link_target(m.node_at(h))
        &&& mirror_seq(n) == mirror_seq(m.node_at(h))
        &&& is_link(n) == is_link(m.node_at(h))
    }
}

/// A staged replacement is orderly when it carries the node's current
/// mirror set and link capability over unchanged and any new outgoing link
/// targets a node live at application time. (Turning a node that others
/// already point at into a mirror-capable one is not covered: their links
/// were committed as unmirrorable and stay so.)
pub open spec fn update_op_ok(m: ArenaModel, h: NodeIndex, n: NodeM) -> bool {
    m.live(h) ==> {
        &&& mirror_seq(n) == mirror_seq(m.node_at(h))
        &&& is_link(n) == is_link(m.node_at(h))
        &&& match link_target(n) {
            Some(t) => m.live(t),
            None => true,
        }
    }
}

pub open spec fn op_ok(m: ArenaModel, op: OpM) -> bool {
    match op {
        OpM::New(h, n) => new_op_ok(m, h, n),
        OpM::Mut(h, n) => mut_op_ok(m, h, n),
        OpM::Update(h, n) => update_op_ok(m, h, n),
        OpM::Remove(h) => true,
    }
}

/// Each staged operation is orderly in the state it is applied to.
pub open spec fn log_ok(m: ArenaModel, ops: Seq<OpM>) -> bool
    decreases ops.len(),
{
    ops.len() == 0 || (op_ok(m, ops[0]) && log_ok(apply_op(m, ops[0]), ops.drop_first()))
}

// ---------------------------------------------------------------------------
// Preservation of the invariant, operation by operation.
// ---------------------------------------------------------------------------

/// No live node's outgoing link names a handle that `new_ok` would accept:
/// such a handle either denotes a still-reusable vacant slot at its stored
/// generation, or a slot not yet created.
proof fn lemma_no_one_points_at_new(m: ArenaModel, h: NodeIndex, i: int)
    requires
        inv(m),
        m.new_ok(h),
        occupied(m, i),
    ensures
        link_target(node_at_slot(m, i)) != Some(h),
{
    assert(targets_ok_at(m, i));
}

/// An orderly creation preserves the invariant.
pub proof fn lemma_inv_new(m: ArenaModel, h: NodeIndex, n: NodeM)
    requires
        inv(m),
        new_op_ok(m, h, n),
    ensures
        inv(apply_new(m, h, n)),
{
    crate::graph::lemma_wf_apply_op(m, OpM::New(h, n));
    let m1 = m.insert_model(h, n);
    let mf = apply_new(m, h, n);
    let hs = h.slot as int;
    // slot-level facts
    assert(m1.slots.len() == if hs < m.slots.len() {
        m.slots.len() as int
    } else {
        (m.slots.len() + 1) as int
    });
    assert(forall|j: int| 0 <= j < m.slots.len() && j != hs ==> m1.slots[j] == m.slots[j]);
    assert(m1.live(h));
    assert(m1.node_at(h) == n);
    // where the mirror propagation lands
    let t0 = link_target(n);
    assert(mf == match t0 {
        Some(t) => m1.add_mirror_model(t, h),
        None => m1,
    });
    assert forall|j: int| 0 <= j < m1.slots.len() implies {
        &&& mf.slots.len() == m1.slots.len()
        &&& mf.slots[j].generation == m1.slots[j].generation
        &&& (mf.slots[j].node is Some) == (m1.slots[j].node is Some)
        &&& (occupied(m1, j) ==> link_target(node_at_slot(mf, j)) == link_target(
            node_at_slot(m1, j),
        ))
        &&& (occupied(m1, j) ==> is_link(node_at_slot(mf, j)) == is_link(node_at_slot(m1, j)))
    } by {
        match t0 {
            Some(t) => {
                if m1.live(t) && is_link(m1.node_at(t)) && j == t.slot as int {
                    assert(node_at_slot(mf, j) == add_link_spec(node_at_slot(m1, j), h));
                }
            },
            None => {},
        }
    }
    // no live node of m points at h
    assert forall|i: int| occupied(m, i) implies link_target(node_at_slot(m, i)) != Some(h) by {
        lemma_no_one_points_at_new(m, h, i);
    }
    // targets stay orderly
    assert forall|i: int| occupied(mf, i) implies targets_ok_at(mf, i) by {
        if i == hs {
            match link_target(n) {
                Some(t) => {
                    if t == h {
                        assert(mf.slots[hs].node is Some);
                    } else {
                        assert(m.live(t));
                        assert(t.slot as int != hs);
                        assert(mf.slots[t.slot as int].generation == m.slots[t.slot as int].generation);
                        assert(mf.slots[t.slot as int].node is Some);
                    }
                },
                None => {},
            }
        } else {
            assert(occupied(m, i));
            assert(targets_ok_at(m, i));
            assert(node_at_slot(m1, i) == node_at_slot(m, i));
            match link_target(node_at_slot(m, i)) {
                Some(t) => {
                    if t.slot as int == hs {
                        assert(mf.slots[hs].node is Some);
                        if hs < m.slots.len() {
                            assert(mf.slots[hs].generation == m.slots[hs].generation);
                        } else {
                            assert(false);
                        }
                    }
                },
                None => {},
            }
        }
    }
    // mirrors stay sound
    assert forall|j: int| occupied(mf, j) implies sound_at(mf, j) by {
        assert forall|a: NodeIndex| #[trigger] mirror_seq(node_at_slot(mf, j)).contains(a) implies points_at(
            mf,
            a,
            j,
        ) by {
            let is_target = match t0 {
                Some(t) => m1.live(t) && is_link(m1.node_at(t)) && j == t.slot as int,
                None => false,
            };
            if is_target {
                let t = t0->0;
                assert(node_at_slot(mf, j) == add_link_spec(node_at_slot(m1, j), h));
                lemma_backs_add_contains(mirror_seq(node_at_slot(m1, j)), h, a);
                if a == h {
                    assert(mf.live(h));
                    assert(link_target(mf.node_at(h)) == t0);
                    assert(mf.handle_of(j) == t);
                } else {
                    assert(mirror_seq(node_at_slot(m1, j)).contains(a));
                    if j == hs {
                        assert(mirror_seq(n).contains(a));
                        assert(false);
                    }
                    assert(occupied(m, j));
                    assert(sound_at(m, j));
                    assert(points_at(m, a, j));
                    assert(a.slot as int != hs);
                    assert(points_at(mf, a, j));
                }
            } else {
                if j == hs {
                    assert(mirror_seq(node_at_slot(mf, j)) == mirror_seq(n));
                    assert(false);
                }
                assert(node_at_slot(mf, j) == node_at_slot(m, j));
                assert(occupied(m, j));
                assert(sound_at(m, j));
                assert(points_at(m, a, j));
                assert(a.slot as int != hs);
                assert(points_at(mf, a, j));
            }
        }
    }
    // mirrors stay complete
    assert forall|i: int| occupied(mf, i) implies complete_at(mf, i) by {
        if i == hs {
            match t0 {
                Some(t) => {
                    if mf.live(t) && is_link(mf.node_at(t)) {
                        assert(m1.live(t));
                        assert(is_link(m1.node_at(t)));
                        assert(mf.node_at(t) == add_link_spec(m1.node_at(t), h));
                        lemma_backs_add_contains(mirror_seq(m1.node_at(t)), h, h);
                        assert(mf.handle_of(i) == h);
                    }
                },
                None => {},
            }
        } else {
            assert(occupied(m, i));
            assert(complete_at(m, i));
            assert(targets_ok_at(m, i));
            assert(node_at_slot(m1, i) == node_at_slot(m, i));
            assert(link_target(node_at_slot(mf, i)) == link_target(node_at_slot(m, i)));
            match link_target(node_at_slot(m, i)) {
                Some(t) => {
                    if mf.live(t) && is_link(mf.node_at(t)) {
                        if t.slot as int == hs {
                            // the slot was vacant (or absent) in m at this
                            // generation, so nothing pointed there
                            assert(link_target(node_at_slot(m, i)) != Some(h));
                            assert(targets_ok_at(m, i));
                            if hs < m.slots.len() {
                                assert(mf.slots[hs].generation == h.generation);
                                assert(t.generation == h.generation);
                                assert(m.slots[hs].generation == h.generation);
                                assert(m.slots[hs].node is None);
                                assert(t == h);
                            }
                            assert(false);
                        }
                        assert(m.live(t));
                        assert(is_link(m.node_at(t)));
                        assert(mirror_seq(m.node_at(t)).contains(m.handle_of(i)));
                        let tgt_hit = match t0 {
                            Some(t2) => m1.live(t2) && is_link(m1.node_at(t2)) && t.slot == t2.slot,
                            None => false,
                        };
                        if tgt_hit {
                            assert(mf.node_at(t) == add_link_spec(m1.node_at(t), h));
                            lemma_backs_add_contains(
                                mirror_seq(m1.node_at(t)),
                                h,
                                m.handle_of(i),
                            );
                        } else {
                            assert(mf.node_at(t) == m.node_at(t));
                        }
                        assert(mf.handle_of(i) == m.handle_of(i));
                    }
                },
                None => {},
            }
        }
    }
}

/// An orderly field edit preserves the invariant.
pub proof fn lemma_inv_mut(m: ArenaModel, h: NodeIndex, n: NodeM)
    requires
        inv(m),
        mut_op_ok(m, h, n),
    ensures
        inv(apply_op(m, OpM::Mut(h, n))),
{
    crate::graph::lemma_wf_apply_op(m, OpM::Mut(h, n));
    if m.live(h) {
        let mf = m.set_node(h, n);
        let hs = h.slot as int;
        assert(mf.slots.len() == m.slots.len());
        assert(forall|j: int| 0 <= j < m.slots.len() && j != hs ==> mf.slots[j] == m.slots[j]);
        assert(node_at_slot(mf, hs) == n);
        // occupancy, generations, link fields and mirror sets all carry over
        assert forall|j: int| 0 <= j < m.slots.len() implies {
            &&& (#[trigger] mf.slots[j].node is Some) == (m.slots[j].node is Some)
            &&& mf.slots[j].generation == m.slots[j].generation
            &&& (occupied(m, j) ==> link_target(node_at_slot(mf, j)) == link_target(
                node_at_slot(m, j),
            ))
            &&& (occupied(m, j) ==> mirror_seq(node_at_slot(mf, j)) == mirror_seq(
                node_at_slot(m, j),
            ))
            &&& (occupied(m, j) ==> is_link(node_at_slot(mf, j)) == is_link(node_at_slot(m, j)))
        } by {
            if j == hs {
                assert(node_at_slot(m, hs) == m.node_at(h));
            }
        }
        assert forall|i: int| occupied(mf, i) implies targets_ok_at(mf, i) by {
            assert(occupied(m, i));
            assert(targets_ok_at(m, i));
        }
        assert forall|i: int| occupied(mf, i) implies complete_at(mf, i) by {
            assert(occupied(m, i));
            assert(complete_at(m, i));
            assert(targets_ok_at(m, i));
            match link_target(node_at_slot(m, i)) {
                Some(t) => {
                    if mf.live(t) && is_link(mf.node_at(t)) {
                        assert(m.live(t));
                        assert(mirror_seq(mf.node_at(t)) == mirror_seq(m.node_at(t)));
                        assert(mf.handle_of(i) == m.handle_of(i));
                    }
                },
                None => {},
            }
        }
        assert forall|i: int| occupied(mf, i) implies sound_at(mf, i) by {
            assert(occupied(m, i));
            assert(sound_at(m, i));
            assert forall|a: NodeIndex| #[trigger] mirror_seq(node_at_slot(mf, i)).contains(a) implies points_at(
                mf,
                a,
                i,
            ) by {
                assert(mirror_seq(node_at_slot(m, i)).contains(a));
                assert(points_at(m, a, i));
                assert(link_target(mf.node_at(a)) == link_target(m.node_at(a)));
                assert(mf.handle_of(i) == m.handle_of(i));
            }
        }
    }
}

/// An orderly replacement preserves the invariant.
pub proof fn lemma_inv_update(m: ArenaModel, h: NodeIndex, n: NodeM)
    requires
        inv(m),
        update_op_ok(m, h, n),
    ensures
        inv(apply_op(m, OpM::Update(h, n))),
{
    crate::graph::lemma_wf_apply_op(m, OpM::Update(h, n));
    if m.live(h) {
        let hs = h.slot as int;
        let old_n = m.node_at(h);
        let ot = link_target(old_n);
        let nt = link_target(n);
        if ot == nt {
            lemma_inv_mut(m, h, n);
            assert(apply_op(m, OpM::Update(h, n)) == apply_op(m, OpM::Mut(h, n)));
        } else {
            let m1 = m.set_node(h, n);
            let m2 = match ot {
                Some(t) => m1.remove_mirror_model(t, h),
                None => m1,
            };
            let mf = match nt {
                Some(t) => m2.add_mirror_model(t, h),
                None => m2,
            };
            assert(apply_op(m, OpM::Update(h, n)) == mf);
            let rm_guard = match ot {
                Some(t) => m1.live(t) && is_link(m1.node_at(t)),
                None => false,
            };
            let add_guard = match nt {
                Some(t) => m2.live(t) && is_link(m2.node_at(t)),
                None => false,
            };
            // slot-level facts: occupancy and generations never change; the
            // node at h is replaced; mirror edits touch only their targets.
            assert forall|j: int| 0 <= j < m.slots.len() implies {
                &&& mf.slots.len() == m.slots.len()
                &&& (#[trigger] mf.slots[j].node is Some) == (m.slots[j].node is Some)
                &&& mf.slots[j].generation == m.slots[j].generation
                &&& (occupied(m, j) && j != hs ==> link_target(node_at_slot(mf, j)) == link_target(
                    node_at_slot(m, j),
                ))
                &&& (occupied(m, j) ==> is_link(node_at_slot(mf, j)) == is_link(
                    node_at_slot(m, j),
                ))
                &&& (occupied(m, j) && j == hs ==> link_target(node_at_slot(mf, j)) == nt)
            } by {
                if j == hs {
                    assert(node_at_slot(m, hs) == old_n);
                }
            }
            // the mirror set of each slot after the three steps
            assert forall|j: int| occupied(m, j) implies mirror_seq(node_at_slot(mf, j))
                == update_backs(m, h, n, j) by {
                assert(node_at_slot(m1, j) == if j == hs {
                    n
                } else {
                    node_at_slot(m, j)
                });
            }
            // soundness
            assert forall|j: int| occupied(mf, j) implies sound_at(mf, j) by {
                assert(occupied(m, j));
                assert forall|a: NodeIndex| #[trigger] mirror_seq(node_at_slot(mf, j)).contains(a)
                    implies points_at(mf, a, j) by {
                    assert(mirror_seq(node_at_slot(mf, j)) == update_backs(m, h, n, j));
                    let base = if j == hs {
                        mirror_seq(n)
                    } else {
                        mirror_seq(node_at_slot(m, j))
                    };
                    assert(base == mirror_seq(node_at_slot(m, j)));
                    let removed = if rm_guard && j == ot->0.slot as int {
                        backs_remove(base, h)
                    } else {
                        base
                    };
                    if add_guard && j == nt->0.slot as int {
                        lemma_backs_add_contains(removed, h, a);
                    }
                    if rm_guard && j == ot->0.slot as int {
                        lemma_backs_remove_contains(base, h, a);
                    }
                    if a == h {
                        // only the add step can have put h here
                        assert(add_guard && j == nt->0.slot as int) by {
                            if !(add_guard && j == nt->0.slot as int) {
                                assert(base.contains(h));
                                assert(sound_at(m, j));
                                assert(points_at(m, h, j));
                                assert(ot == Some(m.handle_of(j)));
                                assert(rm_guard && j == ot->0.slot as int);
                                assert(!removed.contains(h));
                                assert(false);
                            }
                        }
                        let t = nt->0;
                        assert(mf.live(h));
                        assert(link_target(mf.node_at(h)) == nt);
                        assert(mf.handle_of(j) == t);
                    } else {
                        assert(base.contains(a));
                        assert(sound_at(m, j));
                        assert(points_at(m, a, j));
                        assert(a.slot as int != hs || a == h);
                        assert(link_target(mf.node_at(a)) == link_target(m.node_at(a)));
                        assert(mf.handle_of(j) == m.handle_of(j));
                    }
                }
            }
            // completeness
            assert forall|i: int| occupied(mf, i) implies complete_at(mf, i) by {
                assert(occupied(m, i));
                assert(complete_at(m, i));
                assert(targets_ok_at(m, i));
                if i == hs {
                    match nt {
                        Some(t) => {
                            if mf.live(t) && is_link(mf.node_at(t)) {
                                assert(m.live(t));
                                assert(add_guard);
                                assert(mirror_seq(mf.node_at(t)) == update_backs(
                                    m,
                                    h,
                                    n,
                                    t.slot as int,
                                ));
                                let removed = if rm_guard && t.slot == ot->0.slot {
                                    backs_remove(mirror_seq(node_at_slot(m, t.slot as int)), h)
                                } else {
                                    mirror_seq(node_at_slot(m, t.slot as int))
                                };
                                lemma_backs_add_contains(removed, h, h);
                                assert(mf.handle_of(i) == h);
                            }
                        },
                        None => {},
                    }
                } else {
                    match link_target(node_at_slot(m, i)) {
                        Some(t) => {
                            if mf.live(t) && is_link(mf.node_at(t)) {
                                assert(m.live(t));
                                assert(is_link(m.node_at(t)));
                                let hi = m.handle_of(i);
                                assert(mirror_seq(m.node_at(t)).contains(hi));
                                assert(hi.slot as int == i);
                                assert(hi != h);
                                assert(mirror_seq(mf.node_at(t)) == update_backs(
                                    m,
                                    h,
                                    n,
                                    t.slot as int,
                                ));
                                let base = mirror_seq(node_at_slot(m, t.slot as int));
                                let removed = if rm_guard && t.slot == ot->0.slot {
                                    backs_remove(base, h)
                                } else {
                                    base
                                };
                                if rm_guard && t.slot == ot->0.slot {
                                    lemma_backs_remove_contains(base, h, hi);
                                }
                                if add_guard && t.slot == nt->0.slot {
                                    lemma_backs_add_contains(removed, h, hi);
                                }
                                assert(mf.handle_of(i) == hi);
                            }
                        },
                        None => {},
                    }
                }
            }
            // target orderliness
            assert forall|i: int| occupied(mf, i) implies targets_ok_at(mf, i) by {
                assert(occupied(m, i));
                assert(targets_ok_at(m, i));
                if i == hs {
                    match nt {
                        Some(t) => {
                            assert(m.live(t));
                        },
                        None => {},
                    }
                }
            }
        }
    }
}

/// The mirror set of slot `j` after an orderly replacement at `h` by `n`.
spec fn update_backs(m: ArenaModel, h: NodeIndex, n: NodeM, j: int) -> Seq<NodeIndex> {
    let old_n = m.node_at(h);
    let ot = link_target(old_n);
    let nt = link_target(n);
    let m1 = m.set_node(h, n);
    let m2 = match ot {
        Some(t) => m1.remove_mirror_model(t, h),
        None => m1,
    };
    let base = mirror_seq(node_at_slot(m, j));
    let removed = if (match ot {
        Some(t) => m1.live(t) && is_link(m1.node_at(t)) && j == t.slot as int,
        None => false,
    }) {
        backs_remove(base, h)
    } else {
        base
    };
    if (match nt {
        Some(t) => m2.live(t) && is_link(m2.node_at(t)) && j == t.slot as int,
        None => false,
    }) {
        backs_add(removed, h)
    } else {
        removed
    }
}

/// A removal preserves the invariant.
pub proof fn lemma_inv_remove(m: ArenaModel, h: NodeIndex)
    requires
        inv(m),
    ensures
        inv(apply_op(m, OpM::Remove(h))),
{
    crate::graph::lemma_wf_apply_op(m, OpM::Remove(h));
    if m.live(h) {
        let hs = h.slot as int;
        let ot = link_target(m.node_at(h));
        let m1 = match ot {
            Some(t) => m.remove_mirror_model(t, h),
            None => m,
        };
        let mf = m1.vacate_model(h);
        let rm_guard = match ot {
            Some(t) => m.live(t) && is_link(m.node_at(t)),
            None => false,
        };
        // slot-level facts
        assert forall|j: int| 0 <= j < m.slots.len() && j != hs implies {
            &&& mf.slots.len() == m.slots.len()
            &&& (#[trigger] mf.slots[j].node is Some) == (m.slots[j].node is Some)
            &&& mf.slots[j].generation == m.slots[j].generation
            &&& (occupied(m, j) ==> link_target(node_at_slot(mf, j)) == link_target(
                node_at_slot(m, j),
            ))
            &&& (occupied(m, j) ==> is_link(node_at_slot(mf, j)) == is_link(node_at_slot(m, j)))
            &&& (occupied(m, j) ==> mirror_seq(node_at_slot(mf, j)) == (if (rm_guard && j
                == ot->0.slot as int) {
                backs_remove(mirror_seq(node_at_slot(m, j)), h)
            } else {
                mirror_seq(node_at_slot(m, j))
            }))
        } by {}
        assert(mf.slots[hs].node is None);
        assert(mf.slots[hs].generation > h.generation || mf.slots[hs].generation == u64::MAX);
        // soundness
        assert forall|j: int| occupied(mf, j) implies sound_at(mf, j) by {
            assert(j != hs);
            assert(occupied(m, j));
            assert forall|a: NodeIndex| #[trigger] mirror_seq(node_at_slot(mf, j)).contains(a)
                implies points_at(mf, a, j) by {
                let base = mirror_seq(node_at_slot(m, j));
                if rm_guard && j == ot->0.slot as int {
                    lemma_backs_remove_contains(base, h, a);
                }
                assert(base.contains(a));
                assert(sound_at(m, j));
                assert(points_at(m, a, j));
                assert(a != h) by {
                    if a == h {
                        // h's own link points at j, so the removal step ran there
                        assert(link_target(m.node_at(h)) == Some(m.handle_of(j)));
                        assert(m.live(m.handle_of(j)));
                        assert(is_link(m.node_at(m.handle_of(j))));
                        assert(rm_guard && j == ot->0.slot as int);
                        lemma_backs_remove_contains(base, h, h);
                        assert(false);
                    }
                }
                assert(a.slot as int != hs);
                assert(link_target(mf.node_at(a)) == link_target(m.node_at(a)));
                assert(mf.handle_of(j) == m.handle_of(j));
            }
        }
        // completeness
        assert forall|i: int| occupied(mf, i) implies complete_at(mf, i) by {
            assert(i != hs);
            assert(occupied(m, i));
            assert(complete_at(m, i));
            assert(targets_ok_at(m, i));
            match link_target(node_at_slot(m, i)) {
                Some(t) => {
                    if mf.live(t) && is_link(mf.node_at(t)) {
                        assert(t.slot as int != hs);
                        assert(m.live(t));
                        assert(is_link(m.node_at(t)));
                        let hi = m.handle_of(i);
                        assert(mirror_seq(m.node_at(t)).contains(hi));
                        assert(hi != h);
                        if rm_guard && t.slot == ot->0.slot {
                            lemma_backs_remove_contains(mirror_seq(m.node_at(t)), h, hi);
                        }
                        assert(mf.handle_of(i) == hi);
                    }
                },
                None => {},
            }
        }
        // target orderliness
        assert forall|i: int| occupied(mf, i) implies targets_ok_at(mf, i) by {
            assert(i != hs);
            assert(occupied(m, i));
            assert(targets_ok_at(m, i));
            match link_target(node_at_slot(m, i)) {
                Some(t) => {
                    if t.slot as int == hs {
                        assert(t.generation <= h.generation);
                        assert(mf.slots[hs].generation > h.generation || mf.slots[hs].generation
                            == u64::MAX);
                    }
                },
                None => {},
            }
        }
    }
}

/// Every orderly operation preserves the invariant.
pub proof fn lemma_inv_op(m: ArenaModel, op: OpM)
    requires
        inv(m),
        op_ok(m, op),
    ensures
        inv(apply_op(m, op)),
{
    match op {
        OpM::New(h, n) => lemma_inv_new(m, h, n),
        OpM::Mut(h, n) => lemma_inv_mut(m, h, n),
        OpM::Update(h, n) => lemma_inv_update(m, h, n),
        OpM::Remove(h) => lemma_inv_remove(m, h),
    }
}

/// The bidirectional invariant holds after any commit of an orderly log on
/// a graph that satisfies it — in particular after any chain of such
/// commits starting from the empty graph.
pub proof fn lemma_inv_commit(m: ArenaModel, ops: Seq<OpM>)
    requires
        inv(m),
        log_ok(m, ops),
    ensures
        inv(apply_log(m, ops)),
    decreases ops.len(),
{
    if ops.len() > 0 {
        lemma_inv_op(m, ops[0]);
        lemma_inv_commit(apply_op(m, ops[0]), ops.drop_first());
    }
}

/// The reading of the bidirectional invariant over the query surface: for
/// every live node A and every (target B, source) among A's outgoing
/// links, if B is live and mirror-capable then B's mirror set for the
/// source's mirror kind contains A's handle.
pub proof fn lemma_bidirectional_link(m: ArenaModel, i: int, t: NodeIndex)
    requires
        inv(m),
        occupied(m, i),
        link_target(node_at_slot(m, i)) == Some(t),
        m.live(t),
        is_link(m.node_at(t)),
    ensures
        mirror_seq(m.node_at(t)).contains(m.handle_of(i)),
{
    assert(complete_at(m, i));
}

// ---------------------------------------------------------------------------
// Idempotence of the mirror-set operations.
// ---------------------------------------------------------------------------

/// Adding the same handle to a mirror set twice changes the node once: the
/// second add is a no-op (and, per the `add_link` contracts, reports no
/// change, since the handle is then already present). Symmetrically,
/// removing an absent handle leaves the node unchanged.
pub proof fn lemma_link_idempotent(n: NodeM, t: NodeIndex)
    ensures
        add_link_spec(add_link_spec(n, t), t) == add_link_spec(n, t),
        is_link(n) ==> mirror_seq(add_link_spec(n, t)).contains(t),
        !mirror_seq(n).contains(t) ==> remove_link_spec(n, t) == n,
        !mirror_seq(remove_link_spec(n, t)).contains(t),
{
    match n {
        NodeM::Link { to, backs } => {
            lemma_backs_add_contains(backs, t, t);
            lemma_backs_add_contains(backs_add(backs, t), t, t);
            lemma_backs_remove_contains(backs, t, t);
            if !backs.contains(t) {
                crate::node::lemma_backs_remove_absent(backs, t);
            }
        },
        _ => {
        },
    }
}

// ---------------------------------------------------------------------------
// Handle non-aliasing.
// ---------------------------------------------------------------------------

/// A handle is extinct when its slot has moved past its generation (or was
/// retired at the generation ceiling): it can never resolve again.
pub open spec fn extinct(m: ArenaModel, h: NodeIndex) -> bool {
    &&& (h.slot as int) < m.slots.len()
    &&& {
        ||| m.slots[h.slot as int].generation > h.generation
        ||| {
            &&& m.slots[h.slot as int].generation == h.generation
            &&& m.slots[h.slot as int].node is None
            &&& h.generation == u64::MAX
        }
    }
}

/// An extinct handle does not resolve.
pub proof fn lemma_extinct_get_none(m: ArenaModel, h: NodeIndex)
    requires
        extinct(m, h),
    ensures
        m.get(h) is None,
{
}

/// Removing a live node makes its handle extinct.
pub proof fn lemma_remove_makes_extinct(m: ArenaModel, h: NodeIndex)
    requires
        m.live(h),
    ensures
        extinct(apply_op(m, OpM::Remove(h)), h),
{
}

/// Extinction survives every further operation: slot generations never
/// decrease, and a retired slot is never reoccupied.
pub proof fn lemma_extinct_op(m: ArenaModel, op: OpM, h: NodeIndex)
    requires
        extinct(m, h),
    ensures
        extinct(apply_op(m, op), h),
{
}

/// Handle non-aliasing: once a handle is extinct — as every removed
/// handle is — no sequence of further commits makes it resolve again,
/// however often its slot is reused.
pub proof fn lemma_removed_never_resolves(m: ArenaModel, ops: Seq<OpM>, h: NodeIndex)
    requires
        extinct(m, h),
    ensures
        extinct(apply_log(m, ops), h),
        apply_log(m, ops).get(h) is None,
    decreases ops.len(),
{
    if ops.len() > 0 {
        lemma_extinct_op(m, ops[0], h);
        lemma_removed_never_resolves(apply_op(m, ops[0]), ops.drop_first(), h);
    } else {
        lemma_extinct_get_none(m, h);
    }
}

// ---------------------------------------------------------------------------
// Round-trip of a committed creation.
// ---------------------------------------------------------------------------

/// Committing a transaction that stages one `new_node(x)` makes the
/// reserved handle resolve to exactly `x` (a node whose link points at its
/// own reserved handle is excluded: commit would mirror it into the node's
/// own mirror set).
pub proof fn lemma_round_trip(m: ArenaModel, h: NodeIndex, x: NodeM)
    requires
        m.new_ok(h),
        link_target(x) != Some(h),
    ensures
        apply_log(m, seq![OpM::New(h, x)]).get(h) == Some(x),
{
    let ops = seq![OpM::New(h, x)];
    assert(ops.drop_first() =~= Seq::<OpM>::empty());
    assert(apply_log(apply_op(m, ops[0]), Seq::<OpM>::empty()) == apply_op(m, ops[0]));
    assert(apply_log(m, ops) == apply_op(m, ops[0]));
    let m1 = m.insert_model(h, x);
    assert(m1.live(h));
    assert(m1.node_at(h) == x);
    match link_target(x) {
        Some(t) => {
            let m2 = m1.add_mirror_model(t, h);
            if m1.live(t) {
                assert(t.generation == m1.slots[t.slot as int].generation);
                assert(t != h);
                if t.slot == h.slot {
                    assert(m1.slots[h.slot as int].generation == h.generation);
                    assert(false);
                }
                assert(m2.live(h));
                assert(m2.node_at(h) == x);
            }
        },
        None => {
        },
    }
}

// ---------------------------------------------------------------------------
// Removal cleans mirrors.
// ---------------------------------------------------------------------------

/// In a mirror-sound graph, no live node's mirror set references a handle
/// that does not resolve — in particular, after a commit that removed a
/// node, nothing references the removed handle.
pub proof fn lemma_removal_cleans_mirrors(m: ArenaModel, h: NodeIndex, j: int)
    requires
        mirrors_sound(m),
        m.get(h) is None,
        occupied(m, j),
    ensures
        !mirror_seq(node_at_slot(m, j)).contains(h),
{
    if mirror_seq(node_at_slot(m, j)).contains(h) {
        assert(sound_at(m, j));
        assert(points_at(m, h, j));
    }
}

} // verus!

