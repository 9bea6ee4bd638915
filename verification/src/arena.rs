use crate::index::NodeIndex;
use crate::node::{add_link_spec, remove_link_spec, LinkMirror, LinkMirrorEnum, Node, NodeM};
use vstd::prelude::*;

verus! {

// ---------------------------------------------------------------------------
// Storage and its mathematical model.
// ---------------------------------------------------------------------------

/// One arena slot: its current generation and, when occupied, its node.
pub struct Slot {
    pub generation: u64,
    pub node: Option<Node>,
}

/// Spec-level value of a slot.
pub struct SlotM {
    pub generation: u64,
    pub node: Option<NodeM>,
}

impl View for Slot {
    type V = SlotM;

    open spec fn view(&self) -> SlotM {
        SlotM {
            generation: self.generation,
            node: match self.node {
                Some(n) => Some(n@),
                None => None,
            },
        }
    }
}

/// Slot-based owner of all node storage. Free slots are kept on a stack and
/// reused; every reuse carries the generation the slot received when its
/// previous occupant was removed, so stale handles fail lookup.
pub struct Arena {
    pub slots: Vec<Slot>,
    pub free: Vec<usize>,
}

/// Spec-level value of an arena: the slot sequence and the free stack.
#[verifier::ext_equal]
pub struct ArenaModel {
    pub slots: Seq<SlotM>,
    pub free: Seq<usize>,
}

impl View for Arena {
    type V = ArenaModel;

    open spec fn view(&self) -> ArenaModel {
        ArenaModel { slots: self.slots@.map_values(|s: Slot| s@), free: self.free@ }
    }
}

impl ArenaModel {
    pub open spec fn empty() -> ArenaModel {
        ArenaModel { slots: Seq::empty(), free: Seq::empty() }
    }

    /// A handle resolves while its slot exists, holds a node, and the
    /// generations agree.
    pub open spec fn live(self, h: NodeIndex) -> bool {
        &&& (h.slot as int) < self.slots.len()
        &&& self.slots[h.slot as int].generation == h.generation
        &&& self.slots[h.slot as int].node is Some
    }

    /// The node a live handle resolves to.
    pub open spec fn node_at(self, h: NodeIndex) -> NodeM {
        self.slots[h.slot as int].node->0
    }

    /// The handle currently denoting slot `i`.
    pub open spec fn handle_of(self, i: int) -> NodeIndex {
        NodeIndex { slot: i as usize, generation: self.slots[i].generation }
    }

    /// Lookup: `None` for removed, stale and never-issued handles alike.
    pub open spec fn get(self, h: NodeIndex) -> Option<NodeM> {
        if self.live(h) {
            Some(self.node_at(h))
        } else {
            None
        }
    }

    /// Slot number `i` is on the free stack.
    pub open spec fn freed(self, i: int) -> bool {
        exists|k: int| 0 <= k < self.free.len() && (#[trigger] self.free[k] as int) == i
    }

    /// Well-formedness: the free stack lists exactly the vacant slots that
    /// are still reusable (generation below the ceiling), without
    /// duplicates, and every generation is at least 1.
    pub open spec fn wf(self) -> bool {
        &&& self.slots.len() <= (usize::MAX as int) + 1
        &&& (forall|k: int|
            0 <= k < self.free.len() ==> {
                &&& (#[trigger] self.free[k] as int) < self.slots.len()
                &&& self.slots[self.free[k] as int].node is None
                &&& self.slots[self.free[k] as int].generation < u64::MAX
            })
        &&& (forall|i: int|
            0 <= i < self.slots.len() && (#[trigger] self.slots[i].node) is None
                && self.slots[i].generation < u64::MAX ==> self.freed(i))
        &&& (forall|k1: int, k2: int|
            0 <= k1 < self.free.len() && 0 <= k2 < self.free.len() && k1 != k2 ==> #[trigger] self.free[k1]
                != #[trigger] self.free[k2])
        &&& (forall|i: int| 0 <= i < self.slots.len() ==> (#[trigger] self.slots[i].generation) >= 1)
    }

    /// The slot sequence with a live handle's node replaced; generation and
    /// free stack unchanged.
    pub open spec fn set_node(self, h: NodeIndex, n: NodeM) -> ArenaModel {
        ArenaModel {
            slots: self.slots.update(
                h.slot as int,
                SlotM { generation: self.slots[h.slot as int].generation, node: Some(n) },
            ),
            free: self.free,
        }
    }

    /// Whether a handle may be materialized: either a reusable vacant slot
    /// whose generation it carries, or the next fresh slot at generation 1.
    pub open spec fn new_ok(self, h: NodeIndex) -> bool {
        ||| {
            &&& (h.slot as int) < self.slots.len()
            &&& self.slots[h.slot as int].node is None
            &&& self.slots[h.slot as int].generation == h.generation
            &&& h.generation < u64::MAX
        }
        ||| {
            &&& h.slot == self.slots.len()
            &&& h.generation == 1
        }
    }

    /// The arena after a node is materialized at a handle for which
    /// `new_ok` holds.
    pub open spec fn insert_model(self, h: NodeIndex, n: NodeM) -> ArenaModel {
        if (h.slot as int) < self.slots.len() {
            ArenaModel {
                slots: self.slots.update(
                    h.slot as int,
                    SlotM { generation: h.generation, node: Some(n) },
                ),
                free: self.free.remove_value(h.slot),
            }
        } else {
            ArenaModel {
                slots: self.slots.push(SlotM { generation: h.generation, node: Some(n) }),
                free: self.free,
            }
        }
    }

    /// The arena after a live handle's slot is tombstoned: the generation is
    /// bumped and the slot returns to the free stack, unless the generation
    /// has reached the ceiling, in which case the slot is retired for good.
    pub open spec fn vacate_model(self, h: NodeIndex) -> ArenaModel {
        if h.generation + 1 < u64::MAX {
            ArenaModel {
                slots: self.slots.update(
                    h.slot as int,
                    SlotM { generation: (h.generation + 1) as u64, node: None },
                ),
                free: self.free.push(h.slot),
            }
        } else {
            ArenaModel {
                slots: self.slots.update(h.slot as int, SlotM { generation: u64::MAX, node: None }),
                free: self.free,
            }
        }
    }

    /// The arena after a handle is added to the mirror set of a target: a
    /// no-op when the target is not live or has no mirror set.
    pub open spec fn add_mirror_model(self, t: NodeIndex, h: NodeIndex) -> ArenaModel {
        if self.live(t) {
            self.set_node(t, add_link_spec(self.node_at(t), h))
        } else {
            self
        }
    }

    /// The arena after a handle is removed from the mirror set of a target:
    /// a no-op when the target is not live or has no mirror set.
    pub open spec fn remove_mirror_model(self, t: NodeIndex, h: NodeIndex) -> ArenaModel {
        if self.live(t) {
            self.set_node(t, remove_link_spec(self.node_at(t), h))
        } else {
            self
        }
    }

    /// The handle `insert` allocates next: the top of the free stack, else
    /// the next fresh slot.
    pub open spec fn alloc_handle(self) -> NodeIndex {
        if self.free.len() > 0 {
            NodeIndex {
                slot: self.free.last(),
                generation: self.slots[self.free.last() as int].generation,
            }
        } else {
            NodeIndex { slot: self.slots.len() as usize, generation: 1 }
        }
    }

    /// Iteration in slot order over the first `k` slots, skipping vacant
    /// ones.
    pub open spec fn iter_upto(self, k: int) -> Seq<(NodeIndex, NodeM)>
        decreases k,
    {
        if k <= 0 {
            Seq::empty()
        } else {
            let pre = self.iter_upto(k - 1);
            match self.slots[k - 1].node {
                Some(n) => pre.push((self.handle_of(k - 1), n)),
                None => pre,
            }
        }
    }

    /// Iteration in slot order, skipping vacant slots.
    pub open spec fn iter_seq(self) -> Seq<(NodeIndex, NodeM)> {
        self.iter_upto(self.slots.len() as int)
    }
}

/// The spec-level pairs carried by an executable iteration result.
pub open spec fn pairs_view(r: Seq<(NodeIndex, Node)>) -> Seq<(NodeIndex, NodeM)> {
    r.map_values(|p: (NodeIndex, Node)| (p.0, p.1@))
}

// ---------------------------------------------------------------------------
// Well-formedness preservation of the model transitions.
// ---------------------------------------------------------------------------

/// A slot stays on the free stack when the stack is unchanged.
proof fn lemma_freed_same(m: ArenaModel, m2: ArenaModel, i: int)
    requires
        m.freed(i),
        m2.free == m.free,
    ensures
        m2.freed(i),
{
    let k = choose|k: int| 0 <= k < m.free.len() && (#[trigger] m.free[k] as int) == i;
    assert(0 <= k < m2.free.len() && (m2.free[k] as int) == i);
}

/// Replacing a live node's value keeps the arena well-formed.
pub proof fn lemma_wf_set_node(m: ArenaModel, h: NodeIndex, n: NodeM)
    requires
        m.wf(),
        m.live(h),
    ensures
        m.set_node(h, n).wf(),
{
    let m2 = m.set_node(h, n);
    assert forall|i: int|
        0 <= i < m2.slots.len() && (#[trigger] m2.slots[i].node) is None && m2.slots[i].generation
            < u64::MAX implies m2.freed(i) by {
        assert(m.slots[i].node is None);
        assert(m.freed(i));
        lemma_freed_same(m, m2, i);
    }
}

/// Materializing a node at a handle for which `new_ok` holds keeps the
/// arena well-formed.
pub proof fn lemma_wf_insert(m: ArenaModel, h: NodeIndex, n: NodeM)
    requires
        m.wf(),
        m.new_ok(h),
    ensures
        m.insert_model(h, n).wf(),
{
    let m2 = m.insert_model(h, n);
    if (h.slot as int) < m.slots.len() {
        let f2 = m.free.remove_value(h.slot);
        m.free.index_of_first_ensures(h.slot);
        if m.free.contains(h.slot) {
            let idx = m.free.index_of_first(h.slot)->0;
            assert(f2 == m.free.remove(idx));
            assert(m.free[idx] == h.slot);
            m.free.remove_ensures(idx);
            assert forall|k: int| 0 <= k < f2.len() implies {
                &&& (#[trigger] f2[k] as int) < m2.slots.len()
                &&& m2.slots[f2[k] as int].node is None
                &&& m2.slots[f2[k] as int].generation < u64::MAX
            } by {
                if k < idx {
                    assert(f2[k] == m.free[k]);
                    assert(m.free[k] != m.free[idx]);
                } else {
                    assert(f2[k] == m.free[k + 1]);
                    assert(m.free[k + 1] != m.free[idx]);
                }
            }
            assert forall|i: int|
                0 <= i < m2.slots.len() && (#[trigger] m2.slots[i].node) is None
                    && m2.slots[i].generation < u64::MAX implies m2.freed(i) by {
                assert(i != h.slot as int);
                assert(m.slots[i].node is None);
                assert(m.freed(i));
                let k = choose|k: int| 0 <= k < m.free.len() && (#[trigger] m.free[k] as int) == i;
                assert(k != idx);
                if k < idx {
                    assert(f2[k] == m.free[k]);
                    assert(0 <= k < m2.free.len() && (m2.free[k] as int) == i);
                } else {
                    assert(f2[k - 1] == m.free[k]);
                    assert(0 <= k - 1 < m2.free.len() && (m2.free[k - 1] as int) == i);
                }
            }
            assert forall|k1: int, k2: int|
                0 <= k1 < f2.len() && 0 <= k2 < f2.len() && k1 != k2 implies #[trigger] f2[k1]
                != #[trigger] f2[k2] by {
                let j1 = if k1 < idx { k1 } else { k1 + 1 };
                let j2 = if k2 < idx { k2 } else { k2 + 1 };
                assert(f2[k1] == m.free[j1]);
                assert(f2[k2] == m.free[j2]);
            }
        } else {
            assert(f2 == m.free);
            assert forall|i: int|
                0 <= i < m2.slots.len() && (#[trigger] m2.slots[i].node) is None
                    && m2.slots[i].generation < u64::MAX implies m2.freed(i) by {
                assert(i != h.slot as int);
                assert(m.slots[i].node is None);
                assert(m.freed(i));
                lemma_freed_same(m, m2, i);
            }
        }
    } else {
        assert forall|i: int|
            0 <= i < m2.slots.len() && (#[trigger] m2.slots[i].node) is None
                && m2.slots[i].generation < u64::MAX implies m2.freed(i) by {
            assert(i < m.slots.len());
            assert(m.slots[i].node is None);
            assert(m.freed(i));
            lemma_freed_same(m, m2, i);
        }
        assert forall|k: int| 0 <= k < m2.free.len() implies (#[trigger] m2.free[k] as int)
            < m2.slots.len() by {
            assert((m.free[k] as int) < m.slots.len());
        }
    }
}

/// Tombstoning a live slot keeps the arena well-formed.
pub proof fn lemma_wf_vacate(m: ArenaModel, h: NodeIndex)
    requires
        m.wf(),
        m.live(h),
    ensures
        m.vacate_model(h).wf(),
{
    let m2 = m.vacate_model(h);
    assert forall|k: int|
        0 <= k < m.free.len() implies m.free[k] != h.slot by {
        assert(m.slots[m.free[k] as int].node is None);
        assert(m.slots[h.slot as int].node is Some);
    }
    if h.generation + 1 < u64::MAX {
        let f2 = m.free.push(h.slot);
        assert forall|i: int|
            0 <= i < m2.slots.len() && (#[trigger] m2.slots[i].node) is None
                && m2.slots[i].generation < u64::MAX implies m2.freed(i) by {
            if i == h.slot as int {
                assert(f2[f2.len() - 1] == h.slot);
                assert((m2.free[f2.len() - 1] as int) == i);
            } else {
                assert(m.slots[i].node is None);
                assert(m.freed(i));
                let k = choose|k: int| 0 <= k < m.free.len() && (#[trigger] m.free[k] as int) == i;
                assert(f2[k] == m.free[k]);
                assert(0 <= k < m2.free.len() && (m2.free[k] as int) == i);
            }
        }
        assert forall|k: int| 0 <= k < f2.len() implies {
            &&& (#[trigger] f2[k] as int) < m2.slots.len()
            &&& m2.slots[f2[k] as int].node is None
            &&& m2.slots[f2[k] as int].generation < u64::MAX
        } by {
            if k < m.free.len() {
                assert(f2[k] == m.free[k]);
            } else {
                assert(f2[k] == h.slot);
            }
        }
    } else {
        assert forall|i: int|
            0 <= i < m2.slots.len() && (#[trigger] m2.slots[i].node) is None
                && m2.slots[i].generation < u64::MAX implies m2.freed(i) by {
            assert(m.slots[i].node is None);
            assert(m.freed(i));
            lemma_freed_same(m, m2, i);
        }
    }
}

/// Mirror-set edits keep the arena well-formed.
pub proof fn lemma_wf_mirror(m: ArenaModel, t: NodeIndex, h: NodeIndex)
    requires
        m.wf(),
    ensures
        m.add_mirror_model(t, h).wf(),
        m.remove_mirror_model(t, h).wf(),
{
    if m.live(t) {
        lemma_wf_set_node(m, t, add_link_spec(m.node_at(t), h));
        lemma_wf_set_node(m, t, remove_link_spec(m.node_at(t), h));
    }
}

// ---------------------------------------------------------------------------
// Executable arena.
// ---------------------------------------------------------------------------

impl Arena {
    /// An empty arena.
    pub fn new() -> (r: Arena)
        ensures
            r@ == ArenaModel::empty(),
            r@.wf(),
    {
        let r = Arena { slots: Vec::new(), free: Vec::new() };
        proof {
            assert(r@ =~= ArenaModel::empty());
        }
        r
    }

    /// Resolves a handle; `None` uniformly for removed, stale and
    /// never-issued handles.
    pub fn get(&self, h: NodeIndex) -> (r: Option<&Node>)
        ensures
            match r {
                Some(n) => self@.get(h) == Some(n@),
                None => self@.get(h) is None,
            },
    {
        if h.slot < self.slots.len() {
            let s = &self.slots[h.slot];
            if s.generation == h.generation {
                s.node.as_ref()
            } else {
                None
            }
        } else {
            None
        }
    }

    /// Allocates a slot (reusing the most recently freed one, at its stored
    /// generation) and stores the value there.
    pub fn insert(&mut self, v: Node) -> (h: NodeIndex)
        requires
            old(self)@.wf(),
        ensures
            h == old(self)@.alloc_handle(),
            old(self)@.new_ok(h),
            final(self)@ == old(self)@.insert_model(h, v@),
            final(self)@.wf(),
    {
        let ghost m = self@;
        let h = if self.free.len() > 0 {
            let s = self.free[self.free.len() - 1];
            NodeIndex { slot: s, generation: self.slots[s].generation }
        } else {
            NodeIndex { slot: self.slots.len(), generation: 1 }
        };
        let ok = self.insert_at(h, v);
        proof {
            assert(ok);
            lemma_wf_insert(m, h, v@);
        }
        h
    }

    /// Drops the first occurrence of a slot number from the free stack.
    fn remove_free(&mut self, s: usize)
        ensures
            final(self).free@ == old(self).free@.remove_value(s),
            final(self).slots == old(self).slots,
    {
        let ghost f = self.free@;
        let mut k: usize = 0;
        while k < self.free.len()
            invariant
                k <= self.free.len(),
                self.free@ == f,
                f == old(self).free@,
                self.slots == old(self).slots,
                forall|j: int| 0 <= j < k ==> f[j] != s,
            decreases self.free.len() - k,
        {
            if self.free[k] == s {
                proof {
                    assert(f[k as int] == s);
                    assert(f.contains(s));
                    f.index_of_first_ensures(s);
                    assert(f.index_of_first(s) is Some);
                    let idx = f.index_of_first(s)->0;
                    if idx < k as int {
                        assert(f[idx] == s);
                        assert(false);
                    }
                    if idx > k as int {
                        assert(f[k as int] != s);
                        assert(false);
                    }
                    assert(idx == k as int);
                    assert(f.remove_value(s) == f.remove(k as int));
                }
                self.free.remove(k);
                return ;
            }
            k += 1;
        }
        proof {
            assert(!f.contains(s));
            f.index_of_first_ensures(s);
        }
    }

    /// Materializes a value at a caller-chosen handle. Succeeds exactly when
    /// the handle denotes a reusable vacant slot at its stored generation,
    /// or the next fresh slot at generation 1; otherwise the arena is
    /// unchanged.
    pub fn insert_at(&mut self, h: NodeIndex, v: Node) -> (ok: bool)
        requires
            old(self)@.wf(),
        ensures
            ok == old(self)@.new_ok(h),
            ok ==> final(self)@ == old(self)@.insert_model(h, v@),
            !ok ==> final(self)@ == old(self)@,
    {
        let ghost m = self@;
        if h.slot < self.slots.len() {
            let fits = self.slots[h.slot].node.is_none() && self.slots[h.slot].generation
                == h.generation && h.generation < u64::MAX;
            if !fits {
                return false;
            }
            self.remove_free(h.slot);
            self.slots[h.slot] = Slot { generation: h.generation, node: Some(v) };
            proof {
                assert(self@.slots =~= m.insert_model(h, v@).slots);
                assert(self@ =~= m.insert_model(h, v@));
            }
            true
        } else if h.slot == self.slots.len() && h.generation == 1 {
            self.slots.push(Slot { generation: 1, node: Some(v) });
            proof {
                assert(self@.slots =~= m.insert_model(h, v@).slots);
                assert(self@ =~= m.insert_model(h, v@));
            }
            true
        } else {
            false
        }
    }

    /// Replaces the value behind a live handle; reports whether the handle
    /// was live (the arena is unchanged otherwise).
    pub fn set(&mut self, h: NodeIndex, v: Node) -> (ok: bool)
        ensures
            ok == old(self)@.live(h),
            ok ==> final(self)@ == old(self)@.set_node(h, v@),
            !ok ==> final(self)@ == old(self)@,
    {
        let ghost m = self@;
        if h.slot < self.slots.len() {
            if self.slots[h.slot].generation == h.generation && self.slots[h.slot].node.is_some() {
                let g = self.slots[h.slot].generation;
                self.slots[h.slot] = Slot { generation: g, node: Some(v) };
                proof {
                    assert(self@.slots =~= m.set_node(h, v@).slots);
                    assert(self@ =~= m.set_node(h, v@));
                }
                return true;
            }
            false
        } else {
            false
        }
    }

    /// Removes and returns the node behind a live handle, tombstoning its
    /// slot: the generation is bumped so the handle (and every copy of it)
    /// never resolves again, and the slot is queued for reuse.
    pub fn remove(&mut self, h: NodeIndex) -> (r: Option<Node>)
        ensures
            match r {
                Some(n) => {
                    &&& old(self)@.live(h)
                    &&& n@ == old(self)@.node_at(h)
                    &&& final(self)@ == old(self)@.vacate_model(h)
                },
                None => {
                    &&& !old(self)@.live(h)
                    &&& final(self)@ == old(self)@
                },
            },
    {
        let ghost m = self@;
        if h.slot < self.slots.len() {
            if self.slots[h.slot].generation == h.generation && self.slots[h.slot].node.is_some() {
                let slot = &mut self.slots[h.slot];
                let taken = slot.node.take();
                if h.generation < u64::MAX - 1 {
                    slot.generation = h.generation + 1;
                    self.free.push(h.slot);
                    proof {
                        assert(self@.slots =~= m.vacate_model(h).slots);
                        assert(self@ =~= m.vacate_model(h));
                    }
                } else {
                    slot.generation = u64::MAX;
                    proof {
                        assert(self@.slots =~= m.vacate_model(h).slots);
                        assert(self@ =~= m.vacate_model(h));
                    }
                }
                taken
            } else {
                None
            }
        } else {
            None
        }
    }

    /// Adds a handle to the mirror set of a live, mirror-capable target; a
    /// no-op otherwise.
    pub fn add_mirror(&mut self, t: NodeIndex, h: NodeIndex)
        ensures
            final(self)@ == old(self)@.add_mirror_model(t, h),
    {
        let ghost m = self@;
        if t.slot < self.slots.len() {
            let slot = &mut self.slots[t.slot];
            if slot.generation == t.generation {
                match &mut slot.node {
                    Some(n) => {
                        let _ = n.add_link(LinkMirrorEnum::Link(LinkMirror::Back), h);
                    },
                    None => {},
                }
            }
        }
        proof {
            if m.live(t) {
                assert(self@.slots =~= m.add_mirror_model(t, h).slots);
            }
            assert(self@ =~= m.add_mirror_model(t, h));
        }
    }

    /// Removes a handle from the mirror set of a live, mirror-capable
    /// target; a no-op otherwise.
    pub fn remove_mirror(&mut self, t: NodeIndex, h: NodeIndex)
        ensures
            final(self)@ == old(self)@.remove_mirror_model(t, h),
    {
        let ghost m = self@;
        if t.slot < self.slots.len() {
            let slot = &mut self.slots[t.slot];
            if slot.generation == t.generation {
                match &mut slot.node {
                    Some(n) => {
                        let _ = n.remove_link(LinkMirrorEnum::Link(LinkMirror::Back), h);
                    },
                    None => {},
                }
            }
        }
        proof {
            if m.live(t) {
                assert(self@.slots =~= m.remove_mirror_model(t, h).slots);
            }
            assert(self@ =~= m.remove_mirror_model(t, h));
        }
    }

    /// Iterates the occupied slots in slot order, as (handle, node-copy)
    /// pairs.
    pub fn iter(&self) -> (r: Vec<(NodeIndex, Node)>)
        ensures
            pairs_view(r@) == self@.iter_seq(),
    {
        let mut r: Vec<(NodeIndex, Node)> = Vec::new();
        let mut i: usize = 0;
        while i < self.slots.len()
            invariant
                i <= self.slots.len(),
                pairs_view(r@) == self@.iter_upto(i as int),
            decreases self.slots.len() - i,
        {
            let ghost pre = pairs_view(r@);
            match &self.slots[i].node {
                Some(n) => {
                    let h = NodeIndex { slot: i, generation: self.slots[i].generation };
                    r.push((h, n.clone()));
                    proof {
                        assert(pairs_view(r@) =~= pre.push((self@.handle_of(i as int), n@)));
                    }
                },
                None => {},
            }
            i += 1;
        }
        r
    }
}

} // verus!
