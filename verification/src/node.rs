use crate::index::NodeIndex;
use vstd::prelude::*;
use vstd::seq_lib::*;

verus! {

// ---------------------------------------------------------------------------
// The closed set of node types.
// ---------------------------------------------------------------------------

/// Plain data node: one integer field, no links.
#[derive(Clone, Copy, PartialEq, Eq, Debug)]
pub struct NodeA {
    pub a: u64,
}

/// Plain data node: one integer field, no links.
#[derive(Clone, Copy, PartialEq, Eq, Debug)]
pub struct NodeB {
    pub b: u64,
}

/// Node type with link topology: one outgoing link field `to` (the sentinel
/// `NodeIndex::empty()` means "no link") and one mirror set `backs`, holding
/// the handles of every `NodeLink` whose `to` points here.
#[derive(PartialEq, Eq, Debug)]
pub struct NodeLink {
    pub to: NodeIndex,
    pub backs: Vec<NodeIndex>,
}

/// The closed tagged union over all node types of the graph.
#[derive(PartialEq, Eq, Debug)]
pub enum Node {
    A(NodeA),
    B(NodeB),
    Link(NodeLink),
}

/// `NodeLink`'s outgoing link kinds: one, the `to` field.
#[derive(Clone, Copy, PartialEq, Eq, PartialOrd, Ord, Hash, Debug, Structural)]
pub enum LinkSource {
    To,
}

/// `NodeLink`'s inverse link kinds: one, the `backs` mirror set.
#[derive(Clone, Copy, PartialEq, Eq, PartialOrd, Ord, Hash, Debug, Structural)]
pub enum LinkMirror {
    Back,
}

/// Tagged union of every node type's outgoing link kinds.
#[derive(Clone, Copy, PartialEq, Eq, PartialOrd, Ord, Hash, Debug, Structural)]
pub enum SourceEnum {
    Link(LinkSource),
}

/// Tagged union of every node type's inverse link kinds.
#[derive(Clone, Copy, PartialEq, Eq, PartialOrd, Ord, Hash, Debug, Structural)]
pub enum LinkMirrorEnum {
    Link(LinkMirror),
}

/// Type tag of each node variant.
#[derive(Clone, Copy, PartialEq, Eq, PartialOrd, Ord, Hash, Debug, Structural)]
pub enum NodeTypeMirror {
    A,
    B,
    Link,
}

/// Names of the reflectable data fields across all node types.
#[derive(Clone, Copy, PartialEq, Eq, Debug, Structural)]
pub enum FieldName {
    A,
    B,
}

/// What mirror edges a single link-field change at one node must trigger at
/// the other endpoint: the mirror kinds affected, a handle to add to them and
/// a handle to remove (each `NodeIndex::empty()` when nothing is to be done).
pub struct BidirectionalSideEffect {
    pub mirror_kinds: Vec<LinkMirrorEnum>,
    pub add: NodeIndex,
    pub remove: NodeIndex,
}

// ---------------------------------------------------------------------------
// Mathematical model of a node.
// ---------------------------------------------------------------------------

/// Spec-level value of a node: the same closed union, with the mirror set as
/// a sequence.
pub enum NodeM {
    A { a: u64 },
    B { b: u64 },
    Link { to: NodeIndex, backs: Seq<NodeIndex> },
}

impl View for NodeA {
    type V = NodeM;

    open spec fn view(&self) -> NodeM {
        NodeM::A { a: self.a }
    }
}

impl View for NodeB {
    type V = NodeM;

    open spec fn view(&self) -> NodeM {
        NodeM::B { b: self.b }
    }
}

impl View for NodeLink {
    type V = NodeM;

    open spec fn view(&self) -> NodeM {
        NodeM::Link { to: self.to, backs: self.backs@ }
    }
}

impl View for Node {
    type V = NodeM;

    open spec fn view(&self) -> NodeM {
        match self {
            Node::A(x) => x@,
            Node::B(x) => x@,
            Node::Link(x) => x@,
        }
    }
}

/// The target of a node's outgoing link, if it has one that is not the
/// sentinel.
pub open spec fn link_target(n: NodeM) -> Option<NodeIndex> {
    match n {
        NodeM::Link { to, .. } => if to == NodeIndex::empty_spec() {
            None
        } else {
            Some(to)
        },
        _ => None,
    }
}

/// Every outgoing link the node currently holds, paired with its kind.
pub open spec fn src_seq(n: NodeM) -> Seq<(NodeIndex, SourceEnum)> {
    match link_target(n) {
        Some(t) => seq![(t, SourceEnum::Link(LinkSource::To))],
        None => Seq::empty(),
    }
}

/// The node's mirror set (inverse links of the one mirror kind).
pub open spec fn mirror_seq(n: NodeM) -> Seq<NodeIndex> {
    match n {
        NodeM::Link { backs, .. } => backs,
        _ => Seq::empty(),
    }
}

pub open spec fn is_link(n: NodeM) -> bool {
    n is Link
}

/// A mirror set after an idempotent add: unchanged when the handle is
/// already present.
pub open spec fn backs_add(s: Seq<NodeIndex>, t: NodeIndex) -> Seq<NodeIndex> {
    if s.contains(t) {
        s
    } else {
        s.push(t)
    }
}

/// A mirror set after an idempotent remove: every occurrence of the handle
/// is dropped, order of the rest kept.
pub open spec fn backs_remove(s: Seq<NodeIndex>, t: NodeIndex) -> Seq<NodeIndex> {
    s.filter(|x: NodeIndex| x != t)
}

/// A node value after adding a handle to its mirror set; nodes without a
/// mirror set are unchanged.
pub open spec fn add_link_spec(n: NodeM, t: NodeIndex) -> NodeM {
    match n {
        NodeM::Link { to, backs } => NodeM::Link { to, backs: backs_add(backs, t) },
        _ => n,
    }
}

/// A node value after removing a handle from its mirror set.
pub open spec fn remove_link_spec(n: NodeM, t: NodeIndex) -> NodeM {
    match n {
        NodeM::Link { to, backs } => NodeM::Link { to, backs: backs_remove(backs, t) },
        _ => n,
    }
}

/// Reflection: the value of the named data field, `None` when the active
/// variant has no field of that name.
pub open spec fn data_spec(n: NodeM, name: FieldName) -> Option<u64> {
    match (n, name) {
        (NodeM::A { a }, FieldName::A) => Some(a),
        (NodeM::B { b }, FieldName::B) => Some(b),
        _ => None,
    }
}

/// Membership in a sequence after a push: the pushed handle and everything
/// that was there before.
pub proof fn lemma_push_contains(s: Seq<NodeIndex>, y: NodeIndex, x: NodeIndex)
    ensures
        s.push(y).contains(x) <==> (s.contains(x) || x == y),
{
    if s.push(y).contains(x) {
        let i = choose|i: int| 0 <= i < s.push(y).len() && s.push(y)[i] == x;
        if i < s.len() {
            assert(s[i] == x);
        }
    }
    if s.contains(x) {
        let i = choose|i: int| 0 <= i < s.len() && s[i] == x;
        assert(s.push(y)[i] == x);
    }
    assert(s.push(y)[s.len() as int] == y);
}

/// Membership in a mirror set after an add: the added handle and everything
/// that was there before.
pub proof fn lemma_backs_add_contains(s: Seq<NodeIndex>, t: NodeIndex, x: NodeIndex)
    ensures
        backs_add(s, t).contains(x) <==> (s.contains(x) || x == t),
{
    if !s.contains(t) {
        lemma_push_contains(s, t, x);
    }
}

/// Membership in a mirror set after a remove: everything that was there
/// before, except the removed handle.
pub proof fn lemma_backs_remove_contains(s: Seq<NodeIndex>, t: NodeIndex, x: NodeIndex)
    ensures
        backs_remove(s, t).contains(x) <==> (s.contains(x) && x != t),
    decreases s.len(),
{
    if s.len() == 0 {
        reveal_with_fuel(Seq::<NodeIndex>::filter, 1);
    } else {
        let pre = s.drop_last();
        let last = s.last();
        lemma_backs_remove_contains(pre, t, x);
        lemma_backs_remove_push(pre, last, t);
        assert(pre.push(last) =~= s);
        lemma_push_contains(pre, last, x);
        if last != t {
            lemma_push_contains(backs_remove(pre, t), last, x);
        }
    }
}

/// Appending one handle to a mirror set commutes with removal.
pub proof fn lemma_backs_remove_push(s: Seq<NodeIndex>, x: NodeIndex, t: NodeIndex)
    ensures
        x != t ==> backs_remove(s.push(x), t) == backs_remove(s, t).push(x),
        x == t ==> backs_remove(s.push(x), t) == backs_remove(s, t),
{
    reveal_with_fuel(Seq::<NodeIndex>::filter, 2);
    assert(s.push(x).drop_last() =~= s);
    assert(s.push(x).last() == x);
}

/// Removing a handle that is absent leaves the mirror set unchanged.
pub proof fn lemma_backs_remove_absent(s: Seq<NodeIndex>, t: NodeIndex)
    requires
        !s.contains(t),
    ensures
        backs_remove(s, t) == s,
    decreases s.len(),
{
    if s.len() == 0 {
        reveal_with_fuel(Seq::<NodeIndex>::filter, 1);
        assert(backs_remove(s, t) == s);
    } else {
        let pre = s.drop_last();
        assert forall|i: int| 0 <= i < pre.len() implies pre[i] != t by {
            assert(s[i] == pre[i]);
            assert(!s.contains(t));
        }
        assert(!pre.contains(t));
        lemma_backs_remove_absent(pre, t);
        assert(s[s.len() - 1] != t) by {
            assert(!s.contains(t));
        }
        lemma_backs_remove_push(pre, s.last(), t);
        assert(pre.push(s.last()) =~= s);
    }
}

// ---------------------------------------------------------------------------
// TypedNode capability of NodeLink.
// ---------------------------------------------------------------------------

impl LinkSource {
    /// The static bijection from an outgoing link kind to its inverse kind.
    pub fn to_link_mirror(self) -> (r: LinkMirror)
        ensures
            r == LinkMirror::Back,
    {
        LinkMirror::Back
    }
}

impl LinkMirror {
    /// The static bijection from an inverse link kind back to its outgoing
    /// kind.
    pub fn to_source(self) -> (r: LinkSource)
        ensures
            r == LinkSource::To,
    {
        LinkSource::To
    }
}

impl NodeLink {
    /// True when the handle is a member of the mirror set.
    pub fn contains_back(&self, t: NodeIndex) -> (r: bool)
        ensures
            r == self.backs@.contains(t),
    {
        let mut i: usize = 0;
        while i < self.backs.len()
            invariant
                i <= self.backs.len(),
                forall|k: int| 0 <= k < i ==> self.backs@[k] != t,
            decreases self.backs.len() - i,
        {
            if self.backs[i] == t {
                return true;
            }
            i += 1;
        }
        false
    }

    /// Every outgoing link this node holds, paired with its kind.
    pub fn iter_source(&self) -> (r: Vec<(NodeIndex, LinkSource)>)
        ensures
            self.to != NodeIndex::empty_spec() ==> r@ == seq![(self.to, LinkSource::To)],
            self.to == NodeIndex::empty_spec() ==> r@ == Seq::<(NodeIndex, LinkSource)>::empty(),
    {
        let mut r: Vec<(NodeIndex, LinkSource)> = Vec::new();
        if !self.to.is_empty() {
            r.push((self.to, LinkSource::To));
        }
        r
    }

    /// The current members of the mirror set of the given kind.
    pub fn iter_link(&self, _l: LinkMirror) -> (r: Vec<NodeIndex>)
        ensures
            r@ == self.backs@,
    {
        let mut r: Vec<NodeIndex> = Vec::new();
        let mut i: usize = 0;
        while i < self.backs.len()
            invariant
                i <= self.backs.len(),
                r@ == self.backs@.subrange(0, i as int),
            decreases self.backs.len() - i,
        {
            r.push(self.backs[i]);
            i += 1;
            proof {
                assert(r@ =~= self.backs@.subrange(0, i as int));
            }
        }
        proof {
            assert(r@ =~= self.backs@);
        }
        r
    }

    /// Adds a handle to the mirror set; reports whether the set changed
    /// (false on the idempotent no-op).
    pub fn add_link(&mut self, _l: LinkMirror, t: NodeIndex) -> (changed: bool)
        ensures
            final(self).to == old(self).to,
            final(self).backs@ == backs_add(old(self).backs@, t),
            changed == !old(self).backs@.contains(t),
    {
        if self.contains_back(t) {
            false
        } else {
            self.backs.push(t);
            true
        }
    }

    /// Removes a handle from the mirror set; reports whether the set changed
    /// (false when the handle was absent).
    pub fn remove_link(&mut self, _l: LinkMirror, t: NodeIndex) -> (changed: bool)
        ensures
            final(self).to == old(self).to,
            final(self).backs@ == backs_remove(old(self).backs@, t),
            changed == old(self).backs@.contains(t),
    {
        let mut out: Vec<NodeIndex> = Vec::new();
        let mut i: usize = 0;
        let mut found = false;
        while i < self.backs.len()
            invariant
                i <= self.backs.len(),
                out@ == backs_remove(self.backs@.subrange(0, i as int), t),
                found == self.backs@.subrange(0, i as int).contains(t),
            decreases self.backs.len() - i,
        {
            let x = self.backs[i];
            proof {
                let pre = self.backs@.subrange(0, i as int);
                assert(self.backs@.subrange(0, i + 1 as int) =~= pre.push(x));
                lemma_backs_remove_push(pre, x, t);
                if x == t {
                    assert(pre.push(x)[i as int] == t);
                } else if pre.push(x).contains(t) {
                    let k = choose|k: int| 0 <= k < pre.push(x).len() && pre.push(x)[k] == t;
                    assert(pre[k] == t);
                }
            }
            if x == t {
                found = true;
            } else {
                out.push(x);
            }
            i += 1;
        }
        proof {
            assert(self.backs@.subrange(0, self.backs@.len() as int) =~= self.backs@);
        }
        self.backs = out;
        found
    }

    /// Updates the outgoing link field of the given kind from `old_idx` to
    /// `new_idx`. Reports `(removed, added)`: `removed` is true iff
    /// `old_idx` was actually the previous target (and not the sentinel),
    /// `added` is true iff `new_idx` is not the sentinel.
    pub fn modify_link(&mut self, _s: LinkSource, old_idx: NodeIndex, new_idx: NodeIndex) -> (r: (
        bool,
        bool,
    ))
        ensures
            final(self).to == new_idx,
            final(self).backs@ == old(self).backs@,
            r.0 == (old(self).to == old_idx && old_idx != NodeIndex::empty_spec()),
            r.1 == (new_idx != NodeIndex::empty_spec()),
    {
        let removed = self.to == old_idx && !old_idx.is_empty();
        let added = !new_idx.is_empty();
        self.to = new_idx;
        (removed, added)
    }

    /// Reflection: `NodeLink` has no data field of any reflectable name.
    pub fn data_by_name(&self, _name: FieldName) -> (r: Option<u64>)
        ensures
            r is None,
    {
        None
    }
}

// ---------------------------------------------------------------------------
// NodeEnum capability: single-level dispatch over the active variant.
// ---------------------------------------------------------------------------

impl Node {
    /// Whole-graph bijection: outgoing link kind to inverse link kind.
    pub fn to_link_mirror_enum(input: SourceEnum) -> (r: LinkMirrorEnum)
        ensures
            r == to_mirror_spec(input),
    {
        match input {
            SourceEnum::Link(s) => LinkMirrorEnum::Link(s.to_link_mirror()),
        }
    }

    /// Whole-graph bijection: inverse link kind to outgoing link kind.
    pub fn to_source_enum(input: LinkMirrorEnum) -> (r: SourceEnum)
        ensures
            r == to_source_spec(input),
    {
        match input {
            LinkMirrorEnum::Link(l) => SourceEnum::Link(l.to_source()),
        }
    }

    /// Every outgoing link the active variant holds, paired with its kind.
    pub fn iter_source(&self) -> (r: Vec<(NodeIndex, SourceEnum)>)
        ensures
            r@ == src_seq(self@),
    {
        match self {
            Node::A(_) => Vec::new(),
            Node::B(_) => Vec::new(),
            Node::Link(x) => {
                let typed = x.iter_source();
                let mut r: Vec<(NodeIndex, SourceEnum)> = Vec::new();
                if typed.len() > 0 {
                    let (idx, s) = typed[0];
                    r.push((idx, SourceEnum::Link(s)));
                }
                proof {
                    assert(r@ =~= src_seq(self@));
                }
                r
            },
        }
    }

    /// The current members of one mirror set. Calling this with a mirror
    /// kind that does not belong to the active variant is a caller defect,
    /// excluded by precondition.
    pub fn iter_link(&self, l: LinkMirrorEnum) -> (r: Vec<NodeIndex>)
        requires
            self@ is Link,
        ensures
            r@ == mirror_seq(self@),
    {
        match self {
            Node::Link(x) => {
                let LinkMirrorEnum::Link(m) = l;
                x.iter_link(m)
            },
            _ => {
                proof {
                    assert(false);
                }
                Vec::new()
            },
        }
    }

    /// True when the supplied mirror kind is compatible with the active
    /// variant.
    pub fn check_link(&self, _l: LinkMirrorEnum) -> (r: bool)
        ensures
            r == (self@ is Link),
    {
        match self {
            Node::Link(_) => true,
            _ => false,
        }
    }

    /// Adds a handle to the active variant's mirror set of the given kind;
    /// false (and no change) when the kind does not belong to the variant or
    /// the handle is already present.
    pub fn add_link(&mut self, l: LinkMirrorEnum, t: NodeIndex) -> (changed: bool)
        ensures
            final(self)@ == add_link_spec(old(self)@, t),
            changed == (old(self)@ is Link && !mirror_seq(old(self)@).contains(t)),
    {
        match self {
            Node::Link(x) => {
                let LinkMirrorEnum::Link(m) = l;
                x.add_link(m, t)
            },
            _ => false,
        }
    }

    /// Removes a handle from the active variant's mirror set of the given
    /// kind; false (and no change) when the kind does not belong to the
    /// variant or the handle is absent.
    pub fn remove_link(&mut self, l: LinkMirrorEnum, t: NodeIndex) -> (changed: bool)
        ensures
            final(self)@ == remove_link_spec(old(self)@, t),
            changed == (old(self)@ is Link && mirror_seq(old(self)@).contains(t)),
    {
        match self {
            Node::Link(x) => {
                let LinkMirrorEnum::Link(m) = l;
                x.remove_link(m, t)
            },
            _ => false,
        }
    }

    /// Dispatches `modify_link` to the active variant and packages the
    /// mirror edges the caller must propagate at the other endpoint. Calling
    /// it on a variant without the source's kind is a caller defect,
    /// excluded by precondition.
    pub fn modify_link(&mut self, source: SourceEnum, old_idx: NodeIndex, new_idx: NodeIndex) -> (e:
        BidirectionalSideEffect)
        requires
            old(self)@ is Link,
        ensures
            final(self)@ == retargeted(old(self)@, new_idx),
            e.mirror_kinds@ == seq![LinkMirrorEnum::Link(LinkMirror::Back)],
            e.add == modify_add_spec(new_idx),
            e.remove == modify_remove_spec(old(self)@, old_idx),
    {
        match self {
            Node::Link(x) => {
                let SourceEnum::Link(s) = source;
                let (removed, added) = x.modify_link(s, old_idx, new_idx);
                let mut kinds: Vec<LinkMirrorEnum> = Vec::new();
                kinds.push(LinkMirrorEnum::Link(s.to_link_mirror()));
                proof {
                    assert(kinds@ =~= seq![LinkMirrorEnum::Link(LinkMirror::Back)]);
                }
                BidirectionalSideEffect {
                    mirror_kinds: kinds,
                    add: if added {
                        new_idx
                    } else {
                        NodeIndex::empty()
                    },
                    remove: if removed {
                        old_idx
                    } else {
                        NodeIndex::empty()
                    },
                }
            },
            _ => {
                proof {
                    assert(false);
                }
                BidirectionalSideEffect {
                    mirror_kinds: Vec::new(),
                    add: NodeIndex::empty(),
                    remove: NodeIndex::empty(),
                }
            },
        }
    }

    /// Reflection: the value of the named data field of the active variant,
    /// `None` uniformly when the variant has no field of that name.
    pub fn data_by_name(&self, name: FieldName) -> (r: Option<u64>)
        ensures
            r == data_spec(self@, name),
    {
        match self {
            Node::A(x) => match name {
                FieldName::A => Some(x.a),
                _ => None,
            },
            Node::B(x) => match name {
                FieldName::B => Some(x.b),
                _ => None,
            },
            Node::Link(x) => x.data_by_name(name),
        }
    }

    /// The type tag of the active variant.
    pub fn node_type(&self) -> (r: NodeTypeMirror)
        ensures
            r == node_type_spec(self@),
    {
        match self {
            Node::A(_) => NodeTypeMirror::A,
            Node::B(_) => NodeTypeMirror::B,
            Node::Link(_) => NodeTypeMirror::Link,
        }
    }

    /// The target of the outgoing link, if the active variant holds one that
    /// is not the sentinel.
    pub fn target(&self) -> (r: Option<NodeIndex>)
        ensures
            r == link_target(self@),
    {
        match self {
            Node::Link(x) => if x.to.is_empty() {
                None
            } else {
                Some(x.to)
            },
            _ => None,
        }
    }

    /// Downcast to the `A` variant.
    pub fn as_a(&self) -> (r: Option<&NodeA>)
        ensures
            match r {
                Some(x) => self@ == x@ && self@ is A,
                None => !(self@ is A),
            },
    {
        match self {
            Node::A(x) => Some(x),
            _ => None,
        }
    }

    /// Downcast to the `B` variant.
    pub fn as_b(&self) -> (r: Option<&NodeB>)
        ensures
            match r {
                Some(x) => self@ == x@ && self@ is B,
                None => !(self@ is B),
            },
    {
        match self {
            Node::B(x) => Some(x),
            _ => None,
        }
    }

    /// Downcast to the `Link` variant.
    pub fn as_link(&self) -> (r: Option<&NodeLink>)
        ensures
            match r {
                Some(x) => self@ == x@ && self@ is Link,
                None => !(self@ is Link),
            },
    {
        match self {
            Node::Link(x) => Some(x),
            _ => None,
        }
    }
}

/// A link node's value after its outgoing link field is redirected.
pub open spec fn retargeted(n: NodeM, new_idx: NodeIndex) -> NodeM {
    NodeM::Link { to: new_idx, backs: mirror_seq(n) }
}

/// The handle a `modify_link` side effect asks to add at the other endpoint.
pub open spec fn modify_add_spec(new_idx: NodeIndex) -> NodeIndex {
    if new_idx != NodeIndex::empty_spec() {
        new_idx
    } else {
        NodeIndex::empty_spec()
    }
}

/// The handle a `modify_link` side effect asks to remove at the other
/// endpoint: the old target, when it really was the previous value.
pub open spec fn modify_remove_spec(n: NodeM, old_idx: NodeIndex) -> NodeIndex {
    if link_target(n) == Some(old_idx) {
        old_idx
    } else {
        NodeIndex::empty_spec()
    }
}

pub open spec fn to_mirror_spec(s: SourceEnum) -> LinkMirrorEnum {
    match s {
        SourceEnum::Link(LinkSource::To) => LinkMirrorEnum::Link(LinkMirror::Back),
    }
}

pub open spec fn to_source_spec(l: LinkMirrorEnum) -> SourceEnum {
    match l {
        LinkMirrorEnum::Link(LinkMirror::Back) => SourceEnum::Link(LinkSource::To),
    }
}

pub open spec fn node_type_spec(n: NodeM) -> NodeTypeMirror {
    match n {
        NodeM::A { .. } => NodeTypeMirror::A,
        NodeM::B { .. } => NodeTypeMirror::B,
        NodeM::Link { .. } => NodeTypeMirror::Link,
    }
}

impl Clone for NodeLink {
    /// Clone with the same model: same target, same mirror set.
    fn clone(&self) -> (r: Self)
        ensures
            r@ == self@,
    {
        let mut backs: Vec<NodeIndex> = Vec::new();
        let mut i: usize = 0;
        while i < self.backs.len()
            invariant
                i <= self.backs.len(),
                backs@ == self.backs@.subrange(0, i as int),
            decreases self.backs.len() - i,
        {
            backs.push(self.backs[i]);
            i += 1;
            proof {
                assert(backs@ =~= self.backs@.subrange(0, i as int));
            }
        }
        proof {
            assert(backs@ =~= self.backs@);
        }
        NodeLink { to: self.to, backs }
    }
}

impl Clone for Node {
    /// Clone with the same model.
    fn clone(&self) -> (r: Self)
        ensures
            r@ == self@,
    {
        match self {
            Node::A(x) => Node::A(NodeA { a: x.a }),
            Node::B(x) => Node::B(NodeB { b: x.b }),
            Node::Link(x) => Node::Link(x.clone()),
        }
    }
}

} // verus!
