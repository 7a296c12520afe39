//! The document arena: one tree store per session, addressed by handles that
//! carry the owning session's identifier.
//!
//! Nodes live in an append-only vector; parent/child links are indices, and a
//! parent always has a smaller index than each of its children, which keeps
//! the store acyclic by construction. Handles are value types; every
//! handle-consuming operation first compares the handle's session identifier
//! with the arena's and faults on a mismatch.

use vstd::prelude::*;
use crate::ContextId;
use crate::LibError;
use crate::events::{
    document_events, events_view, fragment_events, fragment_events_in, spec_has_doctype, EventV,
    HtmlEvent, NodeData, NodeDataV,
};
use crate::session::SessionCounter;

verus! {

/// One stored node: its payload and its links into the arena.
pub struct ArenaNode {
    pub parent: Option<usize>,
    pub children: Vec<usize>,
    pub data: NodeData,
}

/// Spec-level image of a stored node.
pub struct NodeV {
    pub parent: Option<usize>,
    pub children: Seq<usize>,
    pub data: NodeDataV,
}

impl View for ArenaNode {
    type V = NodeV;

    open spec fn view(&self) -> NodeV {
        NodeV { parent: self.parent, children: self.children@, data: self.data@ }
    }
}

/// The kind a handle reports for its node.
#[derive(Copy, Clone, PartialEq, Eq, Structural, Debug)]
pub enum NodeType {
    Element,
    Text,
    Doctype,
    ProcessingInstruction,
    Comment,
    Document,
    Fragment,
}

/// The kind recorded for a payload.
pub open spec fn data_kind(d: NodeDataV) -> NodeType {
    match d {
        NodeDataV::Document => NodeType::Document,
        NodeDataV::Fragment => NodeType::Fragment,
        NodeDataV::Doctype { .. } => NodeType::Doctype,
        NodeDataV::Comment { .. } => NodeType::Comment,
        NodeDataV::Text { .. } => NodeType::Text,
        NodeDataV::Element { .. } => NodeType::Element,
        NodeDataV::Pi { .. } => NodeType::ProcessingInstruction,
    }
}

/// A non-owning reference into one session's arena: the session identifier,
/// the node's index, and the node's kind.
#[derive(Copy, Clone, PartialEq, Eq, Structural, Debug)]
pub struct HtmlNode {
    pub ctx_id: ContextId,
    pub node_id: usize,
    pub kind: NodeType,
}

/// Well-formedness of one node's links within the store.
pub open spec fn wf_at(nodes: Seq<NodeV>, i: int) -> bool {
    &&& (match nodes[i].parent {
        Some(p) => p < i && nodes[p as int].children.contains(i as usize),
        None => true,
    })
    &&& (forall|k: int|
        0 <= k < nodes[i].children.len() ==> i < (#[trigger] nodes[i].children[k]) as int
            && (nodes[i].children[k] as int) < nodes.len())
    &&& (forall|k: int|
        0 <= k < nodes[i].children.len() ==> nodes[(#[trigger] nodes[i].children[k]) as int].parent
            == Some(i as usize))
    &&& (forall|k1: int, k2: int|
        0 <= k1 < k2 < nodes[i].children.len() ==> #[trigger] nodes[i].children[k1]
            != #[trigger] nodes[i].children[k2])
}

/// Well-formedness of the whole store.
pub open spec fn wf_nodes(nodes: Seq<NodeV>) -> bool {
    forall|i: int| 0 <= i < nodes.len() ==> #[trigger] wf_at(nodes, i)
}

/// One session's arena: the session identifier and the node store.
pub struct HtmlContext {
    ctx_id: ContextId,
    nodes: Vec<ArenaNode>,
}

impl HtmlContext {
    /// The owning session's identifier.
    pub closed spec fn id(&self) -> ContextId {
        self.ctx_id
    }

    /// The spec-level node store.
    pub closed spec fn nodes_view(&self) -> Seq<NodeV> {
        self.nodes@.map(|i: int, n: ArenaNode| n@)
    }

    /// The arena invariant.
    pub open spec fn wf(&self) -> bool {
        wf_nodes(self.nodes_view())
    }

    /// Whether `h` is a handle this arena minted: same session, an index
    /// inside the store, and the kind the store records for that index.
    pub open spec fn owns(&self, h: HtmlNode) -> bool {
        &&& h.ctx_id == self.id()
        &&& (h.node_id as int) < self.nodes_view().len()
        &&& h.kind == data_kind(self.nodes_view()[h.node_id as int].data)
    }

    /// Allocates an empty arena with a fresh, never-reused session
    /// identifier minted from the process-wide counter.
    pub fn new(counter: &mut SessionCounter) -> (r: HtmlContext)
        requires
            old(counter).next_id() < u64::MAX,
        ensures
            r.wf(),
            r.id().0 == old(counter).next_id(),
            r.nodes_view().len() == 0,
            final(counter).next_id() == old(counter).next_id() + 1,
    {
        let ctx_id = ContextId::new(counter);
        let r = HtmlContext { ctx_id, nodes: Vec::new() };
        proof {
            assert(r.nodes_view() =~= Seq::<NodeV>::empty());
        }
        r
    }

    /// The session identifier of this arena.
    pub fn ctx_id(&self) -> (r: ContextId)
        ensures
            r == self.id(),
    {
        self.ctx_id
    }

    /// How many nodes the arena holds.
    pub fn node_count(&self) -> (r: usize)
        ensures
            r == self.nodes_view().len(),
    {
        self.nodes.len()
    }

    /// Validates that `node` belongs to this arena's session: handles cannot
    /// cross sessions, and a mismatch always faults, never a silent no-op.
    pub fn check_node(&self, node: &HtmlNode) -> (r: Result<(), LibError>)
        ensures
            node.ctx_id == self.id() ==> r == Ok::<(), LibError>(()),
            node.ctx_id != self.id() ==> r == Err::<(), LibError>(LibError::ContextMismatch),
    {
        if node.ctx_id.0 == self.ctx_id.0 {
            Ok(())
        } else {
            Err(LibError::ContextMismatch)
        }
    }

    /// Validates session, index and kind: `node` must be a handle this arena
    /// minted.
    pub fn check_handle(&self, node: &HtmlNode) -> (r: Result<(), LibError>)
        ensures
            r is Ok <==> self.owns(*node),
            node.ctx_id != self.id() ==> r == Err::<(), LibError>(LibError::ContextMismatch),
            node.ctx_id == self.id() && !self.owns(*node) ==> r == Err::<(), LibError>(
                LibError::InvalidHandle,
            ),
    {
        let res = self.check_node(node);
        if res.is_err() {
            return Err(LibError::ContextMismatch);
        }
        if node.node_id >= self.nodes.len() {
            return Err(LibError::InvalidHandle);
        }
        let kind = data_kind_exec(&self.nodes[node.node_id].data);
        if kind_eq(kind, node.kind) {
            Ok(())
        } else {
            Err(LibError::InvalidHandle)
        }
    }

    /// The handle this arena mints for index `idx`.
    fn mint(&self, idx: usize) -> (h: HtmlNode)
        requires
            (idx as int) < self.nodes_view().len(),
        ensures
            self.owns(h),
            h.node_id == idx,
            h.ctx_id == self.id(),
            h.kind == data_kind(self.nodes_view()[idx as int].data),
    {
        HtmlNode {
            ctx_id: self.ctx_id,
            node_id: idx,
            kind: data_kind_exec(&self.nodes[idx].data),
        }
    }

    /// Appends an orphan node holding `data` and returns its index.
    fn push_orphan(&mut self, data: NodeData) -> (idx: usize)
        requires
            old(self).wf(),
        ensures
            final(self).wf(),
            final(self).id() == old(self).id(),
            idx as int == old(self).nodes_view().len(),
            final(self).nodes_view() == old(self).nodes_view().push(
                NodeV { parent: None, children: Seq::empty(), data: data@ },
            ),
    {
        let ghost oldv = self.nodes_view();
        let ghost d = data@;
        let idx = self.nodes.len();
        self.nodes.push(ArenaNode { parent: None, children: Vec::new(), data });
        proof {
            let newv = self.nodes_view();
            assert(newv =~= oldv.push(NodeV { parent: None, children: Seq::empty(), data: d }));
            assert forall|i: int| 0 <= i < newv.len() implies #[trigger] wf_at(newv, i) by {
                if i < oldv.len() {
                    assert(wf_at(oldv, i));
                    assert(newv[i] == oldv[i]);
                    assert forall|k: int| 0 <= k < newv[i].children.len() implies i
                        < (#[trigger] newv[i].children[k]) as int && (newv[i].children[k] as int)
                        < newv.len() by {
                        assert(wf_at(oldv, i));
                    }
                } else {
                    assert(newv[i].children.len() == 0);
                    assert(newv[i].parent is None);
                }
            }
        }
        idx
    }
}

impl HtmlContext {
    /// Creates an orphan document node and hands back its handle.
    pub fn create_document(&mut self) -> (h: HtmlNode)
        requires
            old(self).wf(),
        ensures
            final(self).wf(),
            final(self).id() == old(self).id(),
            final(self).nodes_view() == old(self).nodes_view().push(
                NodeV { parent: None, children: Seq::empty(), data: NodeDataV::Document },
            ),
            final(self).owns(h),
            h.node_id as int == old(self).nodes_view().len(),
            h.kind == NodeType::Document,
    {
        let idx = self.push_orphan(NodeData::Document);
        self.mint(idx)
    }

    /// Creates an orphan element node named `name`, with no attributes, and
    /// hands back its handle.
    pub fn create_element(&mut self, name: &str) -> (h: HtmlNode)
        requires
            old(self).wf(),
        ensures
            final(self).wf(),
            final(self).id() == old(self).id(),
            final(self).nodes_view() == old(self).nodes_view().push(
                NodeV {
                    parent: None,
                    children: Seq::empty(),
                    data: NodeDataV::Element { name: name@, attrs: Seq::empty() },
                },
            ),
            final(self).owns(h),
            h.node_id as int == old(self).nodes_view().len(),
            h.kind == NodeType::Element,
    {
        let data = NodeData::Element { name: crate::chars::str_to_chars(name), attrs: Vec::new() };
        proof {
            assert(data@->Element_attrs =~= Seq::<(Seq<char>, Seq<char>)>::empty());
        }
        let idx = self.push_orphan(data);
        self.mint(idx)
    }

    /// Creates an orphan text node holding `text` and hands back its handle.
    pub fn create_text(&mut self, text: &str) -> (h: HtmlNode)
        requires
            old(self).wf(),
        ensures
            final(self).wf(),
            final(self).id() == old(self).id(),
            final(self).nodes_view() == old(self).nodes_view().push(
                NodeV { parent: None, children: Seq::empty(), data: NodeDataV::Text { text: text@ } },
            ),
            final(self).owns(h),
            h.node_id as int == old(self).nodes_view().len(),
            h.kind == NodeType::Text,
    {
        let data = NodeData::Text { text: crate::chars::str_to_chars(text) };
        let idx = self.push_orphan(data);
        self.mint(idx)
    }

    /// Links the orphan node at `c` as the last child of the node at `p`.
    fn link_child(&mut self, p: usize, c: usize)
        requires
            old(self).wf(),
            p < c,
            (c as int) < old(self).nodes_view().len(),
            old(self).nodes_view()[c as int].parent is None,
        ensures
            final(self).wf(),
            final(self).id() == old(self).id(),
            final(self).nodes_view() == append_view(old(self).nodes_view(), p as int, c as int),
    {
        let ghost v1 = self.nodes_view();
        let total = self.nodes.len();
        node_mut(&mut self.nodes, p).children.push(c);
        node_mut(&mut self.nodes, c).parent = Some(p);
        proof {
            let v2 = self.nodes_view();
            assert(v2 =~= append_view(v1, p as int, c as int));
            assert(v1.len() == total as int);
            lemma_append_view_wf(v1, p as int, c as int);
        }
    }

    /// Attaches the orphan node `child` as the last child of `parent`.
    ///
    /// The arena only links a node beneath an earlier-created one: that
    /// index order is the arena's acyclicity argument, and every
    /// traversal, serialization and copy terminates by it. The
    /// consequence is that an earlier-created orphan cannot be re-attached
    /// beneath later-created structure in place; `clone_node` copies it
    /// there under a fresh handle instead, and `unwrap` moves children the
    /// other way, toward earlier ancestors.
    pub fn append_child(&mut self, parent: &HtmlNode, child: &HtmlNode) -> (r: Result<
        (),
        LibError,
    >)
        requires
            old(self).wf(),
        ensures
            final(self).wf(),
            final(self).id() == old(self).id(),
            r is Err ==> *final(self) == *old(self),
            parent.ctx_id != old(self).id() || child.ctx_id != old(self).id() ==> r == Err::<
                (),
                LibError,
            >(LibError::ContextMismatch),
            parent.ctx_id == old(self).id() && child.ctx_id == old(self).id() && !(old(self).owns(
                *parent,
            ) && old(self).owns(*child)) ==> r == Err::<(), LibError>(LibError::InvalidHandle),
            old(self).owns(*parent) && old(self).owns(*child) && old(self).nodes_view()[child.node_id as int].parent
                is Some ==> r == Err::<(), LibError>(LibError::NotOrphan),
            old(self).owns(*parent) && old(self).owns(*child) && old(self).nodes_view()[child.node_id as int].parent
                is None && parent.node_id >= child.node_id ==> r == Err::<(), LibError>(
                LibError::OrderViolation,
            ),
            old(self).owns(*parent) && old(self).owns(*child) && old(self).nodes_view()[child.node_id as int].parent
                is None && parent.node_id < child.node_id ==> r == Ok::<(), LibError>(())
                && final(self).nodes_view() == append_view(
                old(self).nodes_view(),
                parent.node_id as int,
                child.node_id as int,
            ),
    {
        if self.check_handle(parent).is_err() || self.check_handle(child).is_err() {
            if parent.ctx_id.0 != self.ctx_id.0 || child.ctx_id.0 != self.ctx_id.0 {
                return Err(LibError::ContextMismatch);
            }
            return Err(LibError::InvalidHandle);
        }
        let p = parent.node_id;
        let c = child.node_id;
        if self.nodes[c].parent.is_some() {
            return Err(LibError::NotOrphan);
        }
        if p >= c {
            return Err(LibError::OrderViolation);
        }
        self.link_child(p, c);
        Ok(())
    }

    /// Links the orphan node at `c` as the child of `p` at position `pos`.
    fn insert_child_at(&mut self, p: usize, c: usize, pos: usize)
        requires
            old(self).wf(),
            p < c,
            (c as int) < old(self).nodes_view().len(),
            old(self).nodes_view()[c as int].parent is None,
            pos as int <= old(self).nodes_view()[p as int].children.len(),
        ensures
            final(self).wf(),
            final(self).id() == old(self).id(),
            final(self).nodes_view() == insert_child_view(
                old(self).nodes_view(),
                p as int,
                c as int,
                pos as int,
            ),
    {
        let ghost v1 = self.nodes_view();
        let total = self.nodes.len();
        proof {
            assert(v1[p as int] == self.nodes@[p as int]@);
        }
        node_mut(&mut self.nodes, p).children.insert(pos, c);
        node_mut(&mut self.nodes, c).parent = Some(p);
        proof {
            let v2 = self.nodes_view();
            assert(v2 =~= insert_child_view(v1, p as int, c as int, pos as int));
            assert(v1.len() == total as int);
            lemma_insert_child_view_wf(v1, p as int, c as int, pos as int);
        }
    }

    /// Attaches the orphan node `child` as the first child of `parent`,
    /// under the same ordering rule as `append_child`.
    pub fn prepend_child(&mut self, parent: &HtmlNode, child: &HtmlNode) -> (r: Result<
        (),
        LibError,
    >)
        requires
            old(self).wf(),
        ensures
            final(self).wf(),
            final(self).id() == old(self).id(),
            r is Err ==> *final(self) == *old(self),
            parent.ctx_id != old(self).id() || child.ctx_id != old(self).id() ==> r == Err::<
                (),
                LibError,
            >(LibError::ContextMismatch),
            parent.ctx_id == old(self).id() && child.ctx_id == old(self).id() && !(old(self).owns(
                *parent,
            ) && old(self).owns(*child)) ==> r == Err::<(), LibError>(LibError::InvalidHandle),
            old(self).owns(*parent) && old(self).owns(*child) && old(self).nodes_view()[child.node_id as int].parent
                is Some ==> r == Err::<(), LibError>(LibError::NotOrphan),
            old(self).owns(*parent) && old(self).owns(*child) && old(self).nodes_view()[child.node_id as int].parent
                is None && parent.node_id >= child.node_id ==> r == Err::<(), LibError>(
                LibError::OrderViolation,
            ),
            old(self).owns(*parent) && old(self).owns(*child) && old(self).nodes_view()[child.node_id as int].parent
                is None && parent.node_id < child.node_id ==> r == Ok::<(), LibError>(())
                && final(self).nodes_view() == insert_child_view(
                old(self).nodes_view(),
                parent.node_id as int,
                child.node_id as int,
                0,
            ),
    {
        if self.check_handle(parent).is_err() || self.check_handle(child).is_err() {
            if parent.ctx_id.0 != self.ctx_id.0 || child.ctx_id.0 != self.ctx_id.0 {
                return Err(LibError::ContextMismatch);
            }
            return Err(LibError::InvalidHandle);
        }
        let p = parent.node_id;
        let c = child.node_id;
        if self.nodes[c].parent.is_some() {
            return Err(LibError::NotOrphan);
        }
        if p >= c {
            return Err(LibError::OrderViolation);
        }
        self.insert_child_at(p, c, 0);
        Ok(())
    }

    /// The position of `c` in its parent's child list.
    #[verifier::loop_isolation(false)]
    fn child_position(&self, p: usize, c: usize) -> (j: usize)
        requires
            self.wf(),
            (p as int) < self.nodes_view().len(),
            self.nodes_view()[p as int].children.contains(c),
        ensures
            j as int == self.nodes_view()[p as int].children.index_of(c),
            (j as int) < self.nodes_view()[p as int].children.len(),
            self.nodes_view()[p as int].children[j as int] == c,
    {
        let ghost nv = self.nodes_view();
        proof {
            assert(nv[p as int] == self.nodes@[p as int]@);
            assert(wf_at(nv, p as int));
        }
        let plen = self.nodes[p].children.len();
        let mut j: usize = 0;
        while j < plen && self.nodes[p].children[j] != c
            invariant
                j <= plen,
                plen as int == nv[p as int].children.len(),
                forall|k: int| 0 <= k < j ==> nv[p as int].children[k] != c,
            decreases plen - j,
        {
            j = j + 1;
        }
        proof {
            if j == plen {
                let k = choose|k: int|
                    0 <= k < nv[p as int].children.len() && nv[p as int].children[k] == c;
                assert(false);
            }
            let i0 = nv[p as int].children.index_of(c);
            assert(nv[p as int].children[i0] == c);
            if i0 != j as int {
                if i0 < j as int {
                    assert(nv[p as int].children[i0] != c);
                } else {
                    assert(nv[p as int].children[j as int] != nv[p as int].children[i0]);
                }
            }
        }
        j
    }

    /// Inserts the orphan `sibling` directly before `node` among its
    /// parent's children. A node without a parent cannot take siblings,
    /// and the sibling must be later-created than the shared parent.
    pub fn insert_before(&mut self, node: &HtmlNode, sibling: &HtmlNode) -> (r: Result<
        (),
        LibError,
    >)
        requires
            old(self).wf(),
        ensures
            final(self).wf(),
            final(self).id() == old(self).id(),
            r is Err ==> *final(self) == *old(self),
            node.ctx_id != old(self).id() || sibling.ctx_id != old(self).id() ==> r == Err::<
                (),
                LibError,
            >(LibError::ContextMismatch),
            node.ctx_id == old(self).id() && sibling.ctx_id == old(self).id() && !(old(self).owns(
                *node,
            ) && old(self).owns(*sibling)) ==> r == Err::<(), LibError>(LibError::InvalidHandle),
            old(self).owns(*node) && old(self).owns(*sibling) && old(self).nodes_view()[node.node_id as int].parent
                is None ==> r == Err::<(), LibError>(LibError::NoParent),
            old(self).owns(*node) && old(self).owns(*sibling) && old(self).nodes_view()[node.node_id as int].parent
                is Some ==> sibling_insert_post(
                old(self).nodes_view(),
                final(self).nodes_view(),
                *node,
                *sibling,
                r,
                false,
            ),
    {
        self.insert_sibling(node, sibling, false)
    }

    /// Inserts the orphan `sibling` directly after `node` among its
    /// parent's children, under the same rules as `insert_before`.
    pub fn insert_after(&mut self, node: &HtmlNode, sibling: &HtmlNode) -> (r: Result<
        (),
        LibError,
    >)
        requires
            old(self).wf(),
        ensures
            final(self).wf(),
            final(self).id() == old(self).id(),
            r is Err ==> *final(self) == *old(self),
            node.ctx_id != old(self).id() || sibling.ctx_id != old(self).id() ==> r == Err::<
                (),
                LibError,
            >(LibError::ContextMismatch),
            node.ctx_id == old(self).id() && sibling.ctx_id == old(self).id() && !(old(self).owns(
                *node,
            ) && old(self).owns(*sibling)) ==> r == Err::<(), LibError>(LibError::InvalidHandle),
            old(self).owns(*node) && old(self).owns(*sibling) && old(self).nodes_view()[node.node_id as int].parent
                is None ==> r == Err::<(), LibError>(LibError::NoParent),
            old(self).owns(*node) && old(self).owns(*sibling) && old(self).nodes_view()[node.node_id as int].parent
                is Some ==> sibling_insert_post(
                old(self).nodes_view(),
                final(self).nodes_view(),
                *node,
                *sibling,
                r,
                true,
            ),
    {
        self.insert_sibling(node, sibling, true)
    }

    /// Shared body of the sibling insertions.
    fn insert_sibling(&mut self, node: &HtmlNode, sibling: &HtmlNode, after: bool) -> (r: Result<
        (),
        LibError,
    >)
        requires
            old(self).wf(),
        ensures
            final(self).wf(),
            final(self).id() == old(self).id(),
            r is Err ==> *final(self) == *old(self),
            node.ctx_id != old(self).id() || sibling.ctx_id != old(self).id() ==> r == Err::<
                (),
                LibError,
            >(LibError::ContextMismatch),
            node.ctx_id == old(self).id() && sibling.ctx_id == old(self).id() && !(old(self).owns(
                *node,
            ) && old(self).owns(*sibling)) ==> r == Err::<(), LibError>(LibError::InvalidHandle),
            old(self).owns(*node) && old(self).owns(*sibling) && old(self).nodes_view()[node.node_id as int].parent
                is None ==> r == Err::<(), LibError>(LibError::NoParent),
            old(self).owns(*node) && old(self).owns(*sibling) && old(self).nodes_view()[node.node_id as int].parent
                is Some ==> sibling_insert_post(
                old(self).nodes_view(),
                final(self).nodes_view(),
                *node,
                *sibling,
                r,
                after,
            ),
    {
        if self.check_handle(node).is_err() || self.check_handle(sibling).is_err() {
            if node.ctx_id.0 != self.ctx_id.0 || sibling.ctx_id.0 != self.ctx_id.0 {
                return Err(LibError::ContextMismatch);
            }
            return Err(LibError::InvalidHandle);
        }
        let n = node.node_id;
        let c = sibling.node_id;
        let p = match self.nodes[n].parent {
            None => {
                return Err(LibError::NoParent);
            },
            Some(p) => p,
        };
        if self.nodes[c].parent.is_some() {
            return Err(LibError::NotOrphan);
        }
        if p >= c {
            return Err(LibError::OrderViolation);
        }
        proof {
            assert(wf_at(self.nodes_view(), n as int));
        }
        let j = self.child_position(p, n);
        // Pins the child list's length, so the successor position fits.
        let plen = self.child_count_at(p);
        proof {
            assert(j < plen);
        }
        let pos = if after {
            j + 1
        } else {
            j
        };
        self.insert_child_at(p, c, pos);
        Ok(())
    }

    /// Unlinks `node` from its parent, leaving it addressable as an orphan.
    /// A node that already has no parent is left unchanged.
    pub fn remove_from_parent(&mut self, node: &HtmlNode) -> (r: Result<(), LibError>)
        requires
            old(self).wf(),
        ensures
            final(self).wf(),
            final(self).id() == old(self).id(),
            r is Err ==> *final(self) == *old(self),
            node.ctx_id != old(self).id() ==> r == Err::<(), LibError>(LibError::ContextMismatch),
            node.ctx_id == old(self).id() && !old(self).owns(*node) ==> r == Err::<(), LibError>(
                LibError::InvalidHandle,
            ),
            old(self).owns(*node) && old(self).nodes_view()[node.node_id as int].parent is None
                ==> r == Ok::<(), LibError>(()) && *final(self) == *old(self),
            old(self).owns(*node) && old(self).nodes_view()[node.node_id as int].parent is Some
                ==> r == Ok::<(), LibError>(()) && final(self).nodes_view() == detach_view(
                old(self).nodes_view(),
                node.node_id as int,
            ),
    {
        if let Err(e) = self.check_handle(node) {
            return Err(e);
        }
        let c = node.node_id;
        let p = match self.nodes[c].parent {
            None => {
                return Ok(());
            },
            Some(p) => p,
        };
        let ghost v1 = self.nodes_view();
        let total = self.nodes.len();
        proof {
            assert(wf_at(v1, c as int));
            assert(v1.len() == total as int);
        }
        // Find the unique position of `c` in its parent's child list.
        let mut j: usize = 0;
        let plen = self.nodes[p].children.len();
        while j < plen && self.nodes[p].children[j] != c
            invariant
                j <= plen,
                plen == self.nodes@[p as int]@.children.len(),
                p < self.nodes@.len(),
                forall|k: int| 0 <= k < j ==> self.nodes@[p as int]@.children[k] != c,
            decreases plen - j,
        {
            j = j + 1;
        }
        proof {
            // wf_at(p) says `c` occurs among p's children, so the loop found it.
            assert(wf_at(v1, c as int));
            assert(v1[p as int].children.contains(c));
            if j == plen {
                let k = choose|k: int|
                    0 <= k < v1[p as int].children.len() && v1[p as int].children[k] == c;
                assert(false);
            }
        }
        node_mut(&mut self.nodes, p).children.remove(j);
        node_mut(&mut self.nodes, c).parent = None;
        proof {
            let v2 = self.nodes_view();
            assert(wf_at(v1, p as int));
            // The found position is the unique one holding `c`.
            assert(v1[p as int].children[j as int] == c);
            assert(j as int == v1[p as int].children.index_of(c)) by {
                let i0 = v1[p as int].children.index_of(c);
                assert(v1[p as int].children[i0] == c);
                if i0 != j as int {
                    if i0 < j as int {
                        assert(v1[p as int].children[i0] != c);
                    } else {
                        assert(v1[p as int].children[j as int] != v1[p as int].children[i0]);
                    }
                }
            }
            assert(v2 =~= detach_view(v1, c as int));
            lemma_detach_view_wf(v1, c as int);
        }
        Ok(())
    }
}

/// The store after linking orphan `c` as the last child of `p`.
pub open spec fn append_view(nodes: Seq<NodeV>, p: int, c: int) -> Seq<NodeV> {
    nodes.update(
        p,
        NodeV {
            parent: nodes[p].parent,
            children: nodes[p].children.push(c as usize),
            data: nodes[p].data,
        },
    ).update(
        c,
        NodeV { parent: Some(p as usize), children: nodes[c].children, data: nodes[c].data },
    )
}

/// The store after linking orphan `c` as the child of `p` at position
/// `pos` of its child list.
pub open spec fn insert_child_view(nodes: Seq<NodeV>, p: int, c: int, pos: int) -> Seq<NodeV> {
    nodes.update(
        p,
        NodeV {
            parent: nodes[p].parent,
            children: nodes[p].children.insert(pos, c as usize),
            data: nodes[p].data,
        },
    ).update(
        c,
        NodeV { parent: Some(p as usize), children: nodes[c].children, data: nodes[c].data },
    )
}

proof fn lemma_insert_child_view_wf(nodes: Seq<NodeV>, p: int, c: int, pos: int)
    requires
        wf_nodes(nodes),
        nodes.len() <= usize::MAX,
        0 <= p < c < nodes.len(),
        nodes[c].parent is None,
        0 <= pos <= nodes[p].children.len(),
    ensures
        wf_nodes(insert_child_view(nodes, p, c, pos)),
{
    let v2 = insert_child_view(nodes, p, c, pos);
    let ch = nodes[p].children;
    let ch2 = ch.insert(pos, c as usize);
    assert(v2.len() == nodes.len());
    assert(ch2.len() == ch.len() + 1);
    assert forall|k: int| 0 <= k < ch2.len() implies #[trigger] ch2[k] == (if k < pos {
        ch[k]
    } else if k == pos {
        c as usize
    } else {
        ch[k - 1]
    }) by {
        if k < pos {
            assert(ch2[k] == ch.subrange(0, pos).push(c as usize)[k]);
        }
    }
    // `c` stands in nobody's child list: a child list entry's parent link
    // points back at the list's owner, and `c` has no parent link.
    assert forall|i: int, k: int|
        0 <= i < nodes.len() && 0 <= k < nodes[i].children.len() implies nodes[i].children[k]
        != c as usize by {
        assert(wf_at(nodes, i));
    }
    assert forall|i: int| 0 <= i < v2.len() implies #[trigger] wf_at(v2, i) by {
        assert(wf_at(nodes, i));
        assert(wf_at(nodes, p));
        assert(wf_at(nodes, c));
        if i == p {
            assert forall|k: int| 0 <= k < v2[p].children.len() implies p
                < (#[trigger] v2[p].children[k]) as int && (v2[p].children[k] as int) < v2.len()
                && v2[(v2[p].children[k]) as int].parent == Some(p as usize) by {
                if k != pos {
                    let m: int = if k < pos {
                        k
                    } else {
                        k - 1
                    };
                    assert(ch2[k] == ch[m]);
                    assert(ch[m] != c as usize);
                }
            }
            assert forall|k1: int, k2: int| 0 <= k1 < k2 < v2[p].children.len() implies #[trigger] v2[p].children[k1] != #[trigger] v2[p].children[k2] by {
                if k1 == pos {
                    assert(ch2[k2] == ch[k2 - 1]);
                    assert(ch[k2 - 1] != c as usize);
                } else if k2 == pos {
                    assert(ch2[k1] == ch[k1]);
                    assert(ch[k1] != c as usize);
                } else {
                    let m1: int = if k1 < pos {
                        k1
                    } else {
                        k1 - 1
                    };
                    let m2: int = if k2 < pos {
                        k2
                    } else {
                        k2 - 1
                    };
                    assert(ch2[k1] == ch[m1] && ch2[k2] == ch[m2]);
                    assert(m1 < m2);
                }
            }
            match v2[p].parent {
                Some(q) => {
                    assert(q < p);
                    assert(nodes[q as int].children.contains(p as usize));
                    assert(v2[q as int].children == nodes[q as int].children);
                },
                None => {},
            }
        } else if i == c {
            assert(v2[c].parent == Some(p as usize));
            assert(ch2[pos] == c as usize);
            assert(v2[p].children.contains(c as usize));
            assert forall|k: int| 0 <= k < v2[c].children.len() implies c
                < (#[trigger] v2[c].children[k]) as int && (v2[c].children[k] as int) < v2.len()
                && v2[(v2[c].children[k]) as int].parent == Some(c as usize) by {
                assert(nodes[c].children[k] != c as usize);
                assert(p < c && (c as int) < nodes[c].children[k] as int);
            }
        } else {
            match v2[i].parent {
                Some(q) => {
                    assert(nodes[i].parent == Some(q));
                    assert(q < i);
                    assert(nodes[q as int].children.contains(i as usize));
                    if q as int == p {
                        let k = choose|k: int|
                            0 <= k < ch.len() && ch[k] == i as usize;
                        if k < pos {
                            assert(ch2[k] == i as usize);
                        } else {
                            assert(ch2[k + 1] == i as usize);
                        }
                        assert(v2[p].children.contains(i as usize));
                    } else {
                        assert(v2[q as int].children == nodes[q as int].children);
                    }
                },
                None => {},
            }
            assert forall|k: int| 0 <= k < v2[i].children.len() implies i
                < (#[trigger] v2[i].children[k]) as int && (v2[i].children[k] as int) < v2.len()
                && v2[(v2[i].children[k]) as int].parent == Some(i as usize) by {
                assert(nodes[i].children[k] != c as usize);
            }
        }
    }
}

/// What a sibling insertion leaves behind: the faults for an attached or
/// earlier-created sibling, or the store with the sibling inserted at the
/// node's position (or just after it).
pub open spec fn sibling_insert_post(
    v1: Seq<NodeV>,
    v2: Seq<NodeV>,
    node: HtmlNode,
    sibling: HtmlNode,
    r: Result<(), LibError>,
    after: bool,
) -> bool {
    let n = node.node_id as int;
    let c = sibling.node_id as int;
    let p = v1[n].parent->0 as int;
    if v1[c].parent is Some {
        r == Err::<(), LibError>(LibError::NotOrphan) && v2 == v1
    } else if p >= c {
        r == Err::<(), LibError>(LibError::OrderViolation) && v2 == v1
    } else {
        let pos = v1[p].children.index_of(node.node_id) + (if after {
            1int
        } else {
            0int
        });
        r == Ok::<(), LibError>(()) && v2 == insert_child_view(v1, p, c, pos)
    }
}

/// The store after unlinking `c` from its parent.
pub open spec fn detach_view(nodes: Seq<NodeV>, c: int) -> Seq<NodeV> {
    let p = nodes[c].parent->0 as int;
    nodes.update(
        p,
        NodeV {
            parent: nodes[p].parent,
            children: nodes[p].children.remove(nodes[p].children.index_of(c as usize)),
            data: nodes[p].data,
        },
    ).update(c, NodeV { parent: None, children: nodes[c].children, data: nodes[c].data })
}

proof fn lemma_append_view_wf(nodes: Seq<NodeV>, p: int, c: int)
    requires
        wf_nodes(nodes),
        nodes.len() <= usize::MAX,
        0 <= p < c < nodes.len(),
        nodes[c].parent is None,
    ensures
        wf_nodes(append_view(nodes, p, c)),
{
    let v2 = append_view(nodes, p, c);
    assert(v2.len() == nodes.len());
    // `c` stands in nobody's child list: a child list entry's parent link
    // points back at the list's owner, and `c` has no parent link.
    assert forall|i: int, k: int|
        0 <= i < nodes.len() && 0 <= k < nodes[i].children.len() implies nodes[i].children[k]
        != c as usize by {
        assert(wf_at(nodes, i));
    }
    assert forall|i: int| 0 <= i < v2.len() implies #[trigger] wf_at(v2, i) by {
        assert(wf_at(nodes, i));
        assert(wf_at(nodes, p));
        assert(wf_at(nodes, c));
        if i == p {
            assert forall|k: int| 0 <= k < v2[p].children.len() implies p
                < (#[trigger] v2[p].children[k]) as int && (v2[p].children[k] as int) < v2.len()
                && v2[(v2[p].children[k]) as int].parent == Some(p as usize) by {
                if k < nodes[p].children.len() {
                    assert(nodes[p].children[k] != c as usize);
                } else {
                    assert(v2[p].children[k] == c as usize);
                }
            }
            assert forall|k1: int, k2: int| 0 <= k1 < k2 < v2[p].children.len() implies #[trigger] v2[p].children[k1] != #[trigger] v2[p].children[k2] by {
                if k2 == nodes[p].children.len() {
                    assert(v2[p].children[k2] == c as usize);
                    assert(nodes[p].children[k1] != c as usize);
                }
            }
            match v2[p].parent {
                Some(q) => {
                    assert(q < p);
                    assert(nodes[q as int].children.contains(p as usize));
                    assert(v2[q as int].children == nodes[q as int].children);
                },
                None => {},
            }
        } else if i == c {
            assert(v2[c].parent == Some(p as usize));
            assert(v2[p].children[nodes[p].children.len() as int] == c as usize);
            assert(v2[p].children.contains(c as usize));
            assert forall|k: int| 0 <= k < v2[c].children.len() implies c
                < (#[trigger] v2[c].children[k]) as int && (v2[c].children[k] as int) < v2.len()
                && v2[(v2[c].children[k]) as int].parent == Some(c as usize) by {
                assert(nodes[c].children[k] != c as usize);
                assert(p < c < nodes[c].children[k] as int);
            }
        } else {
            match v2[i].parent {
                Some(q) => {
                    assert(nodes[i].parent == Some(q));
                    assert(q < i);
                    assert(nodes[q as int].children.contains(i as usize));
                    if q as int == p {
                        let k = choose|k: int|
                            0 <= k < nodes[p].children.len() && nodes[p].children[k] == i as usize;
                        assert(v2[p].children[k] == i as usize);
                        assert(v2[p].children.contains(i as usize));
                    } else {
                        assert(v2[q as int].children == nodes[q as int].children);
                    }
                },
                None => {},
            }
            assert forall|k: int| 0 <= k < v2[i].children.len() implies i
                < (#[trigger] v2[i].children[k]) as int && (v2[i].children[k] as int) < v2.len()
                && v2[(v2[i].children[k]) as int].parent == Some(i as usize) by {
                assert(nodes[i].children[k] != c as usize);
                assert(nodes[i].children[k] as int != p || v2[p].parent == nodes[p].parent);
            }
        }
    }
}

proof fn lemma_detach_view_wf(nodes: Seq<NodeV>, c: int)
    requires
        wf_nodes(nodes),
        nodes.len() <= usize::MAX,
        0 <= c < nodes.len(),
        nodes[c].parent is Some,
    ensures
        wf_nodes(detach_view(nodes, c)),
{
    let p = nodes[c].parent->0 as int;
    let v2 = detach_view(nodes, c);
    assert(wf_at(nodes, c));
    assert(wf_at(nodes, p));
    let ch = nodes[p].children;
    let j = ch.index_of(c as usize);
    assert(ch.contains(c as usize));
    assert(0 <= j < ch.len() && ch[j] == c as usize);
    let ch2 = ch.remove(j);
    // Every child of `p` other than `c` keeps its place (shifted at most by
    // one); `c` itself occurs only once, at `j`.
    assert forall|x: usize| ch2.contains(x) implies ch.contains(x) && x != c as usize by {
        let k = choose|k: int| 0 <= k < ch2.len() && ch2[k] == x;
        if k < j {
            assert(ch[k] == x);
        } else {
            assert(ch[k + 1] == x);
        }
    }
    assert forall|x: usize| ch.contains(x) && x != c as usize implies ch2.contains(x) by {
        let k = choose|k: int| 0 <= k < ch.len() && ch[k] == x;
        if k < j {
            assert(ch2[k] == x);
        } else {
            assert(k != j);
            assert(ch2[k - 1] == x);
        }
    }
    assert forall|i: int| 0 <= i < v2.len() implies #[trigger] wf_at(v2, i) by {
        assert(wf_at(nodes, i));
        if i == p {
            assert forall|k: int| 0 <= k < v2[p].children.len() implies p
                < (#[trigger] v2[p].children[k]) as int && (v2[p].children[k] as int) < v2.len()
                && v2[(v2[p].children[k]) as int].parent == Some(p as usize) by {
                assert(ch2.contains(ch2[k]));
                assert(ch.contains(ch2[k]));
                let m = choose|m: int| 0 <= m < ch.len() && ch[m] == ch2[k];
                assert(ch2[k] != c as usize);
            }
            assert forall|k1: int, k2: int| 0 <= k1 < k2 < v2[p].children.len() implies #[trigger] v2[p].children[k1] != #[trigger] v2[p].children[k2] by {
                if k1 < j && k2 < j {
                    assert(ch[k1] != ch[k2]);
                } else if k1 < j {
                    assert(ch2[k1] == ch[k1] && ch2[k2] == ch[k2 + 1]);
                } else {
                    assert(ch2[k1] == ch[k1 + 1] && ch2[k2] == ch[k2 + 1]);
                }
            }
            match v2[p].parent {
                Some(q) => {
                    assert(nodes[q as int].children.contains(p as usize));
                    assert(q as int != p);
                    if q as int == c {
                        assert(v2[c].children == nodes[c].children);
                    }
                },
                None => {},
            }
        } else if i == c {
            assert(v2[c].parent is None);
            assert forall|k: int| 0 <= k < v2[c].children.len() implies c
                < (#[trigger] v2[c].children[k]) as int && (v2[c].children[k] as int) < v2.len()
                && v2[(v2[c].children[k]) as int].parent == Some(c as usize) by {
                assert(nodes[c].children[k] as int != p) by {
                    assert(p < c < nodes[c].children[k] as int);
                }
                assert(nodes[c].children[k] != c as usize);
            }
        } else {
            match v2[i].parent {
                Some(q) => {
                    assert(q < i);
                    assert(nodes[q as int].children.contains(i as usize));
                    if q as int == p {
                        assert(i != c);
                        assert(ch.contains(i as usize));
                        let k = choose|k: int| 0 <= k < ch.len() && ch[k] == i as usize;
                        if k < j {
                            assert(ch2[k] == i as usize);
                        } else {
                            assert(k != j) by {
                                assert(ch[j] == c as usize);
                                assert(ch[k] == i as usize);
                            }
                            assert(ch2[k - 1] == i as usize);
                        }
                        assert(ch2.contains(i as usize));
                    } else {
                        assert(v2[q as int].children == nodes[q as int].children);
                    }
                },
                None => {},
            }
            assert forall|k: int| 0 <= k < v2[i].children.len() implies i
                < (#[trigger] v2[i].children[k]) as int && (v2[i].children[k] as int) < v2.len()
                && v2[(v2[i].children[k]) as int].parent == Some(i as usize) by {
                let x = nodes[i].children[k];
                assert(nodes[x as int].parent == Some(i as usize));
                assert(x as int != c);
                if x as int == p {
                    assert(v2[p].parent == nodes[p].parent);
                }
            }
        }
    }
}

/// A mutable reference to the node at `i`.
fn node_mut(nodes: &mut Vec<ArenaNode>, i: usize) -> (r: &mut ArenaNode)
    requires
        i < old(nodes).len(),
    ensures
        *r == old(nodes)@[i as int],
        final(nodes)@ == old(nodes)@.update(i as int, *final(r)),
{
    &mut nodes[i]
}

/// The first element among `children` at or after position `k`.
pub open spec fn fec_from(nodes: Seq<NodeV>, children: Seq<usize>, k: int) -> Option<usize>
    decreases children.len() - k,
{
    if k < 0 || k >= children.len() {
        None
    } else if data_kind(nodes[children[k] as int].data) == NodeType::Element {
        Some(children[k])
    } else {
        fec_from(nodes, children, k + 1)
    }
}

/// The first element child of node `i`: the real document root under a
/// synthetic document wrapper.
pub open spec fn first_element_child(nodes: Seq<NodeV>, i: int) -> Option<usize> {
    fec_from(nodes, nodes[i].children, 0)
}

/// The element a handle's operations act on: an element handle acts on its
/// own node; a document handle acts on the document's first element child;
/// any other kind does not resolve.
pub open spec fn spec_resolve(nodes: Seq<NodeV>, h: HtmlNode) -> Result<usize, LibError> {
    match data_kind(nodes[h.node_id as int].data) {
        NodeType::Element => Ok(h.node_id),
        NodeType::Document => match first_element_child(nodes, h.node_id as int) {
            Some(i) => Ok(i),
            None => Err(LibError::NoRootElement),
        },
        _ => Err(LibError::NotAnElement),
    }
}

/// The value of the first attribute named `name` at or after position `k`.
pub open spec fn attr_lookup_from(
    attrs: Seq<(Seq<char>, Seq<char>)>,
    name: Seq<char>,
    k: int,
) -> Option<Seq<char>>
    decreases attrs.len() - k,
{
    if k < 0 || k >= attrs.len() {
        None
    } else if attrs[k].0 == name {
        Some(attrs[k].1)
    } else {
        attr_lookup_from(attrs, name, k + 1)
    }
}

/// The value of the attribute named `name`, if present.
pub open spec fn attr_lookup(attrs: Seq<(Seq<char>, Seq<char>)>, name: Seq<char>) -> Option<
    Seq<char>,
> {
    attr_lookup_from(attrs, name, 0)
}

/// The attribute list with `name` bound to `value`: the first binding of
/// `name` is replaced, or the pair is appended when `name` is absent.
pub open spec fn attr_set_from(
    attrs: Seq<(Seq<char>, Seq<char>)>,
    name: Seq<char>,
    value: Seq<char>,
    k: int,
) -> Seq<(Seq<char>, Seq<char>)>
    decreases attrs.len() - k,
{
    if k < 0 || k >= attrs.len() {
        attrs.push((name, value))
    } else if attrs[k].0 == name {
        attrs.update(k, (name, value))
    } else {
        attr_set_from(attrs, name, value, k + 1)
    }
}

/// The attribute list without its first binding of `name` (unchanged when
/// `name` is absent).
pub open spec fn attr_remove_from(
    attrs: Seq<(Seq<char>, Seq<char>)>,
    name: Seq<char>,
    k: int,
) -> Seq<(Seq<char>, Seq<char>)>
    decreases attrs.len() - k,
{
    if k < 0 || k >= attrs.len() {
        attrs
    } else if attrs[k].0 == name {
        attrs.remove(k)
    } else {
        attr_remove_from(attrs, name, k + 1)
    }
}

impl HtmlContext {
    /// Finds the element a handle acts on, as `spec_resolve` describes.
    #[verifier::loop_isolation(false)]
    pub(crate) fn resolve_element(&self, node: &HtmlNode) -> (r: Result<usize, LibError>)
        requires
            self.wf(),
            self.owns(*node),
        ensures
            r == spec_resolve(self.nodes_view(), *node),
            r matches Ok(i) ==> (i as int) < self.nodes_view().len() && data_kind(
                self.nodes_view()[i as int].data,
            ) == NodeType::Element,
    {
        let ghost nv = self.nodes_view();
        let idx = node.node_id;
        match data_kind_exec(&self.nodes[idx].data) {
            NodeType::Element => Ok(idx),
            NodeType::Document => {
                proof {
                    assert(wf_at(nv, idx as int));
                }
                let mut k: usize = 0;
                let clen = self.nodes[idx].children.len();
                while k < clen
                    invariant
                        self.wf(),
                        k <= clen,
                        (idx as int) < nv.len(),
                        nv == self.nodes_view(),
                        clen == nv[idx as int].children.len(),
                        wf_at(nv, idx as int),
                        fec_from(nv, nv[idx as int].children, 0) == fec_from(
                            nv,
                            nv[idx as int].children,
                            k as int,
                        ),
                    decreases clen - k,
                {
                    let c = self.nodes[idx].children[k];
                    proof {
                        assert(nv[c as int] == self.nodes@[c as int]@);
                    }
                    if kind_eq(data_kind_exec(&self.nodes[c].data), NodeType::Element) {
                        proof {
                            assert(fec_from(nv, nv[idx as int].children, k as int) == Some(c));
                        }
                        return Ok(c);
                    }
                    k = k + 1;
                }
                proof {
                    assert(fec_from(nv, nv[idx as int].children, clen as int) is None);
                }
                Err(LibError::NoRootElement)
            },
            _ => Err(LibError::NotAnElement),
        }
    }

    /// For a document handle, the first element descendant (the real
    /// document root rather than the synthetic document wrapper); a
    /// document without one is malformed input and faults. Any other
    /// handle resolves to itself.
    pub fn root_element(&self, node: &HtmlNode) -> (r: Result<HtmlNode, LibError>)
        requires
            self.wf(),
        ensures
            node.ctx_id != self.id() ==> r == Err::<HtmlNode, LibError>(LibError::ContextMismatch),
            node.ctx_id == self.id() && !self.owns(*node) ==> r == Err::<HtmlNode, LibError>(
                LibError::InvalidHandle,
            ),
            self.owns(*node) && node.kind != NodeType::Document ==> r == Ok::<HtmlNode, LibError>(
                *node,
            ),
            self.owns(*node) && node.kind == NodeType::Document ==> match first_element_child(
                self.nodes_view(),
                node.node_id as int,
            ) {
                Some(i) => r matches Ok(h) && h.ctx_id == self.id() && h.node_id == i && h.kind
                    == NodeType::Element && self.owns(h),
                None => r == Err::<HtmlNode, LibError>(LibError::NoRootElement),
            },
    {
        if let Err(e) = self.check_handle(node) {
            return Err(e);
        }
        if !kind_eq(node.kind, NodeType::Document) {
            return Ok(*node);
        }
        match self.resolve_element(node) {
            Ok(i) => Ok(self.mint(i)),
            Err(e) => Err(e),
        }
    }

    /// The tag name of the element the handle acts on.
    pub fn get_tag_name(&self, node: &HtmlNode) -> (r: Result<String, LibError>)
        requires
            self.wf(),
        ensures
            node.ctx_id != self.id() ==> r == Err::<String, LibError>(LibError::ContextMismatch),
            node.ctx_id == self.id() && !self.owns(*node) ==> r == Err::<String, LibError>(
                LibError::InvalidHandle,
            ),
            self.owns(*node) ==> match spec_resolve(self.nodes_view(), *node) {
                Ok(i) => r matches Ok(s) && self.nodes_view()[i as int].data matches
                    NodeDataV::Element { name, .. } && s@ == name,
                Err(e) => r == Err::<String, LibError>(e),
            },
    {
        if let Err(e) = self.check_handle(node) {
            return Err(e);
        }
        let i = match self.resolve_element(node) {
            Ok(i) => i,
            Err(e) => {
                return Err(e);
            },
        };
        match &self.nodes[i].data {
            NodeData::Element { name, .. } => {
                proof {
                    assert(self.nodes_view()[i as int].data == self.nodes@[i as int]@.data);
                }
                Ok(crate::chars::chars_to_string(name))
            },
            _ => {
                proof {
                    assert(self.nodes_view()[i as int].data == self.nodes@[i as int]@.data);
                }
                Err(LibError::NotAnElement)
            },
        }
    }

    /// Renames the element the handle acts on; its attributes and children
    /// are kept.
    pub fn set_tag_name(&mut self, node: &HtmlNode, name: &str) -> (r: Result<(), LibError>)
        requires
            old(self).wf(),
        ensures
            final(self).wf(),
            final(self).id() == old(self).id(),
            r is Err ==> *final(self) == *old(self),
            node.ctx_id != old(self).id() ==> r == Err::<(), LibError>(LibError::ContextMismatch),
            node.ctx_id == old(self).id() && !old(self).owns(*node) ==> r == Err::<(), LibError>(
                LibError::InvalidHandle,
            ),
            old(self).owns(*node) ==> match spec_resolve(old(self).nodes_view(), *node) {
                Ok(i) => r is Ok && (old(self).nodes_view()[i as int].data matches
                    NodeDataV::Element { attrs, .. } && final(self).nodes_view() == old(self).nodes_view().update(
                    i as int,
                    NodeV {
                        parent: old(self).nodes_view()[i as int].parent,
                        children: old(self).nodes_view()[i as int].children,
                        data: NodeDataV::Element { name: name@, attrs },
                    },
                )),
                Err(e) => r == Err::<(), LibError>(e),
            },
    {
        if let Err(e) = self.check_handle(node) {
            return Err(e);
        }
        let i = match self.resolve_element(node) {
            Ok(i) => i,
            Err(e) => {
                return Err(e);
            },
        };
        let ghost v1 = self.nodes_view();
        let new_name = crate::chars::str_to_chars(name);
        let n = node_mut(&mut self.nodes, i);
        match &mut n.data {
            NodeData::Element { name: nm, .. } => {
                *nm = new_name;
            },
            _ => {},
        }
        proof {
            let v2 = self.nodes_view();
            assert(v2 =~= v1.update(
                i as int,
                NodeV {
                    parent: v1[i as int].parent,
                    children: v1[i as int].children,
                    data: NodeDataV::Element {
                        name: name@,
                        attrs: v1[i as int].data->Element_attrs,
                    },
                },
            ));
            lemma_wf_data_update(v1, v2);
        }
        Ok(())
    }

    /// The value of attribute `name` on the element the handle acts on, or
    /// nothing when the attribute is absent.
    #[verifier::loop_isolation(false)]
    pub fn get_attribute(&self, node: &HtmlNode, name: &str) -> (r: Result<
        Option<String>,
        LibError,
    >)
        requires
            self.wf(),
        ensures
            node.ctx_id != self.id() ==> r == Err::<Option<String>, LibError>(
                LibError::ContextMismatch,
            ),
            node.ctx_id == self.id() && !self.owns(*node) ==> r == Err::<Option<String>, LibError>(
                LibError::InvalidHandle,
            ),
            self.owns(*node) ==> match spec_resolve(self.nodes_view(), *node) {
                Ok(i) => {
                    &&& self.nodes_view()[i as int].data matches NodeDataV::Element { attrs, .. }
                    &&& match attr_lookup(
                        self.nodes_view()[i as int].data->Element_attrs,
                        name@,
                    ) {
                        Some(v) => r matches Ok(Some(s)) && s@ == v,
                        None => r == Ok::<Option<String>, LibError>(None),
                    }
                },
                Err(e) => r == Err::<Option<String>, LibError>(e),
            },
    {
        if let Err(e) = self.check_handle(node) {
            return Err(e);
        }
        let i = match self.resolve_element(node) {
            Ok(i) => i,
            Err(e) => {
                return Err(e);
            },
        };
        let name_c = crate::chars::str_to_chars(name);
        proof {
            assert(self.nodes_view()[i as int].data == self.nodes@[i as int]@.data);
        }
        match &self.nodes[i].data {
            NodeData::Element { attrs, .. } => {
                let ghost av = attrs@.map(|j: int, p: (Vec<char>, Vec<char>)| (p.0@, p.1@));
                let mut k: usize = 0;
                while k < attrs.len()
                    invariant
                        k <= attrs.len(),
                        av == attrs@.map(|j: int, p: (Vec<char>, Vec<char>)| (p.0@, p.1@)),
                        av.len() == attrs@.len(),
                        name_c@ == name@,
                        attr_lookup_from(av, name@, 0) == attr_lookup_from(av, name@, k as int),
                    decreases attrs.len() - k,
                {
                    proof {
                        assert(av[k as int] == (attrs@[k as int].0@, attrs@[k as int].1@));
                    }
                    if crate::chars::chars_eq(&attrs[k].0, &name_c) {
                        return Ok(Some(crate::chars::chars_to_string(&attrs[k].1)));
                    }
                    k = k + 1;
                }
                Ok(None)
            },
            _ => Err(LibError::NotAnElement),
        }
    }
}

/// State of the event-stream builder: the store, the stack of currently open
/// nodes, and the first node opened.
pub struct BuildState {
    pub nodes: Seq<NodeV>,
    pub stack: Seq<usize>,
    pub root: Option<usize>,
}

/// The builder's starting state over an existing store: nothing open, no
/// root yet.
pub open spec fn init_build(nodes: Seq<NodeV>) -> BuildState {
    BuildState { nodes, stack: Seq::empty(), root: None }
}

/// One step of the builder: `Open` appends a fresh node beneath the node on
/// top of the stack (an orphan when the stack is empty) and opens it; `Close`
/// closes the most recently opened node. A `Close` with nothing open is
/// ignored.
pub open spec fn build_step(st: BuildState, ev: EventV) -> BuildState {
    match ev {
        EventV::Open(d) => {
            let idx = st.nodes.len() as usize;
            let base = st.nodes.push(NodeV { parent: None, children: Seq::empty(), data: d });
            let nodes2 = if st.stack.len() > 0 {
                append_view(base, st.stack.last() as int, idx as int)
            } else {
                base
            };
            BuildState {
                nodes: nodes2,
                stack: st.stack.push(idx),
                root: if st.root is None {
                    Some(idx)
                } else {
                    st.root
                },
            }
        },
        EventV::Close => BuildState {
            nodes: st.nodes,
            stack: if st.stack.len() > 0 {
                st.stack.drop_last()
            } else {
                st.stack
            },
            root: st.root,
        },
    }
}

/// The builder run over a whole event stream.
pub open spec fn build_run(st: BuildState, evs: Seq<EventV>) -> BuildState
    decreases evs.len(),
{
    if evs.len() == 0 {
        st
    } else {
        build_step(build_run(st, evs.drop_last()), evs.last())
    }
}

/// The builder's invariant over a base store of length `base_len`: the store
/// stays well formed, only grows, and everything open lies in the new
/// region.
pub open spec fn build_inv(st: BuildState, base_len: int) -> bool {
    &&& wf_nodes(st.nodes)
    &&& 0 <= base_len <= st.nodes.len()
    &&& forall|k: int|
        0 <= k < st.stack.len() ==> base_len <= (#[trigger] st.stack[k]) as int && (
        st.stack[k] as int) < st.nodes.len()
    &&& (match st.root {
        Some(r) => base_len <= r as int && (r as int) < st.nodes.len(),
        None => st.nodes.len() == base_len && st.stack.len() == 0,
    })
}

proof fn lemma_build_step(st: BuildState, ev: EventV, base_len: int)
    requires
        build_inv(st, base_len),
        (ev matches EventV::Open(_)) ==> st.nodes.len() < usize::MAX,
    ensures
        build_inv(build_step(st, ev), base_len),
        st.nodes.len() <= build_step(st, ev).nodes.len() <= st.nodes.len() + 1,
        forall|j: int|
            0 <= j < base_len ==> (#[trigger] build_step(st, ev).nodes[j]) == st.nodes[j],
        forall|j: int|
            0 <= j < st.nodes.len() ==> (#[trigger] build_step(st, ev).nodes[j]).data
                == st.nodes[j].data && build_step(st, ev).nodes[j].parent == st.nodes[j].parent,
        st.root is Some ==> build_step(st, ev).root == st.root,
{
    match ev {
        EventV::Open(d) => {
            let idx = st.nodes.len() as usize;
            let base = st.nodes.push(NodeV { parent: None, children: Seq::empty(), data: d });
            assert(wf_nodes(base)) by {
                assert forall|i: int| 0 <= i < base.len() implies #[trigger] wf_at(base, i) by {
                    if i < st.nodes.len() {
                        assert(wf_at(st.nodes, i));
                        assert forall|k: int| 0 <= k < base[i].children.len() implies i
                            < (#[trigger] base[i].children[k]) as int && (base[i].children[k] as int)
                            < base.len() by {
                            assert(wf_at(st.nodes, i));
                        }
                    }
                }
            }
            if st.stack.len() > 0 {
                let p = st.stack.last() as int;
                lemma_append_view_wf(base, p, idx as int);
            }
        },
        EventV::Close => {},
    }
}

impl HtmlContext {
    /// Replays the events `evs[start..end]` into the arena, continuing from
    /// the given stack of open nodes and first-opened root.
    #[verifier::loop_isolation(false)]
    fn run_build(
        &mut self,
        evs: &Vec<HtmlEvent>,
        start: usize,
        end: usize,
        stack0: Vec<usize>,
        root0: Option<usize>,
        Ghost(base_len): Ghost<int>,
    ) -> (root: Option<usize>)
        requires
            start <= end <= evs.len(),
            build_inv(
                BuildState { nodes: old(self).nodes_view(), stack: stack0@, root: root0 },
                base_len,
            ),
            root0 matches Some(r) ==> old(self).nodes_view()[r as int].parent is None,
        ensures
            final(self).id() == old(self).id(),
            final(self).wf(),
            ({
                let st0 = BuildState { nodes: old(self).nodes_view(), stack: stack0@, root: root0 };
                let evv = events_view(evs@);
                let res = build_run(st0, evv.subrange(start as int, end as int));
                &&& final(self).nodes_view() == res.nodes
                &&& root == res.root
                &&& build_inv(res, base_len)
                &&& forall|j: int|
                    0 <= j < base_len ==> (#[trigger] final(self).nodes_view()[j])
                        == old(self).nodes_view()[j]
                &&& (root0 is Some ==> root == root0)
                &&& (root matches Some(r) ==> final(self).nodes_view()[r as int].parent is None
                    && base_len <= r as int && (r as int) < final(self).nodes_view().len())
                &&& (root0 is None && start < end ==> match evv[start as int] {
                    EventV::Open(d) => root == Some(old(self).nodes_view().len() as usize)
                        && final(self).nodes_view()[old(self).nodes_view().len() as int].data == d,
                    EventV::Close => true,
                })
            }),
    {
        let ghost st0 = BuildState { nodes: self.nodes_view(), stack: stack0@, root: root0 };
        let ghost evv = events_view(evs@);
        let mut stack = stack0;
        let mut root = root0;
        let mut i = start;
        proof {
            assert(evv.subrange(start as int, start as int) =~= Seq::<EventV>::empty());
        }
        while i < end
            invariant
                start <= i <= end,
                ({
                    let cur = build_run(st0, evv.subrange(start as int, i as int));
                    &&& self.nodes_view() == cur.nodes
                    &&& stack@ == cur.stack
                    &&& root == cur.root
                }),
                build_inv(
                    BuildState { nodes: self.nodes_view(), stack: stack@, root },
                    base_len,
                ),
                forall|j: int|
                    0 <= j < base_len ==> (#[trigger] self.nodes_view()[j]) == st0.nodes[j],
                root0 is Some ==> root == root0,
                root matches Some(r) ==> self.nodes_view()[r as int].parent is None,
                root0 is None && i > start ==> match evv[start as int] {
                    EventV::Open(d) => root == Some(st0.nodes.len() as usize)
                        && self.nodes_view()[st0.nodes.len() as int].data == d,
                    EventV::Close => true,
                },
                self.id() == old(self).id(),
            decreases end - i,
        {
            let ghost pre = BuildState { nodes: self.nodes_view(), stack: stack@, root };
            match &evs[i] {
                HtmlEvent::Open(d) => {
                    let idx = self.push_orphan(crate::events::clone_data(d));
                    let n2 = self.nodes.len();
                    proof {
                        assert(pre.nodes.len() < usize::MAX) by {
                            assert(self.nodes_view().len() == self.nodes@.len());
                            assert(n2 as int == self.nodes@.len());
                            assert(self.nodes_view().len() == pre.nodes.len() + 1);
                        }
                    }
                    if stack.len() > 0 {
                        let p = stack[stack.len() - 1];
                        self.link_child(p, idx);
                    }
                    stack.push(idx);
                    if root.is_none() {
                        root = Some(idx);
                    }
                    proof {
                        lemma_build_step(pre, evv[i as int], base_len);
                        let stepped = build_step(pre, evv[i as int]);
                        assert(evv[i as int] == evs@[i as int]@);
                        assert(self.nodes_view() =~= stepped.nodes);
                        assert(stack@ =~= stepped.stack);
                    }
                },
                HtmlEvent::Close => {
                    if stack.len() > 0 {
                        stack.pop();
                    }
                    proof {
                        lemma_build_step(pre, evv[i as int], base_len);
                        let stepped = build_step(pre, evv[i as int]);
                        assert(evv[i as int] == evs@[i as int]@);
                        assert(self.nodes_view() =~= stepped.nodes);
                        assert(stack@ =~= stepped.stack);
                    }
                },
            }
            proof {
                assert(evv.subrange(start as int, (i + 1) as int).drop_last() =~= evv.subrange(
                    start as int,
                    i as int,
                ));
                assert(evv.subrange(start as int, (i + 1) as int).last() == evv[i as int]);
            }
            i = i + 1;
        }
        root
    }
}

/// Whether the node at `root` holds exactly one child, and that child is an
/// element: the shape the fragment parser produces, with its synthetic
/// context element wrapping the real fragment content.
pub open spec fn unwrappable(nodes: Seq<NodeV>, root: int) -> bool {
    &&& nodes[root].children.len() == 1
    &&& (nodes[root].children[0] as int) < nodes.len()
    &&& data_kind(nodes[nodes[root].children[0] as int].data) == NodeType::Element
}

/// The store after dissolving the synthetic context element under `root`:
/// its children become `root`'s children and it is left an orphan with no
/// children.
pub open spec fn unwrap_view(nodes: Seq<NodeV>, root: int) -> Seq<NodeV> {
    let h = nodes[root].children[0];
    nodes.map(
        |j: int, n: NodeV|
            if j == root {
                NodeV { parent: n.parent, children: nodes[h as int].children, data: n.data }
            } else if j == h as int {
                NodeV { parent: None, children: Seq::empty(), data: n.data }
            } else if n.parent == Some(h) {
                NodeV { parent: Some(root as usize), children: n.children, data: n.data }
            } else {
                n
            },
    )
}

/// The store mid-dissolution: `root` and the context element are rewritten,
/// and the first `k` of the context element's children already point at
/// `root`.
pub open spec fn unwrap_partial(nodes: Seq<NodeV>, root: int, k: int) -> Seq<NodeV> {
    let h = nodes[root].children[0];
    nodes.map(
        |j: int, n: NodeV|
            if j == root {
                NodeV { parent: n.parent, children: nodes[h as int].children, data: n.data }
            } else if j == h as int {
                NodeV { parent: None, children: Seq::empty(), data: n.data }
            } else if nodes[h as int].children.take(k).contains(j as usize) {
                NodeV { parent: Some(root as usize), children: n.children, data: n.data }
            } else {
                n
            },
    )
}

proof fn lemma_unwrap_wf(nodes: Seq<NodeV>, root: int)
    requires
        wf_nodes(nodes),
        nodes.len() <= usize::MAX,
        0 <= root < nodes.len(),
        unwrappable(nodes, root),
        nodes[root].parent is None,
    ensures
        wf_nodes(unwrap_view(nodes, root)),
{
    let h = nodes[root].children[0];
    let hi = h as int;
    let v2 = unwrap_view(nodes, root);
    assert(wf_at(nodes, root));
    assert(root < hi < nodes.len());
    assert(nodes[hi].parent == Some(root as usize));
    assert(wf_at(nodes, hi));
    assert forall|i: int| 0 <= i < v2.len() implies #[trigger] wf_at(v2, i) by {
        assert(wf_at(nodes, i));
        if i == root {
            assert(v2[root].parent is None);
            assert forall|k: int| 0 <= k < v2[root].children.len() implies root
                < (#[trigger] v2[root].children[k]) as int && (v2[root].children[k] as int)
                < v2.len() && v2[(v2[root].children[k]) as int].parent == Some(root as usize) by {
                let x = nodes[hi].children[k];
                assert(hi < x as int && (x as int) < nodes.len());
                assert(nodes[x as int].parent == Some(h));
                assert(x as int != root && x as int != hi);
                assert(nodes[hi].children.contains(x));
            }
        } else if i == hi {
            assert(v2[hi].parent is None);
            assert(v2[hi].children.len() == 0);
        } else if nodes[i].parent == Some(h) {
            // A former child of the context element: now a child of `root`.
            assert(hi < i);
            assert(nodes[hi].children.contains(i as usize));
            assert(v2[root].children == nodes[hi].children);
            assert(v2[i].parent == Some(root as usize));
            assert forall|k: int| 0 <= k < v2[i].children.len() implies i
                < (#[trigger] v2[i].children[k]) as int && (v2[i].children[k] as int) < v2.len()
                && v2[(v2[i].children[k]) as int].parent == Some(i as usize) by {
                let x = nodes[i].children[k];
                assert(nodes[x as int].parent == Some(i as usize));
                assert(x as int != root && x as int != hi);
            }
        } else {
            match nodes[i].parent {
                Some(q) => {
                    assert(q < i);
                    assert(nodes[q as int].children.contains(i as usize));
                    if q as int == root {
                        // `root`'s only child was the context element.
                        let k = choose|k: int|
                            0 <= k < nodes[root].children.len() && nodes[root].children[k]
                                == i as usize;
                        assert(nodes[root].children[0] == i as usize);
                        assert(i == hi);
                        assert(false);
                    } else if q as int == hi {
                        assert(nodes[i].parent == Some(h));
                        assert(false);
                    } else {
                        assert(v2[q as int].children == nodes[q as int].children);
                    }
                },
                None => {},
            }
            assert forall|k: int| 0 <= k < v2[i].children.len() implies i
                < (#[trigger] v2[i].children[k]) as int && (v2[i].children[k] as int) < v2.len()
                && v2[(v2[i].children[k]) as int].parent == Some(i as usize) by {
                let x = nodes[i].children[k];
                assert(nodes[x as int].parent == Some(i as usize));
                if x as int == root {
                    assert(nodes[root].parent is None);
                    assert(false);
                }
                if x as int == hi {
                    assert(nodes[hi].parent == Some(root as usize));
                    assert(i == root);
                    assert(false);
                }
                assert(nodes[x as int].parent != Some(h)) by {
                    if nodes[x as int].parent == Some(h) {
                        assert(i == hi);
                    }
                }
            }
        }
    }
}

impl HtmlContext {
    /// Dissolves the synthetic context element under the freshly built
    /// fragment root at `root`.
    #[verifier::loop_isolation(false)]
    fn unwrap_fragment(&mut self, root: usize)
        requires
            old(self).wf(),
            (root as int) < old(self).nodes_view().len(),
            unwrappable(old(self).nodes_view(), root as int),
            old(self).nodes_view()[root as int].parent is None,
        ensures
            final(self).wf(),
            final(self).id() == old(self).id(),
            final(self).nodes_view() == unwrap_view(old(self).nodes_view(), root as int),
    {
        let ghost v1 = self.nodes_view();
        let tot0 = self.nodes.len();
        proof {
            assert(wf_at(v1, root as int));
            assert(v1.len() == tot0 as int);
        }
        let h = self.nodes[root].children[0];
        proof {
            assert(v1[root as int].children[0] == h);
            assert(wf_at(v1, h as int));
        }
        // Move the context element's child list onto the root.
        let mut hch: Vec<usize> = Vec::new();
        std::mem::swap(&mut hch, &mut node_mut(&mut self.nodes, h).children);
        node_mut(&mut self.nodes, h).parent = None;
        let hlen = hch.len();
        let ghost chv = hch@;
        node_mut(&mut self.nodes, root).children = hch;
        proof {
            assert(self.nodes_view() =~= unwrap_partial(v1, root as int, 0)) by {
                assert(v1[(v1[root as int].children[0]) as int].children.take(0)
                    =~= Seq::<usize>::empty());
                assert forall|j: int| 0 <= j < v1.len() implies self.nodes_view()[j]
                    == unwrap_partial(v1, root as int, 0)[j] by {
                    assert(chv == v1[h as int].children);
                }
            }
        }
        let mut k: usize = 0;
        while k < hlen
            invariant
                k <= hlen,
                hlen as int == chv.len(),
                chv == v1[h as int].children,
                v1.len() <= usize::MAX,
                self.nodes_view() == unwrap_partial(v1, root as int, k as int),
                self.id() == old(self).id(),
            decreases hlen - k,
        {
            let ghost vk = self.nodes_view();
            let c = self.nodes[root].children[k];
            proof {
                assert(vk[root as int].children == chv);
                assert(c == chv[k as int]);
                assert(wf_at(v1, h as int));
                assert((c as int) < v1.len());
            }
            node_mut(&mut self.nodes, c).parent = Some(root);
            proof {
                assert(chv.take(k as int + 1) =~= chv.take(k as int).push(chv[k as int]));
                assert(self.nodes_view() =~= vk.update(
                    c as int,
                    NodeV {
                        parent: Some(root),
                        children: vk[c as int].children,
                        data: vk[c as int].data,
                    },
                ));
                // `c` is not among the first `k` children: the list has no
                // duplicates.
                assert(!chv.take(k as int).contains(c)) by {
                    if chv.take(k as int).contains(c) {
                        let m = choose|m: int|
                            0 <= m < chv.take(k as int).len() && #[trigger] chv.take(k as int)[m]
                                == c;
                        assert(chv[m] == chv[k as int]);
                        assert(wf_at(v1, h as int));
                        assert(false);
                    }
                }
                assert forall|j: int| 0 <= j < v1.len() implies self.nodes_view()[j]
                    == unwrap_partial(v1, root as int, k as int + 1)[j] by {
                    if j != c as int {
                        assert(chv.take(k as int + 1).contains(j as usize) == chv.take(
                            k as int,
                        ).contains(j as usize)) by {
                            if chv.take(k as int + 1).contains(j as usize) {
                                let t1 = chv.take(k as int + 1);
                                let m = choose|m: int|
                                    0 <= m < t1.len() && #[trigger] t1[m] == j as usize;
                                if m < k as int {
                                    assert(chv.take(k as int)[m] == j as usize);
                                }
                            } else {
                                if chv.take(k as int).contains(j as usize) {
                                    let m = choose|m: int|
                                        0 <= m < chv.take(k as int).len() && chv.take(k as int)[m]
                                            == j as usize;
                                    assert(chv.take(k as int + 1)[m] == j as usize);
                                }
                            }
                        }
                    } else {
                        assert(chv.take(k as int + 1)[k as int] == c);
                        assert(chv.take(k as int + 1).contains(c));
                        assert(c as int != root as int) by {
                            assert(wf_at(v1, h as int));
                            assert(root < h < chv[k as int]);
                        }
                        assert(c as int != h as int) by {
                            assert(h < chv[k as int]);
                        }
                    }
                }
                assert(self.nodes_view() =~= unwrap_partial(v1, root as int, k as int + 1));
            }
            k = k + 1;
        }
        proof {
            assert(chv.take(hlen as int) =~= chv);
            let vu = unwrap_view(v1, root as int);
            assert forall|j: int| 0 <= j < v1.len() implies self.nodes_view()[j] == vu[j] by {
                assert(wf_at(v1, h as int));
                if j != root as int && j != h as int {
                    if v1[j].parent == Some(h) {
                        assert(wf_at(v1, j));
                        assert(v1[h as int].children.contains(j as usize));
                    } else {
                        if chv.contains(j as usize) {
                            let m = choose|m: int| 0 <= m < chv.len() && chv[m] == j as usize;
                            assert(v1[j].parent == Some(h));
                        }
                    }
                }
            }
            assert(self.nodes_view() =~= vu);
            let total = self.nodes.len();
            assert(self.nodes_view().len() == self.nodes@.len());
            assert(total as int == self.nodes@.len());
            assert(v1.len() == self.nodes_view().len());
            lemma_unwrap_wf(v1, root as int);
        }
    }
}

impl HtmlNode {
    /// Whether this handle names an element node.
    pub fn is_element(&self) -> (r: bool)
        ensures
            r == (self.kind == NodeType::Element),
    {
        kind_eq(self.kind, NodeType::Element)
    }

    /// Whether this handle names a text node.
    pub fn is_text(&self) -> (r: bool)
        ensures
            r == (self.kind == NodeType::Text),
    {
        kind_eq(self.kind, NodeType::Text)
    }

    /// Whether this handle names a doctype node.
    pub fn is_doctype(&self) -> (r: bool)
        ensures
            r == (self.kind == NodeType::Doctype),
    {
        kind_eq(self.kind, NodeType::Doctype)
    }

    /// Whether this handle names a processing instruction.
    pub fn is_pi(&self) -> (r: bool)
        ensures
            r == (self.kind == NodeType::ProcessingInstruction),
    {
        kind_eq(self.kind, NodeType::ProcessingInstruction)
    }

    /// Whether this handle names a comment node.
    pub fn is_comment(&self) -> (r: bool)
        ensures
            r == (self.kind == NodeType::Comment),
    {
        kind_eq(self.kind, NodeType::Comment)
    }

    /// Whether this handle names a document root.
    pub fn is_document(&self) -> (r: bool)
        ensures
            r == (self.kind == NodeType::Document),
    {
        kind_eq(self.kind, NodeType::Document)
    }

    /// Whether this handle names a fragment root.
    pub fn is_fragment(&self) -> (r: bool)
        ensures
            r == (self.kind == NodeType::Fragment),
    {
        kind_eq(self.kind, NodeType::Fragment)
    }

    /// Whether the two handles name the same node of the same session.
    pub fn is_same(&self, other: &HtmlNode) -> (r: bool)
        ensures
            r == (*self == *other),
    {
        *self == *other
    }
}

impl HtmlContext {
    /// The handles of the children of the element `node` acts on.
    #[verifier::loop_isolation(false)]
    pub fn children(&self, node: &HtmlNode) -> (r: Result<Vec<HtmlNode>, LibError>)
        requires
            self.wf(),
        ensures
            node.ctx_id != self.id() ==> r == Err::<Vec<HtmlNode>, LibError>(
                LibError::ContextMismatch,
            ),
            node.ctx_id == self.id() && !self.owns(*node) ==> r == Err::<Vec<HtmlNode>, LibError>(
                LibError::InvalidHandle,
            ),
            self.owns(*node) ==> match spec_resolve(self.nodes_view(), *node) {
                Ok(i) => (r matches Ok(v) && {
                    &&& v@.len() == self.nodes_view()[i as int].children.len()
                    &&& forall|k: int|
                        0 <= k < v@.len() ==> (#[trigger] v@[k]) == (HtmlNode {
                            ctx_id: self.id(),
                            node_id: self.nodes_view()[i as int].children[k],
                            kind: data_kind(
                                self.nodes_view()[self.nodes_view()[i as int].children[k] as int].data,
                            ),
                        })
                }),
                Err(e) => r == Err::<Vec<HtmlNode>, LibError>(e),
            },
    {
        if let Err(e) = self.check_handle(node) {
            return Err(e);
        }
        let i = match self.resolve_element(node) {
            Ok(i) => i,
            Err(e) => {
                return Err(e);
            },
        };
        proof {
            assert(wf_at(self.nodes_view(), i as int));
        }
        let clen = self.child_count_at(i);
        let mut v: Vec<HtmlNode> = Vec::new();
        let mut k: usize = 0;
        while k < clen
            invariant
                k <= clen,
                v@.len() == k as int,
                forall|m: int|
                    0 <= m < k ==> (#[trigger] v@[m]) == (HtmlNode {
                        ctx_id: self.id(),
                        node_id: self.nodes_view()[i as int].children[m],
                        kind: data_kind(
                            self.nodes_view()[self.nodes_view()[i as int].children[m] as int].data,
                        ),
                    }),
            decreases clen - k,
        {
            let c = self.child_at(i, k);
            v.push(self.mint(c));
            k = k + 1;
        }
        Ok(v)
    }

    /// How many children the element `node` acts on has.
    pub fn child_count(&self, node: &HtmlNode) -> (r: Result<usize, LibError>)
        requires
            self.wf(),
        ensures
            node.ctx_id != self.id() ==> r == Err::<usize, LibError>(LibError::ContextMismatch),
            node.ctx_id == self.id() && !self.owns(*node) ==> r == Err::<usize, LibError>(
                LibError::InvalidHandle,
            ),
            self.owns(*node) ==> match spec_resolve(self.nodes_view(), *node) {
                Ok(i) => (r matches Ok(n) && n as int == self.nodes_view()[i as int].children.len()),
                Err(e) => r == Err::<usize, LibError>(e),
            },
    {
        if let Err(e) = self.check_handle(node) {
            return Err(e);
        }
        let i = match self.resolve_element(node) {
            Ok(i) => i,
            Err(e) => {
                return Err(e);
            },
        };
        Ok(self.child_count_at(i))
    }

    /// The parent of the element `node` acts on, or nothing for a node
    /// without a parent. A fragment root is synthetic structure and is
    /// never surfaced as a parent.
    pub fn parent(&self, node: &HtmlNode) -> (r: Result<Option<HtmlNode>, LibError>)
        requires
            self.wf(),
        ensures
            node.ctx_id != self.id() ==> r == Err::<Option<HtmlNode>, LibError>(
                LibError::ContextMismatch,
            ),
            node.ctx_id == self.id() && !self.owns(*node) ==> r == Err::<Option<HtmlNode>, LibError>(
                LibError::InvalidHandle,
            ),
            self.owns(*node) ==> match spec_resolve(self.nodes_view(), *node) {
                Ok(i) => match self.nodes_view()[i as int].parent {
                    None => r == Ok::<Option<HtmlNode>, LibError>(None),
                    Some(p) => {
                        if data_kind(self.nodes_view()[p as int].data) == NodeType::Fragment {
                            r == Ok::<Option<HtmlNode>, LibError>(None)
                        } else {
                            (r matches Ok(Some(h)) && h == (HtmlNode {
                                ctx_id: self.id(),
                                node_id: p,
                                kind: data_kind(self.nodes_view()[p as int].data),
                            }))
                        }
                    },
                },
                Err(e) => r == Err::<Option<HtmlNode>, LibError>(e),
            },
    {
        if let Err(e) = self.check_handle(node) {
            return Err(e);
        }
        let i = match self.resolve_element(node) {
            Ok(i) => i,
            Err(e) => {
                return Err(e);
            },
        };
        proof {
            assert(self.nodes_view()[i as int] == self.nodes@[i as int]@);
            assert(wf_at(self.nodes_view(), i as int));
        }
        match self.nodes[i].parent {
            None => Ok(None),
            Some(p) => {
                if kind_eq(data_kind_exec(self.node_data(p)), NodeType::Fragment) {
                    Ok(None)
                } else {
                    Ok(Some(self.mint(p)))
                }
            },
        }
    }

    /// Binds attribute `name` to `value` on the element the handle acts
    /// on: the first existing binding of `name` is replaced, else the pair
    /// is appended.
    #[verifier::loop_isolation(false)]
    pub fn set_attribute(&mut self, node: &HtmlNode, name: &str, value: &str) -> (r: Result<
        (),
        LibError,
    >)
        requires
            old(self).wf(),
        ensures
            final(self).wf(),
            final(self).id() == old(self).id(),
            r is Err ==> *final(self) == *old(self),
            node.ctx_id != old(self).id() ==> r == Err::<(), LibError>(LibError::ContextMismatch),
            node.ctx_id == old(self).id() && !old(self).owns(*node) ==> r == Err::<(), LibError>(
                LibError::InvalidHandle,
            ),
            old(self).owns(*node) ==> match spec_resolve(old(self).nodes_view(), *node) {
                Ok(i) => r is Ok && (old(self).nodes_view()[i as int].data matches
                    NodeDataV::Element { name: n0, attrs } && final(self).nodes_view() == old(self).nodes_view().update(
                    i as int,
                    NodeV {
                        parent: old(self).nodes_view()[i as int].parent,
                        children: old(self).nodes_view()[i as int].children,
                        data: NodeDataV::Element {
                            name: n0,
                            attrs: attr_set_from(attrs, name@, value@, 0),
                        },
                    },
                )),
                Err(e) => r == Err::<(), LibError>(e),
            },
    {
        if let Err(e) = self.check_handle(node) {
            return Err(e);
        }
        let i = match self.resolve_element(node) {
            Ok(i) => i,
            Err(e) => {
                return Err(e);
            },
        };
        let ghost v1 = self.nodes_view();
        let name_c = crate::chars::str_to_chars(name);
        let value_c = crate::chars::str_to_chars(value);
        proof {
            assert(v1[i as int] == self.nodes@[i as int]@);
        }
        let n = node_mut(&mut self.nodes, i);
        match &mut n.data {
            NodeData::Element { attrs, .. } => {
                let ghost av = attrs@.map(|j: int, p: (Vec<char>, Vec<char>)| (p.0@, p.1@));
                let mut k: usize = 0;
                let mut found = false;
                while k < attrs.len() && !found
                    invariant
                        k <= attrs@.len(),
                        av.len() == attrs@.len(),
                        !found ==> av == attrs@.map(
                            |j: int, p: (Vec<char>, Vec<char>)| (p.0@, p.1@),
                        ),
                        !found ==> attr_set_from(av, name@, value@, 0) == attr_set_from(
                            av,
                            name@,
                            value@,
                            k as int,
                        ),
                        found ==> attrs@.map(|j: int, p: (Vec<char>, Vec<char>)| (p.0@, p.1@))
                            == attr_set_from(av, name@, value@, 0),
                        name_c@ == name@,
                        value_c@ == value@,
                    decreases attrs@.len() - k + (if found { 0int } else { 1int }),
                {
                    proof {
                        assert(av[k as int] == (attrs@[k as int].0@, attrs@[k as int].1@));
                    }
                    if crate::chars::chars_eq(&attrs[k].0, &name_c) {
                        let p = pair_mut(attrs, k);
                        p.0 = crate::chars::clone_chars(&name_c);
                        p.1 = crate::chars::clone_chars(&value_c);
                        found = true;
                        proof {
                            let av2 = attrs@.map(|j: int, p: (Vec<char>, Vec<char>)| (p.0@, p.1@));
                            assert(av2 =~= av.update(k as int, (name@, value@)));
                        }
                    } else {
                        k = k + 1;
                    }
                }
                if !found {
                    attrs.push((crate::chars::clone_chars(&name_c), crate::chars::clone_chars(&value_c)));
                    proof {
                        let av2 = attrs@.map(|j: int, p: (Vec<char>, Vec<char>)| (p.0@, p.1@));
                        assert(av2 =~= av.push((name@, value@)));
                    }
                }
            },
            _ => {},
        }
        proof {
            let v2 = self.nodes_view();
            assert(v2 =~= v1.update(
                i as int,
                NodeV {
                    parent: v1[i as int].parent,
                    children: v1[i as int].children,
                    data: NodeDataV::Element {
                        name: v1[i as int].data->Element_name,
                        attrs: attr_set_from(v1[i as int].data->Element_attrs, name@, value@, 0),
                    },
                },
            ));
            lemma_wf_data_update(v1, v2);
        }
        Ok(())
    }

    /// The names of the element's attributes, in order.
    #[verifier::loop_isolation(false)]
    pub fn list_attributes(&self, node: &HtmlNode) -> (r: Result<Vec<String>, LibError>)
        requires
            self.wf(),
        ensures
            node.ctx_id != self.id() ==> r == Err::<Vec<String>, LibError>(
                LibError::ContextMismatch,
            ),
            node.ctx_id == self.id() && !self.owns(*node) ==> r == Err::<Vec<String>, LibError>(
                LibError::InvalidHandle,
            ),
            self.owns(*node) ==> match spec_resolve(self.nodes_view(), *node) {
                Ok(i) => (r matches Ok(v) && v@.map(|q: int, s: String| s@)
                    == self.nodes_view()[i as int].data->Element_attrs.map(
                    |q: int, p: (Seq<char>, Seq<char>)| p.0,
                )),
                Err(e) => r == Err::<Vec<String>, LibError>(e),
            },
    {
        if let Err(e) = self.check_handle(node) {
            return Err(e);
        }
        let i = match self.resolve_element(node) {
            Ok(i) => i,
            Err(e) => {
                return Err(e);
            },
        };
        proof {
            assert(self.nodes_view()[i as int].data == self.nodes@[i as int]@.data);
        }
        match &self.nodes[i].data {
            NodeData::Element { attrs, .. } => {
                let ghost av = self.nodes_view()[i as int].data->Element_attrs;
                let mut names: Vec<String> = Vec::new();
                let mut k: usize = 0;
                while k < attrs.len()
                    invariant
                        k <= attrs@.len(),
                        av.len() == attrs@.len(),
                        av == attrs@.map(|j: int, p: (Vec<char>, Vec<char>)| (p.0@, p.1@)),
                        names@.len() == k as int,
                        forall|m: int| 0 <= m < k ==> (#[trigger] names@[m])@ == av[m].0,
                    decreases attrs@.len() - k,
                {
                    proof {
                        assert(av[k as int] == (attrs@[k as int].0@, attrs@[k as int].1@));
                    }
                    names.push(crate::chars::chars_to_string(&attrs[k].0));
                    k = k + 1;
                }
                proof {
                    assert(names@.map(|q: int, s: String| s@) =~= av.map(
                        |q: int, p: (Seq<char>, Seq<char>)| p.0,
                    ));
                }
                Ok(names)
            },
            _ => {
                proof {
                    assert(self.nodes_view()[i as int].data == self.nodes@[i as int]@.data);
                }
                Err(LibError::NotAnElement)
            },
        }
    }

    /// Removes every attribute of the element the handle acts on.
    pub fn clear_attributes(&mut self, node: &HtmlNode) -> (r: Result<(), LibError>)
        requires
            old(self).wf(),
        ensures
            final(self).wf(),
            final(self).id() == old(self).id(),
            r is Err ==> *final(self) == *old(self),
            node.ctx_id != old(self).id() ==> r == Err::<(), LibError>(LibError::ContextMismatch),
            node.ctx_id == old(self).id() && !old(self).owns(*node) ==> r == Err::<(), LibError>(
                LibError::InvalidHandle,
            ),
            old(self).owns(*node) ==> match spec_resolve(old(self).nodes_view(), *node) {
                Ok(i) => r is Ok && (old(self).nodes_view()[i as int].data matches
                    NodeDataV::Element { name: n0, .. } && final(self).nodes_view() == old(
                    self,
                ).nodes_view().update(
                    i as int,
                    NodeV {
                        parent: old(self).nodes_view()[i as int].parent,
                        children: old(self).nodes_view()[i as int].children,
                        data: NodeDataV::Element { name: n0, attrs: Seq::empty() },
                    },
                )),
                Err(e) => r == Err::<(), LibError>(e),
            },
    {
        if let Err(e) = self.check_handle(node) {
            return Err(e);
        }
        let i = match self.resolve_element(node) {
            Ok(i) => i,
            Err(e) => {
                return Err(e);
            },
        };
        let ghost v1 = self.nodes_view();
        let n = node_mut(&mut self.nodes, i);
        match &mut n.data {
            NodeData::Element { attrs, .. } => {
                attrs.clear();
                proof {
                    assert(attrs@.map(|j: int, p: (Vec<char>, Vec<char>)| (p.0@, p.1@)) =~= Seq::<
                        (Seq<char>, Seq<char>),
                    >::empty());
                }
            },
            _ => {},
        }
        proof {
            let v2 = self.nodes_view();
            assert(v2 =~= v1.update(
                i as int,
                NodeV {
                    parent: v1[i as int].parent,
                    children: v1[i as int].children,
                    data: NodeDataV::Element {
                        name: v1[i as int].data->Element_name,
                        attrs: Seq::empty(),
                    },
                },
            ));
            lemma_wf_data_update(v1, v2);
        }
        Ok(())
    }

    /// Removes the binding of attribute `name`, if present, from the
    /// element the handle acts on.
    #[verifier::loop_isolation(false)]
    pub fn delete_attribute(&mut self, node: &HtmlNode, name: &str) -> (r: Result<(), LibError>)
        requires
            old(self).wf(),
        ensures
            final(self).wf(),
            final(self).id() == old(self).id(),
            r is Err ==> *final(self) == *old(self),
            node.ctx_id != old(self).id() ==> r == Err::<(), LibError>(LibError::ContextMismatch),
            node.ctx_id == old(self).id() && !old(self).owns(*node) ==> r == Err::<(), LibError>(
                LibError::InvalidHandle,
            ),
            old(self).owns(*node) ==> match spec_resolve(old(self).nodes_view(), *node) {
                Ok(i) => r is Ok && (old(self).nodes_view()[i as int].data matches
                    NodeDataV::Element { name: n0, attrs } && final(self).nodes_view() == old(self).nodes_view().update(
                    i as int,
                    NodeV {
                        parent: old(self).nodes_view()[i as int].parent,
                        children: old(self).nodes_view()[i as int].children,
                        data: NodeDataV::Element {
                            name: n0,
                            attrs: attr_remove_from(attrs, name@, 0),
                        },
                    },
                )),
                Err(e) => r == Err::<(), LibError>(e),
            },
    {
        if let Err(e) = self.check_handle(node) {
            return Err(e);
        }
        let i = match self.resolve_element(node) {
            Ok(i) => i,
            Err(e) => {
                return Err(e);
            },
        };
        let ghost v1 = self.nodes_view();
        let name_c = crate::chars::str_to_chars(name);
        proof {
            assert(v1[i as int] == self.nodes@[i as int]@);
        }
        let n = node_mut(&mut self.nodes, i);
        match &mut n.data {
            NodeData::Element { attrs, .. } => {
                let ghost av = attrs@.map(|j: int, p: (Vec<char>, Vec<char>)| (p.0@, p.1@));
                let mut k: usize = 0;
                let mut found = false;
                while k < attrs.len() && !found
                    invariant
                        k <= attrs@.len(),
                        av.len() >= attrs@.len(),
                        !found ==> av == attrs@.map(
                            |j: int, p: (Vec<char>, Vec<char>)| (p.0@, p.1@),
                        ),
                        !found ==> attr_remove_from(av, name@, 0) == attr_remove_from(
                            av,
                            name@,
                            k as int,
                        ),
                        found ==> attrs@.map(|j: int, p: (Vec<char>, Vec<char>)| (p.0@, p.1@))
                            == attr_remove_from(av, name@, 0),
                        name_c@ == name@,
                    decreases attrs@.len() - k + (if found { 0int } else { 1int }),
                {
                    proof {
                        assert(av[k as int] == (attrs@[k as int].0@, attrs@[k as int].1@));
                    }
                    if crate::chars::chars_eq(&attrs[k].0, &name_c) {
                        attrs.remove(k);
                        found = true;
                        proof {
                            let av2 = attrs@.map(|j: int, p: (Vec<char>, Vec<char>)| (p.0@, p.1@));
                            assert(av2 =~= av.remove(k as int));
                        }
                    } else {
                        k = k + 1;
                    }
                }
            },
            _ => {},
        }
        proof {
            let v2 = self.nodes_view();
            assert(v2 =~= v1.update(
                i as int,
                NodeV {
                    parent: v1[i as int].parent,
                    children: v1[i as int].children,
                    data: NodeDataV::Element {
                        name: v1[i as int].data->Element_name,
                        attrs: attr_remove_from(v1[i as int].data->Element_attrs, name@, 0),
                    },
                },
            ));
            lemma_wf_data_update(v1, v2);
        }
        Ok(())
    }
}

/// The indices of the strict ancestors of row `i`, nearest first.
pub open spec fn ancestor_chain(nodes: Seq<NodeV>, i: int) -> Seq<usize>
    decreases i,
    when 0 <= i < nodes.len() && wf_nodes(nodes)
    via ancestor_chain_decreases
{
    match nodes[i].parent {
        None => Seq::empty(),
        Some(p) => seq![p] + ancestor_chain(nodes, p as int),
    }
}

#[via_fn]
proof fn ancestor_chain_decreases(nodes: Seq<NodeV>, i: int) {
    assert(wf_at(nodes, i));
}

/// The elements of `xs` other than `x`, in order.
pub open spec fn excluding(xs: Seq<usize>, x: usize) -> Seq<usize>
    decreases xs.len(),
{
    if xs.len() == 0 {
        Seq::empty()
    } else if xs.last() == x {
        excluding(xs.drop_last(), x)
    } else {
        excluding(xs.drop_last(), x).push(xs.last())
    }
}

impl HtmlContext {
    /// Unlinks `node` from its parent: the surface name for detachment.
    pub fn delete_element(&mut self, node: &HtmlNode) -> (r: Result<(), LibError>)
        requires
            old(self).wf(),
        ensures
            final(self).wf(),
            final(self).id() == old(self).id(),
            r is Err ==> *final(self) == *old(self),
            node.ctx_id != old(self).id() ==> r == Err::<(), LibError>(LibError::ContextMismatch),
            node.ctx_id == old(self).id() && !old(self).owns(*node) ==> r == Err::<(), LibError>(
                LibError::InvalidHandle,
            ),
            old(self).owns(*node) && old(self).nodes_view()[node.node_id as int].parent is None
                ==> r == Ok::<(), LibError>(()) && *final(self) == *old(self),
            old(self).owns(*node) && old(self).nodes_view()[node.node_id as int].parent is Some
                ==> r == Ok::<(), LibError>(()) && final(self).nodes_view() == detach_view(
                old(self).nodes_view(),
                node.node_id as int,
            ),
    {
        self.remove_from_parent(node)
    }

    /// Whether the element `node` acts on has no children.
    pub fn is_empty(&self, node: &HtmlNode) -> (r: Result<bool, LibError>)
        requires
            self.wf(),
        ensures
            node.ctx_id != self.id() ==> r == Err::<bool, LibError>(LibError::ContextMismatch),
            node.ctx_id == self.id() && !self.owns(*node) ==> r == Err::<bool, LibError>(
                LibError::InvalidHandle,
            ),
            self.owns(*node) ==> match spec_resolve(self.nodes_view(), *node) {
                Ok(i) => r == Ok::<bool, LibError>(
                    self.nodes_view()[i as int].children.len() == 0,
                ),
                Err(e) => r == Err::<bool, LibError>(e),
            },
    {
        match self.child_count(node) {
            Ok(n) => Ok(n == 0),
            Err(e) => Err(e),
        }
    }

    /// The handles of the strict ancestors of the node, nearest first.
    #[verifier::loop_isolation(false)]
    pub fn ancestors(&self, node: &HtmlNode) -> (r: Result<Vec<HtmlNode>, LibError>)
        requires
            self.wf(),
        ensures
            node.ctx_id != self.id() ==> r == Err::<Vec<HtmlNode>, LibError>(
                LibError::ContextMismatch,
            ),
            node.ctx_id == self.id() && !self.owns(*node) ==> r == Err::<Vec<HtmlNode>, LibError>(
                LibError::InvalidHandle,
            ),
            self.owns(*node) ==> (r matches Ok(v) && v@ == crate::selectors::handles_of(
                self.nodes_view(),
                self.id(),
                ancestor_chain(self.nodes_view(), node.node_id as int),
            )),
    {
        if let Err(e) = self.check_handle(node) {
            return Err(e);
        }
        let ghost nv = self.nodes_view();
        let mut out: Vec<HtmlNode> = Vec::new();
        let mut cur = node.node_id;
        proof {
            assert(out@ + crate::selectors::handles_of(nv, self.id(), ancestor_chain(nv, cur as int))
                =~= crate::selectors::handles_of(nv, self.id(), ancestor_chain(nv, node.node_id as int)));
        }
        loop
            invariant
                self.wf(),
                nv == self.nodes_view(),
                (cur as int) < nv.len(),
                out@ + crate::selectors::handles_of(nv, self.id(), ancestor_chain(nv, cur as int))
                    == crate::selectors::handles_of(
                    nv,
                    self.id(),
                    ancestor_chain(nv, node.node_id as int),
                ),
            decreases cur,
        {
            proof {
                assert(nv[cur as int] == self.nodes@[cur as int]@);
                assert(wf_at(nv, cur as int));
            }
            match self.nodes[cur].parent {
                None => {
                    proof {
                        assert(ancestor_chain(nv, cur as int) =~= Seq::<usize>::empty());
                        assert(out@ + crate::selectors::handles_of(
                            nv,
                            self.id(),
                            ancestor_chain(nv, cur as int),
                        ) =~= out@);
                    }
                    return Ok(out);
                },
                Some(p) => {
                    let ghost pre = out@;
                    let h = self.mint(p);
                    out.push(h);
                    proof {
                        let chain_cur = ancestor_chain(nv, cur as int);
                        assert(chain_cur == seq![p] + ancestor_chain(nv, p as int));
                        assert(out@ + crate::selectors::handles_of(
                            nv,
                            self.id(),
                            ancestor_chain(nv, p as int),
                        ) =~= pre + crate::selectors::handles_of(nv, self.id(), chain_cur));
                    }
                    cur = p;
                },
            }
        }
    }

    /// The handles of the node's siblings: its parent's children without
    /// the node itself. A node without a parent has no siblings and
    /// faults.
    #[verifier::loop_isolation(false)]
    pub fn siblings(&self, node: &HtmlNode) -> (r: Result<Vec<HtmlNode>, LibError>)
        requires
            self.wf(),
        ensures
            node.ctx_id != self.id() ==> r == Err::<Vec<HtmlNode>, LibError>(
                LibError::ContextMismatch,
            ),
            node.ctx_id == self.id() && !self.owns(*node) ==> r == Err::<Vec<HtmlNode>, LibError>(
                LibError::InvalidHandle,
            ),
            self.owns(*node) && self.nodes_view()[node.node_id as int].parent is None ==> r
                == Err::<Vec<HtmlNode>, LibError>(LibError::NoParent),
            self.owns(*node) && self.nodes_view()[node.node_id as int].parent is Some ==> ({
                let p = self.nodes_view()[node.node_id as int].parent->0;
                r matches Ok(v) && v@ == crate::selectors::handles_of(
                    self.nodes_view(),
                    self.id(),
                    excluding(self.nodes_view()[p as int].children, node.node_id),
                )
            }),
    {
        if let Err(e) = self.check_handle(node) {
            return Err(e);
        }
        let ghost nv = self.nodes_view();
        proof {
            assert(nv[node.node_id as int] == self.nodes@[node.node_id as int]@);
            assert(wf_at(nv, node.node_id as int));
        }
        let p = match self.nodes[node.node_id].parent {
            None => {
                return Err(LibError::NoParent);
            },
            Some(p) => p,
        };
        let ghost ch = nv[p as int].children;
        proof {
            assert(wf_at(nv, p as int));
        }
        let clen = self.child_count_at(p);
        let mut out: Vec<HtmlNode> = Vec::new();
        let mut k: usize = 0;
        proof {
            assert(ch.take(0) =~= Seq::<usize>::empty());
            assert(out@ =~= crate::selectors::handles_of(nv, self.id(), excluding(ch.take(0), node.node_id)));
        }
        while k < clen
            invariant
                k <= clen,
                clen as int == ch.len(),
                out@ == crate::selectors::handles_of(
                    nv,
                    self.id(),
                    excluding(ch.take(k as int), node.node_id),
                ),
            decreases clen - k,
        {
            let c = self.child_at(p, k);
            proof {
                assert(ch.take(k as int + 1).drop_last() =~= ch.take(k as int));
                assert(ch.take(k as int + 1).last() == ch[k as int]);
                assert(wf_at(nv, p as int));
            }
            if c != node.node_id {
                let h = self.mint(c);
                out.push(h);
            }
            proof {
                assert(out@ =~= crate::selectors::handles_of(
                    nv,
                    self.id(),
                    excluding(ch.take(k as int + 1), node.node_id),
                ));
            }
            k = k + 1;
        }
        proof {
            assert(ch.take(ch.len() as int) =~= ch);
        }
        Ok(out)
    }
}

/// A mutable reference to the attribute pair at `i`.
fn pair_mut(v: &mut Vec<(Vec<char>, Vec<char>)>, i: usize) -> (r: &mut (Vec<char>, Vec<char>))
    requires
        i < old(v).len(),
    ensures
        *r == old(v)@[i as int],
        final(v)@ == old(v)@.update(i as int, *final(r)),
{
    &mut v[i]
}

/// Two stores that differ only in payloads have the same link structure, so
/// well-formedness carries over.
proof fn lemma_wf_data_update(v1: Seq<NodeV>, v2: Seq<NodeV>)
    requires
        wf_nodes(v1),
        v2.len() == v1.len(),
        forall|i: int|
            0 <= i < v1.len() ==> (#[trigger] v2[i]).parent == v1[i].parent && v2[i].children
                == v1[i].children,
    ensures
        wf_nodes(v2),
{
    assert forall|i: int| 0 <= i < v2.len() implies #[trigger] wf_at(v2, i) by {
        assert(wf_at(v1, i));
        match v2[i].parent {
            Some(p) => {
                assert(v2[p as int].children == v1[p as int].children);
            },
            None => {},
        }
        assert forall|k: int| 0 <= k < v2[i].children.len() implies i < (#[trigger] v2[i].children[k]) as int
            && (v2[i].children[k] as int) < v2.len() && v2[(v2[i].children[k]) as int].parent
            == Some(i as usize) by {
            assert(v1[i].children[k] == v2[i].children[k]);
            assert(v2[(v1[i].children[k]) as int].parent == v1[(v1[i].children[k]) as int].parent);
        }
    }
}

impl HtmlContext {
    /// Detects whether `text` is a full document — a doctype declaration is
    /// seen during a preliminary, side-effect-free structural scan — and
    /// parses accordingly, appending the new subtree's nodes into this
    /// arena: content and handles from earlier parses stay untouched.
    /// Returns the handle of the new subtree's root, a document node or a
    /// fragment node.
    pub fn parse(&mut self, text: &str) -> (h: HtmlNode)
        requires
            old(self).wf(),
        ensures
            final(self).wf(),
            final(self).id() == old(self).id(),
            old(self).nodes_view().len() < final(self).nodes_view().len(),
            forall|j: int|
                0 <= j < old(self).nodes_view().len() ==> (#[trigger] final(self).nodes_view()[j])
                    == old(self).nodes_view()[j],
            final(self).owns(h),
            h.ctx_id == old(self).id(),
            h.node_id as int == old(self).nodes_view().len(),
            final(self).nodes_view()[h.node_id as int].parent is None,
            h.kind == (if spec_has_doctype(document_events(text@)) {
                NodeType::Document
            } else {
                NodeType::Fragment
            }),
            spec_has_doctype(document_events(text@)) ==> final(self).nodes_view() == build_run(
                init_build(old(self).nodes_view()),
                document_events(text@),
            ).nodes,
            !spec_has_doctype(document_events(text@)) ==> ({
                let b = build_run(init_build(old(self).nodes_view()), fragment_events(text@));
                let r = old(self).nodes_view().len() as int;
                final(self).nodes_view() == if unwrappable(b.nodes, r) {
                    unwrap_view(b.nodes, r)
                } else {
                    b.nodes
                }
            }),
    {
        let doc_evs = crate::events::parse_document_events(text);
        if crate::events::has_doctype(&doc_evs) {
            self.parse_as_document(text)
        } else {
            self.parse_as_fragment(text)
        }
    }

    /// Parses `text` in forced document mode, without the preliminary
    /// doctype scan, appending the new subtree into this arena as `parse`
    /// does.
    pub fn parse_as_document(&mut self, text: &str) -> (h: HtmlNode)
        requires
            old(self).wf(),
        ensures
            final(self).wf(),
            final(self).id() == old(self).id(),
            old(self).nodes_view().len() < final(self).nodes_view().len(),
            forall|j: int|
                0 <= j < old(self).nodes_view().len() ==> (#[trigger] final(self).nodes_view()[j])
                    == old(self).nodes_view()[j],
            final(self).owns(h),
            h.ctx_id == old(self).id(),
            h.node_id as int == old(self).nodes_view().len(),
            final(self).nodes_view()[h.node_id as int].parent is None,
            h.kind == NodeType::Document,
            final(self).nodes_view() == build_run(
                init_build(old(self).nodes_view()),
                document_events(text@),
            ).nodes,
    {
        let ghost base = self.nodes_view();
        let doc_evs = crate::events::parse_document_events(text);
        let end = doc_evs.len();
        let root = self.run_build(&doc_evs, 0, end, Vec::new(), None, Ghost(base.len() as int));
        proof {
            assert(events_view(doc_evs@).subrange(0, doc_evs@.len() as int) =~= events_view(
                doc_evs@,
            ));
        }
        let r = match root {
            Some(r) => r,
            None => 0,
        };
        self.mint(r)
    }

    /// Parses `text` in fragment mode under the caller's context element,
    /// appending the new subtree into this arena as `parse` does. The
    /// parser's synthetic context element is dissolved, so the fragment
    /// root's children are the fragment's own content.
    pub fn parse_fragment_with(&mut self, text: &str, context: &str) -> (h: HtmlNode)
        requires
            old(self).wf(),
        ensures
            final(self).wf(),
            final(self).id() == old(self).id(),
            old(self).nodes_view().len() < final(self).nodes_view().len(),
            forall|j: int|
                0 <= j < old(self).nodes_view().len() ==> (#[trigger] final(self).nodes_view()[j])
                    == old(self).nodes_view()[j],
            final(self).owns(h),
            h.ctx_id == old(self).id(),
            h.node_id as int == old(self).nodes_view().len(),
            final(self).nodes_view()[h.node_id as int].parent is None,
            h.kind == NodeType::Fragment,
            ({
                let b = build_run(
                    init_build(old(self).nodes_view()),
                    fragment_events_in(context@, text@),
                );
                let r = old(self).nodes_view().len() as int;
                final(self).nodes_view() == if unwrappable(b.nodes, r) {
                    unwrap_view(b.nodes, r)
                } else {
                    b.nodes
                }
            }),
    {
        let frag_evs = crate::events::parse_fragment_events_in(context, text);
        self.finish_fragment(frag_evs, Ghost(fragment_events_in(context@, text@)))
    }

    /// Parses `text` in forced fragment mode, without the preliminary
    /// doctype scan, appending the new subtree into this arena as `parse`
    /// does. The parser's synthetic context element is dissolved, so the
    /// fragment root's children are the fragment's own content.
    pub fn parse_as_fragment(&mut self, text: &str) -> (h: HtmlNode)
        requires
            old(self).wf(),
        ensures
            final(self).wf(),
            final(self).id() == old(self).id(),
            old(self).nodes_view().len() < final(self).nodes_view().len(),
            forall|j: int|
                0 <= j < old(self).nodes_view().len() ==> (#[trigger] final(self).nodes_view()[j])
                    == old(self).nodes_view()[j],
            final(self).owns(h),
            h.ctx_id == old(self).id(),
            h.node_id as int == old(self).nodes_view().len(),
            final(self).nodes_view()[h.node_id as int].parent is None,
            h.kind == NodeType::Fragment,
            ({
                let b = build_run(init_build(old(self).nodes_view()), fragment_events(text@));
                let r = old(self).nodes_view().len() as int;
                final(self).nodes_view() == if unwrappable(b.nodes, r) {
                    unwrap_view(b.nodes, r)
                } else {
                    b.nodes
                }
            }),
    {
        let frag_evs = crate::events::parse_fragment_events(text);
        self.finish_fragment(frag_evs, Ghost(fragment_events(text@)))
    }

    /// Builds a fragment subtree from its parsed event stream and
    /// dissolves the parser's synthetic context element, so the fragment
    /// root's children are the fragment's own content.
    fn finish_fragment(
        &mut self,
        frag_evs: Vec<HtmlEvent>,
        Ghost(spec_evs): Ghost<Seq<EventV>>,
    ) -> (h: HtmlNode)
        requires
            old(self).wf(),
            events_view(frag_evs@) == spec_evs,
            frag_evs@.len() >= 2,
            events_view(frag_evs@)[0] == EventV::Open(NodeDataV::Fragment),
        ensures
            final(self).wf(),
            final(self).id() == old(self).id(),
            old(self).nodes_view().len() < final(self).nodes_view().len(),
            forall|j: int|
                0 <= j < old(self).nodes_view().len() ==> (#[trigger] final(self).nodes_view()[j])
                    == old(self).nodes_view()[j],
            final(self).owns(h),
            h.ctx_id == old(self).id(),
            h.node_id as int == old(self).nodes_view().len(),
            final(self).nodes_view()[h.node_id as int].parent is None,
            h.kind == NodeType::Fragment,
            ({
                let b = build_run(init_build(old(self).nodes_view()), spec_evs);
                let r = old(self).nodes_view().len() as int;
                final(self).nodes_view() == if unwrappable(b.nodes, r) {
                    unwrap_view(b.nodes, r)
                } else {
                    b.nodes
                }
            }),
    {
        let ghost base = self.nodes_view();
        let end = frag_evs.len();
        let root = self.run_build(
            &frag_evs,
            0,
            end,
            Vec::new(),
            None,
            Ghost(base.len() as int),
        );
        proof {
            assert(events_view(frag_evs@).subrange(0, frag_evs@.len() as int) =~= events_view(
                frag_evs@,
            ));
        }
        let r = match root {
            Some(r) => r,
            None => 0,
        };
        let ghost b_nodes = self.nodes_view();
        // Dissolve the parser's synthetic context element, so the
        // fragment root's children are the fragment's own content.
        let mut dissolved = false;
        if self.nodes[r].children.len() == 1 {
            let ch0 = self.nodes[r].children[0];
            proof {
                assert(wf_at(b_nodes, r as int));
                assert(b_nodes[r as int].children[0] == ch0);
            }
            if kind_eq(data_kind_exec(&self.nodes[ch0].data), NodeType::Element) {
                proof {
                    assert(b_nodes[ch0 as int] == self.nodes@[ch0 as int]@);
                    assert(unwrappable(b_nodes, r as int));
                }
                self.unwrap_fragment(r);
                dissolved = true;
            }
        }
        proof {
            if !dissolved {
                assert(!unwrappable(b_nodes, r as int));
            }
            // Old nodes sit below the new region, so the dissolution
            // never touches them.
            assert forall|j: int| 0 <= j < base.len() implies (
            #[trigger] self.nodes_view()[j]) == base[j] by {
                if dissolved {
                    assert(b_nodes[j] == base[j]);
                    assert(wf_at(base, j));
                    assert(j != r as int);
                    let hh = b_nodes[r as int].children[0];
                    assert((hh as int) >= base.len()) by {
                        assert(wf_at(b_nodes, r as int));
                    }
                    assert(j != hh as int);
                    assert(b_nodes[j].parent != Some(hh)) by {
                        match base[j].parent {
                            Some(p) => {
                                assert(p < j);
                            },
                            None => {},
                        }
                    }
                }
            }
        }
        self.mint(r)
    }
}

/// A handle minted by one session's arena always faults against any other
/// session's arena: two distinct sessions never accept each other's
/// handles, even when the node indices coincide numerically.
pub proof fn lemma_handles_cannot_cross_sessions(a1: HtmlContext, a2: HtmlContext, h: HtmlNode)
    requires
        a1.id() != a2.id(),
        h.ctx_id == a1.id(),
    ensures
        !a2.owns(h),
{
}

/// The store with row `i`'s children all unlinked: `i` keeps its payload
/// and its own parent, its former children become orphans.
pub open spec fn clear_children_view(nodes: Seq<NodeV>, i: int) -> Seq<NodeV> {
    nodes.map(
        |j: int, n: NodeV|
            if j == i {
                NodeV { parent: n.parent, children: Seq::empty(), data: n.data }
            } else if nodes[i].children.contains(j as usize) {
                NodeV { parent: None, children: n.children, data: n.data }
            } else {
                n
            },
    )
}

/// The store mid-clearing: row `i`'s list is already empty and the first
/// `k` former children are orphaned.
pub open spec fn clear_children_partial(nodes: Seq<NodeV>, i: int, k: int) -> Seq<NodeV> {
    nodes.map(
        |j: int, n: NodeV|
            if j == i {
                NodeV { parent: n.parent, children: Seq::empty(), data: n.data }
            } else if nodes[i].children.take(k).contains(j as usize) {
                NodeV { parent: None, children: n.children, data: n.data }
            } else {
                n
            },
    )
}

proof fn lemma_clear_children_wf(nodes: Seq<NodeV>, i: int)
    requires
        wf_nodes(nodes),
        nodes.len() <= usize::MAX,
        0 <= i < nodes.len(),
    ensures
        wf_nodes(clear_children_view(nodes, i)),
{
    let v2 = clear_children_view(nodes, i);
    assert(wf_at(nodes, i));
    assert forall|j: int| 0 <= j < v2.len() implies #[trigger] wf_at(v2, j) by {
        assert(wf_at(nodes, j));
        if j == i {
            match v2[i].parent {
                Some(q) => {
                    assert(q < i);
                    assert(nodes[q as int].children.contains(i as usize));
                    assert(!nodes[i].children.contains(q)) by {
                        if nodes[i].children.contains(q) {
                            let m = choose|m: int|
                                0 <= m < nodes[i].children.len() && nodes[i].children[m] == q;
                            assert((q as int) > i);
                        }
                    }
                    assert(v2[q as int].children == nodes[q as int].children);
                },
                None => {},
            }
        } else if nodes[i].children.contains(j as usize) {
            assert(v2[j].parent is None);
            assert forall|m: int| 0 <= m < v2[j].children.len() implies j
                < (#[trigger] v2[j].children[m]) as int && (v2[j].children[m] as int) < v2.len()
                && v2[(v2[j].children[m]) as int].parent == Some(j as usize) by {
                let x = nodes[j].children[m];
                assert(nodes[x as int].parent == Some(j as usize));
                assert(x as int != i) by {
                    assert(nodes[i].parent != Some(j as usize) || true);
                    if x as int == i {
                        assert(nodes[i].parent == Some(j as usize));
                        assert(j < i);
                        assert(i < j as int || true);
                        // `j` is a child of `i`, so `i < j`; but `i` cannot
                        // also be a child of `j`, whose index exceeds it.
                        let m2 = choose|m2: int|
                            0 <= m2 < nodes[i].children.len() && nodes[i].children[m2]
                                == j as usize;
                        assert(i < j);
                        assert(false);
                    }
                }
                assert(!nodes[i].children.contains(x)) by {
                    if nodes[i].children.contains(x) {
                        assert(nodes[x as int].parent == Some(i as usize));
                    }
                }
            }
        } else {
            match nodes[j].parent {
                Some(q) => {
                    assert(wf_at(nodes, j));
                    assert(q < j);
                    assert(nodes[q as int].children.contains(j as usize));
                    // Were `q` the cleared row, `j` would be among its
                    // children, against this branch's assumption.
                    if q as int == i {
                        assert(false);
                    }
                    // Any row but the cleared one keeps its child list,
                    // whether or not its own parent link was dropped.
                    assert(v2[q as int].children == nodes[q as int].children);
                    assert(v2[q as int].children.contains(j as usize));
                },
                None => {},
            }
            assert forall|m: int| 0 <= m < v2[j].children.len() implies j
                < (#[trigger] v2[j].children[m]) as int && (v2[j].children[m] as int) < v2.len()
                && v2[(v2[j].children[m]) as int].parent == Some(j as usize) by {
                let x = nodes[j].children[m];
                assert(nodes[x as int].parent == Some(j as usize));
                if x as int == i {
                    // The cleared row keeps its parent link.
                    assert(v2[x as int].parent == nodes[x as int].parent);
                } else {
                    assert(!nodes[i].children.contains(x)) by {
                        if nodes[i].children.contains(x) {
                            assert(nodes[x as int].parent == Some(i as usize));
                        }
                    }
                }
            }
        }
    }
}

impl HtmlContext {
    /// Unlinks every child of the node, leaving each addressable as an
    /// orphan; the node itself keeps its place.
    #[verifier::loop_isolation(false)]
    pub fn delete_content(&mut self, node: &HtmlNode) -> (r: Result<(), LibError>)
        requires
            old(self).wf(),
        ensures
            final(self).wf(),
            final(self).id() == old(self).id(),
            r is Err ==> *final(self) == *old(self),
            node.ctx_id != old(self).id() ==> r == Err::<(), LibError>(LibError::ContextMismatch),
            node.ctx_id == old(self).id() && !old(self).owns(*node) ==> r == Err::<(), LibError>(
                LibError::InvalidHandle,
            ),
            old(self).owns(*node) ==> r == Ok::<(), LibError>(()) && final(self).nodes_view()
                == clear_children_view(old(self).nodes_view(), node.node_id as int),
    {
        if let Err(e) = self.check_handle(node) {
            return Err(e);
        }
        let i = node.node_id;
        let ghost v1 = self.nodes_view();
        let tot0 = self.nodes.len();
        proof {
            assert(wf_at(v1, i as int));
            assert(v1.len() == tot0 as int);
        }
        let mut ch: Vec<usize> = Vec::new();
        std::mem::swap(&mut ch, &mut node_mut(&mut self.nodes, i).children);
        let ghost chv = ch@;
        let hlen = ch.len();
        proof {
            assert(chv == v1[i as int].children);
            assert(self.nodes_view() =~= clear_children_partial(v1, i as int, 0)) by {
                assert(v1[i as int].children.take(0) =~= Seq::<usize>::empty());
            }
        }
        let mut k: usize = 0;
        while k < hlen
            invariant
                k <= hlen,
                hlen as int == chv.len(),
                chv == v1[i as int].children,
                v1.len() <= usize::MAX,
                self.nodes_view() == clear_children_partial(v1, i as int, k as int),
                self.id() == old(self).id(),
            decreases hlen - k,
        {
            let c = ch[k];
            proof {
                assert(wf_at(v1, i as int));
                assert((c as int) < v1.len());
            }
            let ghost vk = self.nodes_view();
            node_mut(&mut self.nodes, c).parent = None;
            proof {
                assert(self.nodes_view() =~= vk.update(
                    c as int,
                    NodeV { parent: None, children: vk[c as int].children, data: vk[c as int].data },
                ));
                assert(chv.take(k as int + 1) =~= chv.take(k as int).push(chv[k as int]));
                assert(!chv.take(k as int).contains(c)) by {
                    if chv.take(k as int).contains(c) {
                        let m = choose|m: int|
                            0 <= m < chv.take(k as int).len() && #[trigger] chv.take(k as int)[m]
                                == c;
                        assert(chv[m] == chv[k as int]);
                        assert(false);
                    }
                }
                assert forall|j: int| 0 <= j < v1.len() implies self.nodes_view()[j]
                    == clear_children_partial(v1, i as int, k as int + 1)[j] by {
                    if j != c as int {
                        assert(chv.take(k as int + 1).contains(j as usize) == chv.take(
                            k as int,
                        ).contains(j as usize)) by {
                            if chv.take(k as int + 1).contains(j as usize) {
                                let t1 = chv.take(k as int + 1);
                                let m = choose|m: int|
                                    0 <= m < t1.len() && #[trigger] t1[m] == j as usize;
                                if m < k as int {
                                    assert(chv.take(k as int)[m] == j as usize);
                                }
                            } else {
                                if chv.take(k as int).contains(j as usize) {
                                    let m = choose|m: int|
                                        0 <= m < chv.take(k as int).len() && chv.take(k as int)[m]
                                            == j as usize;
                                    assert(chv.take(k as int + 1)[m] == j as usize);
                                }
                            }
                        }
                    } else {
                        assert(chv.take(k as int + 1)[k as int] == c);
                        assert(chv.take(k as int + 1).contains(c));
                        assert(c as int != i as int) by {
                            assert(i < chv[k as int]);
                        }
                    }
                }
                assert(self.nodes_view() =~= clear_children_partial(v1, i as int, k as int + 1));
            }
            k = k + 1;
        }
        proof {
            assert(chv.take(hlen as int) =~= chv);
            let vu = clear_children_view(v1, i as int);
            assert forall|j: int| 0 <= j < v1.len() implies self.nodes_view()[j] == vu[j] by {}
            assert(self.nodes_view() =~= vu);
            lemma_clear_children_wf(v1, i as int);
        }
        Ok(())
    }
}

/// The store after dissolving row `n` into its parent: `n`'s children are
/// spliced into the parent's list directly after `n`, in order, and `n`
/// stays in place, childless.
pub open spec fn unwrap_splice_view(nodes: Seq<NodeV>, n: int) -> Seq<NodeV> {
    let p = nodes[n].parent->0 as int;
    let pos = nodes[p].children.index_of(n as usize);
    let pch = nodes[p].children;
    let newpch = pch.subrange(0, pos + 1) + nodes[n].children + pch.subrange(
        pos + 1,
        pch.len() as int,
    );
    nodes.map(
        |j: int, nd: NodeV|
            if j == p {
                NodeV { parent: nd.parent, children: newpch, data: nd.data }
            } else if j == n {
                NodeV { parent: nd.parent, children: Seq::empty(), data: nd.data }
            } else if nodes[n].children.contains(j as usize) {
                NodeV { parent: Some(p as usize), children: nd.children, data: nd.data }
            } else {
                nd
            },
    )
}

/// The store mid-dissolution: the splice is done and the first `k` moved
/// children already point at the parent.
pub open spec fn unwrap_splice_partial(nodes: Seq<NodeV>, n: int, k: int) -> Seq<NodeV> {
    let p = nodes[n].parent->0 as int;
    let pos = nodes[p].children.index_of(n as usize);
    let pch = nodes[p].children;
    let newpch = pch.subrange(0, pos + 1) + nodes[n].children + pch.subrange(
        pos + 1,
        pch.len() as int,
    );
    nodes.map(
        |j: int, nd: NodeV|
            if j == p {
                NodeV { parent: nd.parent, children: newpch, data: nd.data }
            } else if j == n {
                NodeV { parent: nd.parent, children: Seq::empty(), data: nd.data }
            } else if nodes[n].children.take(k).contains(j as usize) {
                NodeV { parent: Some(p as usize), children: nd.children, data: nd.data }
            } else {
                nd
            },
    )
}

proof fn lemma_unwrap_splice_wf(nodes: Seq<NodeV>, n: int)
    requires
        wf_nodes(nodes),
        nodes.len() <= usize::MAX,
        0 <= n < nodes.len(),
        nodes[n].parent is Some,
    ensures
        wf_nodes(unwrap_splice_view(nodes, n)),
{
    let p = nodes[n].parent->0 as int;
    let v2 = unwrap_splice_view(nodes, n);
    assert(wf_at(nodes, n));
    assert(wf_at(nodes, p));
    let pch = nodes[p].children;
    let nch = nodes[n].children;
    let pos = pch.index_of(n as usize);
    assert(pch.contains(n as usize));
    assert(0 <= pos < pch.len() && pch[pos] == n as usize);
    let newpch = pch.subrange(0, pos + 1) + nch + pch.subrange(pos + 1, pch.len() as int);
    assert(newpch.len() == pch.len() + nch.len());
    assert forall|k: int| 0 <= k < newpch.len() implies #[trigger] newpch[k] == (if k <= pos {
        pch[k]
    } else if k <= pos + nch.len() {
        nch[k - pos - 1]
    } else {
        pch[k - nch.len()]
    }) by {}
    // The parent's entries and the moved children never collide: a row's
    // parent link names exactly one owner.
    assert forall|a: int, b: int|
        0 <= a < pch.len() && 0 <= b < nch.len() implies #[trigger] pch[a] != #[trigger] nch[b] by {
        assert(nodes[pch[a] as int].parent == Some(p as usize));
        assert(nodes[nch[b] as int].parent == Some(n as usize));
        assert(p < n);
    }
    assert forall|j: int| 0 <= j < v2.len() implies #[trigger] wf_at(v2, j) by {
        assert(wf_at(nodes, j));
        if j == p {
            match nodes[p].parent {
                Some(q) => {
                    assert(q < p);
                    assert(nodes[q as int].children.contains(p as usize));
                    if q as int == n {
                        assert(p < n);
                        assert(false);
                    }
                    assert(!nch.contains(q)) by {
                        if nch.contains(q) {
                            assert(nodes[q as int].parent == Some(n as usize));
                            assert(n < q as int);
                        }
                    }
                    assert(v2[q as int].children == nodes[q as int].children);
                },
                None => {},
            }
            assert forall|k: int| 0 <= k < newpch.len() implies p
                < (#[trigger] newpch[k]) as int && (newpch[k] as int) < v2.len()
                && v2[(newpch[k]) as int].parent == Some(p as usize) by {
                if k <= pos {
                    let x = pch[k];
                    assert(nodes[x as int].parent == Some(p as usize));
                    if x as int == n {
                        assert(v2[n].parent == nodes[n].parent);
                    } else {
                        assert(!nch.contains(x)) by {
                            if nch.contains(x) {
                                assert(nodes[x as int].parent == Some(n as usize));
                            }
                        }
                    }
                } else if k <= pos + nch.len() {
                    let x = nch[k - pos - 1];
                    assert(nodes[x as int].parent == Some(n as usize));
                    assert(p < n && (n as int) < x as int);
                    assert(x as int != n && x as int != p);
                    assert(v2[x as int].parent == Some(p as usize));
                } else {
                    let x = pch[k - nch.len()];
                    assert(nodes[x as int].parent == Some(p as usize));
                    if x as int == n {
                        assert(v2[n].parent == nodes[n].parent);
                    } else {
                        assert(!nch.contains(x)) by {
                            if nch.contains(x) {
                                assert(nodes[x as int].parent == Some(n as usize));
                            }
                        }
                    }
                }
            }
            assert forall|k1: int, k2: int| 0 <= k1 < k2 < newpch.len() implies #[trigger] newpch[k1] != #[trigger] newpch[k2] by {
                if k1 <= pos && k2 <= pos {
                    assert(pch[k1] != pch[k2]);
                } else if k1 <= pos && k2 <= pos + nch.len() {
                    assert(newpch[k1] == pch[k1] && newpch[k2] == nch[k2 - pos - 1]);
                } else if k1 <= pos {
                    assert(newpch[k1] == pch[k1] && newpch[k2] == pch[k2 - nch.len()]);
                    assert(k1 != k2 - nch.len());
                } else if k1 <= pos + nch.len() && k2 <= pos + nch.len() {
                    assert(newpch[k1] == nch[k1 - pos - 1] && newpch[k2] == nch[k2 - pos - 1]);
                } else if k1 <= pos + nch.len() {
                    assert(newpch[k1] == nch[k1 - pos - 1] && newpch[k2] == pch[k2 - nch.len()]);
                } else {
                    assert(newpch[k1] == pch[k1 - nch.len()] && newpch[k2] == pch[k2 - nch.len()]);
                }
            }
        } else if j == n {
            assert(v2[n].parent == nodes[n].parent);
            assert(newpch[pos] == n as usize);
            assert(v2[p].children.contains(n as usize));
        } else if nch.contains(j as usize) {
            assert(nodes[j].parent == Some(n as usize));
            assert(p < n && n < j);
            let m = choose|m: int| 0 <= m < nch.len() && nch[m] == j as usize;
            assert(newpch[pos + 1 + m] == j as usize);
            assert(v2[p].children.contains(j as usize));
            assert forall|m2: int| 0 <= m2 < v2[j].children.len() implies j
                < (#[trigger] v2[j].children[m2]) as int && (v2[j].children[m2] as int) < v2.len()
                && v2[(v2[j].children[m2]) as int].parent == Some(j as usize) by {
                let x = nodes[j].children[m2];
                assert(nodes[x as int].parent == Some(j as usize));
                assert(x as int != p && x as int != n) by {
                    assert(p < n && n < j && j < x as int);
                }
                assert(!nch.contains(x)) by {
                    if nch.contains(x) {
                        assert(nodes[x as int].parent == Some(n as usize));
                    }
                }
            }
        } else {
            match nodes[j].parent {
                Some(q) => {
                    assert(q < j);
                    assert(nodes[q as int].children.contains(j as usize));
                    if q as int == p {
                        let m = choose|m: int| 0 <= m < pch.len() && pch[m] == j as usize;
                        if m <= pos {
                            assert(newpch[m] == j as usize);
                        } else {
                            assert(newpch[m + nch.len()] == j as usize);
                        }
                        assert(v2[p].children.contains(j as usize));
                    } else if q as int == n {
                        assert(nch.contains(j as usize));
                        assert(false);
                    } else {
                        assert(v2[q as int].children == nodes[q as int].children);
                    }
                },
                None => {},
            }
            assert forall|m2: int| 0 <= m2 < v2[j].children.len() implies j
                < (#[trigger] v2[j].children[m2]) as int && (v2[j].children[m2] as int) < v2.len()
                && v2[(v2[j].children[m2]) as int].parent == Some(j as usize) by {
                let x = nodes[j].children[m2];
                assert(nodes[x as int].parent == Some(j as usize));
                if x as int == n {
                    assert(j == p);
                    assert(false);
                }
                if x as int == p {
                    assert(v2[p].parent == nodes[p].parent);
                }
                assert(!nch.contains(x)) by {
                    if nch.contains(x) {
                        assert(nodes[x as int].parent == Some(n as usize));
                    }
                }
            }
        }
    }
}

impl HtmlContext {
    /// Dissolves the node into its parent: its children are spliced into
    /// the parent's list directly after it, in order, and the node itself
    /// stays in place, childless. A node without a parent faults.
    #[verifier::loop_isolation(false)]
    pub fn unwrap(&mut self, node: &HtmlNode) -> (r: Result<(), LibError>)
        requires
            old(self).wf(),
        ensures
            final(self).wf(),
            final(self).id() == old(self).id(),
            r is Err ==> *final(self) == *old(self),
            node.ctx_id != old(self).id() ==> r == Err::<(), LibError>(LibError::ContextMismatch),
            node.ctx_id == old(self).id() && !old(self).owns(*node) ==> r == Err::<(), LibError>(
                LibError::InvalidHandle,
            ),
            old(self).owns(*node) && old(self).nodes_view()[node.node_id as int].parent is None
                ==> r == Err::<(), LibError>(LibError::NoParent),
            old(self).owns(*node) && old(self).nodes_view()[node.node_id as int].parent is Some
                ==> r == Ok::<(), LibError>(()) && final(self).nodes_view() == unwrap_splice_view(
                old(self).nodes_view(),
                node.node_id as int,
            ),
    {
        if let Err(e) = self.check_handle(node) {
            return Err(e);
        }
        let n = node.node_id;
        let ghost v1 = self.nodes_view();
        let tot0 = self.nodes.len();
        proof {
            assert(wf_at(v1, n as int));
            assert(v1.len() == tot0 as int);
            assert(v1[n as int] == self.nodes@[n as int]@);
        }
        let p = match self.nodes[n].parent {
            None => {
                return Err(LibError::NoParent);
            },
            Some(p) => p,
        };
        let pos = self.child_position(p, n);
        let ghost pch = v1[p as int].children;
        let ghost nchv = v1[n as int].children;
        let ghost newpch = pch.subrange(0, pos as int + 1) + nchv + pch.subrange(
            pos as int + 1,
            pch.len() as int,
        );
        // Take the node's children out; the node stays, childless.
        let mut nch: Vec<usize> = Vec::new();
        std::mem::swap(&mut nch, &mut node_mut(&mut self.nodes, n).children);
        proof {
            assert(nch@ == nchv);
        }
        // Build the spliced child list of the parent.
        let plen = self.child_count_at(p);
        proof {
            assert(self.nodes_view()[p as int] == v1[p as int]);
            assert(plen as int == pch.len());
        }
        let mut npch: Vec<usize> = Vec::new();
        let mut m: usize = 0;
        while m <= pos
            invariant
                m <= pos + 1,
                pos < plen,
                plen as int == pch.len(),
                self.nodes_view()[p as int].children == pch,
                (p as int) < self.nodes_view().len(),
                npch@ == pch.subrange(0, m as int),
            decreases pos + 1 - m,
        {
            let c = self.child_at(p, m);
            npch.push(c);
            proof {
                assert(npch@ =~= pch.subrange(0, m as int + 1));
            }
            m = m + 1;
        }
        crate::chars::append_indices(&mut npch, &nch);
        let mut m2 = pos + 1;
        while m2 < plen
            invariant
                pos + 1 <= m2 <= plen,
                plen as int == pch.len(),
                self.nodes_view()[p as int].children == pch,
                (p as int) < self.nodes_view().len(),
                npch@ == pch.subrange(0, pos as int + 1) + nchv + pch.subrange(
                    pos as int + 1,
                    m2 as int,
                ),
            decreases plen - m2,
        {
            let c = self.child_at(p, m2);
            npch.push(c);
            proof {
                assert(npch@ =~= pch.subrange(0, pos as int + 1) + nchv + pch.subrange(
                    pos as int + 1,
                    m2 as int + 1,
                ));
            }
            m2 = m2 + 1;
        }
        proof {
            assert(npch@ == newpch);
        }
        node_mut(&mut self.nodes, p).children = npch;
        proof {
            assert(self.nodes_view() =~= unwrap_splice_partial(v1, n as int, 0)) by {
                assert(nchv.take(0) =~= Seq::<usize>::empty());
            }
        }
        // Point the moved children at their new parent.
        let hlen = nch.len();
        let mut k: usize = 0;
        while k < hlen
            invariant
                k <= hlen,
                hlen as int == nchv.len(),
                nch@ == nchv,
                v1.len() <= usize::MAX,
                self.nodes_view() == unwrap_splice_partial(v1, n as int, k as int),
                self.id() == old(self).id(),
            decreases hlen - k,
        {
            let c = nch[k];
            proof {
                assert(wf_at(v1, n as int));
                assert((c as int) < v1.len());
            }
            let ghost vk = self.nodes_view();
            node_mut(&mut self.nodes, c).parent = Some(p);
            proof {
                assert(self.nodes_view() =~= vk.update(
                    c as int,
                    NodeV {
                        parent: Some(p),
                        children: vk[c as int].children,
                        data: vk[c as int].data,
                    },
                ));
                assert(nchv.take(k as int + 1) =~= nchv.take(k as int).push(nchv[k as int]));
                assert(!nchv.take(k as int).contains(c)) by {
                    if nchv.take(k as int).contains(c) {
                        let w = choose|w: int|
                            0 <= w < nchv.take(k as int).len() && #[trigger] nchv.take(k as int)[w]
                                == c;
                        assert(nchv[w] == nchv[k as int]);
                        assert(false);
                    }
                }
                assert forall|j: int| 0 <= j < v1.len() implies self.nodes_view()[j]
                    == unwrap_splice_partial(v1, n as int, k as int + 1)[j] by {
                    if j != c as int {
                        assert(nchv.take(k as int + 1).contains(j as usize) == nchv.take(
                            k as int,
                        ).contains(j as usize)) by {
                            if nchv.take(k as int + 1).contains(j as usize) {
                                let t1 = nchv.take(k as int + 1);
                                let w = choose|w: int|
                                    0 <= w < t1.len() && #[trigger] t1[w] == j as usize;
                                if w < k as int {
                                    assert(nchv.take(k as int)[w] == j as usize);
                                }
                            } else {
                                if nchv.take(k as int).contains(j as usize) {
                                    let w = choose|w: int|
                                        0 <= w < nchv.take(k as int).len() && #[trigger] nchv.take(
                                            k as int,
                                        )[w] == j as usize;
                                    assert(nchv.take(k as int + 1)[w] == j as usize);
                                }
                            }
                        }
                    } else {
                        assert(nchv.take(k as int + 1)[k as int] == c);
                        assert(nchv.take(k as int + 1).contains(c));
                        assert(c as int != n as int && c as int != p as int) by {
                            assert(wf_at(v1, n as int));
                            assert(p < n && (n as int) < nchv[k as int] as int);
                        }
                    }
                }
                assert(self.nodes_view() =~= unwrap_splice_partial(v1, n as int, k as int + 1));
            }
            k = k + 1;
        }
        proof {
            assert(nchv.take(hlen as int) =~= nchv);
            let vu = unwrap_splice_view(v1, n as int);
            assert forall|j: int| 0 <= j < v1.len() implies self.nodes_view()[j] == vu[j] by {}
            assert(self.nodes_view() =~= vu);
            lemma_unwrap_splice_wf(v1, n as int);
        }
        Ok(())
    }
}

/// Whether every child link below `L` stays below `L`. Any well-formed
/// store is closed at its own length.
pub open spec fn region_closed(nodes: Seq<NodeV>, L: int) -> bool {
    forall|i: int, k: int|
        0 <= i < L && 0 <= k < nodes[i].children.len() ==> ((#[trigger] nodes[i].children[k]) as int)
            < L
}

/// Whether the subtrees rooted at `i` and `j` are equal: same payloads,
/// same shape, child by child.
pub open spec fn subtree_eq(nodes: Seq<NodeV>, i: int, j: int) -> bool
    decreases nodes.len() - i,
    when 0 <= i < nodes.len() && wf_nodes(nodes)
    via subtree_eq_decreases
{
    &&& 0 <= j < nodes.len()
    &&& nodes[i].data == nodes[j].data
    &&& nodes[i].children.len() == nodes[j].children.len()
    &&& forall|k: int|
        0 <= k < nodes[i].children.len() ==> subtree_eq(
            nodes,
            (#[trigger] nodes[i].children[k]) as int,
            nodes[j].children[k] as int,
        )
}

#[via_fn]
proof fn subtree_eq_decreases(nodes: Seq<NodeV>, i: int, j: int) {
    assert(wf_at(nodes, i));
}

/// How many rows the subtree at `i` holds.
pub open spec fn subtree_size(nodes: Seq<NodeV>, i: int) -> nat
    decreases nodes.len() - i, 1int, 0int,
    when 0 <= i < nodes.len() && wf_nodes(nodes)
    via subtree_size_decreases
{
    1 + kids_size(nodes, i, nodes[i].children.len() as int)
}

/// How many rows the first `k` children's subtrees of row `i` hold.
pub open spec fn kids_size(nodes: Seq<NodeV>, i: int, k: int) -> nat
    decreases nodes.len() - i, 0int, k,
    when 0 <= i < nodes.len() && k <= nodes[i].children.len() && wf_nodes(nodes)
    via kids_size_decreases
{
    if k <= 0 {
        0
    } else {
        kids_size(nodes, i, k - 1) + subtree_size(nodes, nodes[i].children[k - 1] as int)
    }
}

#[via_fn]
proof fn subtree_size_decreases(nodes: Seq<NodeV>, i: int) {
    assert(wf_at(nodes, i));
}

#[via_fn]
proof fn kids_size_decreases(nodes: Seq<NodeV>, i: int, k: int) {
    assert(wf_at(nodes, i));
}

/// A subtree's size only reads rows below a closed bound, so it survives
/// any change at or beyond that bound.
proof fn lemma_size_frame(v: Seq<NodeV>, v2: Seq<NodeV>, L: int, i: int)
    requires
        wf_nodes(v),
        wf_nodes(v2),
        0 <= L <= v.len(),
        L <= v2.len(),
        region_closed(v, L),
        forall|m: int| 0 <= m < L ==> (#[trigger] v2[m]) == v[m],
        0 <= i < L,
    ensures
        subtree_size(v2, i) == subtree_size(v, i),
        kids_size(v2, i, v2[i].children.len() as int) == kids_size(
            v,
            i,
            v[i].children.len() as int,
        ),
    decreases v.len() - i, 1int,
{
    assert(wf_at(v, i));
    assert(v2[i] == v[i]);
    lemma_kids_size_frame(v, v2, L, i, v[i].children.len() as int);
}

proof fn lemma_kids_size_frame(v: Seq<NodeV>, v2: Seq<NodeV>, L: int, i: int, k: int)
    requires
        wf_nodes(v),
        wf_nodes(v2),
        0 <= L <= v.len(),
        L <= v2.len(),
        region_closed(v, L),
        forall|m: int| 0 <= m < L ==> (#[trigger] v2[m]) == v[m],
        0 <= i < L,
        0 <= k <= v[i].children.len(),
    ensures
        kids_size(v2, i, k) == kids_size(v, i, k),
    decreases v.len() - i, 0int, k,
{
    assert(wf_at(v, i));
    assert(v2[i] == v[i]);
    if k > 0 {
        lemma_kids_size_frame(v, v2, L, i, k - 1);
        let c = v[i].children[k - 1] as int;
        assert(c < L);
        lemma_size_frame(v, v2, L, c);
    }
}

/// Subtree equality only reads nodes below a closed bound, so it survives
/// any change at or beyond that bound.
proof fn lemma_subtree_eq_frame(v: Seq<NodeV>, v2: Seq<NodeV>, L: int, i: int, j: int)
    requires
        wf_nodes(v),
        wf_nodes(v2),
        0 <= L <= v.len(),
        L <= v2.len(),
        region_closed(v, L),
        forall|m: int| 0 <= m < L ==> (#[trigger] v2[m]) == v[m],
        0 <= i < L,
        0 <= j < L,
        subtree_eq(v, i, j),
    ensures
        subtree_eq(v2, i, j),
    decreases v.len() - i,
{
    assert(wf_at(v, i));
    assert(v2[i] == v[i] && v2[j] == v[j]);
    assert forall|k: int| 0 <= k < v2[i].children.len() implies subtree_eq(
        v2,
        (#[trigger] v2[i].children[k]) as int,
        v2[j].children[k] as int,
    ) by {
        let ci = v[i].children[k] as int;
        let cj = v[j].children[k] as int;
        assert(subtree_eq(v, ci, cj));
        assert(ci < L && cj < L);
        lemma_subtree_eq_frame(v, v2, L, ci, cj);
    }
}

impl HtmlContext {
    /// Deep-copies the subtree at `src` into fresh slots, returning the
    /// index of the copied root, an orphan.
    #[verifier::loop_isolation(false)]
    fn clone_rec(&mut self, src: usize, Ghost(bound): Ghost<int>) -> (idx: usize)
        requires
            old(self).wf(),
            (src as int) < bound <= old(self).nodes_view().len(),
            region_closed(old(self).nodes_view(), bound),
        ensures
            final(self).wf(),
            final(self).id() == old(self).id(),
            idx as int == old(self).nodes_view().len(),
            old(self).nodes_view().len() < final(self).nodes_view().len(),
            forall|j: int|
                0 <= j < old(self).nodes_view().len() ==> (#[trigger] final(self).nodes_view()[j])
                    == old(self).nodes_view()[j],
            final(self).nodes_view()[idx as int].parent is None,
            subtree_eq(final(self).nodes_view(), src as int, idx as int),
            final(self).nodes_view().len() == old(self).nodes_view().len() + subtree_size(
                old(self).nodes_view(),
                src as int,
            ),
        decreases bound - src,
    {
        let ghost v0 = self.nodes_view();
        proof {
            assert(wf_at(v0, src as int));
        }
        let data = crate::events::clone_data(&self.nodes[src].data);
        proof {
            assert(v0[src as int] == self.nodes@[src as int]@);
        }
        let my = self.push_orphan(data);
        let ghost v1 = self.nodes_view();
        let clen = self.nodes[src].children.len();
        proof {
            assert(v1[src as int] == v0[src as int]);
        }
        let mut k: usize = 0;
        while k < clen
            invariant
                k <= clen,
                self.wf(),
                self.id() == old(self).id(),
                clen as int == v0[src as int].children.len(),
                (my as int) == v0.len(),
                v0.len() < self.nodes_view().len(),
                self.nodes_view().len() == v0.len() + 1 + kids_size(v0, src as int, k as int),
                forall|j: int|
                    0 <= j < v0.len() ==> (#[trigger] self.nodes_view()[j]) == v0[j],
                self.nodes_view()[my as int].parent is None,
                self.nodes_view()[my as int].data == v0[src as int].data,
                self.nodes_view()[my as int].children.len() == k as int,
                forall|m: int|
                    0 <= m < k ==> subtree_eq(
                        self.nodes_view(),
                        (#[trigger] v0[src as int].children[m]) as int,
                        self.nodes_view()[my as int].children[m] as int,
                    ),
                forall|m: int|
                    0 <= m < k ==> (my as int) < (
                    #[trigger] self.nodes_view()[my as int].children[m]) as int,
            decreases clen - k,
        {
            let ghost vpre = self.nodes_view();
            proof {
                assert(vpre.len() == self.nodes@.len());
                assert(vpre[src as int] == self.nodes@[src as int]@);
                assert(vpre[src as int] == v0[src as int]);
            }
            let c = self.nodes[src].children[k];
            proof {
                assert(wf_at(v0, src as int));
                assert((c as int) < bound);
            }
            proof {
                assert(region_closed(vpre, bound)) by {
                    assert forall|x: int, y: int|
                        0 <= x < bound && 0 <= y < vpre[x].children.len() implies ((
                    #[trigger] vpre[x].children[y]) as int) < bound by {
                        assert(vpre[x] == v0[x]);
                    }
                }
            }
            proof {
                assert(region_closed(v0, v0.len() as int)) by {
                    assert forall|x: int, y: int|
                        0 <= x < v0.len() && 0 <= y < v0[x].children.len() implies ((
                    #[trigger] v0[x].children[y]) as int) < v0.len() by {
                        assert(wf_at(v0, x));
                    }
                }
            }
            let cc = self.clone_rec(c, Ghost(bound));
            let ghost vmid = self.nodes_view();
            proof {
                // The recursive clone grew the store by the child subtree's
                // size, measured identically over the untouched old rows.
                lemma_size_frame(v0, vpre, v0.len() as int, c as int);
                assert(vmid.len() == vpre.len() + subtree_size(v0, c as int));
            }
            self.link_child(my, cc);
            proof {
                let vnow = self.nodes_view();
                let pre_len = vpre.len() as int;
                assert(vnow.len() == v0.len() + 1 + kids_size(v0, src as int, k as int + 1)) by {
                    assert(kids_size(v0, src as int, k as int + 1) == kids_size(
                        v0,
                        src as int,
                        k as int,
                    ) + subtree_size(v0, v0[src as int].children[k as int] as int));
                }
                assert(vnow[my as int].children =~= vpre[my as int].children.push(cc));
                // The region below `my` is closed: those rows predate the
                // clone and keep their inward links.
                assert(region_closed(vmid, my as int)) by {
                    assert forall|x: int, y: int|
                        0 <= x < my as int && 0 <= y < vmid[x].children.len() implies ((
                    #[trigger] vmid[x].children[y]) as int) < my as int by {
                        assert(vmid[x] == v0[x]);
                        assert(wf_at(v0, x));
                    }
                }
                assert(region_closed(vmid, pre_len)) by {
                    assert forall|x: int, y: int|
                        0 <= x < pre_len && 0 <= y < vmid[x].children.len() implies ((
                    #[trigger] vmid[x].children[y]) as int) < pre_len by {
                        assert(vmid[x] == vpre[x]);
                        assert(wf_at(vpre, x));
                    }
                }
                assert forall|m: int| 0 <= m < k + 1 implies subtree_eq(
                    vnow,
                    (#[trigger] v0[src as int].children[m]) as int,
                    vnow[my as int].children[m] as int,
                ) by {
                    let ci = v0[src as int].children[m] as int;
                    assert(wf_at(v0, src as int));
                    assert(0 <= ci < my as int);
                    let cj: int = if m < k {
                        vpre[my as int].children[m] as int
                    } else {
                        cc as int
                    };
                    assert(vnow[my as int].children[m] as int == cj);
                    assert(subtree_eq(vmid, ci, cj)) by {
                        if m < k {
                            assert(subtree_eq(vpre, ci, cj));
                            assert(ci < pre_len && cj < pre_len) by {
                                assert(wf_at(vpre, my as int));
                            }
                            assert(region_closed(vpre, pre_len)) by {
                                assert forall|x: int, y: int|
                                    0 <= x < pre_len && 0 <= y < vpre[x].children.len() implies ((
                                #[trigger] vpre[x].children[y]) as int) < pre_len by {
                                    assert(wf_at(vpre, x));
                                }
                            }
                            lemma_subtree_eq_frame(vpre, vmid, pre_len, ci, cj);
                        }
                    }
                    // Neither subtree reaches `my`: one lies wholly below
                    // it, the other wholly above.
                    assert(!in_subtree(vmid, ci, my as int)) by {
                        if in_subtree(vmid, ci, my as int) {
                            lemma_in_subtree_bound(vmid, my as int, ci, my as int);
                        }
                    }
                    assert(!in_subtree(vmid, cj, my as int)) by {
                        if in_subtree(vmid, cj, my as int) {
                            if cj < my as int {
                                lemma_in_subtree_bound(vmid, my as int, cj, my as int);
                            } else {
                                lemma_in_subtree_ge(vmid, cj, my as int);
                            }
                        }
                    }
                    lemma_subtree_eq_frame_except(vmid, vnow, ci, cj, my as int, cc as int);
                }
            }
            k = k + 1;
        }
        proof {
            assert(wf_at(self.nodes_view(), src as int));
            assert(subtree_eq(self.nodes_view(), src as int, my as int)) by {
                assert(self.nodes_view()[src as int] == v0[src as int]);
            }
            assert(self.nodes_view().len() == v0.len() + subtree_size(v0, src as int)) by {
                assert(subtree_size(v0, src as int) == 1 + kids_size(
                    v0,
                    src as int,
                    v0[src as int].children.len() as int,
                ));
            }
        }
        my
    }
}

impl HtmlContext {
    /// Deep-copies the node and all its descendants into new arena slots,
    /// preserving payloads and node kinds, and returns an independent
    /// orphan handle with no aliasing to the source subtree.
    pub fn clone_node(&mut self, node: &HtmlNode) -> (r: Result<HtmlNode, LibError>)
        requires
            old(self).wf(),
        ensures
            final(self).wf(),
            final(self).id() == old(self).id(),
            r is Err ==> *final(self) == *old(self),
            node.ctx_id != old(self).id() ==> r == Err::<HtmlNode, LibError>(
                LibError::ContextMismatch,
            ),
            node.ctx_id == old(self).id() && !old(self).owns(*node) ==> r == Err::<
                HtmlNode,
                LibError,
            >(LibError::InvalidHandle),
            old(self).owns(*node) ==> (r matches Ok(h) && {
                &&& final(self).owns(h)
                &&& h.ctx_id == old(self).id()
                &&& h.kind == node.kind
                &&& h.node_id as int == old(self).nodes_view().len()
                &&& final(self).nodes_view()[h.node_id as int].parent is None
                &&& subtree_eq(final(self).nodes_view(), node.node_id as int, h.node_id as int)
                &&& final(self).nodes_view().len() == old(self).nodes_view().len() + subtree_size(
                    old(self).nodes_view(),
                    node.node_id as int,
                )
                &&& forall|j: int|
                    0 <= j < old(self).nodes_view().len() ==> (
                    #[trigger] final(self).nodes_view()[j]) == old(self).nodes_view()[j]
            }),
    {
        if let Err(e) = self.check_handle(node) {
            return Err(e);
        }
        let n = self.nodes.len();
        proof {
            assert(region_closed(old(self).nodes_view(), n as int)) by {
                assert forall|x: int, y: int|
                    0 <= x < n as int && 0 <= y < old(self).nodes_view()[x].children.len() implies ((
                #[trigger] old(self).nodes_view()[x].children[y]) as int) < n as int by {
                    assert(wf_at(old(self).nodes_view(), x));
                }
            }
        }
        let idx = self.clone_rec(node.node_id, Ghost(n as int));
        Ok(self.mint(idx))
    }
}

/// Subtree equality survives changes confined to two rows, provided neither
/// row lies in either subtree: here the parent being linked (`pa`, whose
/// child list grew) and the just-linked child (`cb`, whose parent link was
/// set). The subtree at `j` may contain `cb`'s subtree rows, but not `cb`'s
/// own links... the rows' payload and children must be unchanged for rows
/// inside the subtrees, which holds when only `pa`'s children and `cb`'s
/// parent changed.
proof fn lemma_subtree_eq_frame_except(v: Seq<NodeV>, v2: Seq<NodeV>, i: int, j: int, pa: int, cb: int)
    requires
        wf_nodes(v),
        wf_nodes(v2),
        v2.len() == v.len(),
        0 <= i < v.len(),
        0 <= j < v.len(),
        subtree_eq(v, i, j),
        forall|m: int|
            0 <= m < v.len() && m != pa ==> (#[trigger] v2[m]).children == v[m].children
                && v2[m].data == v[m].data,
        v2[pa].data == v[pa].data,
        !in_subtree(v, i, pa),
        !in_subtree(v, j, pa),
    ensures
        subtree_eq(v2, i, j),
    decreases v.len() - i,
{
    assert(wf_at(v, i));
    assert(in_subtree(v, i, i));
    assert(in_subtree(v, j, j));
    assert(i != pa && j != pa);
    assert forall|k: int| 0 <= k < v2[i].children.len() implies subtree_eq(
        v2,
        (#[trigger] v2[i].children[k]) as int,
        v2[j].children[k] as int,
    ) by {
        let ci = v[i].children[k] as int;
        let cj = v[j].children[k] as int;
        assert(subtree_eq(v, ci, cj));
        assert(in_subtree(v, i, ci)) by {
            assert(in_subtree(v, ci, ci));
        }
        assert(in_subtree(v, j, cj)) by {
            assert(in_subtree(v, cj, cj));
        }
        assert(!in_subtree(v, ci, pa)) by {
            if in_subtree(v, ci, pa) {
                lemma_in_subtree_trans(v, i, ci, pa);
            }
        }
        assert(!in_subtree(v, cj, pa)) by {
            if in_subtree(v, cj, pa) {
                lemma_in_subtree_trans(v, j, cj, pa);
            }
        }
        lemma_subtree_eq_frame_except(v, v2, ci, cj, pa, cb);
    }
}

/// Whether row `x` lies in the subtree rooted at `i`.
pub open spec fn in_subtree(nodes: Seq<NodeV>, i: int, x: int) -> bool
    decreases nodes.len() - i,
    when 0 <= i < nodes.len() && wf_nodes(nodes)
    via in_subtree_decreases
{
    ||| x == i
    ||| exists|k: int|
        0 <= k < nodes[i].children.len() && in_subtree(
            nodes,
            (#[trigger] nodes[i].children[k]) as int,
            x,
        )
}

#[via_fn]
proof fn in_subtree_decreases(nodes: Seq<NodeV>, i: int, x: int) {
    assert(wf_at(nodes, i));
}

/// Every row of a subtree rooted below a closed bound lies below that
/// bound.
proof fn lemma_in_subtree_bound(nodes: Seq<NodeV>, L: int, i: int, x: int)
    requires
        wf_nodes(nodes),
        region_closed(nodes, L),
        0 <= i < L,
        L <= nodes.len(),
        in_subtree(nodes, i, x),
    ensures
        x < L,
    decreases nodes.len() - i,
{
    assert(wf_at(nodes, i));
    if x != i {
        let k = choose|k: int|
            0 <= k < nodes[i].children.len() && in_subtree(
                nodes,
                (#[trigger] nodes[i].children[k]) as int,
                x,
            );
        lemma_in_subtree_bound(nodes, L, nodes[i].children[k] as int, x);
    }
}

/// Every row of a subtree lies at or above its root.
pub proof fn lemma_in_subtree_ge(nodes: Seq<NodeV>, i: int, x: int)
    requires
        wf_nodes(nodes),
        0 <= i < nodes.len(),
        in_subtree(nodes, i, x),
    ensures
        x >= i,
    decreases nodes.len() - i,
{
    assert(wf_at(nodes, i));
    if x != i {
        let k = choose|k: int|
            0 <= k < nodes[i].children.len() && in_subtree(
                nodes,
                (#[trigger] nodes[i].children[k]) as int,
                x,
            );
        lemma_in_subtree_ge(nodes, nodes[i].children[k] as int, x);
    }
}

/// Subtree membership is transitive through a child step.
proof fn lemma_in_subtree_trans(nodes: Seq<NodeV>, i: int, mid: int, x: int)
    requires
        wf_nodes(nodes),
        0 <= i < nodes.len(),
        0 <= mid < nodes.len(),
        in_subtree(nodes, i, mid),
        in_subtree(nodes, mid, x),
    ensures
        in_subtree(nodes, i, x),
    decreases nodes.len() - i,
{
    assert(wf_at(nodes, i));
    if mid == i {
    } else {
        let k = choose|k: int|
            0 <= k < nodes[i].children.len() && in_subtree(
                nodes,
                (#[trigger] nodes[i].children[k]) as int,
                mid,
            );
        lemma_in_subtree_trans(nodes, nodes[i].children[k] as int, mid, x);
    }
}

impl HtmlContext {
    /// The payload of row `i`.
    pub fn node_data(&self, i: usize) -> (r: &NodeData)
        requires
            (i as int) < self.nodes_view().len(),
        ensures
            r@ == self.nodes_view()[i as int].data,
    {
        proof {
            assert(self.nodes_view()[i as int] == self.nodes@[i as int]@);
        }
        &self.nodes[i].data
    }

    /// How many children row `i` has.
    pub fn child_count_at(&self, i: usize) -> (r: usize)
        requires
            (i as int) < self.nodes_view().len(),
        ensures
            r as int == self.nodes_view()[i as int].children.len(),
    {
        proof {
            assert(self.nodes_view()[i as int] == self.nodes@[i as int]@);
        }
        self.nodes[i].children.len()
    }

    /// The `k`-th child of row `i`.
    pub fn child_at(&self, i: usize, k: usize) -> (r: usize)
        requires
            (i as int) < self.nodes_view().len(),
            (k as int) < self.nodes_view()[i as int].children.len(),
        ensures
            r == self.nodes_view()[i as int].children[k as int],
    {
        proof {
            assert(self.nodes_view()[i as int] == self.nodes@[i as int]@);
        }
        self.nodes[i].children[k]
    }
}

/// Executable kind of a payload.
pub fn data_kind_exec(d: &NodeData) -> (r: NodeType)
    ensures
        r == data_kind(d@),
{
    match d {
        NodeData::Document => NodeType::Document,
        NodeData::Fragment => NodeType::Fragment,
        NodeData::Doctype { .. } => NodeType::Doctype,
        NodeData::Comment { .. } => NodeType::Comment,
        NodeData::Text { .. } => NodeType::Text,
        NodeData::Element { .. } => NodeType::Element,
        NodeData::Pi { .. } => NodeType::ProcessingInstruction,
    }
}

/// Executable equality of kinds.
pub fn kind_eq(a: NodeType, b: NodeType) -> (r: bool)
    ensures
        r == (a == b),
{
    a == b
}

} // verus!
