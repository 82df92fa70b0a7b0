//! The arena-backed document tree: node records owned by a growable
//! arena, stable monotonically-issued handles, a fixed root, and the
//! `DOMTree` capability contract implemented on top of them.

use vstd::prelude::*;

use crate::dom::DOMTree;
use crate::dom::QuirksMode;
use crate::dom::SerializableNode;
use crate::dom::TreeView;
use crate::dom::created;
use crate::dom::element_payload;
use crate::dom::fresh_id;
use crate::dom::with_node;
use crate::node::Attr;
use crate::node::ElementData;
use crate::node::Node;
use crate::node::NodeData;
use crate::node::NodeDataView;
use crate::node::NodeView;
use crate::node::NodeId;
use crate::node::attr_views;
use crate::node::clone_attrs;
use crate::node::merge_attrs;
use crate::node::nodes_view;
use crate::node::ElementView;

verus! {

/// A document tree: an arena of node records, the handle of the fixed
/// root, the quirks mode, and the parse errors reported so far.
///
/// The arena only ever grows; a removed node keeps its slot, so a handle
/// is never reused for a different node.
#[derive(Debug)]
pub struct Document {
    pub nodes: Vec<Node>,
    pub root: NodeId,
    pub quirks_mode: QuirksMode,
    pub errors: Vec<String>,
}

/// The model of a tree holding a single root node carrying `data`.
pub open spec fn initial_tree(data: NodeDataView) -> TreeView {
    TreeView {
        nodes: seq![
            NodeView {
                id: NodeId { index: 0 },
                data,
                parent: None,
                children: Seq::empty(),
            },
        ],
        root: NodeId { index: 0 },
        quirks_mode: QuirksMode::NoQuirks,
        errors: Seq::empty(),
    }
}

impl Document {
    /// A tree whose permanent root is a Document node.
    pub fn new() -> (r: Document)
        ensures
            r.view() == initial_tree(NodeDataView::Document),
            r.view().wf(),
    {
        Document::with_root(NodeData::Document)
    }

    /// A tree whose permanent root is a DocumentFragment node, as a
    /// fragment parse uses.
    pub fn new_fragment() -> (r: Document)
        ensures
            r.view() == initial_tree(NodeDataView::DocumentFragment),
            r.view().wf(),
    {
        Document::with_root(NodeData::DocumentFragment)
    }

    fn with_root(data: NodeData) -> (r: Document)
        requires
            data@ is Document || data@ is DocumentFragment,
        ensures
            r.view() == initial_tree(data@),
            r.view().wf(),
    {
        let root = NodeId { index: 0 };
        let mut nodes: Vec<Node> = Vec::new();
        nodes.push(Node::new(root, data));
        let r = Document { nodes, root, quirks_mode: QuirksMode::NoQuirks, errors: Vec::new() };
        proof {
            assert(r.view() =~= initial_tree(data@));
            let t = r.view();
            assert(t.nodes.len() == 1);
            assert(t.nodes[0].parent is None);
            assert(t.nodes[0].children.len() == 0);
            assert(t.nodes[0].id == (NodeId { index: 0 }));
            assert(t.wf());
        }
        r
    }

    /// Allocate a new node carrying `data`; it starts parentless.
    pub fn insert_node(&mut self, data: NodeData) -> (r: NodeId)
        ensures
            r == fresh_id(old(self).view()),
            final(self).view() == created(old(self).view(), data@),
    {
        let id = NodeId { index: self.nodes.len() };
        self.nodes.push(Node::new(id, data));
        proof {
            assert(self.view() =~= created(old(self).view(), data@));
        }
        id
    }

    /// The root handle; the root always exists.
    pub fn id(&self) -> (r: NodeId)
        ensures
            r == self.view().root,
    {
        self.root
    }

    /// Look a node up; `None` when `id` is not a handle of this tree.
    pub fn node(&self, id: NodeId) -> (r: Option<&Node>)
        ensures
            match r {
                Some(n) => self.view().valid(id) && n@ == self.view().node_at(id),
                None => !self.view().valid(id),
            },
    {
        if id.index < self.nodes.len() {
            Some(&self.nodes[id.index])
        } else {
            None
        }
    }

    /// Look a node up for mutation; `None` when `id` is not a handle of
    /// this tree. The tree afterwards holds whatever the caller made of
    /// the record.
    pub fn node_mut(&mut self, id: NodeId) -> (r: Option<&mut Node>)
        ensures
            match r {
                Some(n) => old(self).view().valid(id) && (*n)@ == old(self).view().node_at(id)
                    && final(self).view() == with_node(old(self).view(), id, (*final(n))@),
                None => !old(self).view().valid(id) && final(self).view() == old(self).view(),
            },
    {
        if id.index < self.nodes.len() {
            Some(&mut self.nodes[id.index])
        } else {
            None
        }
    }

    /// The arena holding every node record of this tree.
    pub fn tree(&self) -> (r: &Vec<Node>)
        ensures
            nodes_view(r@) == self.view().nodes,
    {
        &self.nodes
    }

    /// The arena, for mutation; the tree afterwards holds whatever the
    /// caller made of it.
    pub fn tree_mut(&mut self) -> (r: &mut Vec<Node>)
        ensures
            (*r)@ == old(self).nodes@,
            final(self).view() == (TreeView {
                nodes: nodes_view((*final(r))@),
                ..old(self).view()
            }),
    {
        &mut self.nodes
    }

    /// The root node record.
    pub fn root(&self) -> (r: &Node)
        requires
            self.view().valid(self.view().root),
        ensures
            r@ == self.view().node_at(self.view().root),
    {
        &self.nodes[self.root.index]
    }

    /// The position of `id` within its parent's children, 0 for a node
    /// with no parent.
    pub fn index_as_child(&self, id: NodeId) -> (r: usize)
        requires
            self.view().wf(),
            self.view().valid(id),
        ensures
            match self.view().node_at(id).parent {
                Some(p) => self.view().node_at(p).children.index_of_first(id) == Some(r as int),
                None => r == 0,
            },
    {
        match self.parent_of(id) {
            None => 0,
            Some(p) => {
                proof {
                    assert(self.view().nodes[id.index as int].id == id);
                    assert(self.view().node_at(p).children.contains(id));
                }
                crate::sink::find_child_index(self, p, id)
            },
        }
    }

    /// The sibling `n` places before `id`, `None` for a node with no
    /// parent; `n` must not reach past the first sibling.
    pub fn nth_prev_sibling_id(&self, id: NodeId, n: usize) -> (r: Option<NodeId>)
        requires
            self.view().wf(),
            self.view().valid(id),
            match self.view().node_at(id).parent {
                Some(p) => n <= self.view().node_at(p).children.index_of_first(id)->0,
                None => true,
            },
        ensures
            match self.view().node_at(id).parent {
                Some(p) => r == Some(
                    self.view().node_at(p).children[self.view().node_at(p).children.index_of_first(
                        id,
                    )->0 - n],
                ),
                None => r is None,
            },
    {
        match self.parent_of(id) {
            None => None,
            Some(p) => {
                let index = self.index_as_child(id);
                proof {
                    self.view().node_at(p).children.index_of_first_ensures(id);
                }
                Some(self.child_at(p, index - n))
            },
        }
    }

    /// The sibling `n` places after `id`, `None` for a node with no
    /// parent or when `n` reaches past the last sibling.
    pub fn nth_next_sibling_id(&self, id: NodeId, n: usize) -> (r: Option<NodeId>)
        requires
            self.view().wf(),
            self.view().valid(id),
            match self.view().node_at(id).parent {
                Some(p) => self.view().node_at(p).children.index_of_first(id)->0 + n
                    <= usize::MAX,
                None => true,
            },
        ensures
            match self.view().node_at(id).parent {
                Some(p) => {
                    let index = self.view().node_at(p).children.index_of_first(id)->0 + n;
                    if index < self.view().node_at(p).children.len() {
                        r == Some(self.view().node_at(p).children[index])
                    } else {
                        r is None
                    }
                },
                None => r is None,
            },
    {
        match self.parent_of(id) {
            None => None,
            Some(p) => {
                let index = self.index_as_child(id);
                proof {
                    self.view().node_at(p).children.index_of_first_ensures(id);
                }
                let cnt = self.child_count(p);
                if n < cnt - index {
                    Some(self.child_at(p, index + n))
                } else {
                    None
                }
            },
        }
    }

    /// Push `new_child_id` at the end of the children of `parent_id`.
    pub fn append_to(&mut self, parent_id: NodeId, new_child_id: NodeId)
        requires
            old(self).view().valid(parent_id),
        ensures
            final(self).view() == with_node(
                old(self).view(),
                parent_id,
                NodeView {
                    children: old(self).view().node_at(parent_id).children.push(new_child_id),
                    ..old(self).view().node_at(parent_id)
                },
            ),
    {
        self.append_child(parent_id, new_child_id);
    }
}

impl DOMTree for Document {
    open spec fn view(&self) -> TreeView {
        TreeView {
            nodes: nodes_view(self.nodes@),
            root: self.root,
            quirks_mode: self.quirks_mode,
            errors: self.errors@.map_values(|s: String| s@),
        }
    }

    fn root_id(&self) -> NodeId {
        self.root
    }

    fn node_count(&self) -> usize {
        self.nodes.len()
    }

    fn has_node(&self, id: NodeId) -> bool {
        id.index < self.nodes.len()
    }

    fn parent_of(&self, id: NodeId) -> Option<NodeId> {
        self.nodes[id.index].parent
    }

    fn child_count(&self, id: NodeId) -> usize {
        self.nodes[id.index].children.len()
    }

    fn child_at(&self, id: NodeId, i: usize) -> NodeId {
        self.nodes[id.index].children[i]
    }

    fn element_name(&self, id: NodeId) -> Option<String> {
        match &self.nodes[id.index].data {
            NodeData::Element(e) => Some(e.name.clone()),
            _ => None,
        }
    }

    fn serializable_data(&self, id: NodeId) -> SerializableNode {
        match &self.nodes[id.index].data {
            NodeData::Doctype { name, .. } => SerializableNode::Doctype(name.clone()),
            NodeData::Comment(c) => SerializableNode::Comment(c.clone()),
            NodeData::Text(t) => SerializableNode::Text(t.clone()),
            NodeData::Element(e) => SerializableNode::Element(e.name.clone(), clone_attrs(&e.attrs)),
            _ => SerializableNode::Skip,
        }
    }

    fn quirks_mode(&self) -> QuirksMode {
        self.quirks_mode
    }

    fn set_quirks_mode(&mut self, quirks_mode: QuirksMode) {
        self.quirks_mode = quirks_mode;
        proof {
            assert(self.view() =~= (TreeView { quirks_mode, ..old(self).view() }));
        }
    }

    fn handle_parser_error(&mut self, msg: String) {
        self.errors.push(msg);
        proof {
            assert(self.view() =~= (TreeView {
                errors: old(self).view().errors.push(msg@),
                ..old(self).view()
            }));
        }
    }

    fn create_fragment(&mut self) -> NodeId {
        self.insert_node(NodeData::DocumentFragment)
    }

    fn create_doctype(&mut self, name: String, public_id: String, system_id: String) -> NodeId {
        self.insert_node(NodeData::Doctype { name, public_id, system_id })
    }

    fn create_text_node(&mut self, data: String) -> NodeId {
        self.insert_node(NodeData::Text(data))
    }

    fn create_comment(&mut self, data: String) -> NodeId {
        self.insert_node(NodeData::Comment(data))
    }

    fn create_processing_instruction(&mut self, target: String, data: String) -> NodeId {
        self.insert_node(NodeData::ProcessingInstruction { target, data })
    }

    fn create_element(&mut self, name: String, attrs: Vec<Attr>) -> NodeId {
        let ghost nameview = name@;
        let ghost attrsview = attr_views(attrs@);
        let e = ElementData::new(name, attrs);
        proof {
            assert(NodeDataView::Element(e@) =~= element_payload(nameview, attrsview));
        }
        self.insert_node(NodeData::Element(e))
    }

    fn reparent(&mut self, id: NodeId, new_parent: NodeId) {
        let n = &mut self.nodes[id.index];
        n.reparent(new_parent);
        proof {
            assert(self.view() =~= with_node(
                old(self).view(),
                id,
                NodeView { parent: Some(new_parent), ..old(self).view().node_at(id) },
            ));
        }
    }

    fn detach_from_parent(&mut self, id: NodeId) {
        let n = &mut self.nodes[id.index];
        n.detach_from_parent();
        proof {
            assert(self.view() =~= with_node(
                old(self).view(),
                id,
                NodeView { parent: None, ..old(self).view().node_at(id) },
            ));
        }
    }

    fn append_child(&mut self, parent: NodeId, child: NodeId) {
        let n = &mut self.nodes[parent.index];
        n.append_child(child);
        proof {
            assert(self.view() =~= with_node(
                old(self).view(),
                parent,
                NodeView {
                    children: old(self).view().node_at(parent).children.push(child),
                    ..old(self).view().node_at(parent)
                },
            ));
        }
    }

    fn append_children(&mut self, parent: NodeId, ids: &Vec<NodeId>) {
        let n = &mut self.nodes[parent.index];
        n.append_children(ids);
        proof {
            assert(self.view() =~= with_node(
                old(self).view(),
                parent,
                NodeView {
                    children: old(self).view().node_at(parent).children + ids@,
                    ..old(self).view().node_at(parent)
                },
            ));
        }
    }

    fn insert_child(&mut self, parent: NodeId, index: usize, child: NodeId) {
        let n = &mut self.nodes[parent.index];
        n.insert_child(index, child);
        proof {
            assert(self.view() =~= with_node(
                old(self).view(),
                parent,
                NodeView {
                    children: old(self).view().node_at(parent).children.insert(index as int, child),
                    ..old(self).view().node_at(parent)
                },
            ));
        }
    }

    fn remove_child(&mut self, parent: NodeId, child: NodeId) {
        let n = &mut self.nodes[parent.index];
        n.remove_child(child);
        proof {
            if old(self).view().node_at(parent).children.contains(child) {
                assert(self.view() =~= with_node(
                    old(self).view(),
                    parent,
                    NodeView {
                        children: old(self).view().node_at(parent).children.remove_value(child),
                        ..old(self).view().node_at(parent)
                    },
                ));
            } else {
                assert(self.view() =~= old(self).view());
            }
        }
    }

    fn take_children(&mut self, id: NodeId) -> Vec<NodeId> {
        let n = &mut self.nodes[id.index];
        let mut out: Vec<NodeId> = Vec::new();
        out.append(&mut n.children);
        proof {
            assert(out@ =~= old(self).view().node_at(id).children);
            assert(self.view() =~= with_node(
                old(self).view(),
                id,
                NodeView { children: Seq::empty(), ..old(self).view().node_at(id) },
            ));
        }
        out
    }

    fn try_append_to_text_node(&mut self, id: NodeId, text: &str) -> bool {
        let n = &mut self.nodes[id.index];
        let r = n.try_append_to_text_node(text);
        proof {
            match old(self).view().node_at(id).data {
                NodeDataView::Text(s) => {
                    assert(self.view() =~= with_node(
                        old(self).view(),
                        id,
                        NodeView {
                            data: NodeDataView::Text(s + text@),
                            ..old(self).view().node_at(id)
                        },
                    ));
                },
                _ => {
                    assert(self.view() =~= old(self).view());
                },
            }
        }
        r
    }

    fn try_merge_attrs(&mut self, id: NodeId, attrs: &Vec<Attr>) -> bool {
        let n = &mut self.nodes[id.index];
        let r = n.try_merge_attrs(attrs);
        proof {
            match old(self).view().node_at(id).data {
                NodeDataView::Element(e) => {
                    assert(self.view() =~= with_node(
                        old(self).view(),
                        id,
                        NodeView {
                            data: NodeDataView::Element(
                                ElementView { attrs: merge_attrs(e.attrs, attr_views(attrs@)), ..e },
                            ),
                            ..old(self).view().node_at(id)
                        },
                    ));
                },
                _ => {
                    assert(self.view() =~= old(self).view());
                },
            }
        }
        r
    }
}

impl Default for Document {
    /// A fresh Document-rooted tree.
    fn default() -> (r: Document)
        ensures
            r.view() == initial_tree(NodeDataView::Document),
            r.view().wf(),
    {
        Document::new()
    }
}

} // verus!
