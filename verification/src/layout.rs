//! Read-only layout views over a finished tree: thin wrappers a layout
//! pass walks without touching the tree's own representation.

use vstd::prelude::*;

use crate::document::Document;
use crate::dom::DOMTree;
use crate::node::NodeDataView;
use crate::node::NodeId;

verus! {

/// A whole document, as a layout pass sees it.
pub struct LayoutDocument<'dom> {
    pub doc: &'dom Document,
}

/// An element of the document, as a layout pass sees it.
pub struct LayoutElement<'dom> {
    pub doc: &'dom Document,
    pub id: NodeId,
}

/// A shadow root view; the tree model holds no shadow trees, so there is
/// nothing to read from one.
pub struct LayoutShadowRoot;

/// One node of the document, as a layout pass sees it.
pub struct LayoutNode<'dom> {
    pub doc: &'dom Document,
    pub id: NodeId,
}

impl<'dom> LayoutNode<'dom> {
    /// Whether this view is backed by a node of a well-formed tree.
    pub open spec fn wf(self) -> bool {
        &&& self.doc.view().wf()
        &&& self.doc.view().valid(self.id)
    }

    pub fn is_element(&self) -> (r: bool)
        requires
            self.wf(),
        ensures
            r == (self.doc.view().node_at(self.id).data is Element),
    {
        match self.doc.node(self.id) {
            Some(n) => n.as_element().is_some(),
            None => false,
        }
    }

    pub fn is_text_node(&self) -> (r: bool)
        requires
            self.wf(),
        ensures
            r == (self.doc.view().node_at(self.id).data is Text),
    {
        match self.doc.node(self.id) {
            Some(n) => matches!(n.data(), crate::node::NodeData::Text(_)),
            None => false,
        }
    }

    pub fn parent(&self) -> (r: Option<LayoutNode<'dom>>)
        requires
            self.wf(),
        ensures
            match self.doc.view().node_at(self.id).parent {
                Some(p) => r matches Some(n) && n.id == p && n.doc == self.doc,
                None => r is None,
            },
    {
        match self.doc.parent_of(self.id) {
            Some(p) => Some(LayoutNode { doc: self.doc, id: p }),
            None => None,
        }
    }

    /// The parent, as the element a layout traversal ascends to.
    pub fn parent_element(&self) -> (r: Option<LayoutNode<'dom>>)
        requires
            self.wf(),
        ensures
            match self.doc.view().node_at(self.id).parent {
                Some(p) => r matches Some(n) && n.id == p && n.doc == self.doc,
                None => r is None,
            },
    {
        self.parent()
    }

    /// The parent a style traversal walks up to.
    pub fn traversal_parent(&self) -> (r: Option<LayoutNode<'dom>>)
        requires
            self.wf(),
        ensures
            match self.doc.view().node_at(self.id).parent {
                Some(p) => r matches Some(n) && n.id == p && n.doc == self.doc,
                None => r is None,
            },
    {
        self.parent()
    }

    pub fn first_child(&self) -> (r: Option<LayoutNode<'dom>>)
        requires
            self.wf(),
        ensures
            ({
                let kids = self.doc.view().node_at(self.id).children;
                if kids.len() > 0 {
                    r matches Some(n) && n.id == kids[0] && n.doc == self.doc
                } else {
                    r is None
                }
            }),
    {
        let cnt = self.doc.child_count(self.id);
        if cnt > 0 {
            Some(LayoutNode { doc: self.doc, id: self.doc.child_at(self.id, 0) })
        } else {
            None
        }
    }

    pub fn last_child(&self) -> (r: Option<LayoutNode<'dom>>)
        requires
            self.wf(),
        ensures
            ({
                let kids = self.doc.view().node_at(self.id).children;
                if kids.len() > 0 {
                    r matches Some(n) && n.id == kids.last() && n.doc == self.doc
                } else {
                    r is None
                }
            }),
    {
        let cnt = self.doc.child_count(self.id);
        if cnt > 0 {
            Some(LayoutNode { doc: self.doc, id: self.doc.child_at(self.id, cnt - 1) })
        } else {
            None
        }
    }

    pub fn prev_sibling(&self) -> (r: Option<LayoutNode<'dom>>)
        requires
            self.wf(),
        ensures
            ({
                let t = self.doc.view();
                match t.node_at(self.id).parent {
                    Some(p) => {
                        let index = t.node_at(p).children.index_of_first(self.id)->0;
                        if index > 0 {
                            r matches Some(n) && n.id == t.node_at(p).children[index - 1]
                                && n.doc == self.doc
                        } else {
                            r is None
                        }
                    },
                    None => r is None,
                }
            }),
    {
        match self.doc.parent_of(self.id) {
            None => None,
            Some(p) => {
                proof {
                    assert(self.doc.view().nodes[self.id.index as int].id == self.id);
                    assert(self.doc.view().node_at(p).children.contains(self.id));
                }
                let index = self.doc.index_as_child(self.id);
                proof {
                    self.doc.view().node_at(p).children.index_of_first_ensures(self.id);
                }
                if index > 0 {
                    Some(LayoutNode { doc: self.doc, id: self.doc.child_at(p, index - 1) })
                } else {
                    None
                }
            },
        }
    }

    pub fn next_sibling(&self) -> (r: Option<LayoutNode<'dom>>)
        requires
            self.wf(),
        ensures
            ({
                let t = self.doc.view();
                match t.node_at(self.id).parent {
                    Some(p) => {
                        let index = t.node_at(p).children.index_of_first(self.id)->0;
                        if index + 1 < t.node_at(p).children.len() {
                            r matches Some(n) && n.id == t.node_at(p).children[index + 1]
                                && n.doc == self.doc
                        } else {
                            r is None
                        }
                    },
                    None => r is None,
                }
            }),
    {
        match self.doc.parent_of(self.id) {
            None => None,
            Some(p) => {
                proof {
                    assert(self.doc.view().nodes[self.id.index as int].id == self.id);
                    assert(self.doc.view().node_at(p).children.contains(self.id));
                }
                let index = self.doc.index_as_child(self.id);
                proof {
                    self.doc.view().node_at(p).children.index_of_first_ensures(self.id);
                }
                let cnt = self.doc.child_count(p);
                if index + 1 < cnt {
                    Some(LayoutNode { doc: self.doc, id: self.doc.child_at(p, index + 1) })
                } else {
                    None
                }
            },
        }
    }

    /// Nodes of a finished parse all belong to their document.
    pub fn is_in_document(&self) -> (r: bool)
        ensures
            r,
    {
        true
    }

    pub fn as_element(&self) -> (r: Option<LayoutNode<'dom>>)
        requires
            self.wf(),
        ensures
            match self.doc.view().node_at(self.id).data {
                NodeDataView::Element(_) => r matches Some(n) && n.id == self.id && n.doc
                    == self.doc,
                _ => r is None,
            },
    {
        if self.is_element() {
            Some(LayoutNode { doc: self.doc, id: self.id })
        } else {
            None
        }
    }

    pub fn as_document(&self) -> (r: Option<LayoutNode<'dom>>)
        requires
            self.wf(),
        ensures
            match self.doc.view().node_at(self.id).data {
                NodeDataView::Document => r matches Some(n) && n.id == self.id && n.doc
                    == self.doc,
                _ => r is None,
            },
    {
        match self.doc.node(self.id) {
            Some(n) => match n.data() {
                crate::node::NodeData::Document => Some(LayoutNode { doc: self.doc, id: self.id }),
                _ => None,
            },
            None => None,
        }
    }
}

} // verus!
