//! The protocol adapter: the operation set the external parsing driver
//! expects, implemented purely in terms of the tree capability contract,
//! generic over any tree representation. Every operation keeps the tree
//! well-formed.

use vstd::prelude::*;
use vstd::pervasive::unreached;

use crate::dom::DOMTree;
use crate::dom::QuirksMode;
use crate::dom::TreeView;
use crate::dom::created;
use crate::dom::element_payload;
use crate::dom::fresh_id;
use crate::dom::lemma_created_wf;
use crate::dom::lemma_link_child_wf;
use crate::dom::lemma_reparented_wf;
use crate::dom::lemma_unlink_child_wf;
use crate::dom::lemma_update_data_wf;
use crate::dom::link_child;
use crate::dom::reparented;
use crate::dom::unlink_child;
use crate::dom::with_node;
use crate::node::Attr;
use crate::node::AttrView;
use crate::node::ElementView;
use crate::node::NodeDataView;
use crate::node::NodeId;
use crate::node::NodeView;
use crate::node::attr_views;
use crate::node::lemma_merge_attrs_names;
use crate::node::merge_attrs;

verus! {

/// Something the driver inserts into the tree: an existing node, or a run
/// of text that may coalesce with an adjacent Text node.
#[derive(Debug)]
pub enum NodeOrText {
    AppendNode(NodeId),
    AppendText(String),
}

/// The tree `t` with `child` linked as the last child of `parent`.
pub open spec fn append_node_spec(t: TreeView, parent: NodeId, child: NodeId) -> TreeView {
    link_child(t, parent, child, t.node_at(parent).children.len() as int)
}

/// The tree `t` after text is appended under `parent`: the text coalesces
/// into the parent's last child if that is a Text node, else a fresh Text
/// node is linked as the last child.
pub open spec fn append_text_spec(t: TreeView, parent: NodeId, text: Seq<char>) -> TreeView {
    let kids = t.node_at(parent).children;
    if kids.len() > 0 && t.node_at(kids.last()).data is Text {
        with_node(
            t,
            kids.last(),
            NodeView {
                data: NodeDataView::Text(t.node_at(kids.last()).data->Text_0 + text),
                ..t.node_at(kids.last())
            },
        )
    } else {
        append_node_spec(created(t, NodeDataView::Text(text)), parent, fresh_id(t))
    }
}

/// The tree `t` with `target` detached from its parent and removed from
/// the former parent's children; unchanged if `target` has no parent.
pub open spec fn remove_spec(t: TreeView, target: NodeId) -> TreeView {
    if t.node_at(target).parent is Some {
        unlink_child(t, target)
    } else {
        t
    }
}

/// The tree `t` with node `child` spliced in immediately before
/// `sibling`, after first detaching `child` from any old parent.
pub open spec fn before_sibling_node_spec(t: TreeView, sibling: NodeId, child: NodeId) -> TreeView {
    let t0 = remove_spec(t, child);
    let p = t0.node_at(sibling).parent->0;
    let index = t0.node_at(p).children.index_of_first(sibling)->0;
    link_child(t0, p, child, index)
}

/// The tree `t` after text is inserted immediately before `sibling`: the
/// text coalesces into the sibling's previous sibling if that is a Text
/// node, else a fresh Text node is spliced in at the sibling's position.
pub open spec fn before_sibling_text_spec(t: TreeView, sibling: NodeId, text: Seq<char>) -> TreeView {
    let p = t.node_at(sibling).parent->0;
    let kids = t.node_at(p).children;
    let index = kids.index_of_first(sibling)->0;
    if index > 0 && t.node_at(kids[index - 1]).data is Text {
        with_node(
            t,
            kids[index - 1],
            NodeView {
                data: NodeDataView::Text(t.node_at(kids[index - 1]).data->Text_0 + text),
                ..t.node_at(kids[index - 1])
            },
        )
    } else {
        link_child(created(t, NodeDataView::Text(text)), p, fresh_id(t), index)
    }
}

/// The tree `t` with a fresh element; a template element additionally
/// gets a fresh DocumentFragment, its template contents holder, linked as
/// its sole child.
pub open spec fn create_element_spec(
    t: TreeView,
    name: Seq<char>,
    attrs: Seq<AttrView>,
    is_template: bool,
) -> TreeView {
    let t1 = created(t, element_payload(name, attrs));
    if is_template {
        append_node_spec(created(t1, NodeDataView::DocumentFragment), fresh_id(t), fresh_id(t1))
    } else {
        t1
    }
}

/// Scan the children of `parent` for the first occurrence of `target`.
pub(crate) fn find_child_index<T: DOMTree>(tree: &T, parent: NodeId, target: NodeId) -> (r: usize)
    requires
        tree.view().valid(parent),
        tree.view().node_at(parent).children.contains(target),
    ensures
        tree.view().node_at(parent).children.index_of_first(target) == Some(r as int),
        r < tree.view().node_at(parent).children.len(),
        tree.view().node_at(parent).children[r as int] == target,
{
    let ghost kids = tree.view().node_at(parent).children;
    let n = tree.child_count(parent);
    let mut i: usize = 0;
    while i < n
        invariant
            0 <= i <= n,
            n == kids.len(),
            tree.view().valid(parent),
            kids == tree.view().node_at(parent).children,
            forall|j: int| 0 <= j < i ==> kids[j] != target,
        decreases n - i,
    {
        if tree.child_at(parent, i) == target {
            proof {
                kids.index_of_first_ensures(target);
                match kids.index_of_first(target) {
                    Some(k) => {
                        if k < i as int {
                            assert(kids[k] != target);
                        }
                        if k > i as int {
                            assert(kids[i as int] != target);
                        }
                    },
                    None => {
                        assert(!kids.contains(target));
                    },
                }
            }
            return i;
        }
        i = i + 1;
    }
    proof {
        let j = choose|j: int| 0 <= j < kids.len() && kids[j] == target;
        assert(kids[j] != target);
    }
    unreached()
}

/// The protocol adapter: holds a tree and implements the driver's
/// operation catalogue over the tree capability contract alone.
pub struct GenericSink<T: DOMTree> {
    pub dom_tree: T,
}

impl<T: DOMTree> GenericSink<T> {
    pub fn new(dom_tree: T) -> (r: GenericSink<T>)
        ensures
            r.dom_tree == dom_tree,
    {
        GenericSink { dom_tree }
    }

    /// Hand the finished tree back to the caller.
    pub fn finish(self) -> (r: T)
        ensures
            r == self.dom_tree,
    {
        self.dom_tree
    }

    /// The handle of the document root.
    pub fn get_document(&self) -> (r: NodeId)
        ensures
            r == self.dom_tree.view().root,
    {
        self.dom_tree.root_id()
    }

    /// Whether two handles name the same node.
    pub fn same_node(&self, x: NodeId, y: NodeId) -> (r: bool)
        ensures
            r == (x == y),
    {
        x == y
    }

    /// The qualified name of an element; the driver never asks for the
    /// name of another node kind.
    pub fn elem_name(&self, target: NodeId) -> (r: String)
        requires
            self.dom_tree.view().valid(target),
            self.dom_tree.view().node_at(target).data is Element,
        ensures
            r@ == self.dom_tree.view().node_at(target).data->Element_0.name,
    {
        match self.dom_tree.element_name(target) {
            Some(name) => name,
            None => unreached(),
        }
    }

    /// The template contents holder of a template element: its first
    /// child; the driver only asks this of templates, whose creation put
    /// the holder there.
    pub fn get_template_contents(&self, target: NodeId) -> (r: NodeId)
        requires
            self.dom_tree.view().valid(target),
            self.dom_tree.view().node_at(target).children.len() > 0,
        ensures
            r == self.dom_tree.view().node_at(target).children[0],
    {
        self.dom_tree.child_at(target, 0)
    }

    /// Store the driver-reported quirks mode.
    pub fn set_quirks_mode(&mut self, quirks_mode: QuirksMode)
        requires
            old(self).dom_tree.view().wf(),
        ensures
            final(self).dom_tree.view() == (TreeView {
                quirks_mode,
                ..old(self).dom_tree.view()
            }),
            final(self).dom_tree.view().wf(),
    {
        self.dom_tree.set_quirks_mode(quirks_mode);
    }

    /// Record a non-fatal parse diagnostic; parsing always continues.
    pub fn parse_error(&mut self, msg: String)
        requires
            old(self).dom_tree.view().wf(),
        ensures
            final(self).dom_tree.view() == (TreeView {
                errors: old(self).dom_tree.view().errors.push(msg@),
                ..old(self).dom_tree.view()
            }),
            final(self).dom_tree.view().wf(),
    {
        self.dom_tree.handle_parser_error(msg);
    }

    /// Detach `target` and remove it from its former parent's children; a
    /// node with no parent is left unchanged.
    pub fn remove_from_parent(&mut self, target: NodeId)
        requires
            old(self).dom_tree.view().wf(),
            old(self).dom_tree.view().valid(target),
        ensures
            final(self).dom_tree.view() == remove_spec(old(self).dom_tree.view(), target),
            final(self).dom_tree.view().wf(),
    {
        let ghost t = self.dom_tree.view();
        match self.dom_tree.parent_of(target) {
            None => {},
            Some(p) => {
                proof {
                    assert(t.nodes[target.index as int].id == target);
                    assert(p.index < t.nodes.len());
                    assert(t.node_at(p).children.contains(target));
                }
                self.dom_tree.detach_from_parent(target);
                self.dom_tree.remove_child(p, target);
                proof {
                    assert(self.dom_tree.view() =~= unlink_child(t, target));
                    lemma_unlink_child_wf(t, target);
                }
            },
        }
    }

    /// Add each attribute whose name is not already present; existing
    /// attributes keep their value (first occurrence wins). The driver
    /// only calls this on elements; another node kind is left unchanged.
    pub fn add_attrs_if_missing(&mut self, target: NodeId, attrs: Vec<Attr>)
        requires
            old(self).dom_tree.view().wf(),
            old(self).dom_tree.view().valid(target),
        ensures
            match old(self).dom_tree.view().node_at(target).data {
                NodeDataView::Element(e) => final(self).dom_tree.view() == with_node(
                    old(self).dom_tree.view(),
                    target,
                    NodeView {
                        data: NodeDataView::Element(
                            ElementView { attrs: merge_attrs(e.attrs, attr_views(attrs@)), ..e },
                        ),
                        ..old(self).dom_tree.view().node_at(target)
                    },
                ),
                _ => final(self).dom_tree.view() == old(self).dom_tree.view(),
            },
            final(self).dom_tree.view().wf(),
    {
        let ghost t = self.dom_tree.view();
        self.dom_tree.try_merge_attrs(target, &attrs);
        proof {
            match t.node_at(target).data {
                NodeDataView::Element(e) => {
                    assert(attr_names_distinct_at(t, target));
                    lemma_merge_attrs_names(e.attrs, attr_views(attrs@));
                    lemma_update_data_wf(
                        t,
                        target,
                        NodeDataView::Element(
                            ElementView { attrs: merge_attrs(e.attrs, attr_views(attrs@)), ..e },
                        ),
                    );
                },
                _ => {},
            }
        }
    }
}

/// The attribute names of the element at `id`, if it is one, are
/// distinct; a reading of the well-formedness invariant at one node.
pub open spec fn attr_names_distinct_at(t: TreeView, id: NodeId) -> bool {
    match t.node_at(id).data {
        NodeDataView::Element(e) => crate::node::attr_names_distinct(e.attrs),
        _ => true,
    }
}

/// Adjacent text insertions at one insertion point coalesce: after text
/// is appended under a parent, appending more text to the same parent
/// allocates no node; it extends the Text node the first insertion left
/// as the last child, which then carries the concatenated content.
pub proof fn lemma_adjacent_text_coalesces(
    t: TreeView,
    parent: NodeId,
    first: Seq<char>,
    second: Seq<char>,
)
    requires
        t.wf(),
        t.valid(parent),
        t.nodes.len() < usize::MAX,
    ensures
        ({
            let t1 = append_text_spec(t, parent, first);
            let t2 = append_text_spec(t1, parent, second);
            let kids = t1.node_at(parent).children;
            &&& kids.len() > 0
            &&& t2.nodes.len() == t1.nodes.len()
            &&& t2.node_at(parent).children == kids
            &&& t1.node_at(kids.last()).data is Text
            &&& t2.node_at(kids.last()).data == NodeDataView::Text(
                t1.node_at(kids.last()).data->Text_0 + second,
            )
        }),
{
    let t1 = append_text_spec(t, parent, first);
    let kids0 = t.node_at(parent).children;
    if kids0.len() > 0 && t.node_at(kids0.last()).data is Text {
        let last = kids0.last();
        assert(t1.node_at(parent).children == kids0);
        assert(t1.node_at(last).data is Text);
        let t2 = append_text_spec(t1, parent, second);
        assert(t2 == with_node(
            t1,
            last,
            NodeView {
                data: NodeDataView::Text(t1.node_at(last).data->Text_0 + second),
                ..t1.node_at(last)
            },
        ));
        assert(t2.node_at(parent).children == kids0);
    } else {
        let fresh = fresh_id(t);
        let tc = created(t, NodeDataView::Text(first));
        lemma_created_wf(t, NodeDataView::Text(first));
        assert(fresh.index == t.nodes.len());
        assert(parent.index != fresh.index);
        assert(t1 == append_node_spec(tc, parent, fresh));
        let base = tc.node_at(parent).children;
        assert(base == kids0);
        assert(t1.node_at(parent).children =~= kids0.push(fresh)) by {
            base.insert_ensures(base.len() as int, fresh);
        }
        assert(t1.node_at(parent).children.last() == fresh);
        assert(t1.node_at(fresh).data == NodeDataView::Text(first));
        let t2 = append_text_spec(t1, parent, second);
        assert(t2 == with_node(
            t1,
            fresh,
            NodeView {
                data: NodeDataView::Text(t1.node_at(fresh).data->Text_0 + second),
                ..t1.node_at(fresh)
            },
        ));
        assert(t2.node_at(parent).children == t1.node_at(parent).children);
    }
}

/// Creating a template element always yields an element whose first and
/// only child is a fresh DocumentFragment, the template contents holder
/// that get_template_contents retrieves.
pub proof fn lemma_template_contents(t: TreeView, name: Seq<char>, attrs: Seq<AttrView>)
    requires
        t.wf(),
        t.nodes.len() + 1 < usize::MAX,
    ensures
        ({
            let t2 = create_element_spec(t, name, attrs, true);
            let elem = fresh_id(t);
            let holder = fresh_id(created(t, element_payload(name, attrs)));
            &&& t2.wf()
            &&& t2.valid(elem)
            &&& elem != holder
            &&& t2.node_at(elem).data == element_payload(name, attrs)
            &&& t2.node_at(elem).children.len() == 1
            &&& t2.node_at(elem).children[0] == holder
            &&& t2.node_at(holder).data is DocumentFragment
            &&& t2.node_at(holder).parent == Some(elem)
        }),
{
    let elem = fresh_id(t);
    let t1 = created(t, element_payload(name, attrs));
    let holder = fresh_id(t1);
    lemma_merge_attrs_names(Seq::<AttrView>::empty(), attrs);
    lemma_created_wf(t, element_payload(name, attrs));
    let tc = created(t1, NodeDataView::DocumentFragment);
    lemma_created_wf(t1, NodeDataView::DocumentFragment);
    assert(elem.index == t.nodes.len());
    assert(holder.index == t.nodes.len() + 1);
    assert(tc.node_at(elem).children.len() == 0);
    assert(tc.node_at(holder).parent is None);
    lemma_link_child_wf(tc, elem, holder, 0);
    let t2 = create_element_spec(t, name, attrs, true);
    assert(t2 == link_child(tc, elem, holder, 0));
    assert(t2.node_at(elem).children =~= Seq::<NodeId>::empty().insert(0, holder)) by {
        Seq::<NodeId>::empty().insert_ensures(0, holder);
    }
    assert(t2.node_at(elem).children.len() == 1);
    assert(t2.node_at(elem).children[0] == holder);
    assert(t2.node_at(holder).parent == Some(elem));
    assert(t2.node_at(holder).data is DocumentFragment);
    assert(t2.node_at(elem).data == element_payload(name, attrs));
}

/// The tree `t` with a fresh doctype node linked as the last child of
/// the root.
pub open spec fn append_doctype_spec(
    t: TreeView,
    name: Seq<char>,
    public_id: Seq<char>,
    system_id: Seq<char>,
) -> TreeView {
    append_node_spec(
        created(t, NodeDataView::Doctype { name, public_id, system_id }),
        t.root,
        fresh_id(t),
    )
}

/// The state in the middle of moving children: the children of `src`
/// already taken, and the first `k` of them given `dst` as their parent.
spec fn reparent_mid(t: TreeView, src: NodeId, dst: NodeId, k: int) -> TreeView {
    TreeView {
        nodes: Seq::new(
            t.nodes.len(),
            |i: int|
                (NodeView {
                    parent: if t.node_at(src).children.take(k).contains(t.nodes[i].id) {
                        Some(dst)
                    } else {
                        t.nodes[i].parent
                    },
                    children: if i == src.index {
                        Seq::empty()
                    } else {
                        t.nodes[i].children
                    },
                    ..t.nodes[i]
                }),
        ),
        ..t
    }
}

impl<T: DOMTree> GenericSink<T> {
    /// Append a node or a run of text as the last child of `parent`;
    /// text coalesces into the parent's last child if that is a Text
    /// node. An appended node must not already have a parent.
    pub fn append(&mut self, parent: NodeId, child: NodeOrText)
        requires
            old(self).dom_tree.view().wf(),
            old(self).dom_tree.view().valid(parent),
            child matches NodeOrText::AppendNode(c) ==> old(self).dom_tree.view().valid(c) && old(
                self,
            ).dom_tree.view().node_at(c).parent is None && c != old(self).dom_tree.view().root,
        ensures
            final(self).dom_tree.view() == (match child {
                NodeOrText::AppendNode(c) => append_node_spec(old(self).dom_tree.view(), parent, c),
                NodeOrText::AppendText(text) => append_text_spec(
                    old(self).dom_tree.view(),
                    parent,
                    text@,
                ),
            }),
            final(self).dom_tree.view().wf(),
    {
        let ghost t = self.dom_tree.view();
        match child {
            NodeOrText::AppendNode(c) => {
                self.dom_tree.reparent(c, parent);
                self.dom_tree.append_child(parent, c);
                proof {
                    let t1 = with_node(t, c, NodeView { parent: Some(parent), ..t.node_at(c) });
                    let len = t1.node_at(parent).children.len() as int;
                    assert(t1.node_at(parent).children.insert(len, c) =~= t1.node_at(
                        parent,
                    ).children.push(c));
                    assert(self.dom_tree.view() =~= append_node_spec(t, parent, c));
                    lemma_link_child_wf(t, parent, c, t.node_at(parent).children.len() as int);
                }
            },
            NodeOrText::AppendText(text) => {
                let cnt = self.dom_tree.child_count(parent);
                if cnt > 0 {
                    proof {
                        assert(t.nodes[parent.index as int].children[cnt - 1].index
                            < t.nodes.len());
                    }
                    let last = self.dom_tree.child_at(parent, cnt - 1);
                    proof {
                        assert(last == t.node_at(parent).children.last());
                    }
                    if self.dom_tree.try_append_to_text_node(last, text.as_str()) {
                        proof {
                            let prior = t.node_at(last).data->Text_0;
                            assert(self.dom_tree.view() == append_text_spec(t, parent, text@));
                            lemma_update_data_wf(t, last, NodeDataView::Text(prior + text@));
                        }
                        return ;
                    }
                }
                let tid = self.dom_tree.create_text_node(text);
                // The new count bounds the old arena length, which the
                // fresh handle's index must not truncate.
                let _count = self.dom_tree.node_count();
                proof {
                    lemma_created_wf(t, NodeDataView::Text(text@));
                }
                self.dom_tree.reparent(tid, parent);
                self.dom_tree.append_child(parent, tid);
                proof {
                    let t1 = created(t, NodeDataView::Text(text@));
                    let t2 = with_node(
                        t1,
                        tid,
                        NodeView { parent: Some(parent), ..t1.node_at(tid) },
                    );
                    let len = t2.node_at(parent).children.len() as int;
                    assert(t2.node_at(parent).children.insert(len, tid) =~= t2.node_at(
                        parent,
                    ).children.push(tid));
                    assert(self.dom_tree.view() =~= append_node_spec(t1, parent, tid));
                    lemma_link_child_wf(t1, parent, tid, t1.node_at(parent).children.len() as int);
                }
            },
        }
    }

    /// Create an element from a qualified name and raw attributes. A
    /// template element additionally gets a fresh DocumentFragment, its
    /// template contents holder, appended as its sole child.
    pub fn create_element(&mut self, name: String, attrs: Vec<Attr>, is_template: bool) -> (r:
        NodeId)
        requires
            old(self).dom_tree.view().wf(),
        ensures
            r == fresh_id(old(self).dom_tree.view()),
            final(self).dom_tree.view() == create_element_spec(
                old(self).dom_tree.view(),
                name@,
                attr_views(attrs@),
                is_template,
            ),
            final(self).dom_tree.view().wf(),
    {
        let ghost t = self.dom_tree.view();
        let ghost nameview = name@;
        let ghost attrsview = attr_views(attrs@);
        let element_id = self.dom_tree.create_element(name, attrs);
        let _count = self.dom_tree.node_count();
        proof {
            lemma_merge_attrs_names(Seq::<AttrView>::empty(), attrsview);
            lemma_created_wf(t, element_payload(nameview, attrsview));
        }
        if is_template {
            let ghost t1 = created(t, element_payload(nameview, attrsview));
            let fragment_id = self.dom_tree.create_fragment();
            let _count = self.dom_tree.node_count();
            proof {
                lemma_created_wf(t1, NodeDataView::DocumentFragment);
            }
            self.append(element_id, NodeOrText::AppendNode(fragment_id));
        }
        element_id
    }

    /// Create a comment node.
    pub fn create_comment(&mut self, text: String) -> (r: NodeId)
        requires
            old(self).dom_tree.view().wf(),
        ensures
            r == fresh_id(old(self).dom_tree.view()),
            final(self).dom_tree.view() == created(
                old(self).dom_tree.view(),
                NodeDataView::Comment(text@),
            ),
            final(self).dom_tree.view().wf(),
    {
        let ghost t = self.dom_tree.view();
        let r = self.dom_tree.create_comment(text);
        let _count = self.dom_tree.node_count();
        proof {
            lemma_created_wf(t, NodeDataView::Comment(text@));
        }
        r
    }

    /// Create a processing instruction node.
    pub fn create_pi(&mut self, target: String, data: String) -> (r: NodeId)
        requires
            old(self).dom_tree.view().wf(),
        ensures
            r == fresh_id(old(self).dom_tree.view()),
            final(self).dom_tree.view() == created(
                old(self).dom_tree.view(),
                NodeDataView::ProcessingInstruction { target: target@, data: data@ },
            ),
            final(self).dom_tree.view().wf(),
    {
        let ghost t = self.dom_tree.view();
        let ghost tv = target@;
        let ghost dv = data@;
        let r = self.dom_tree.create_processing_instruction(target, data);
        let _count = self.dom_tree.node_count();
        proof {
            lemma_created_wf(t, NodeDataView::ProcessingInstruction { target: tv, data: dv });
        }
        r
    }

    /// Create a doctype node and append it as the last child of the root.
    pub fn append_doctype_to_document(&mut self, name: String, public_id: String, system_id: String)
        requires
            old(self).dom_tree.view().wf(),
        ensures
            final(self).dom_tree.view() == append_doctype_spec(
                old(self).dom_tree.view(),
                name@,
                public_id@,
                system_id@,
            ),
            final(self).dom_tree.view().wf(),
    {
        let ghost t = self.dom_tree.view();
        let ghost nv = name@;
        let ghost pv = public_id@;
        let ghost sv = system_id@;
        let doctype_id = self.dom_tree.create_doctype(name, public_id, system_id);
        let _count = self.dom_tree.node_count();
        let root = self.dom_tree.root_id();
        proof {
            lemma_created_wf(t, NodeDataView::Doctype { name: nv, public_id: pv, system_id: sv });
        }
        self.append(root, NodeOrText::AppendNode(doctype_id));
    }

    /// Splice a node or a run of text in immediately before `sibling`;
    /// text coalesces into the previous sibling if that is a Text node. A
    /// spliced node is first detached from any old parent.
    pub fn append_before_sibling(&mut self, sibling: NodeId, new_node: NodeOrText)
        requires
            old(self).dom_tree.view().wf(),
            old(self).dom_tree.view().valid(sibling),
            old(self).dom_tree.view().node_at(sibling).parent is Some,
            new_node matches NodeOrText::AppendNode(c) ==> old(self).dom_tree.view().valid(c) && c
                != old(self).dom_tree.view().root && c != sibling,
        ensures
            final(self).dom_tree.view() == (match new_node {
                NodeOrText::AppendNode(c) => before_sibling_node_spec(
                    old(self).dom_tree.view(),
                    sibling,
                    c,
                ),
                NodeOrText::AppendText(text) => before_sibling_text_spec(
                    old(self).dom_tree.view(),
                    sibling,
                    text@,
                ),
            }),
            final(self).dom_tree.view().wf(),
    {
        let ghost t = self.dom_tree.view();
        match new_node {
            NodeOrText::AppendNode(c) => {
                self.remove_from_parent(c);
                let ghost t0 = self.dom_tree.view();
                proof {
                    assert(t0.node_at(sibling).parent == t.node_at(sibling).parent);
                    assert(t0.nodes[sibling.index as int].parent is Some);
                }
                let p = match self.dom_tree.parent_of(sibling) {
                    Some(p) => p,
                    None => unreached(),
                };
                proof {
                    assert(t0.nodes[sibling.index as int].id == sibling);
                    assert(t0.node_at(p).children.contains(sibling));
                }
                let index = find_child_index(&self.dom_tree, p, sibling);
                self.dom_tree.reparent(c, p);
                self.dom_tree.insert_child(p, index, c);
                proof {
                    assert(self.dom_tree.view() =~= link_child(t0, p, c, index as int));
                    assert(self.dom_tree.view() == before_sibling_node_spec(t, sibling, c));
                    assert(t0.node_at(c).parent is None);
                    lemma_link_child_wf(t0, p, c, index as int);
                }
            },
            NodeOrText::AppendText(text) => {
                proof {
                    assert(t.nodes[sibling.index as int].parent is Some);
                }
                let p = match self.dom_tree.parent_of(sibling) {
                    Some(p) => p,
                    None => unreached(),
                };
                proof {
                    assert(t.nodes[sibling.index as int].id == sibling);
                    assert(t.node_at(p).children.contains(sibling));
                }
                let index = find_child_index(&self.dom_tree, p, sibling);
                if index > 0 {
                    proof {
                        assert(t.nodes[p.index as int].children[index - 1].index < t.nodes.len());
                    }
                    let prev = self.dom_tree.child_at(p, index - 1);
                    if self.dom_tree.try_append_to_text_node(prev, text.as_str()) {
                        proof {
                            let prior = t.node_at(prev).data->Text_0;
                            assert(self.dom_tree.view() == before_sibling_text_spec(
                                t,
                                sibling,
                                text@,
                            ));
                            lemma_update_data_wf(t, prev, NodeDataView::Text(prior + text@));
                        }
                        return ;
                    }
                }
                let tid = self.dom_tree.create_text_node(text);
                let _count = self.dom_tree.node_count();
                proof {
                    lemma_created_wf(t, NodeDataView::Text(text@));
                }
                self.dom_tree.reparent(tid, p);
                self.dom_tree.insert_child(p, index, tid);
                proof {
                    let t1 = created(t, NodeDataView::Text(text@));
                    assert(self.dom_tree.view() =~= link_child(t1, p, tid, index as int));
                    assert(self.dom_tree.view() == before_sibling_text_spec(t, sibling, text@));
                    lemma_link_child_wf(t1, p, tid, index as int);
                }
            },
        }
    }

    /// Choose the insertion point by whether the reference element is
    /// attached: splice before it if it has a parent, else append to the
    /// fallback element the driver supplied.
    pub fn append_based_on_parent_node(
        &mut self,
        element: NodeId,
        prev_element: NodeId,
        child: NodeOrText,
    )
        requires
            old(self).dom_tree.view().wf(),
            old(self).dom_tree.view().valid(element),
            old(self).dom_tree.view().valid(prev_element),
            old(self).dom_tree.view().node_at(element).parent is Some ==> (child matches
                NodeOrText::AppendNode(c) ==> old(self).dom_tree.view().valid(c) && c != old(
                self,
            ).dom_tree.view().root && c != element),
            old(self).dom_tree.view().node_at(element).parent is None ==> (child matches
                NodeOrText::AppendNode(c) ==> old(self).dom_tree.view().valid(c) && old(
                self,
            ).dom_tree.view().node_at(c).parent is None && c != old(self).dom_tree.view().root),
        ensures
            final(self).dom_tree.view() == (if old(self).dom_tree.view().node_at(
                element,
            ).parent is Some {
                match child {
                    NodeOrText::AppendNode(c) => before_sibling_node_spec(
                        old(self).dom_tree.view(),
                        element,
                        c,
                    ),
                    NodeOrText::AppendText(text) => before_sibling_text_spec(
                        old(self).dom_tree.view(),
                        element,
                        text@,
                    ),
                }
            } else {
                match child {
                    NodeOrText::AppendNode(c) => append_node_spec(
                        old(self).dom_tree.view(),
                        prev_element,
                        c,
                    ),
                    NodeOrText::AppendText(text) => append_text_spec(
                        old(self).dom_tree.view(),
                        prev_element,
                        text@,
                    ),
                }
            }),
            final(self).dom_tree.view().wf(),
    {
        let has_parent = match self.dom_tree.parent_of(element) {
            Some(_) => true,
            None => false,
        };
        if has_parent {
            self.append_before_sibling(element, child);
        } else {
            self.append(prev_element, child);
        }
    }

    /// Move all children of `node` onto `new_parent`, preserving their
    /// order; `node` ends with none.
    pub fn reparent_children(&mut self, node: NodeId, new_parent: NodeId)
        requires
            old(self).dom_tree.view().wf(),
            old(self).dom_tree.view().valid(node),
            old(self).dom_tree.view().valid(new_parent),
            node != new_parent,
            !old(self).dom_tree.view().node_at(node).children.contains(new_parent),
        ensures
            final(self).dom_tree.view() == reparented(old(self).dom_tree.view(), node, new_parent),
            final(self).dom_tree.view().wf(),
    {
        let ghost t = self.dom_tree.view();
        let children = self.dom_tree.take_children(node);
        proof {
            assert(t.node_at(node).children.take(0) =~= Seq::<NodeId>::empty());
            assert(self.dom_tree.view() =~= reparent_mid(t, node, new_parent, 0));
        }
        let mut i: usize = 0;
        while i < children.len()
            invariant
                children@ == t.node_at(node).children,
                0 <= i <= children@.len(),
                t.wf(),
                t.valid(node),
                t.valid(new_parent),
                node != new_parent,
                self.dom_tree.view() == reparent_mid(t, node, new_parent, i as int),
            decreases children@.len() - i,
        {
            proof {
                assert(t.nodes[node.index as int].children[i as int].index < t.nodes.len());
            }
            let c = children[i];
            self.dom_tree.reparent(c, new_parent);
            proof {
                let mid = reparent_mid(t, node, new_parent, i as int);
                let mid2 = reparent_mid(t, node, new_parent, i as int + 1);
                let moved = t.node_at(node).children;
                assert forall|x: int| 0 <= x < t.nodes.len() implies with_node(
                    mid,
                    c,
                    NodeView { parent: Some(new_parent), ..mid.node_at(c) },
                ).nodes[x] == mid2.nodes[x] by {
                    assert(t.nodes[x].id == (NodeId { index: x as usize }));
                    assert(moved.take(i as int + 1)[i as int] == c);
                    if x == c.index {
                        assert(moved.take(i as int + 1).contains(t.nodes[x].id));
                    } else {
                        assert(t.nodes[x].id != c);
                        let pre = moved.take(i as int);
                        let ext = moved.take(i as int + 1);
                        assert(ext.contains(t.nodes[x].id) == pre.contains(t.nodes[x].id)) by {
                            if pre.contains(t.nodes[x].id) {
                                let m = choose|m: int|
                                    0 <= m < pre.len() && pre[m] == t.nodes[x].id;
                                assert(ext[m] == t.nodes[x].id);
                            }
                            if ext.contains(t.nodes[x].id) {
                                let m = choose|m: int|
                                    0 <= m < ext.len() && ext[m] == t.nodes[x].id;
                                assert(m < i as int) by {
                                    if m == i as int {
                                        assert(ext[m] == c);
                                    }
                                }
                                assert(pre[m] == t.nodes[x].id);
                            }
                        }
                    }
                }
                assert(self.dom_tree.view() =~= mid2);
            }
            i = i + 1;
        }
        proof {
            assert(t.node_at(node).children.take(children@.len() as int) =~= t.node_at(
                node,
            ).children);
        }
        self.dom_tree.append_children(new_parent, &children);
        proof {
            let mid = reparent_mid(t, node, new_parent, children@.len() as int);
            assert(mid.node_at(new_parent).children == t.node_at(new_parent).children);
            assert(self.dom_tree.view() =~= reparented(t, node, new_parent));
            lemma_reparented_wf(t, node, new_parent);
        }
    }
}

} // verus!
