//! The tree capability contract: the mathematical model of a document
//! tree, its well-formedness invariant, and the `DOMTree` trait that any
//! concrete tree representation implements so that the protocol adapter,
//! the traversal and the serializer can drive it.

use vstd::prelude::*;

use crate::node::Attr;
use crate::node::AttrView;
use crate::node::ElementView;
use crate::node::NodeDataView;
use crate::node::NodeId;
use crate::node::NodeView;
use crate::node::attr_names_distinct;
use crate::node::attr_views;
use crate::node::elem_id_of;
use crate::node::merge_attrs;

verus! {

/// A document's quirks mode, reported by the parsing driver and stored
/// verbatim.
#[derive(Clone, Copy, PartialEq, Eq, Structural, Debug)]
pub enum QuirksMode {
    NoQuirks,
    LimitedQuirks,
    Quirks,
}

/// Mathematical model of one document tree: the node records in arena
/// order, the root handle, the quirks mode, and the parse errors reported
/// so far.
#[verifier::ext_equal]
pub ghost struct TreeView {
    pub nodes: Seq<NodeView>,
    pub root: NodeId,
    pub quirks_mode: QuirksMode,
    pub errors: Seq<Seq<char>>,
}

impl TreeView {
    /// Whether `id` refers to a node of this tree.
    pub open spec fn valid(self, id: NodeId) -> bool {
        id.index < self.nodes.len()
    }

    /// The node record that `id` refers to.
    pub open spec fn node_at(self, id: NodeId) -> NodeView {
        self.nodes[id.index as int]
    }

    /// Every node record carries the handle of its own arena slot.
    pub open spec fn ids_consistent(self) -> bool {
        forall|i: int|
            0 <= i < self.nodes.len() ==> (#[trigger] self.nodes[i].id) == (NodeId {
                index: i as usize,
            })
    }

    /// A parent pointer refers to a node whose children contain the child.
    pub open spec fn parents_linked(self) -> bool {
        forall|i: int|
            0 <= i < self.nodes.len() ==> match #[trigger] self.nodes[i].parent {
                Some(p) => p.index < self.nodes.len() && self.nodes[p.index as int].children.contains(
                    self.nodes[i].id,
                ),
                None => true,
            }
    }

    /// A children entry refers to a node whose parent pointer names the
    /// node that lists it.
    pub open spec fn children_linked(self) -> bool {
        forall|i: int, j: int|
            0 <= i < self.nodes.len() && 0 <= j < self.nodes[i].children.len()
                ==> (#[trigger] self.nodes[i].children[j]).index < self.nodes.len()
                && self.node_at(self.nodes[i].children[j]).parent == Some(self.nodes[i].id)
    }

    /// No node lists the same child twice.
    pub open spec fn children_distinct(self) -> bool {
        forall|i: int, j: int, k: int|
            0 <= i < self.nodes.len() && 0 <= j < k < self.nodes[i].children.len()
                ==> (#[trigger] self.nodes[i].children[j]) != (#[trigger] self.nodes[i].children[k])
    }

    /// Every element's attribute names are distinct.
    pub open spec fn attrs_wf(self) -> bool {
        forall|i: int|
            0 <= i < self.nodes.len() ==> match (#[trigger] self.nodes[i].data) {
                NodeDataView::Element(e) => attr_names_distinct(e.attrs),
                _ => true,
            }
    }

    /// Well-formedness: the root is a never-detached node of the tree, and
    /// every non-root node's parent/children linkage is mutually
    /// consistent.
    pub open spec fn wf(self) -> bool {
        &&& self.nodes.len() <= usize::MAX
        &&& self.valid(self.root)
        &&& self.node_at(self.root).parent is None
        &&& self.ids_consistent()
        &&& self.parents_linked()
        &&& self.children_linked()
        &&& self.children_distinct()
        &&& self.attrs_wf()
    }
}

/// The handle an arena issues for the next node created on `t`.
pub open spec fn fresh_id(t: TreeView) -> NodeId {
    NodeId { index: t.nodes.len() as usize }
}

/// The tree `t` extended by one fresh, parentless node carrying `data`.
pub open spec fn created(t: TreeView, data: NodeDataView) -> TreeView {
    TreeView {
        nodes: t.nodes.push(
            NodeView { id: fresh_id(t), data, parent: None, children: Seq::empty() },
        ),
        ..t
    }
}

/// The tree `t` with the record of `id` replaced by `n`.
pub open spec fn with_node(t: TreeView, id: NodeId, n: NodeView) -> TreeView {
    TreeView { nodes: t.nodes.update(id.index as int, n), ..t }
}

/// The payload of an element created from a qualified name and raw
/// attributes: duplicates are dropped first-wins and the `id` attribute is
/// recorded.
pub open spec fn element_payload(name: Seq<char>, raw_attrs: Seq<AttrView>) -> NodeDataView {
    let attrs = merge_attrs(Seq::<AttrView>::empty(), raw_attrs);
    NodeDataView::Element(ElementView { name, attrs, id: elem_id_of(attrs) })
}

/// The tree `t` with `child` linked under `parent`: the child's parent
/// pointer set, and the child inserted at `index` of the parent's
/// children.
pub open spec fn link_child(t: TreeView, parent: NodeId, child: NodeId, index: int) -> TreeView {
    let t1 = with_node(t, child, NodeView { parent: Some(parent), ..t.node_at(child) });
    with_node(
        t1,
        parent,
        NodeView {
            children: t1.node_at(parent).children.insert(index, child),
            ..t1.node_at(parent)
        },
    )
}

/// The tree `t` with `target` unlinked from its parent: the target's
/// parent pointer cleared, and the target removed from the former
/// parent's children.
pub open spec fn unlink_child(t: TreeView, target: NodeId) -> TreeView {
    let p = t.node_at(target).parent->0;
    let t1 = with_node(t, target, NodeView { parent: None, ..t.node_at(target) });
    with_node(
        t1,
        p,
        NodeView { children: t1.node_at(p).children.remove_value(target), ..t1.node_at(p) },
    )
}

/// The tree `t` with every child of `src` moved to the end of the
/// children of `dst`, in order; `src` ends with none.
pub open spec fn reparented(t: TreeView, src: NodeId, dst: NodeId) -> TreeView {
    TreeView {
        nodes: Seq::new(
            t.nodes.len(),
            |i: int|
                (NodeView {
                    parent: if t.node_at(src).children.contains(t.nodes[i].id) {
                        Some(dst)
                    } else {
                        t.nodes[i].parent
                    },
                    children: if i == src.index {
                        Seq::empty()
                    } else if i == dst.index {
                        t.node_at(dst).children + t.node_at(src).children
                    } else {
                        t.nodes[i].children
                    },
                    ..t.nodes[i]
                }),
        ),
        ..t
    }
}

/// In a well-formed tree a parentless node stands in no children
/// sequence.
pub proof fn lemma_parentless_not_listed(t: TreeView, c: NodeId)
    requires
        t.wf(),
        t.valid(c),
        t.node_at(c).parent is None,
    ensures
        forall|i: int, j: int|
            0 <= i < t.nodes.len() && 0 <= j < t.nodes[i].children.len()
                ==> (#[trigger] t.nodes[i].children[j]) != c,
{
    assert forall|i: int, j: int|
        0 <= i < t.nodes.len() && 0 <= j < t.nodes[i].children.len() implies (
    #[trigger] t.nodes[i].children[j]) != c by {
        if t.nodes[i].children[j] == c {
            assert(t.node_at(c).parent == Some(t.nodes[i].id));
        }
    }
}

/// Creating a node preserves well-formedness: the fresh node is
/// parentless and childless, and nothing refers to it.
pub proof fn lemma_created_wf(t: TreeView, data: NodeDataView)
    requires
        t.wf(),
        t.nodes.len() < usize::MAX,
        data matches NodeDataView::Element(e) ==> attr_names_distinct(e.attrs),
    ensures
        created(t, data).wf(),
        created(t, data).valid(fresh_id(t)),
        created(t, data).node_at(fresh_id(t)).parent is None,
        created(t, data).node_at(fresh_id(t)).children.len() == 0,
        fresh_id(t) != t.root,
        forall|id: NodeId|
            t.valid(id) ==> created(t, data).valid(id) && (#[trigger] created(t, data).node_at(id))
                == t.node_at(id),
{
    let t2 = created(t, data);
    assert(t2.nodes.len() == t.nodes.len() + 1);
    assert(t2.nodes[t.nodes.len() as int].id == fresh_id(t));
    assert forall|i: int| 0 <= i < t.nodes.len() implies t2.nodes[i] == t.nodes[i] by {}
    assert(t2.ids_consistent());
    assert(t2.parents_linked());
    assert(t2.children_linked());
    assert(t2.children_distinct());
    assert(t2.attrs_wf());
}

/// Linking a parentless non-root node under a parent of a well-formed
/// tree keeps the tree well-formed.
pub proof fn lemma_link_child_wf(t: TreeView, parent: NodeId, child: NodeId, index: int)
    requires
        t.wf(),
        t.valid(parent),
        t.valid(child),
        t.node_at(child).parent is None,
        child != t.root,
        0 <= index <= t.node_at(parent).children.len(),
    ensures
        link_child(t, parent, child, index).wf(),
{
    lemma_parentless_not_listed(t, child);
    let t2 = link_child(t, parent, child, index);
    let s = t.node_at(parent).children;
    let s2 = s.insert(index, child);
    s.insert_ensures(index, child);
    assert(t2.nodes.len() == t.nodes.len());
    // Record-level reading of the two updates.
    assert forall|k: int| 0 <= k < t.nodes.len() implies (#[trigger] t2.nodes[k]).id
        == t.nodes[k].id && t2.nodes[k].data == t.nodes[k].data && (t2.nodes[k].children == (
    if k == parent.index {
        s2
    } else {
        t.nodes[k].children
    })) && (t2.nodes[k].parent == (if k == child.index {
        Some(parent)
    } else {
        t.nodes[k].parent
    })) by {}
    assert(t2.ids_consistent());
    assert(t2.attrs_wf());
    assert forall|i: int| 0 <= i < t2.nodes.len() implies match #[trigger] t2.nodes[i].parent {
        Some(p) => p.index < t2.nodes.len() && t2.nodes[p.index as int].children.contains(
            t2.nodes[i].id,
        ),
        None => true,
    } by {
        if i == child.index {
            assert(s2[index] == child);
            assert(t.nodes[child.index as int].id == child);
            assert(t2.nodes[parent.index as int].children.contains(t2.nodes[i].id));
        } else {
            match t.nodes[i].parent {
                Some(p) => {
                    assert(t.nodes[p.index as int].children.contains(t.nodes[i].id));
                    if p.index == parent.index {
                        let j = choose|j: int|
                            0 <= j < s.len() && s[j] == t.nodes[i].id;
                        if j < index {
                            assert(s2[j] == t.nodes[i].id);
                        } else {
                            assert(s2[j + 1] == t.nodes[i].id);
                        }
                        assert(t2.nodes[p.index as int].children.contains(t2.nodes[i].id));
                    }
                },
                None => {},
            }
        }
    }
    assert forall|i: int, j: int|
        0 <= i < t2.nodes.len() && 0 <= j < t2.nodes[i].children.len() implies (
    #[trigger] t2.nodes[i].children[j]).index < t2.nodes.len() && t2.node_at(
        t2.nodes[i].children[j],
    ).parent == Some(t2.nodes[i].id) by {
        if i == parent.index {
            let c = s2[j];
            if j == index {
                assert(c == child);
                assert(t2.nodes[child.index as int].parent == Some(parent));
                assert(t.nodes[parent.index as int].id == parent);
            } else {
                let j0: int = if j < index {
                    j
                } else {
                    j - 1
                };
                assert(s[j0] == c);
                assert(t.node_at(c).parent == Some(t.nodes[i].id));
                assert(c != child);
            }
        } else {
            let c = t.nodes[i].children[j];
            assert(t.node_at(c).parent == Some(t.nodes[i].id));
            assert(c != child);
        }
    }
    assert forall|i: int, j: int, k: int|
        0 <= i < t2.nodes.len() && 0 <= j < k < t2.nodes[i].children.len() implies (
    #[trigger] t2.nodes[i].children[j]) != (#[trigger] t2.nodes[i].children[k]) by {
        if i == parent.index {
            if j == index || k == index {
                let other: int = if j == index {
                    if k < index {
                        k
                    } else {
                        k - 1
                    }
                } else {
                    if j < index {
                        j
                    } else {
                        j - 1
                    }
                };
                assert(s[other] != child);
            } else {
                let j0: int = if j < index {
                    j
                } else {
                    j - 1
                };
                let k0: int = if k < index {
                    k
                } else {
                    k - 1
                };
                assert(s2[j] == s[j0] && s2[k] == s[k0] && j0 != k0);
            }
        }
    }
    assert(t2.valid(t2.root));
    assert(t2.node_at(t2.root).parent is None);
}

/// Unlinking a node from its parent in a well-formed tree keeps the tree
/// well-formed.
pub proof fn lemma_unlink_child_wf(t: TreeView, target: NodeId)
    requires
        t.wf(),
        t.valid(target),
        t.node_at(target).parent is Some,
    ensures
        unlink_child(t, target).wf(),
{
    let p = t.node_at(target).parent->0;
    let t2 = unlink_child(t, target);
    let s = t.node_at(p).children;
    assert(p.index < t.nodes.len());
    assert(t.nodes[target.index as int].id == target);
    assert(s.contains(target));
    s.index_of_first_ensures(target);
    let k = s.index_of_first(target)->0;
    let s2 = s.remove_value(target);
    assert(s2 == s.remove(k));
    assert(s2.len() == s.len() - 1);
    assert forall|j: int| 0 <= j < s2.len() implies (#[trigger] s2[j]) == (if j < k {
        s[j]
    } else {
        s[j + 1]
    }) by {}
    assert(target != t.root);
    assert(t2.nodes.len() == t.nodes.len());
    assert forall|m: int| 0 <= m < t.nodes.len() implies (#[trigger] t2.nodes[m]).id
        == t.nodes[m].id && t2.nodes[m].data == t.nodes[m].data && (t2.nodes[m].children == (
    if m == p.index {
        s2
    } else {
        t.nodes[m].children
    })) && (t2.nodes[m].parent == (if m == target.index {
        None::<NodeId>
    } else {
        t.nodes[m].parent
    })) by {}
    assert(t2.ids_consistent());
    assert(t2.attrs_wf());
    assert forall|i: int| 0 <= i < t2.nodes.len() implies match #[trigger] t2.nodes[i].parent {
        Some(q) => q.index < t2.nodes.len() && t2.nodes[q.index as int].children.contains(
            t2.nodes[i].id,
        ),
        None => true,
    } by {
        if i != target.index {
            match t.nodes[i].parent {
                Some(q) => {
                    assert(t.nodes[q.index as int].children.contains(t.nodes[i].id));
                    if q.index == p.index {
                        let j = choose|j: int|
                            0 <= j < s.len() && s[j] == t.nodes[i].id;
                        assert(t.nodes[i].id == (NodeId { index: i as usize }));
                        assert(t.nodes[target.index as int].id == target);
                        assert(t.nodes[i].id != target);
                        assert(j != k);
                        if j < k {
                            assert(s2[j] == t.nodes[i].id);
                        } else {
                            assert(s2[j - 1] == t.nodes[i].id);
                        }
                        assert(t2.nodes[q.index as int].children.contains(t2.nodes[i].id));
                    }
                },
                None => {},
            }
        }
    }
    assert forall|i: int, j: int|
        0 <= i < t2.nodes.len() && 0 <= j < t2.nodes[i].children.len() implies (
    #[trigger] t2.nodes[i].children[j]).index < t2.nodes.len() && t2.node_at(
        t2.nodes[i].children[j],
    ).parent == Some(t2.nodes[i].id) by {
        if i == p.index {
            let c = s2[j];
            let j0: int = if j < k {
                j
            } else {
                j + 1
            };
            assert(s[j0] == c);
            assert(c != target);
            assert(t.node_at(c).parent == Some(t.nodes[i].id));
        } else {
            let c = t.nodes[i].children[j];
            assert(t.node_at(c).parent == Some(t.nodes[i].id));
            assert(c != target) by {
                if c == target {
                    assert(t.node_at(target).parent == Some(t.nodes[i].id));
                    assert(t.nodes[i].id == p);
                    assert(t.nodes[i].id == (NodeId { index: i as usize }));
                    assert(p == (NodeId { index: p.index }));
                    assert(i == p.index);
                }
            }
        }
    }
    assert forall|i: int, j: int, k2: int|
        0 <= i < t2.nodes.len() && 0 <= j < k2 < t2.nodes[i].children.len() implies (
    #[trigger] t2.nodes[i].children[j]) != (#[trigger] t2.nodes[i].children[k2]) by {
        if i == p.index {
            let j0: int = if j < k {
                j
            } else {
                j + 1
            };
            let k0: int = if k2 < k {
                k2
            } else {
                k2 + 1
            };
            assert(s2[j] == s[j0] && s2[k2] == s[k0] && j0 != k0);
        }
    }
    assert(t2.valid(t2.root));
    assert(t2.node_at(t2.root).parent is None);
}

/// Moving all children of `src` onto `dst` in a well-formed tree keeps
/// the tree well-formed.
pub proof fn lemma_reparented_wf(t: TreeView, src: NodeId, dst: NodeId)
    requires
        t.wf(),
        t.valid(src),
        t.valid(dst),
        src != dst,
        !t.node_at(src).children.contains(dst),
    ensures
        reparented(t, src, dst).wf(),
{
    let t2 = reparented(t, src, dst);
    let moved = t.node_at(src).children;
    let kept = t.node_at(dst).children;
    assert(t2.nodes.len() == t.nodes.len());
    assert forall|m: int| 0 <= m < t.nodes.len() implies (#[trigger] t2.nodes[m]).id
        == t.nodes[m].id && t2.nodes[m].data == t.nodes[m].data by {}
    assert(t2.ids_consistent());
    assert(t2.attrs_wf());
    // A node listed by src has src as its parent; one listed by dst has dst.
    assert forall|c: NodeId| moved.contains(c) implies c.index < t.nodes.len() && t.node_at(
        c,
    ).parent == Some(src) by {
        let j = choose|j: int| 0 <= j < moved.len() && moved[j] == c;
        assert(t.nodes[src.index as int].id == src);
    }
    assert forall|c: NodeId| kept.contains(c) implies c.index < t.nodes.len() && t.node_at(
        c,
    ).parent == Some(dst) by {
        let j = choose|j: int| 0 <= j < kept.len() && kept[j] == c;
        assert(t.nodes[dst.index as int].id == dst);
    }
    assert forall|i: int| 0 <= i < t2.nodes.len() implies match #[trigger] t2.nodes[i].parent {
        Some(q) => q.index < t2.nodes.len() && t2.nodes[q.index as int].children.contains(
            t2.nodes[i].id,
        ),
        None => true,
    } by {
        let id = t.nodes[i].id;
        if moved.contains(id) {
            assert(t2.nodes[i].parent == Some(dst));
            let j = choose|j: int| 0 <= j < moved.len() && moved[j] == id;
            assert((kept + moved)[kept.len() + j] == id);
            assert(t2.nodes[dst.index as int].children.contains(id));
        } else {
            match t.nodes[i].parent {
                Some(q) => {
                    assert(t.nodes[q.index as int].children.contains(id));
                    let j = choose|j: int|
                        0 <= j < t.nodes[q.index as int].children.len()
                            && t.nodes[q.index as int].children[j] == id;
                    assert(q.index != src.index) by {
                        if q.index == src.index {
                            assert(moved.contains(id));
                        }
                    }
                    if q.index == dst.index {
                        assert((kept + moved)[j] == id);
                        assert(t2.nodes[q.index as int].children.contains(id));
                    } else {
                        assert(t2.nodes[q.index as int].children == t.nodes[q.index as int].children);
                    }
                },
                None => {},
            }
        }
    }
    assert forall|i: int, j: int|
        0 <= i < t2.nodes.len() && 0 <= j < t2.nodes[i].children.len() implies (
    #[trigger] t2.nodes[i].children[j]).index < t2.nodes.len() && t2.node_at(
        t2.nodes[i].children[j],
    ).parent == Some(t2.nodes[i].id) by {
        if i == dst.index {
            let c = (kept + moved)[j];
            if j < kept.len() {
                assert(c == kept[j]);
                assert(kept.contains(c));
                assert(t.node_at(c).parent == Some(dst));
                assert(!moved.contains(c)) by {
                    if moved.contains(c) {
                        assert(t.node_at(c).parent == Some(src));
                    }
                }
                assert(t2.node_at(c).parent == Some(dst));
            } else {
                assert(c == moved[j - kept.len()]);
                assert(moved.contains(c));
                assert(t2.node_at(c).parent == Some(dst));
            }
            assert(t.nodes[dst.index as int].id == dst);
        } else if i == src.index {
        } else {
            let c = t.nodes[i].children[j];
            assert(t.nodes[i].children.contains(c));
            assert(t.node_at(c).parent == Some(t.nodes[i].id));
            assert(!moved.contains(c)) by {
                if moved.contains(c) {
                    assert(t.node_at(c).parent == Some(src));
                    assert(t.nodes[i].id == src);
                    assert(t.nodes[i].id == (NodeId { index: i as usize }));
                    assert(src == (NodeId { index: src.index }));
                    assert(i == src.index);
                }
            }
            assert(t2.node_at(c).parent == Some(t2.nodes[i].id));
        }
    }
    assert forall|i: int, j: int, k: int|
        0 <= i < t2.nodes.len() && 0 <= j < k < t2.nodes[i].children.len() implies (
    #[trigger] t2.nodes[i].children[j]) != (#[trigger] t2.nodes[i].children[k]) by {
        if i == dst.index {
            let a = (kept + moved)[j];
            let b = (kept + moved)[k];
            if j < kept.len() && k >= kept.len() {
                assert(a == kept[j] && b == moved[k - kept.len()]);
                if a == b {
                    assert(kept.contains(a) && moved.contains(a));
                    assert(t.node_at(a).parent == Some(dst));
                    assert(t.node_at(a).parent == Some(src));
                }
            } else if j < kept.len() {
                assert(a == kept[j] && b == kept[k]);
            } else {
                assert(a == moved[j - kept.len()] && b == moved[k - kept.len()]);
            }
        }
    }
    assert(t2.valid(t2.root));
    assert(t2.node_at(t2.root).parent is None) by {
        if moved.contains(t.node_at(t.root).id) {
            assert(t.node_at(t.root).parent == Some(src));
        }
    }
}

/// Removing a node clears its parent pointer and removes it from the
/// former parent's children exactly once; every other child keeps its
/// place.
pub proof fn lemma_unlink_clears(t: TreeView, target: NodeId)
    requires
        t.wf(),
        t.valid(target),
        t.node_at(target).parent is Some,
    ensures
        ({
            let t2 = unlink_child(t, target);
            let p = t.node_at(target).parent->0;
            let kids = t.node_at(p).children;
            let k = kids.index_of_first(target)->0;
            &&& t2.node_at(target).parent is None
            &&& !t2.node_at(p).children.contains(target)
            &&& t2.node_at(p).children.len() == kids.len() - 1
            &&& forall|j: int|
                0 <= j < kids.len() - 1 ==> #[trigger] t2.node_at(p).children[j] == (if j < k {
                    kids[j]
                } else {
                    kids[j + 1]
                })
        }),
{
    let t2 = unlink_child(t, target);
    let p = t.node_at(target).parent->0;
    let kids = t.node_at(p).children;
    assert(t.nodes[target.index as int].id == target);
    assert(kids.contains(target));
    kids.index_of_first_ensures(target);
    let k = kids.index_of_first(target)->0;
    let kids2 = kids.remove_value(target);
    assert(kids2 == kids.remove(k));
    assert forall|j: int| 0 <= j < kids2.len() implies (#[trigger] kids2[j]) == (if j < k {
        kids[j]
    } else {
        kids[j + 1]
    }) by {}
    assert(!kids2.contains(target)) by {
        if kids2.contains(target) {
            let j = choose|j: int| 0 <= j < kids2.len() && kids2[j] == target;
            let j0: int = if j < k {
                j
            } else {
                j + 1
            };
            assert(kids[j0] == target && kids[k] == target && j0 != k);
        }
    }
    assert(t2.node_at(p).children == kids2);
}

/// Moving children moves every child of the source to the target,
/// preserving order after the target's own children, updates each moved
/// child's parent pointer, and leaves the source with none.
pub proof fn lemma_reparented_moves_all(t: TreeView, src: NodeId, dst: NodeId)
    requires
        t.wf(),
        t.valid(src),
        t.valid(dst),
        src != dst,
        !t.node_at(src).children.contains(dst),
    ensures
        ({
            let t2 = reparented(t, src, dst);
            &&& t2.node_at(src).children.len() == 0
            &&& t2.node_at(dst).children == t.node_at(dst).children + t.node_at(src).children
            &&& forall|j: int|
                0 <= j < t.node_at(src).children.len() ==> t2.node_at(
                    #[trigger] t.node_at(src).children[j],
                ).parent == Some(dst)
        }),
{
    let t2 = reparented(t, src, dst);
    assert forall|j: int| 0 <= j < t.node_at(src).children.len() implies t2.node_at(
        #[trigger] t.node_at(src).children[j],
    ).parent == Some(dst) by {
        let c = t.node_at(src).children[j];
        assert(t.nodes[src.index as int].children[j].index < t.nodes.len());
        assert(t.node_at(src).children.contains(c));
        assert(t.nodes[c.index as int].id == c);
    }
}

/// Replacing only the payload of a node of a well-formed tree keeps the
/// tree well-formed, provided an element payload keeps its attribute
/// names distinct.
pub proof fn lemma_update_data_wf(t: TreeView, id: NodeId, data: NodeDataView)
    requires
        t.wf(),
        t.valid(id),
        data matches NodeDataView::Element(e) ==> attr_names_distinct(e.attrs),
    ensures
        with_node(t, id, NodeView { data, ..t.node_at(id) }).wf(),
{
    let t2 = with_node(t, id, NodeView { data, ..t.node_at(id) });
    assert(t2.nodes.len() == t.nodes.len());
    assert forall|m: int| 0 <= m < t.nodes.len() implies (#[trigger] t2.nodes[m]).id
        == t.nodes[m].id && t2.nodes[m].children == t.nodes[m].children && t2.nodes[m].parent
        == t.nodes[m].parent by {}
    assert(t2.ids_consistent());
    assert(t2.attrs_wf());
    assert(t2.parents_linked()) by {
        assert forall|i: int| 0 <= i < t2.nodes.len() implies match #[trigger] t2.nodes[i].parent {
            Some(q) => q.index < t2.nodes.len() && t2.nodes[q.index as int].children.contains(
                t2.nodes[i].id,
            ),
            None => true,
        } by {
            match t.nodes[i].parent {
                Some(q) => {
                    assert(t.nodes[q.index as int].children.contains(t.nodes[i].id));
                },
                None => {},
            }
        }
    }
    assert(t2.children_linked()) by {
        assert forall|i: int, j: int|
            0 <= i < t2.nodes.len() && 0 <= j < t2.nodes[i].children.len() implies (
        #[trigger] t2.nodes[i].children[j]).index < t2.nodes.len() && t2.node_at(
            t2.nodes[i].children[j],
        ).parent == Some(t2.nodes[i].id) by {
            assert(t.node_at(t.nodes[i].children[j]).parent == Some(t.nodes[i].id));
        }
    }
    assert(t2.children_distinct());
    assert(t2.valid(t2.root));
    assert(t2.node_at(t2.root).parent is None);
}

/// The payload of one node as the serializer reads it: only doctypes,
/// comments, text and elements carry markup of their own.
#[derive(Debug)]
pub enum SerializableNode {
    Doctype(String),
    Comment(String),
    Text(String),
    Element(String, Vec<Attr>),
    Skip,
}

/// Whether `r` is the serializer's reading of the payload `d`.
pub open spec fn is_serializable_of(r: SerializableNode, d: NodeDataView) -> bool {
    match d {
        NodeDataView::Doctype { name, .. } => r matches SerializableNode::Doctype(s) && s@ == name,
        NodeDataView::Comment(c) => r matches SerializableNode::Comment(s) && s@ == c,
        NodeDataView::Text(t) => r matches SerializableNode::Text(s) && s@ == t,
        NodeDataView::Element(e) => r matches SerializableNode::Element(n, a) && n@ == e.name
            && attr_views(a@) == e.attrs,
        _ => r is Skip,
    }
}

/// The operation set a concrete tree representation provides: creation of
/// each node kind, lookup, and the structural mutations, each addressed by
/// a node handle. The protocol adapter, the traversal and the serializer
/// are generic over this trait and rely only on these contracts.
pub trait DOMTree: Sized {
    /// The mathematical model of the tree.
    spec fn view(&self) -> TreeView;

    /// The fixed root handle.
    fn root_id(&self) -> (r: NodeId)
        ensures
            r == self.view().root,
    ;

    /// How many nodes the arena holds.
    fn node_count(&self) -> (r: usize)
        ensures
            r == self.view().nodes.len(),
    ;

    /// Whether `id` refers to a node of this tree.
    fn has_node(&self, id: NodeId) -> (r: bool)
        ensures
            r == self.view().valid(id),
    ;

    fn parent_of(&self, id: NodeId) -> (r: Option<NodeId>)
        requires
            self.view().valid(id),
        ensures
            r == self.view().node_at(id).parent,
    ;

    fn child_count(&self, id: NodeId) -> (r: usize)
        requires
            self.view().valid(id),
        ensures
            r == self.view().node_at(id).children.len(),
    ;

    fn child_at(&self, id: NodeId, i: usize) -> (r: NodeId)
        requires
            self.view().valid(id),
            i < self.view().node_at(id).children.len(),
        ensures
            r == self.view().node_at(id).children[i as int],
    ;

    /// The element's qualified name, `None` for every other node kind.
    fn element_name(&self, id: NodeId) -> (r: Option<String>)
        requires
            self.view().valid(id),
        ensures
            match self.view().node_at(id).data {
                NodeDataView::Element(e) => r matches Some(s) && s@ == e.name,
                _ => r is None,
            },
    ;

    /// The payload of `id` as the serializer reads it.
    fn serializable_data(&self, id: NodeId) -> (r: SerializableNode)
        requires
            self.view().valid(id),
        ensures
            is_serializable_of(r, self.view().node_at(id).data),
    ;

    fn quirks_mode(&self) -> (r: QuirksMode)
        ensures
            r == self.view().quirks_mode,
    ;

    /// Store the driver-reported quirks mode verbatim.
    fn set_quirks_mode(&mut self, quirks_mode: QuirksMode)
        ensures
            final(self).view() == (TreeView { quirks_mode, ..old(self).view() }),
    ;

    /// Record a non-fatal parse diagnostic; parsing always continues.
    fn handle_parser_error(&mut self, msg: String)
        ensures
            final(self).view() == (TreeView {
                errors: old(self).view().errors.push(msg@),
                ..old(self).view()
            }),
    ;

    fn create_fragment(&mut self) -> (r: NodeId)
        ensures
            r == fresh_id(old(self).view()),
            final(self).view() == created(old(self).view(), NodeDataView::DocumentFragment),
    ;

    fn create_doctype(&mut self, name: String, public_id: String, system_id: String) -> (r: NodeId)
        ensures
            r == fresh_id(old(self).view()),
            final(self).view() == created(
                old(self).view(),
                NodeDataView::Doctype { name: name@, public_id: public_id@, system_id: system_id@ },
            ),
    ;

    fn create_text_node(&mut self, data: String) -> (r: NodeId)
        ensures
            r == fresh_id(old(self).view()),
            final(self).view() == created(old(self).view(), NodeDataView::Text(data@)),
    ;

    fn create_comment(&mut self, data: String) -> (r: NodeId)
        ensures
            r == fresh_id(old(self).view()),
            final(self).view() == created(old(self).view(), NodeDataView::Comment(data@)),
    ;

    fn create_processing_instruction(&mut self, target: String, data: String) -> (r: NodeId)
        ensures
            r == fresh_id(old(self).view()),
            final(self).view() == created(
                old(self).view(),
                NodeDataView::ProcessingInstruction { target: target@, data: data@ },
            ),
    ;

    /// Create an element; duplicate attribute names are dropped first-wins.
    fn create_element(&mut self, name: String, attrs: Vec<Attr>) -> (r: NodeId)
        ensures
            r == fresh_id(old(self).view()),
            final(self).view() == created(
                old(self).view(),
                element_payload(name@, attr_views(attrs@)),
            ),
    ;

    /// Set the parent pointer of `id` only; the caller keeps the children
    /// sequences consistent.
    fn reparent(&mut self, id: NodeId, new_parent: NodeId)
        requires
            old(self).view().valid(id),
        ensures
            final(self).view() == with_node(
                old(self).view(),
                id,
                NodeView { parent: Some(new_parent), ..old(self).view().node_at(id) },
            ),
    ;

    /// Clear the parent pointer of `id` only; the caller also removes `id`
    /// from the former parent's children.
    fn detach_from_parent(&mut self, id: NodeId)
        requires
            old(self).view().valid(id),
        ensures
            final(self).view() == with_node(
                old(self).view(),
                id,
                NodeView { parent: None, ..old(self).view().node_at(id) },
            ),
    ;

    /// Push `child` at the end of the children of `parent`.
    fn append_child(&mut self, parent: NodeId, child: NodeId)
        requires
            old(self).view().valid(parent),
        ensures
            final(self).view() == with_node(
                old(self).view(),
                parent,
                NodeView {
                    children: old(self).view().node_at(parent).children.push(child),
                    ..old(self).view().node_at(parent)
                },
            ),
    ;

    /// Push every id of `ids`, in order, at the end of the children of
    /// `parent`.
    fn append_children(&mut self, parent: NodeId, ids: &Vec<NodeId>)
        requires
            old(self).view().valid(parent),
        ensures
            final(self).view() == with_node(
                old(self).view(),
                parent,
                NodeView {
                    children: old(self).view().node_at(parent).children + ids@,
                    ..old(self).view().node_at(parent)
                },
            ),
    ;

    /// Insert `child` at position `index` of the children of `parent`.
    fn insert_child(&mut self, parent: NodeId, index: usize, child: NodeId)
        requires
            old(self).view().valid(parent),
            index <= old(self).view().node_at(parent).children.len(),
        ensures
            final(self).view() == with_node(
                old(self).view(),
                parent,
                NodeView {
                    children: old(self).view().node_at(parent).children.insert(
                        index as int,
                        child,
                    ),
                    ..old(self).view().node_at(parent)
                },
            ),
    ;

    /// Remove the first occurrence of `child` from the children of
    /// `parent`; a no-op if it is absent.
    fn remove_child(&mut self, parent: NodeId, child: NodeId)
        requires
            old(self).view().valid(parent),
        ensures
            old(self).view().node_at(parent).children.contains(child) ==> final(self).view()
                == with_node(
                old(self).view(),
                parent,
                NodeView {
                    children: old(self).view().node_at(parent).children.remove_value(child),
                    ..old(self).view().node_at(parent)
                },
            ),
            !old(self).view().node_at(parent).children.contains(child) ==> final(self).view()
                == old(self).view(),
    ;

    /// Remove and return all children of `id`, preserving their order.
    fn take_children(&mut self, id: NodeId) -> (r: Vec<NodeId>)
        requires
            old(self).view().valid(id),
        ensures
            r@ == old(self).view().node_at(id).children,
            final(self).view() == with_node(
                old(self).view(),
                id,
                NodeView { children: Seq::empty(), ..old(self).view().node_at(id) },
            ),
    ;

    /// Append `text` to the content of `id` if it is a Text node; report
    /// whether it was.
    fn try_append_to_text_node(&mut self, id: NodeId, text: &str) -> (r: bool)
        requires
            old(self).view().valid(id),
        ensures
            match old(self).view().node_at(id).data {
                NodeDataView::Text(s) => r && final(self).view() == with_node(
                    old(self).view(),
                    id,
                    NodeView {
                        data: NodeDataView::Text(s + text@),
                        ..old(self).view().node_at(id)
                    },
                ),
                _ => !r && final(self).view() == old(self).view(),
            },
    ;

    /// Merge `attrs` first-wins into the attributes of `id` if it is an
    /// element; report whether it was.
    fn try_merge_attrs(&mut self, id: NodeId, attrs: &Vec<Attr>) -> (r: bool)
        requires
            old(self).view().valid(id),
        ensures
            match old(self).view().node_at(id).data {
                NodeDataView::Element(e) => r && final(self).view() == with_node(
                    old(self).view(),
                    id,
                    NodeView {
                        data: NodeDataView::Element(
                            ElementView { attrs: merge_attrs(e.attrs, attr_views(attrs@)), ..e },
                        ),
                        ..old(self).view().node_at(id)
                    },
                ),
                _ => !r && final(self).view() == old(self).view(),
            },
    ;
}

} // verus!
