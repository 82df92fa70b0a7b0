//! The serializer: consumes the document-order edge walk to regenerate
//! markup text, honoring a "whole subtree" vs "children only" scope.

use vstd::prelude::*;
use vstd::string::StrSliceExecFns;
use vstd::string::StringExecFns;

use crate::document::Document;
use crate::dom::DOMTree;
use crate::dom::SerializableNode;
use crate::dom::TreeView;
use crate::node::Attr;
use crate::node::AttrView;
use crate::node::NodeDataView;
use crate::node::NodeId;
use crate::node::attr_views;
use crate::traversal::Edge;
use crate::traversal::Traversal;
use crate::traversal::edge_target;
use crate::traversal::lemma_subtree_edges_valid;
use crate::traversal::subtree_edges;

verus! {

/// Relies on String::push: appends the given character to the end of
/// this string.
pub assume_specification[ String::push ](s: &mut String, ch: char)
    ensures
        final(s)@ == old(s)@.push(ch),
;

/// Scope of a serialization: the whole subtree including its root, or
/// its children only, as fragment serialization uses, where the
/// synthetic root itself must not be emitted.
#[derive(Clone, Copy, PartialEq, Eq, Structural, Debug)]
pub enum TraversalScope {
    IncludeNode,
    ChildrenOnly,
}

/// How one character of text content is written.
pub open spec fn escaped_text_char(c: char) -> Seq<char> {
    if c == '&' {
        "&amp;"@
    } else if c == '\u{a0}' {
        "&nbsp;"@
    } else if c == '<' {
        "&lt;"@
    } else if c == '>' {
        "&gt;"@
    } else {
        seq![c]
    }
}

/// Text content with its markup-significant characters escaped.
pub open spec fn escaped_text(s: Seq<char>) -> Seq<char>
    decreases s.len(),
{
    if s.len() == 0 {
        Seq::empty()
    } else {
        escaped_text_char(s[0]) + escaped_text(s.drop_first())
    }
}

/// How one character of an attribute value is written.
pub open spec fn escaped_attr_char(c: char) -> Seq<char> {
    if c == '&' {
        "&amp;"@
    } else if c == '\u{a0}' {
        "&nbsp;"@
    } else if c == '"' {
        "&quot;"@
    } else {
        seq![c]
    }
}

/// An attribute value with its markup-significant characters escaped.
pub open spec fn escaped_attr(s: Seq<char>) -> Seq<char>
    decreases s.len(),
{
    if s.len() == 0 {
        Seq::empty()
    } else {
        escaped_attr_char(s[0]) + escaped_attr(s.drop_first())
    }
}

/// The attributes of a start tag, in collection order.
pub open spec fn rendered_attrs(attrs: Seq<AttrView>) -> Seq<char>
    decreases attrs.len(),
{
    if attrs.len() == 0 {
        Seq::empty()
    } else {
        " "@ + attrs[0].name + "=\""@ + escaped_attr(attrs[0].value) + "\""@ + rendered_attrs(
            attrs.drop_first(),
        )
    }
}

/// What an Open edge writes: a doctype declaration, a comment, escaped
/// text, or a start tag with its attributes; nothing for the other node
/// kinds.
pub open spec fn rendered_open(d: NodeDataView) -> Seq<char> {
    match d {
        NodeDataView::Doctype { name, .. } => "<!DOCTYPE "@ + name + ">"@,
        NodeDataView::Comment(c) => "<!--"@ + c + "-->"@,
        NodeDataView::Text(s) => escaped_text(s),
        NodeDataView::Element(e) => "<"@ + e.name + rendered_attrs(e.attrs) + ">"@,
        _ => Seq::empty(),
    }
}

/// What a Close edge writes: an end tag for an element, nothing for the
/// other node kinds.
pub open spec fn rendered_close(d: NodeDataView) -> Seq<char> {
    match d {
        NodeDataView::Element(e) => "</"@ + e.name + ">"@,
        _ => Seq::empty(),
    }
}

/// The markup a sequence of edges writes; the edges of the node `skip`
/// write nothing.
pub open spec fn rendered_edges(t: TreeView, edges: Seq<Edge>, skip: Option<NodeId>) -> Seq<char>
    decreases edges.len(),
{
    if edges.len() == 0 {
        Seq::empty()
    } else {
        let head = match edges[0] {
            Edge::Open(id) => if skip == Some(id) {
                Seq::empty()
            } else {
                rendered_open(t.node_at(id).data)
            },
            Edge::Close(id) => if skip == Some(id) {
                Seq::empty()
            } else {
                rendered_close(t.node_at(id).data)
            },
        };
        head + rendered_edges(t, edges.drop_first(), skip)
    }
}

/// The markup of the subtree rooted at `id`, under the given scope.
pub open spec fn serialized_subtree(t: TreeView, id: NodeId, scope: TraversalScope) -> Seq<char> {
    rendered_edges(
        t,
        subtree_edges(t, id, t.nodes.len()),
        if scope is ChildrenOnly {
            Some(id)
        } else {
            None
        },
    )
}

/// The markup of the whole tree, from its root, under the given scope.
pub open spec fn serialized(t: TreeView, scope: TraversalScope) -> Seq<char> {
    serialized_subtree(t, t.root, scope)
}

/// Append `s` to `out`, escaping it as text content.
fn push_escaped_text(out: &mut String, s: &str)
    ensures
        final(out)@ == old(out)@ + escaped_text(s@),
{
    let n = s.unicode_len();
    let mut i: usize = 0;
    proof {
        assert(s@.skip(0) =~= s@);
        assert(old(out)@ + Seq::<char>::empty() =~= old(out)@);
    }
    while i < n
        invariant
            0 <= i <= n,
            n == s@.len(),
            out@ + escaped_text(s@.skip(i as int)) == old(out)@ + escaped_text(s@),
        decreases n - i,
    {
        let ghost rest = s@.skip(i as int);
        proof {
            assert(rest[0] == s@[i as int]);
            assert(rest.drop_first() =~= s@.skip(i as int + 1));
        }
        let c = s.get_char(i);
        if c == '&' {
            out.append("&amp;");
        } else if c == '\u{a0}' {
            out.append("&nbsp;");
        } else if c == '<' {
            out.append("&lt;");
        } else if c == '>' {
            out.append("&gt;");
        } else {
            out.push(c);
            proof {
                assert(escaped_text_char(c) =~= seq![c]);
            }
        }
        proof {
            assert(out@ + escaped_text(s@.skip(i as int + 1)) =~= old(out)@ + escaped_text(s@));
        }
        i = i + 1;
    }
    proof {
        assert(s@.skip(n as int) =~= Seq::<char>::empty());
        assert(out@ + Seq::<char>::empty() =~= out@);
    }
}

/// Append `s` to `out`, escaping it as an attribute value.
fn push_escaped_attr(out: &mut String, s: &str)
    ensures
        final(out)@ == old(out)@ + escaped_attr(s@),
{
    let n = s.unicode_len();
    let mut i: usize = 0;
    proof {
        assert(s@.skip(0) =~= s@);
        assert(old(out)@ + Seq::<char>::empty() =~= old(out)@);
    }
    while i < n
        invariant
            0 <= i <= n,
            n == s@.len(),
            out@ + escaped_attr(s@.skip(i as int)) == old(out)@ + escaped_attr(s@),
        decreases n - i,
    {
        let ghost rest = s@.skip(i as int);
        proof {
            assert(rest[0] == s@[i as int]);
            assert(rest.drop_first() =~= s@.skip(i as int + 1));
        }
        let c = s.get_char(i);
        if c == '&' {
            out.append("&amp;");
        } else if c == '\u{a0}' {
            out.append("&nbsp;");
        } else if c == '"' {
            out.append("&quot;");
        } else {
            out.push(c);
            proof {
                assert(escaped_attr_char(c) =~= seq![c]);
            }
        }
        proof {
            assert(out@ + escaped_attr(s@.skip(i as int + 1)) =~= old(out)@ + escaped_attr(s@));
        }
        i = i + 1;
    }
    proof {
        assert(s@.skip(n as int) =~= Seq::<char>::empty());
        assert(out@ + Seq::<char>::empty() =~= out@);
    }
}

/// Append a start tag's attributes to `out`, in collection order.
fn push_attrs(out: &mut String, attrs: &Vec<Attr>)
    ensures
        final(out)@ == old(out)@ + rendered_attrs(attr_views(attrs@)),
{
    let ghost views = attr_views(attrs@);
    let mut i: usize = 0;
    proof {
        assert(views.skip(0) =~= views);
        assert(old(out)@ + Seq::<char>::empty() =~= old(out)@);
    }
    while i < attrs.len()
        invariant
            0 <= i <= attrs@.len(),
            views == attr_views(attrs@),
            out@ + rendered_attrs(views.skip(i as int)) == old(out)@ + rendered_attrs(views),
        decreases attrs@.len() - i,
    {
        let ghost rest = views.skip(i as int);
        proof {
            assert(rest[0] == views[i as int]);
            assert(rest.drop_first() =~= views.skip(i as int + 1));
        }
        out.append(" ");
        out.append(attrs[i].name.as_str());
        out.append("=\"");
        push_escaped_attr(out, attrs[i].value.as_str());
        out.append("\"");
        proof {
            assert(out@ + rendered_attrs(views.skip(i as int + 1)) =~= old(out)@ + rendered_attrs(
                views,
            ));
        }
        i = i + 1;
    }
    proof {
        assert(views.skip(attrs@.len() as int) =~= Seq::<AttrView>::empty());
        assert(out@ + Seq::<char>::empty() =~= out@);
    }
}

/// Append what an Open edge of a node with payload `data` writes.
fn push_open(out: &mut String, data: &SerializableNode, Ghost(d): Ghost<NodeDataView>)
    requires
        crate::dom::is_serializable_of(*data, d),
    ensures
        final(out)@ == old(out)@ + rendered_open(d),
{
    match data {
        SerializableNode::Doctype(name) => {
            out.append("<!DOCTYPE ");
            out.append(name.as_str());
            out.append(">");
        },
        SerializableNode::Comment(c) => {
            out.append("<!--");
            out.append(c.as_str());
            out.append("-->");
        },
        SerializableNode::Text(s) => {
            push_escaped_text(out, s.as_str());
        },
        SerializableNode::Element(name, attrs) => {
            out.append("<");
            out.append(name.as_str());
            push_attrs(out, attrs);
            out.append(">");
        },
        SerializableNode::Skip => {
            proof {
                assert(old(out)@ + rendered_open(d) =~= old(out)@);
            }
        },
    }
}

/// Append what a Close edge of a node with payload `data` writes.
fn push_close(out: &mut String, data: &SerializableNode, Ghost(d): Ghost<NodeDataView>)
    requires
        crate::dom::is_serializable_of(*data, d),
    ensures
        final(out)@ == old(out)@ + rendered_close(d),
{
    match data {
        SerializableNode::Element(name, _) => {
            out.append("</");
            out.append(name.as_str());
            out.append(">");
        },
        _ => {
            proof {
                assert(old(out)@ + rendered_close(d) =~= old(out)@);
            }
        },
    }
}

/// Render the subtree rooted at `id` back to markup text, consuming a
/// document-order walk of it.
pub fn serialize_subtree<T: DOMTree>(tree: &T, id: NodeId, scope: TraversalScope) -> (r: String)
    requires
        tree.view().wf(),
        tree.view().valid(id),
    ensures
        r@ == serialized_subtree(tree.view(), id, scope),
{
    let ghost t = tree.view();
    let ghost skip = if scope is ChildrenOnly {
        Some(id)
    } else {
        None
    };
    let skip_root = match scope {
        TraversalScope::ChildrenOnly => true,
        TraversalScope::IncludeNode => false,
    };
    let mut walk = Traversal::for_subtree(tree, id);
    let mut out = String::new();
    proof {
        lemma_subtree_edges_valid(t, id, t.nodes.len());
        assert(out@ + serialized_subtree(t, id, scope) =~= serialized_subtree(t, id, scope));
    }
    loop
        invariant
            tree.view() == walk.tree@,
            t == walk.tree@,
            walk.inv(),
            skip == (if skip_root {
                Some(id)
            } else {
                None::<NodeId>
            }),
            out@ + rendered_edges(t, walk.pending(), skip) == serialized_subtree(t, id, scope),
            forall|k: int|
                0 <= k < walk.pending().len() ==> edge_target(#[trigger] walk.pending()[k]).index
                    < t.nodes.len(),
        decreases walk.pending().len(),
    {
        let ghost pending0 = walk.pending();
        match walk.next(tree) {
            None => {
                proof {
                    assert(rendered_edges(t, pending0, skip) =~= Seq::<char>::empty());
                    assert(out@ + Seq::<char>::empty() =~= out@);
                }
                return out;
            },
            Some(edge) => {
                proof {
                    assert(pending0[0] == edge);
                    assert(pending0.drop_first() == walk.pending());
                    assert forall|k: int| 0 <= k < walk.pending().len() implies edge_target(
                        #[trigger] walk.pending()[k],
                    ).index < t.nodes.len() by {
                        assert(walk.pending()[k] == pending0[k + 1]);
                    }
                }
                match edge {
                    Edge::Open(nid) => {
                        let data = tree.serializable_data(nid);
                        if skip_root && nid == id {
                            proof {
                                assert(rendered_edges(t, pending0, skip) == rendered_edges(
                                    t,
                                    walk.pending(),
                                    skip,
                                ));
                            }
                        } else {
                            push_open(&mut out, &data, Ghost(t.node_at(nid).data));
                            proof {
                                assert(skip != Some(nid));
                                assert(rendered_edges(t, pending0, skip) == rendered_open(
                                    t.node_at(nid).data,
                                ) + rendered_edges(t, walk.pending(), skip));
                                assert(out@ + rendered_edges(t, walk.pending(), skip)
                                    =~= serialized_subtree(t, id, scope));
                            }
                        }
                    },
                    Edge::Close(nid) => {
                        let data = tree.serializable_data(nid);
                        if skip_root && nid == id {
                            proof {
                                assert(rendered_edges(t, pending0, skip) == rendered_edges(
                                    t,
                                    walk.pending(),
                                    skip,
                                ));
                            }
                        } else {
                            push_close(&mut out, &data, Ghost(t.node_at(nid).data));
                            proof {
                                assert(skip != Some(nid));
                                assert(rendered_edges(t, pending0, skip) == rendered_close(
                                    t.node_at(nid).data,
                                ) + rendered_edges(t, walk.pending(), skip));
                                assert(out@ + rendered_edges(t, walk.pending(), skip)
                                    =~= serialized_subtree(t, id, scope));
                            }
                        }
                    },
                }
            },
        }
    }
}

impl Document {
    /// Render this tree back to markup text under the given scope.
    pub fn serialize(&self, scope: TraversalScope) -> (r: String)
        requires
            self.view().wf(),
        ensures
            r@ == serialized(self.view(), scope),
    {
        let root = self.id();
        serialize_subtree(self, root, scope)
    }

    /// The markup of the whole tree.
    pub fn html(&self) -> (r: String)
        requires
            self.view().wf(),
        ensures
            r@ == serialized(self.view(), TraversalScope::IncludeNode),
    {
        self.serialize(TraversalScope::IncludeNode)
    }
}

} // verus!
