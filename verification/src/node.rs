//! The node model: handles, attributes, element data, node payloads and
//! node records, together with their mathematical views.

use vstd::prelude::*;

verus! {

/// Stable handle into one tree's arena. Handles are issued monotonically
/// and are never reused for a different node.
#[derive(Clone, Copy, PartialEq, Eq, Structural, Debug)]
pub struct NodeId {
    pub index: usize,
}

/// One attribute of an element, keyed by its qualified name.
#[derive(Debug)]
pub struct Attr {
    pub name: String,
    pub value: String,
}

/// Mathematical model of an attribute.
#[verifier::ext_equal]
pub ghost struct AttrView {
    pub name: Seq<char>,
    pub value: Seq<char>,
}

impl View for Attr {
    type V = AttrView;

    open spec fn view(&self) -> AttrView {
        AttrView { name: self.name@, value: self.value@ }
    }
}

impl Attr {
    pub fn new(name: String, value: String) -> (r: Attr)
        ensures
            r@ == (AttrView { name: name@, value: value@ }),
    {
        Attr { name, value }
    }

    pub fn duplicate(&self) -> (r: Attr)
        ensures
            r@ == self@,
    {
        Attr { name: self.name.clone(), value: self.value.clone() }
    }
}

/// The views of a sequence of attributes.
pub open spec fn attr_views(s: Seq<Attr>) -> Seq<AttrView> {
    s.map_values(|a: Attr| a@)
}

/// Whether some attribute in `attrs` has the qualified name `name`.
pub open spec fn has_attr_name(attrs: Seq<AttrView>, name: Seq<char>) -> bool {
    exists|j: int| 0 <= j < attrs.len() && attrs[j].name == name
}

/// No two attributes share a qualified name.
pub open spec fn attr_names_distinct(attrs: Seq<AttrView>) -> bool {
    forall|i: int, j: int|
        0 <= i < j < attrs.len() ==> attrs[i].name != attrs[j].name
}

/// First-wins attribute merge: each attribute of `incoming` whose name is
/// not yet present in `acc` is appended, in order; attributes already
/// present keep their value.
pub open spec fn merge_attrs(acc: Seq<AttrView>, incoming: Seq<AttrView>) -> Seq<AttrView>
    decreases incoming.len(),
{
    if incoming.len() == 0 {
        acc
    } else {
        let next = if has_attr_name(acc, incoming[0].name) {
            acc
        } else {
            acc.push(incoming[0])
        };
        merge_attrs(next, incoming.drop_first())
    }
}

/// The value of the first attribute named `id`, if any.
pub open spec fn elem_id_of(attrs: Seq<AttrView>) -> Option<Seq<char>>
    decreases attrs.len(),
{
    if attrs.len() == 0 {
        None
    } else if attrs[0].name == "id"@ {
        Some(attrs[0].value)
    } else {
        elem_id_of(attrs.drop_first())
    }
}

/// A first-wins merge keeps the accumulated attributes as an unchanged
/// prefix: merging can only append.
pub proof fn lemma_merge_attrs_prefix(acc: Seq<AttrView>, incoming: Seq<AttrView>)
    ensures
        merge_attrs(acc, incoming).len() >= acc.len(),
        forall|i: int|
            0 <= i < acc.len() ==> merge_attrs(acc, incoming)[i] == acc[i],
    decreases incoming.len(),
{
    if incoming.len() > 0 {
        let next = if has_attr_name(acc, incoming[0].name) {
            acc
        } else {
            acc.push(incoming[0])
        };
        lemma_merge_attrs_prefix(next, incoming.drop_first());
        assert forall|i: int| 0 <= i < acc.len() implies merge_attrs(acc, incoming)[i]
            == acc[i] by {
            assert(merge_attrs(next, incoming.drop_first())[i] == next[i]);
            assert(next[i] == acc[i]);
        }
    }
}

/// A first-wins merge introduces exactly the names that were present on
/// either side, and keeps the names distinct.
pub proof fn lemma_merge_attrs_names(acc: Seq<AttrView>, incoming: Seq<AttrView>)
    requires
        attr_names_distinct(acc),
    ensures
        attr_names_distinct(merge_attrs(acc, incoming)),
        forall|name: Seq<char>|
            #![trigger has_attr_name(merge_attrs(acc, incoming), name)]
            #![trigger has_attr_name(incoming, name)]
            has_attr_name(merge_attrs(acc, incoming), name) <==> (has_attr_name(acc, name)
                || has_attr_name(incoming, name)),
    decreases incoming.len(),
{
    if incoming.len() == 0 {
    } else {
        let next = if has_attr_name(acc, incoming[0].name) {
            acc
        } else {
            acc.push(incoming[0])
        };
        assert(attr_names_distinct(next)) by {
            if !has_attr_name(acc, incoming[0].name) {
                assert forall|i: int, j: int| 0 <= i < j < next.len() implies next[i].name
                    != next[j].name by {
                    if j == acc.len() {
                        assert(!(exists|k: int|
                            0 <= k < acc.len() && acc[k].name == incoming[0].name));
                    }
                }
            }
        }
        lemma_merge_attrs_names(next, incoming.drop_first());
        let merged = merge_attrs(acc, incoming);
        assert(merged == merge_attrs(next, incoming.drop_first()));
        assert forall|name: Seq<char>|
            #![trigger has_attr_name(merge_attrs(acc, incoming), name)]
            #![trigger has_attr_name(incoming, name)]
            has_attr_name(merged, name) <==> (has_attr_name(acc, name) || has_attr_name(
            incoming,
            name,
        )) by {
            if has_attr_name(merged, name) {
                if has_attr_name(next, name) {
                    let j = choose|j: int| 0 <= j < next.len() && next[j].name == name;
                    if j < acc.len() {
                        assert(acc[j].name == name);
                    } else {
                        assert(next[j] == incoming[0]);
                        assert(incoming[0].name == name);
                    }
                } else {
                    assert(has_attr_name(incoming.drop_first(), name));
                    let j = choose|j: int|
                        0 <= j < incoming.drop_first().len() && incoming.drop_first()[j].name
                            == name;
                    assert(incoming[j + 1].name == name);
                }
            }
            if has_attr_name(acc, name) {
                let j = choose|j: int| 0 <= j < acc.len() && acc[j].name == name;
                assert(next[j].name == name);
                assert(has_attr_name(next, name));
                assert(has_attr_name(merge_attrs(next, incoming.drop_first()), name));
            } else if has_attr_name(incoming, name) {
                let j = choose|j: int| 0 <= j < incoming.len() && incoming[j].name == name;
                if j == 0 {
                    if has_attr_name(acc, incoming[0].name) {
                        assert(has_attr_name(acc, name));
                    } else {
                        assert(next[acc.len() as int].name == name);
                        assert(has_attr_name(next, name));
                        assert(has_attr_name(merge_attrs(next, incoming.drop_first()), name));
                    }
                } else {
                    assert(incoming.drop_first()[j - 1].name == name);
                    assert(has_attr_name(incoming.drop_first(), name));
                    assert(has_attr_name(merge_attrs(next, incoming.drop_first()), name));
                }
            }
        }
    }
}

/// Whether `name` occurs among the attribute views of the exec sequence.
fn attrs_contain_name(attrs: &Vec<Attr>, name: &String) -> (r: bool)
    ensures
        r == has_attr_name(attr_views(attrs@), name@),
{
    let mut i: usize = 0;
    while i < attrs.len()
        invariant
            0 <= i <= attrs@.len(),
            forall|j: int| 0 <= j < i ==> attr_views(attrs@)[j].name != name@,
        decreases attrs@.len() - i,
    {
        if attrs[i].name == *name {
            assert(attr_views(attrs@)[i as int].name == name@);
            return true;
        }
        i = i + 1;
    }
    false
}

/// Merge `incoming` into `acc` first-wins, as `merge_attrs` describes.
fn merge_attrs_exec(acc: &mut Vec<Attr>, incoming: &Vec<Attr>)
    ensures
        attr_views(final(acc)@) == merge_attrs(attr_views(old(acc)@), attr_views(incoming@)),
{
    let ghost orig = attr_views(acc@);
    let ghost inviews = attr_views(incoming@);
    proof {
        assert(inviews.skip(0) =~= inviews);
    }
    let mut i: usize = 0;
    while i < incoming.len()
        invariant
            0 <= i <= incoming@.len(),
            inviews == attr_views(incoming@),
            merge_attrs(attr_views(acc@), inviews.skip(i as int)) == merge_attrs(orig, inviews),
        decreases incoming@.len() - i,
    {
        let ghost before = attr_views(acc@);
        let ghost rest = inviews.skip(i as int);
        proof {
            assert(rest.len() > 0);
            assert(rest[0] == inviews[i as int]);
            assert(rest.drop_first() =~= inviews.skip(i as int + 1));
        }
        if !attrs_contain_name(acc, &incoming[i].name) {
            acc.push(incoming[i].duplicate());
            proof {
                assert(attr_views(acc@) =~= before.push(inviews[i as int]));
            }
        }
        proof {
            assert(merge_attrs(before, rest) == merge_attrs(attr_views(acc@), rest.drop_first()));
        }
        i = i + 1;
    }
    proof {
        assert(inviews.skip(i as int) =~= Seq::<AttrView>::empty());
        assert(merge_attrs(attr_views(acc@), inviews.skip(i as int)) == attr_views(acc@));
    }
}

/// The payload carried by an element node: its qualified name, its
/// attribute collection (names distinct, first occurrence wins), and the
/// value its `id` attribute had when the element was created.
#[derive(Debug)]
pub struct ElementData {
    pub name: String,
    pub attrs: Vec<Attr>,
    pub id: Option<String>,
}

/// Mathematical model of an element payload.
#[verifier::ext_equal]
pub ghost struct ElementView {
    pub name: Seq<char>,
    pub attrs: Seq<AttrView>,
    pub id: Option<Seq<char>>,
}

impl View for ElementData {
    type V = ElementView;

    open spec fn view(&self) -> ElementView {
        ElementView {
            name: self.name@,
            attrs: attr_views(self.attrs@),
            id: match self.id {
                Some(s) => Some(s@),
                None => None,
            },
        }
    }
}

impl ElementData {
    /// Build an element payload from raw attributes: duplicate names are
    /// dropped (first occurrence wins) and the `id` attribute is recorded.
    pub fn new(name: String, raw_attrs: Vec<Attr>) -> (r: ElementData)
        ensures
            r@.name == name@,
            r@.attrs == merge_attrs(Seq::<AttrView>::empty(), attr_views(raw_attrs@)),
            attr_names_distinct(r@.attrs),
            r@.id == elem_id_of(r@.attrs),
    {
        let mut attrs: Vec<Attr> = Vec::new();
        proof {
            assert(attr_views(attrs@) =~= Seq::<AttrView>::empty());
        }
        merge_attrs_exec(&mut attrs, &raw_attrs);
        proof {
            lemma_merge_attrs_names(Seq::<AttrView>::empty(), attr_views(raw_attrs@));
        }
        let id = find_id_attr(&attrs);
        ElementData { name, attrs, id }
    }

    pub fn name(&self) -> (r: &String)
        ensures
            r@ == self@.name,
    {
        &self.name
    }
}

/// The payload of one node: a closed set of variants.
#[derive(Debug)]
pub enum NodeData {
    Document,
    DocumentFragment,
    Doctype { name: String, public_id: String, system_id: String },
    Text(String),
    Comment(String),
    ProcessingInstruction { target: String, data: String },
    Element(ElementData),
}

/// Mathematical model of a node payload.
#[verifier::ext_equal]
pub ghost enum NodeDataView {
    Document,
    DocumentFragment,
    Doctype { name: Seq<char>, public_id: Seq<char>, system_id: Seq<char> },
    Text(Seq<char>),
    Comment(Seq<char>),
    ProcessingInstruction { target: Seq<char>, data: Seq<char> },
    Element(ElementView),
}

impl View for NodeData {
    type V = NodeDataView;

    open spec fn view(&self) -> NodeDataView {
        match self {
            NodeData::Document => NodeDataView::Document,
            NodeData::DocumentFragment => NodeDataView::DocumentFragment,
            NodeData::Doctype { name, public_id, system_id } => NodeDataView::Doctype {
                name: name@,
                public_id: public_id@,
                system_id: system_id@,
            },
            NodeData::Text(s) => NodeDataView::Text(s@),
            NodeData::Comment(s) => NodeDataView::Comment(s@),
            NodeData::ProcessingInstruction { target, data } => {
                NodeDataView::ProcessingInstruction { target: target@, data: data@ }
            },
            NodeData::Element(e) => NodeDataView::Element(e@),
        }
    }
}

/// One node record: payload plus parent/children links.
#[derive(Debug)]
pub struct Node {
    pub id: NodeId,
    pub data: NodeData,
    pub parent: Option<NodeId>,
    pub children: Vec<NodeId>,
}

/// Mathematical model of a node record.
#[verifier::ext_equal]
pub ghost struct NodeView {
    pub id: NodeId,
    pub data: NodeDataView,
    pub parent: Option<NodeId>,
    pub children: Seq<NodeId>,
}

impl View for Node {
    type V = NodeView;

    open spec fn view(&self) -> NodeView {
        NodeView { id: self.id, data: self.data@, parent: self.parent, children: self.children@ }
    }
}

impl Node {
    /// A fresh node: given payload, no parent, no children.
    pub fn new(id: NodeId, data: NodeData) -> (r: Node)
        ensures
            r@ == (NodeView { id, data: data@, parent: None, children: Seq::empty() }),
    {
        Node { id, data, parent: None, children: Vec::new() }
    }

    pub fn id(&self) -> (r: NodeId)
        ensures
            r == self@.id,
    {
        self.id
    }

    pub fn parent(&self) -> (r: Option<NodeId>)
        ensures
            r == self@.parent,
    {
        self.parent
    }

    pub fn data(&self) -> (r: &NodeData)
        ensures
            r@ == self@.data,
    {
        &self.data
    }

    /// Set the parent pointer only; the caller keeps the former and the new
    /// parent's children sequences consistent.
    pub fn reparent(&mut self, parent: NodeId)
        ensures
            final(self)@ == (NodeView { parent: Some(parent), ..old(self)@ }),
    {
        self.parent = Some(parent);
    }

    /// Clear the parent pointer only; the caller also removes this node
    /// from the former parent's children.
    pub fn detach_from_parent(&mut self)
        ensures
            final(self)@ == (NodeView { parent: None, ..old(self)@ }),
    {
        self.parent = None;
    }

    /// Push `id` at the end of the children sequence.
    pub fn append_child(&mut self, id: NodeId)
        ensures
            final(self)@ == (NodeView { children: old(self)@.children.push(id), ..old(self)@ }),
    {
        self.children.push(id);
    }

    /// Push every id of `ids`, in order, at the end of the children sequence.
    pub fn append_children(&mut self, ids: &Vec<NodeId>)
        ensures
            final(self)@ == (NodeView { children: old(self)@.children + ids@, ..old(self)@ }),
    {
        let ghost orig = self.children@;
        let mut i: usize = 0;
        while i < ids.len()
            invariant
                0 <= i <= ids@.len(),
                self.children@ == orig + ids@.take(i as int),
                self.id == old(self).id,
                self.data == old(self).data,
                self.parent == old(self).parent,
            decreases ids@.len() - i,
        {
            self.children.push(ids[i]);
            proof {
                assert(orig + ids@.take(i as int + 1) =~= (orig + ids@.take(i as int)).push(
                    ids@[i as int],
                ));
            }
            i = i + 1;
        }
        proof {
            assert(ids@.take(i as int) =~= ids@);
        }
    }

    /// Insert `id` at position `index` of the children sequence, shifting
    /// the ids from `index` on one place to the right.
    pub fn insert_child(&mut self, index: usize, id: NodeId)
        requires
            index <= old(self)@.children.len(),
        ensures
            final(self)@ == (NodeView {
                children: old(self)@.children.insert(index as int, id),
                ..old(self)@
            }),
    {
        self.children.insert(index, id);
    }

    /// Remove the first occurrence of `id` from the children sequence;
    /// leave the node unchanged if `id` is absent.
    pub fn remove_child(&mut self, id: NodeId)
        ensures
            old(self)@.children.contains(id) ==> final(self)@ == (NodeView {
                children: old(self)@.children.remove_value(id),
                ..old(self)@
            }),
            !old(self)@.children.contains(id) ==> *final(self) == *old(self),
    {
        let mut i: usize = 0;
        while i < self.children.len()
            invariant
                0 <= i <= self.children@.len(),
                forall|j: int| 0 <= j < i ==> self.children@[j] != id,
                self == old(self),
            decreases self.children@.len() - i,
        {
            if self.children[i] == id {
                self.children.remove(i);
                proof {
                    assert(old(self)@.children.index_of_first(id) == Some(i as int)) by {
                        old(self)@.children.index_of_first_ensures(id);
                        if old(self)@.children.index_of_first(id) is None {
                            assert(!old(self)@.children.contains(id));
                            assert(old(self)@.children[i as int] == id);
                        }
                    }
                }
                return ;
            }
            i = i + 1;
        }
        proof {
            if old(self)@.children.contains(id) {
                let j = old(self)@.children.index_of(id);
            }
        }
    }

    /// Append `text` to this node's content if it is a Text node; report
    /// whether it was.
    pub fn try_append_to_text_node(&mut self, text: &str) -> (r: bool)
        ensures
            match old(self)@.data {
                NodeDataView::Text(s) => r && final(self)@ == (NodeView {
                    data: NodeDataView::Text(s + text@),
                    ..old(self)@
                }),
                _ => !r && *final(self) == *old(self),
            },
    {
        match &mut self.data {
            NodeData::Text(s) => {
                s.append(text);
                true
            },
            _ => false,
        }
    }

    /// Merge `attrs` first-wins into this node's attributes if it is an
    /// element; report whether it was.
    pub fn try_merge_attrs(&mut self, attrs: &Vec<Attr>) -> (r: bool)
        ensures
            match old(self)@.data {
                NodeDataView::Element(e) => r && final(self)@ == (NodeView {
                    data: NodeDataView::Element(ElementView {
                        attrs: merge_attrs(e.attrs, attr_views(attrs@)),
                        ..e
                    }),
                    ..old(self)@
                }),
                _ => !r && *final(self) == *old(self),
            },
    {
        match &mut self.data {
            NodeData::Element(e) => {
                merge_attrs_exec(&mut e.attrs, attrs);
                true
            },
            _ => false,
        }
    }

    /// The element's qualified name, `None` for every other node kind.
    pub fn element_name(&self) -> (r: Option<&String>)
        ensures
            match self@.data {
                NodeDataView::Element(e) => r matches Some(s) && s@ == e.name,
                _ => r is None,
            },
    {
        match &self.data {
            NodeData::Element(e) => Some(&e.name),
            _ => None,
        }
    }

    /// Mutable access to the payload.
    pub fn data_mut(&mut self) -> (r: &mut NodeData)
        ensures
            *r == old(self).data,
            *final(self) == (Node { data: *final(r), ..*old(self) }),
    {
        &mut self.data
    }

    /// The element payload for mutation, `None` for every other node
    /// kind. The node afterwards carries whatever the caller made of the
    /// payload.
    pub fn as_element_mut(&mut self) -> (r: Option<&mut ElementData>)
        ensures
            match old(self)@.data {
                NodeDataView::Element(e) => r matches Some(d) && (*d)@ == e && *final(self)
                    == (Node { data: NodeData::Element(*final(d)), ..*old(self) }),
                _ => r is None && *final(self) == *old(self),
            },
    {
        match &mut self.data {
            NodeData::Element(e) => Some(e),
            _ => None,
        }
    }

    /// The element payload, `None` for every other node kind.
    pub fn as_element(&self) -> (r: Option<&ElementData>)
        ensures
            match self@.data {
                NodeDataView::Element(e) => r matches Some(d) && d@ == e,
                _ => r is None,
            },
    {
        match &self.data {
            NodeData::Element(e) => Some(e),
            _ => None,
        }
    }
}

/// The views of a sequence of node records.
pub open spec fn nodes_view(s: Seq<Node>) -> Seq<NodeView> {
    s.map_values(|n: Node| n@)
}

/// Copy an attribute sequence, keeping its views.
pub fn clone_attrs(attrs: &Vec<Attr>) -> (r: Vec<Attr>)
    ensures
        attr_views(r@) == attr_views(attrs@),
{
    let mut out: Vec<Attr> = Vec::new();
    let mut i: usize = 0;
    while i < attrs.len()
        invariant
            0 <= i <= attrs@.len(),
            out@.len() == i,
            forall|j: int| 0 <= j < i ==> (#[trigger] out@[j])@ == attrs@[j]@,
        decreases attrs@.len() - i,
    {
        out.push(attrs[i].duplicate());
        i = i + 1;
    }
    proof {
        assert(attr_views(out@) =~= attr_views(attrs@));
    }
    out
}

/// Scan for the first attribute named `id` and return its value.
fn find_id_attr(attrs: &Vec<Attr>) -> (r: Option<String>)
    ensures
        match r {
            Some(s) => elem_id_of(attr_views(attrs@)) == Some(s@),
            None => elem_id_of(attr_views(attrs@)) is None,
        },
{
    let key: String = String::from_str("id");
    proof {
        assert(attr_views(attrs@).skip(0) =~= attr_views(attrs@));
    }
    let mut i: usize = 0;
    while i < attrs.len()
        invariant
            0 <= i <= attrs@.len(),
            key@ == "id"@,
            elem_id_of(attr_views(attrs@).skip(i as int)) == elem_id_of(attr_views(attrs@)),
        decreases attrs@.len() - i,
    {
        let ghost rest = attr_views(attrs@).skip(i as int);
        proof {
            assert(rest[0] == attr_views(attrs@)[i as int]);
            assert(rest.drop_first() =~= attr_views(attrs@).skip(i as int + 1));
        }
        if attrs[i].name == key {
            return Some(attrs[i].value.clone());
        }
        i = i + 1;
    }
    proof {
        assert(attr_views(attrs@).skip(i as int) =~= Seq::<AttrView>::empty());
    }
    None
}

} // verus!
