//! End-to-end: html5ever's tree builder drives the adapter through the
//! glue below, and the resulting tree is inspected and serialized.

use std::borrow::Cow;
use std::cell::RefCell;

use html5ever::Attribute;
use html5ever::LocalName;
use html5ever::Namespace;
use html5ever::QualName;
use html5ever::interface::ElemName;
use html5ever::interface::ElementFlags;
use html5ever::interface::QuirksMode;
use html5ever::interface::TreeSink;
use html5ever::tendril::StrTendril;
use html5ever::tendril::TendrilSink;

use htmldom::Attr;
use htmldom::DOMTree;
use htmldom::Document;
use htmldom::GenericSink;
use htmldom::NodeData;
use htmldom::NodeId;
use htmldom::TraversalScope;
use htmldom::serialize_subtree;

const HTML_NS: &str = "http://www.w3.org/1999/xhtml";

struct Glue {
    sink: RefCell<GenericSink<Document>>,
}

impl Glue {
    fn new(doc: Document) -> Glue {
        Glue {
            sink: RefCell::new(GenericSink::new(doc)),
        }
    }
}

#[derive(Debug)]
struct GlueName {
    ns: Namespace,
    local: LocalName,
}

impl ElemName for GlueName {
    fn ns(&self) -> &Namespace {
        &self.ns
    }

    fn local_name(&self) -> &LocalName {
        &self.local
    }
}

fn conv_attrs(attrs: Vec<Attribute>) -> Vec<Attr> {
    attrs
        .into_iter()
        .map(|a| Attr::new(a.name.local.to_string(), a.value.to_string()))
        .collect()
}

fn check_node(sink: &GenericSink<Document>, id: NodeId) {
    assert!(
        sink.dom_tree.node(id).is_some(),
        "id does not reference a node in the tree"
    );
}

fn check_appendable(sink: &GenericSink<Document>, child: &html5ever::interface::NodeOrText<NodeId>) {
    if let html5ever::interface::NodeOrText::AppendNode(id) = child {
        check_node(sink, *id);
        assert!(
            sink.dom_tree.node(*id).unwrap().parent().is_none(),
            "appended node already has a parent"
        );
        assert!(*id != sink.get_document(), "cannot append the root");
    }
}

fn conv_child(child: html5ever::interface::NodeOrText<NodeId>) -> htmldom::NodeOrText {
    match child {
        html5ever::interface::NodeOrText::AppendNode(id) => htmldom::NodeOrText::AppendNode(id),
        html5ever::interface::NodeOrText::AppendText(t) => {
            htmldom::NodeOrText::AppendText(t.to_string())
        }
    }
}

impl TreeSink for Glue {
    type Handle = NodeId;
    type Output = Document;
    type ElemName<'a> = GlueName;

    fn finish(self) -> Document {
        self.sink.into_inner().finish()
    }

    fn parse_error(&self, msg: Cow<'static, str>) {
        self.sink.borrow_mut().parse_error(msg.to_string());
    }

    fn get_document(&self) -> NodeId {
        self.sink.borrow().get_document()
    }

    fn elem_name<'a>(&'a self, target: &'a NodeId) -> GlueName {
        let sink = self.sink.borrow();
        check_node(&sink, *target);
        let name = sink.elem_name(*target);
        GlueName {
            ns: Namespace::from(HTML_NS),
            local: LocalName::from(name.as_str()),
        }
    }

    fn create_element(&self, name: QualName, attrs: Vec<Attribute>, flags: ElementFlags) -> NodeId {
        self.sink.borrow_mut().create_element(
            name.local.to_string(),
            conv_attrs(attrs),
            flags.template,
        )
    }

    fn create_comment(&self, text: StrTendril) -> NodeId {
        self.sink.borrow_mut().create_comment(text.to_string())
    }

    fn create_pi(&self, target: StrTendril, data: StrTendril) -> NodeId {
        self.sink
            .borrow_mut()
            .create_pi(target.to_string(), data.to_string())
    }

    fn append(&self, parent: &NodeId, child: html5ever::interface::NodeOrText<NodeId>) {
        let mut sink = self.sink.borrow_mut();
        check_node(&sink, *parent);
        check_appendable(&sink, &child);
        sink.append(*parent, conv_child(child));
    }

    fn append_based_on_parent_node(
        &self,
        element: &NodeId,
        prev_element: &NodeId,
        child: html5ever::interface::NodeOrText<NodeId>,
    ) {
        let mut sink = self.sink.borrow_mut();
        check_node(&sink, *element);
        check_node(&sink, *prev_element);
        let attached = sink.dom_tree.node(*element).unwrap().parent().is_some();
        if let html5ever::interface::NodeOrText::AppendNode(id) = &child {
            check_node(&sink, *id);
            assert!(*id != sink.get_document(), "cannot insert the root");
            if attached {
                assert!(*id != *element, "cannot insert a node before itself");
            } else {
                assert!(
                    sink.dom_tree.node(*id).unwrap().parent().is_none(),
                    "appended node already has a parent"
                );
            }
        }
        sink.append_based_on_parent_node(*element, *prev_element, conv_child(child));
    }

    fn append_doctype_to_document(
        &self,
        name: StrTendril,
        public_id: StrTendril,
        system_id: StrTendril,
    ) {
        self.sink.borrow_mut().append_doctype_to_document(
            name.to_string(),
            public_id.to_string(),
            system_id.to_string(),
        );
    }

    fn get_template_contents(&self, target: &NodeId) -> NodeId {
        let sink = self.sink.borrow();
        check_node(&sink, *target);
        assert!(
            !sink.dom_tree.node(*target).unwrap().children.is_empty(),
            "template has no contents holder"
        );
        sink.get_template_contents(*target)
    }

    fn same_node(&self, x: &NodeId, y: &NodeId) -> bool {
        self.sink.borrow().same_node(*x, *y)
    }

    fn set_quirks_mode(&self, mode: QuirksMode) {
        let mapped = match mode {
            QuirksMode::Quirks => htmldom::QuirksMode::Quirks,
            QuirksMode::LimitedQuirks => htmldom::QuirksMode::LimitedQuirks,
            QuirksMode::NoQuirks => htmldom::QuirksMode::NoQuirks,
        };
        self.sink.borrow_mut().set_quirks_mode(mapped);
    }

    fn append_before_sibling(
        &self,
        sibling: &NodeId,
        new_node: html5ever::interface::NodeOrText<NodeId>,
    ) {
        let mut sink = self.sink.borrow_mut();
        check_node(&sink, *sibling);
        assert!(
            sink.dom_tree.node(*sibling).unwrap().parent().is_some(),
            "sibling has no parent"
        );
        if let html5ever::interface::NodeOrText::AppendNode(id) = &new_node {
            check_node(&sink, *id);
            assert!(*id != sink.get_document(), "cannot insert the root");
            assert!(*id != *sibling, "cannot insert a node before itself");
        }
        sink.append_before_sibling(*sibling, conv_child(new_node));
    }

    fn add_attrs_if_missing(&self, target: &NodeId, attrs: Vec<Attribute>) {
        let mut sink = self.sink.borrow_mut();
        check_node(&sink, *target);
        sink.add_attrs_if_missing(*target, conv_attrs(attrs));
    }

    fn remove_from_parent(&self, target: &NodeId) {
        let mut sink = self.sink.borrow_mut();
        check_node(&sink, *target);
        sink.remove_from_parent(*target);
    }

    fn reparent_children(&self, node: &NodeId, new_parent: &NodeId) {
        let mut sink = self.sink.borrow_mut();
        check_node(&sink, *node);
        check_node(&sink, *new_parent);
        assert!(*node != *new_parent, "cannot reparent onto the same node");
        assert!(
            !sink.dom_tree.node(*node).unwrap().children.contains(new_parent),
            "cannot reparent onto a child of the source"
        );
        sink.reparent_children(*node, *new_parent);
    }
}

fn parse_document(input: &str) -> Document {
    let glue = Glue::new(Document::new());
    let parser = html5ever::driver::parse_document(glue, Default::default());
    parser.one(input)
}

fn parse_fragment(context: &str, input: &str) -> Document {
    let glue = Glue::new(Document::new_fragment());
    let name = QualName::new(None, Namespace::from(HTML_NS), LocalName::from(context));
    let parser = html5ever::driver::parse_fragment(glue, Default::default(), name, vec![], false);
    parser.one(input)
}

fn element_children(doc: &Document, id: NodeId) -> Vec<NodeId> {
    doc.node(id)
        .unwrap()
        .children
        .iter()
        .copied()
        .filter(|c| doc.node(*c).unwrap().element_name().is_some())
        .collect()
}

fn element_name(doc: &Document, id: NodeId) -> String {
    doc.node(id).unwrap().element_name().unwrap().clone()
}

fn text_content(doc: &Document, id: NodeId) -> String {
    match doc.node(id).unwrap().data() {
        NodeData::Text(s) => s.clone(),
        other => panic!("expected a text node, found {:?}", other),
    }
}

#[test]
fn parse_document_builds_heading_and_paragraph() {
    let doc = parse_document("<h1>My First Heading</h1><p>My first paragraph.</p>");
    let root = doc.id();
    let html = element_children(&doc, root)[0];
    assert_eq!(element_name(&doc, html), "html");
    let body = element_children(&doc, html)[1];
    assert_eq!(element_name(&doc, body), "body");
    let kids = doc.node(body).unwrap().children.clone();
    assert_eq!(kids.len(), 2);
    assert_eq!(element_name(&doc, kids[0]), "h1");
    assert_eq!(element_name(&doc, kids[1]), "p");
    let h1_kids = doc.node(kids[0]).unwrap().children.clone();
    assert_eq!(h1_kids.len(), 1);
    assert_eq!(text_content(&doc, h1_kids[0]), "My First Heading");
    let p_kids = doc.node(kids[1]).unwrap().children.clone();
    assert_eq!(p_kids.len(), 1);
    assert_eq!(text_content(&doc, p_kids[0]), "My first paragraph.");
}

#[test]
fn parse_document_serializes_back() {
    let doc = parse_document("<h1>My First Heading</h1><p>My first paragraph.</p>");
    assert_eq!(
        doc.html(),
        "<html><head></head><body><h1>My First Heading</h1><p>My first paragraph.</p></body></html>"
    );
}

#[test]
fn parse_fragment_keeps_whitespace() {
    let doc = parse_fragment("body", "<div>\n    TEST\n</div>");
    let root = doc.id();
    assert!(matches!(
        doc.node(root).unwrap().data(),
        NodeData::DocumentFragment
    ));
    let html = element_children(&doc, root)[0];
    assert_eq!(element_name(&doc, html), "html");
    assert_eq!(
        serialize_subtree(&doc, html, TraversalScope::ChildrenOnly),
        "<div>\n    TEST\n</div>"
    );
}

#[test]
fn parse_document_with_doctype_and_attributes() {
    let doc = parse_document("<!DOCTYPE html><p class=\"intro\">Hi &amp; bye</p>");
    assert_eq!(
        doc.html(),
        "<!DOCTYPE html><html><head></head><body><p class=\"intro\">Hi &amp; bye</p></body></html>"
    );
    assert_eq!(doc.quirks_mode(), htmldom::QuirksMode::NoQuirks);
}

#[test]
fn parse_without_doctype_reports_quirks() {
    let doc = parse_document("<p>x</p>");
    assert_eq!(doc.quirks_mode(), htmldom::QuirksMode::Quirks);
}

#[test]
fn parse_template_contents_are_reachable() {
    let doc = parse_document("<template><b>inside</b></template>");
    let root = doc.id();
    let html = element_children(&doc, root)[0];
    let head = element_children(&doc, html)[0];
    let template = element_children(&doc, head)[0];
    assert_eq!(element_name(&doc, template), "template");
    let kids = doc.node(template).unwrap().children.clone();
    assert_eq!(kids.len(), 1);
    assert!(matches!(
        doc.node(kids[0]).unwrap().data(),
        NodeData::DocumentFragment
    ));
    let inner = element_children(&doc, kids[0]);
    assert_eq!(element_name(&doc, inner[0]), "b");
}
