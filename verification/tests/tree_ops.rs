use htmldom::Attr;
use htmldom::DOMTree;
use htmldom::Document;
use htmldom::GenericSink;
use htmldom::NodeData;
use htmldom::NodeId;
use htmldom::NodeOrText;
use htmldom::QuirksMode;

fn attr(name: &str, value: &str) -> Attr {
    Attr::new(String::from(name), String::from(value))
}

fn new_sink() -> GenericSink<Document> {
    GenericSink::new(Document::new())
}

fn text_of(doc: &Document, id: NodeId) -> String {
    match doc.node(id).unwrap().data() {
        NodeData::Text(s) => s.clone(),
        other => panic!("expected a text node, found {:?}", other),
    }
}

#[test]
fn document_root_is_document() {
    let doc = Document::new();
    let root = doc.id();
    assert!(matches!(doc.node(root).unwrap().data(), NodeData::Document));
    assert!(doc.node(root).unwrap().parent().is_none());
}

#[test]
fn fragment_root_is_fragment() {
    let doc = Document::new_fragment();
    let root = doc.id();
    assert!(matches!(
        doc.node(root).unwrap().data(),
        NodeData::DocumentFragment
    ));
}

#[test]
fn created_nodes_start_parentless() {
    let mut sink = new_sink();
    let elem = sink.create_element(String::from("div"), vec![], false);
    let comment = sink.create_comment(String::from("note"));
    let pi = sink.create_pi(String::from("xml"), String::from("version"));
    let doc = sink.finish();
    for id in [elem, comment, pi] {
        assert!(doc.node(id).unwrap().parent().is_none());
        assert!(doc.node(id).unwrap().children.is_empty());
    }
    assert!(matches!(doc.node(comment).unwrap().data(), NodeData::Comment(c) if c == "note"));
    assert!(matches!(
        doc.node(pi).unwrap().data(),
        NodeData::ProcessingInstruction { target, data } if target == "xml" && data == "version"
    ));
}

#[test]
fn append_links_both_directions() {
    let mut sink = new_sink();
    let root = sink.get_document();
    let elem = sink.create_element(String::from("div"), vec![], false);
    sink.append(root, NodeOrText::AppendNode(elem));
    let doc = sink.finish();
    assert_eq!(doc.node(elem).unwrap().parent(), Some(root));
    assert_eq!(doc.node(root).unwrap().children, vec![elem]);
}

#[test]
fn adjacent_text_coalesces() {
    let mut sink = new_sink();
    let root = sink.get_document();
    let p = sink.create_element(String::from("p"), vec![], false);
    sink.append(root, NodeOrText::AppendNode(p));
    sink.append(p, NodeOrText::AppendText(String::from("My first ")));
    sink.append(p, NodeOrText::AppendText(String::from("paragraph.")));
    let doc = sink.finish();
    let kids = &doc.node(p).unwrap().children;
    assert_eq!(kids.len(), 1);
    assert_eq!(text_of(&doc, kids[0]), "My first paragraph.");
}

#[test]
fn text_after_element_starts_a_new_node() {
    let mut sink = new_sink();
    let root = sink.get_document();
    let p = sink.create_element(String::from("p"), vec![], false);
    sink.append(root, NodeOrText::AppendNode(p));
    sink.append(p, NodeOrText::AppendText(String::from("a")));
    let em = sink.create_element(String::from("em"), vec![], false);
    sink.append(p, NodeOrText::AppendNode(em));
    sink.append(p, NodeOrText::AppendText(String::from("b")));
    let doc = sink.finish();
    let kids = doc.node(p).unwrap().children.clone();
    assert_eq!(kids.len(), 3);
    assert_eq!(text_of(&doc, kids[0]), "a");
    assert_eq!(kids[1], em);
    assert_eq!(text_of(&doc, kids[2]), "b");
}

#[test]
fn attr_merge_is_first_wins() {
    let mut sink = new_sink();
    let elem = sink.create_element(String::from("div"), vec![attr("class", "a")], false);
    sink.add_attrs_if_missing(elem, vec![attr("class", "b"), attr("id", "x")]);
    let doc = sink.finish();
    let element = doc.node(elem).unwrap().as_element().unwrap();
    let names: Vec<&str> = element.attrs.iter().map(|a| a.name.as_str()).collect();
    let values: Vec<&str> = element.attrs.iter().map(|a| a.value.as_str()).collect();
    assert_eq!(names, ["class", "id"]);
    assert_eq!(values, ["a", "x"]);
}

#[test]
fn duplicate_attrs_on_creation_keep_first() {
    let mut sink = new_sink();
    let elem = sink.create_element(
        String::from("div"),
        vec![attr("id", "one"), attr("id", "two"), attr("lang", "en")],
        false,
    );
    let doc = sink.finish();
    let element = doc.node(elem).unwrap().as_element().unwrap();
    assert_eq!(element.attrs.len(), 2);
    assert_eq!(element.attrs[0].value, "one");
    assert_eq!(element.id.as_deref(), Some("one"));
}

#[test]
fn add_attrs_on_text_node_is_ignored() {
    let mut sink = new_sink();
    let root = sink.get_document();
    sink.append(root, NodeOrText::AppendText(String::from("hi")));
    let doc0 = sink.finish();
    let text = doc0.node(root).unwrap().children[0];
    let mut sink = GenericSink::new(doc0);
    sink.add_attrs_if_missing(text, vec![attr("class", "a")]);
    let doc = sink.finish();
    assert_eq!(text_of(&doc, text), "hi");
}

#[test]
fn template_has_fragment_contents() {
    let mut sink = new_sink();
    let template = sink.create_element(String::from("template"), vec![], true);
    let contents = sink.get_template_contents(template);
    let doc = sink.finish();
    assert_eq!(doc.node(template).unwrap().children, vec![contents]);
    assert!(matches!(
        doc.node(contents).unwrap().data(),
        NodeData::DocumentFragment
    ));
    assert_eq!(doc.node(contents).unwrap().parent(), Some(template));
}

#[test]
fn plain_element_has_no_contents_holder() {
    let mut sink = new_sink();
    let elem = sink.create_element(String::from("span"), vec![], false);
    let doc = sink.finish();
    assert!(doc.node(elem).unwrap().children.is_empty());
}

#[test]
fn remove_clears_parent_and_child_entry() {
    let mut sink = new_sink();
    let root = sink.get_document();
    let a = sink.create_element(String::from("a"), vec![], false);
    let b = sink.create_element(String::from("b"), vec![], false);
    sink.append(root, NodeOrText::AppendNode(a));
    sink.append(root, NodeOrText::AppendNode(b));
    sink.remove_from_parent(a);
    let doc = sink.finish();
    assert!(doc.node(a).unwrap().parent().is_none());
    assert_eq!(doc.node(root).unwrap().children, vec![b]);
}

#[test]
fn remove_of_detached_node_is_a_no_op() {
    let mut sink = new_sink();
    let root = sink.get_document();
    let a = sink.create_element(String::from("a"), vec![], false);
    let b = sink.create_element(String::from("b"), vec![], false);
    sink.append(root, NodeOrText::AppendNode(b));
    sink.remove_from_parent(a);
    let doc = sink.finish();
    assert!(doc.node(a).unwrap().parent().is_none());
    assert_eq!(doc.node(root).unwrap().children, vec![b]);
}

#[test]
fn reparent_children_moves_all_in_order() {
    let mut sink = new_sink();
    let root = sink.get_document();
    let src = sink.create_element(String::from("src"), vec![], false);
    let dst = sink.create_element(String::from("dst"), vec![], false);
    sink.append(root, NodeOrText::AppendNode(src));
    sink.append(root, NodeOrText::AppendNode(dst));
    let kept = sink.create_element(String::from("kept"), vec![], false);
    sink.append(dst, NodeOrText::AppendNode(kept));
    let c1 = sink.create_element(String::from("c1"), vec![], false);
    let c2 = sink.create_element(String::from("c2"), vec![], false);
    let c3 = sink.create_element(String::from("c3"), vec![], false);
    for c in [c1, c2, c3] {
        sink.append(src, NodeOrText::AppendNode(c));
    }
    sink.reparent_children(src, dst);
    let doc = sink.finish();
    assert!(doc.node(src).unwrap().children.is_empty());
    assert_eq!(doc.node(dst).unwrap().children, vec![kept, c1, c2, c3]);
    for c in [c1, c2, c3] {
        assert_eq!(doc.node(c).unwrap().parent(), Some(dst));
    }
}

#[test]
fn append_before_sibling_splices_node() {
    let mut sink = new_sink();
    let root = sink.get_document();
    let a = sink.create_element(String::from("a"), vec![], false);
    let c = sink.create_element(String::from("c"), vec![], false);
    sink.append(root, NodeOrText::AppendNode(a));
    sink.append(root, NodeOrText::AppendNode(c));
    let b = sink.create_element(String::from("b"), vec![], false);
    sink.append_before_sibling(c, NodeOrText::AppendNode(b));
    let doc = sink.finish();
    assert_eq!(doc.node(root).unwrap().children, vec![a, b, c]);
    assert_eq!(doc.node(b).unwrap().parent(), Some(root));
}

#[test]
fn append_before_sibling_detaches_from_old_parent() {
    let mut sink = new_sink();
    let root = sink.get_document();
    let left = sink.create_element(String::from("left"), vec![], false);
    let right = sink.create_element(String::from("right"), vec![], false);
    sink.append(root, NodeOrText::AppendNode(left));
    sink.append(root, NodeOrText::AppendNode(right));
    let moved = sink.create_element(String::from("moved"), vec![], false);
    sink.append(left, NodeOrText::AppendNode(moved));
    let anchor = sink.create_element(String::from("anchor"), vec![], false);
    sink.append(right, NodeOrText::AppendNode(anchor));
    sink.append_before_sibling(anchor, NodeOrText::AppendNode(moved));
    let doc = sink.finish();
    assert!(doc.node(left).unwrap().children.is_empty());
    assert_eq!(doc.node(right).unwrap().children, vec![moved, anchor]);
    assert_eq!(doc.node(moved).unwrap().parent(), Some(right));
}

#[test]
fn text_before_sibling_coalesces_into_previous_text() {
    let mut sink = new_sink();
    let root = sink.get_document();
    let p = sink.create_element(String::from("p"), vec![], false);
    sink.append(root, NodeOrText::AppendNode(p));
    sink.append(p, NodeOrText::AppendText(String::from("start")));
    let em = sink.create_element(String::from("em"), vec![], false);
    sink.append(p, NodeOrText::AppendNode(em));
    sink.append_before_sibling(em, NodeOrText::AppendText(String::from(" more")));
    let doc = sink.finish();
    let kids = doc.node(p).unwrap().children.clone();
    assert_eq!(kids.len(), 2);
    assert_eq!(text_of(&doc, kids[0]), "start more");
    assert_eq!(kids[1], em);
}

#[test]
fn text_before_first_sibling_becomes_new_node() {
    let mut sink = new_sink();
    let root = sink.get_document();
    let p = sink.create_element(String::from("p"), vec![], false);
    sink.append(root, NodeOrText::AppendNode(p));
    let em = sink.create_element(String::from("em"), vec![], false);
    sink.append(p, NodeOrText::AppendNode(em));
    sink.append_before_sibling(em, NodeOrText::AppendText(String::from("lead")));
    let doc = sink.finish();
    let kids = doc.node(p).unwrap().children.clone();
    assert_eq!(kids.len(), 2);
    assert_eq!(text_of(&doc, kids[0]), "lead");
    assert_eq!(kids[1], em);
}

#[test]
fn append_based_on_parent_node_picks_sibling_when_attached() {
    let mut sink = new_sink();
    let root = sink.get_document();
    let table = sink.create_element(String::from("table"), vec![], false);
    let fallback = sink.create_element(String::from("fallback"), vec![], false);
    sink.append(root, NodeOrText::AppendNode(table));
    sink.append(root, NodeOrText::AppendNode(fallback));
    let foster = sink.create_element(String::from("foster"), vec![], false);
    sink.append_based_on_parent_node(table, fallback, NodeOrText::AppendNode(foster));
    let doc = sink.finish();
    assert_eq!(doc.node(root).unwrap().children, vec![foster, table, fallback]);
}

#[test]
fn append_based_on_parent_node_falls_back_when_detached() {
    let mut sink = new_sink();
    let root = sink.get_document();
    let detached = sink.create_element(String::from("detached"), vec![], false);
    let fallback = sink.create_element(String::from("fallback"), vec![], false);
    sink.append(root, NodeOrText::AppendNode(fallback));
    let child = sink.create_element(String::from("child"), vec![], false);
    sink.append_based_on_parent_node(detached, fallback, NodeOrText::AppendNode(child));
    let doc = sink.finish();
    assert_eq!(doc.node(fallback).unwrap().children, vec![child]);
}

#[test]
fn doctype_is_appended_to_root() {
    let mut sink = new_sink();
    let root = sink.get_document();
    sink.append_doctype_to_document(
        String::from("html"),
        String::from(""),
        String::from(""),
    );
    let doc = sink.finish();
    let kids = doc.node(root).unwrap().children.clone();
    assert_eq!(kids.len(), 1);
    assert!(matches!(
        doc.node(kids[0]).unwrap().data(),
        NodeData::Doctype { name, .. } if name == "html"
    ));
}

#[test]
fn quirks_mode_is_stored_verbatim() {
    let mut sink = new_sink();
    assert_eq!(sink.dom_tree.quirks_mode(), QuirksMode::NoQuirks);
    sink.set_quirks_mode(QuirksMode::LimitedQuirks);
    let doc = sink.finish();
    assert_eq!(doc.quirks_mode(), QuirksMode::LimitedQuirks);
}

#[test]
fn parse_errors_are_recorded_and_not_fatal() {
    let mut sink = new_sink();
    sink.parse_error(String::from("unexpected token"));
    sink.parse_error(String::from("stray end tag"));
    let doc = sink.finish();
    assert_eq!(doc.errors, ["unexpected token", "stray end tag"]);
}

#[test]
fn same_node_compares_handles() {
    let mut sink = new_sink();
    let a = sink.create_element(String::from("a"), vec![], false);
    let b = sink.create_element(String::from("b"), vec![], false);
    assert!(sink.same_node(a, a));
    assert!(!sink.same_node(a, b));
}

#[test]
fn elem_name_reads_the_qualified_name() {
    let mut sink = new_sink();
    let a = sink.create_element(String::from("article"), vec![], false);
    assert_eq!(sink.elem_name(a), "article");
}

#[test]
fn element_name_is_none_for_other_kinds() {
    let mut sink = new_sink();
    let root = sink.get_document();
    let c = sink.create_comment(String::from("x"));
    let doc = sink.finish();
    assert!(doc.node(root).unwrap().element_name().is_none());
    assert!(doc.node(c).unwrap().element_name().is_none());
}

#[test]
fn handles_stay_valid_across_growth() {
    let mut sink = new_sink();
    let first = sink.create_element(String::from("first"), vec![], false);
    for i in 0..100 {
        sink.create_comment(format!("filler {}", i));
    }
    let doc = sink.finish();
    assert_eq!(
        doc.node(first).unwrap().element_name().map(String::as_str),
        Some("first")
    );
}

/// Check the §3 invariant over a whole tree: every non-root node's
/// parent pointer and its parent's children sequence agree, in both
/// directions, and no children sequence repeats an entry.
fn assert_linkage_consistent(doc: &Document) {
    let root = doc.id();
    let count = doc.tree().len();
    for index in 0..count {
        let id = NodeId { index };
        let node = doc.node(id).unwrap();
        if let Some(p) = node.parent() {
            let listed = doc
                .node(p)
                .unwrap()
                .children
                .iter()
                .filter(|c| **c == id)
                .count();
            assert_eq!(listed, 1, "child listed other than exactly once");
        } else if id != root {
            for other in 0..count {
                assert!(
                    !doc.node(NodeId { index: other }).unwrap().children.contains(&id),
                    "parentless node listed as a child"
                );
            }
        }
        for (i, a) in node.children.iter().enumerate() {
            assert_eq!(doc.node(*a).unwrap().parent(), Some(id));
            for b in node.children.iter().skip(i + 1) {
                assert_ne!(a, b, "duplicate child entry");
            }
        }
    }
    assert!(doc.node(root).unwrap().parent().is_none());
}

#[test]
fn linkage_stays_consistent_under_mixed_operations() {
    let mut sink = new_sink();
    let root = sink.get_document();
    sink.append_doctype_to_document(String::from("html"), String::new(), String::new());
    let div = sink.create_element(String::from("div"), vec![attr("id", "main")], false);
    sink.append(root, NodeOrText::AppendNode(div));
    sink.append(div, NodeOrText::AppendText(String::from("one")));
    let span = sink.create_element(String::from("span"), vec![], false);
    sink.append(div, NodeOrText::AppendNode(span));
    sink.append(div, NodeOrText::AppendText(String::from("two")));
    let moved = sink.create_element(String::from("b"), vec![], false);
    sink.append(span, NodeOrText::AppendNode(moved));
    sink.append_before_sibling(span, NodeOrText::AppendNode(moved));
    let template = sink.create_element(String::from("template"), vec![], true);
    sink.append(div, NodeOrText::AppendNode(template));
    let other = sink.create_element(String::from("section"), vec![], false);
    sink.append(root, NodeOrText::AppendNode(other));
    sink.reparent_children(div, other);
    sink.remove_from_parent(moved);
    sink.add_attrs_if_missing(div, vec![attr("id", "late"), attr("lang", "en")]);
    let doc = sink.finish();
    assert_linkage_consistent(&doc);
}

#[test]
fn node_mut_edits_show_in_the_tree() {
    let mut sink = new_sink();
    let elem = sink.create_element(String::from("div"), vec![], false);
    let text = sink.create_comment(String::from("x"));
    let mut doc = sink.finish();
    assert!(doc.node_mut(NodeId { index: 999 }).is_none());
    {
        let node = doc.node_mut(elem).unwrap();
        let element = node.as_element_mut().unwrap();
        element.name = String::from("article");
        assert!(doc.node(elem).unwrap().as_element().unwrap().name == "article");
    }
    {
        let node = doc.node_mut(text).unwrap();
        *node.data_mut() = NodeData::Comment(String::from("y"));
    }
    assert!(matches!(doc.node(text).unwrap().data(), NodeData::Comment(c) if c == "y"));
    assert!(doc.node(text).unwrap().as_element().is_none());
}

#[test]
fn tree_accessors_expose_the_arena() {
    let mut sink = new_sink();
    sink.create_comment(String::from("x"));
    let mut doc = sink.finish();
    assert_eq!(doc.tree().len(), 2);
    assert_eq!(doc.tree_mut().len(), 2);
    assert_eq!(doc.root().id(), doc.id());
}

#[test]
fn sibling_navigation() {
    let mut sink = new_sink();
    let root = sink.get_document();
    let a = sink.create_element(String::from("a"), vec![], false);
    let b = sink.create_element(String::from("b"), vec![], false);
    let c = sink.create_element(String::from("c"), vec![], false);
    for id in [a, b, c] {
        sink.append(root, NodeOrText::AppendNode(id));
    }
    let doc = sink.finish();
    assert_eq!(doc.index_as_child(b), 1);
    assert_eq!(doc.index_as_child(root), 0);
    assert_eq!(doc.nth_prev_sibling_id(b, 1), Some(a));
    assert_eq!(doc.nth_next_sibling_id(b, 1), Some(c));
    assert_eq!(doc.nth_next_sibling_id(c, 1), None);
    assert_eq!(doc.nth_prev_sibling_id(root, 0), None);
}
