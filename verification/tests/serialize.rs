use htmldom::Attr;
use htmldom::Document;
use htmldom::Edge;
use htmldom::GenericSink;
use htmldom::NodeOrText;
use htmldom::Traversal;
use htmldom::TraversalScope;
use htmldom::serialize_subtree;

fn attr(name: &str, value: &str) -> Attr {
    Attr::new(String::from(name), String::from(value))
}

#[test]
fn serialize_single_element_with_text() {
    let mut sink = GenericSink::new(Document::new());
    let root = sink.get_document();
    let h1 = sink.create_element(String::from("h1"), vec![], false);
    sink.append(root, NodeOrText::AppendNode(h1));
    sink.append(h1, NodeOrText::AppendText(String::from("Hello")));
    let doc = sink.finish();
    assert_eq!(doc.html(), "<h1>Hello</h1>");
}

#[test]
fn serialize_writes_attributes_in_order() {
    let mut sink = GenericSink::new(Document::new());
    let root = sink.get_document();
    let a = sink.create_element(
        String::from("a"),
        vec![attr("href", "x"), attr("rel", "next")],
        false,
    );
    sink.append(root, NodeOrText::AppendNode(a));
    let doc = sink.finish();
    assert_eq!(doc.html(), "<a href=\"x\" rel=\"next\"></a>");
}

#[test]
fn serialize_escapes_text_content() {
    let mut sink = GenericSink::new(Document::new());
    let root = sink.get_document();
    let p = sink.create_element(String::from("p"), vec![], false);
    sink.append(root, NodeOrText::AppendNode(p));
    sink.append(p, NodeOrText::AppendText(String::from("1 < 2 & 3 > 2\u{a0}!")));
    let doc = sink.finish();
    assert_eq!(doc.html(), "<p>1 &lt; 2 &amp; 3 &gt; 2&nbsp;!</p>");
}

#[test]
fn serialize_escapes_attribute_values() {
    let mut sink = GenericSink::new(Document::new());
    let root = sink.get_document();
    let p = sink.create_element(
        String::from("p"),
        vec![attr("title", "say \"hi\" & go")],
        false,
    );
    sink.append(root, NodeOrText::AppendNode(p));
    let doc = sink.finish();
    assert_eq!(doc.html(), "<p title=\"say &quot;hi&quot; &amp; go\"></p>");
}

#[test]
fn serialize_writes_doctype_and_comment() {
    let mut sink = GenericSink::new(Document::new());
    let root = sink.get_document();
    sink.append_doctype_to_document(
        String::from("html"),
        String::from(""),
        String::from(""),
    );
    let c = sink.create_comment(String::from(" note "));
    sink.append(root, NodeOrText::AppendNode(c));
    let doc = sink.finish();
    assert_eq!(doc.html(), "<!DOCTYPE html><!-- note -->");
}

#[test]
fn processing_instructions_are_skipped() {
    let mut sink = GenericSink::new(Document::new());
    let root = sink.get_document();
    let pi = sink.create_pi(String::from("xml"), String::from("version"));
    sink.append(root, NodeOrText::AppendNode(pi));
    let doc = sink.finish();
    assert_eq!(doc.html(), "");
}

#[test]
fn children_only_scope_omits_the_root_tags() {
    let mut sink = GenericSink::new(Document::new());
    let root = sink.get_document();
    let div = sink.create_element(String::from("div"), vec![], false);
    sink.append(root, NodeOrText::AppendNode(div));
    let span = sink.create_element(String::from("span"), vec![], false);
    sink.append(div, NodeOrText::AppendNode(span));
    sink.append(span, NodeOrText::AppendText(String::from("x")));
    let doc = sink.finish();
    assert_eq!(
        serialize_subtree(&doc, div, TraversalScope::IncludeNode),
        "<div><span>x</span></div>"
    );
    assert_eq!(
        serialize_subtree(&doc, div, TraversalScope::ChildrenOnly),
        "<span>x</span>"
    );
}

#[test]
fn nested_elements_round_out_in_document_order() {
    let mut sink = GenericSink::new(Document::new());
    let root = sink.get_document();
    let ul = sink.create_element(String::from("ul"), vec![], false);
    sink.append(root, NodeOrText::AppendNode(ul));
    for text in ["one", "two"] {
        let li = sink.create_element(String::from("li"), vec![], false);
        sink.append(ul, NodeOrText::AppendNode(li));
        sink.append(li, NodeOrText::AppendText(String::from(text)));
    }
    let doc = sink.finish();
    assert_eq!(doc.html(), "<ul><li>one</li><li>two</li></ul>");
}

#[test]
fn empty_document_serializes_to_nothing() {
    let doc = Document::new();
    assert_eq!(doc.html(), "");
    let fragment = Document::new_fragment();
    assert_eq!(fragment.html(), "");
}

#[test]
fn doctype_renders_its_name_only() {
    let mut sink = GenericSink::new(Document::new());
    sink.append_doctype_to_document(
        String::from("html"),
        String::from("-//W3C//DTD HTML 4.01//EN"),
        String::from("http://www.w3.org/TR/html4/strict.dtd"),
    );
    let doc = sink.finish();
    assert_eq!(doc.html(), "<!DOCTYPE html>");
}

#[test]
fn bare_text_under_the_root_is_rendered() {
    let mut sink = GenericSink::new(Document::new_fragment());
    let root = sink.get_document();
    sink.append(root, NodeOrText::AppendText(String::from("plain")));
    let doc = sink.finish();
    assert_eq!(doc.html(), "plain");
    assert_eq!(
        doc.serialize(TraversalScope::ChildrenOnly),
        "plain"
    );
}

#[test]
fn traversal_yields_open_then_children_then_close() {
    let mut sink = GenericSink::new(Document::new());
    let root = sink.get_document();
    let div = sink.create_element(String::from("div"), vec![], false);
    sink.append(root, NodeOrText::AppendNode(div));
    let span = sink.create_element(String::from("span"), vec![], false);
    sink.append(div, NodeOrText::AppendNode(span));
    let em = sink.create_element(String::from("em"), vec![], false);
    sink.append(div, NodeOrText::AppendNode(em));
    let doc = sink.finish();
    let mut walk = Traversal::new(&doc);
    let mut edges = Vec::new();
    while let Some(edge) = walk.next(&doc) {
        edges.push(edge);
    }
    assert_eq!(
        edges,
        vec![
            Edge::Open(root),
            Edge::Open(div),
            Edge::Open(span),
            Edge::Close(span),
            Edge::Open(em),
            Edge::Close(em),
            Edge::Close(div),
            Edge::Close(root),
        ]
    );
}

#[test]
fn traversal_is_restartable() {
    let mut sink = GenericSink::new(Document::new());
    let root = sink.get_document();
    let div = sink.create_element(String::from("div"), vec![], false);
    sink.append(root, NodeOrText::AppendNode(div));
    let doc = sink.finish();
    for _ in 0..2 {
        let mut walk = Traversal::new(&doc);
        let mut count = 0;
        while walk.next(&doc).is_some() {
            count += 1;
        }
        assert_eq!(count, 4);
    }
}

#[test]
fn leaf_traversal_is_open_close() {
    let doc = Document::new();
    let root = doc.id();
    let mut walk = Traversal::new(&doc);
    assert_eq!(walk.next(&doc), Some(Edge::Open(root)));
    assert_eq!(walk.next(&doc), Some(Edge::Close(root)));
    assert_eq!(walk.next(&doc), None);
    assert_eq!(walk.next(&doc), None);
}
