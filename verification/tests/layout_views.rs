use htmldom::Document;
use htmldom::GenericSink;
use htmldom::LayoutNode;
use htmldom::NodeOrText;

#[test]
fn layout_navigation_walks_the_tree() {
    let mut sink = GenericSink::new(Document::new());
    let root = sink.get_document();
    let div = sink.create_element(String::from("div"), vec![], false);
    sink.append(root, NodeOrText::AppendNode(div));
    let a = sink.create_element(String::from("a"), vec![], false);
    sink.append(div, NodeOrText::AppendNode(a));
    sink.append(div, NodeOrText::AppendText(String::from("middle")));
    let b = sink.create_element(String::from("b"), vec![], false);
    sink.append(div, NodeOrText::AppendNode(b));
    let doc = sink.finish();

    let div_view = LayoutNode { doc: &doc, id: div };
    assert!(div_view.is_element());
    assert!(!div_view.is_text_node());
    assert!(div_view.is_in_document());
    assert_eq!(div_view.parent().unwrap().id, root);
    assert_eq!(div_view.parent_element().unwrap().id, root);
    assert_eq!(div_view.traversal_parent().unwrap().id, root);
    assert_eq!(div_view.first_child().unwrap().id, a);
    assert_eq!(div_view.last_child().unwrap().id, b);
    assert_eq!(div_view.as_element().unwrap().id, div);
    assert!(div_view.as_document().is_none());

    let text_view = div_view.first_child().unwrap().next_sibling().unwrap();
    assert!(text_view.is_text_node());
    assert_eq!(text_view.prev_sibling().unwrap().id, a);
    assert_eq!(text_view.next_sibling().unwrap().id, b);

    let root_view = LayoutNode { doc: &doc, id: root };
    assert!(root_view.parent().is_none());
    assert!(root_view.prev_sibling().is_none());
    assert!(root_view.next_sibling().is_none());
    assert_eq!(root_view.as_document().unwrap().id, root);
    let b_view = LayoutNode { doc: &doc, id: b };
    assert!(b_view.next_sibling().is_none());
    assert!(b_view.first_child().is_none());
    assert!(b_view.last_child().is_none());
}
