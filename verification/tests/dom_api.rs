use html_dom::dom::DomElem;
use html_dom::dom::ElementData;
use html_dom::dom::Node;
use html_dom::dom::NodeType;
use html_dom::dom::DOM;
use html_dom::dom::TAG;
use vstd::hash_map::StringHashMap;

fn element(tag: TAG) -> NodeType {
    NodeType::Element(ElementData::new(tag, StringHashMap::new()))
}

#[test]
fn build_tree_by_hand_and_serialize() {
    let mut dom = DOM::new(DomElem::Empty);
    let root = Node::new(&DomElem::Empty, element(TAG::HTML), &mut dom);
    dom.set_root(DomElem::Node(root));
    let body = Node::new(&DomElem::Node(root), element(TAG::BODY), &mut dom);
    let _text = Node::new(&DomElem::Node(body), NodeType::Text("hi".to_string()), &mut dom);
    assert_eq!(dom.node_count(), 3);
    assert_eq!(dom.print_tree(), "<HTML><BODY>hi</BODY></HTML>");
}

#[test]
fn text_at_the_root_serializes_bare() {
    let mut dom = DOM::new(DomElem::Empty);
    let t = Node::new(&DomElem::Empty, NodeType::Text("plain".to_string()), &mut dom);
    dom.set_root(DomElem::Node(t));
    assert_eq!(dom.print_tree(), "plain");
}

#[test]
fn subtree_serialization_of_an_inner_node() {
    let mut dom = DOM::new(DomElem::Empty);
    let root = Node::new(&DomElem::Empty, element(TAG::DIV), &mut dom);
    dom.set_root(DomElem::Node(root));
    let p = Node::new(&DomElem::Node(root), element(TAG::P), &mut dom);
    let _t = Node::new(&DomElem::Node(p), NodeType::Text("x".to_string()), &mut dom);
    assert_eq!(Node::print_subtree_by_name(&dom, p), "<P>x</P>");
    assert_eq!(Node::print_subtree_by_name(&dom, root), "<DIV><P>x</P></DIV>");
}

#[test]
fn set_attr_updates_id_index_last_write_wins() {
    let mut dom = DOM::new(DomElem::Empty);
    let a = Node::new(&DomElem::Empty, element(TAG::DIV), &mut dom);
    dom.set_root(DomElem::Node(a));
    let b = Node::new(&DomElem::Node(a), element(TAG::P), &mut dom);
    dom.set_attr(a, "id".to_string(), "x".to_string());
    assert_eq!(dom.find_by_id("x".to_string()), Some(a));
    dom.set_attr(b, "id".to_string(), "x".to_string());
    assert_eq!(dom.find_by_id("x".to_string()), Some(b));
}

#[test]
fn set_attr_appends_class_entries_in_order() {
    let mut dom = DOM::new(DomElem::Empty);
    let a = Node::new(&DomElem::Empty, element(TAG::DIV), &mut dom);
    dom.set_root(DomElem::Node(a));
    let b = Node::new(&DomElem::Node(a), element(TAG::P), &mut dom);
    let c = Node::new(&DomElem::Node(a), element(TAG::P), &mut dom);
    dom.set_attr(b, "class".to_string(), "k".to_string());
    dom.set_attr(c, "class".to_string(), "k".to_string());
    assert_eq!(dom.find_by_class("k".to_string()), Some(&vec![b, c]));
    assert!(dom.find_by_class("other".to_string()).is_none());
}

#[test]
fn set_attr_stores_plain_keys_only_on_the_element() {
    let mut dom = DOM::new(DomElem::Empty);
    let a = Node::new(&DomElem::Empty, element(TAG::DIV), &mut dom);
    dom.set_root(DomElem::Node(a));
    dom.set_attr(a, "title".to_string(), "t".to_string());
    match dom.get_node(a).get_type() {
        NodeType::Element(ed) => {
            assert_eq!(ed.get_attribute("title").map(String::as_str), Some("t"));
        },
        NodeType::Text(_) => panic!("the node must be an element"),
    }
    assert!(dom.find_by_id("t".to_string()).is_none());
    assert!(dom.find_by_class("t".to_string()).is_none());
}

#[test]
fn set_type_replaces_the_payload() {
    let mut dom = DOM::new(DomElem::Empty);
    let a = Node::new(&DomElem::Empty, element(TAG::P), &mut dom);
    dom.set_root(DomElem::Node(a));
    assert_eq!(dom.print_tree(), "<P></P>");
    Node::set_type(&mut dom, a, element(TAG::DIV));
    assert_eq!(dom.print_tree(), "<DIV></DIV>");
    Node::set_type(&mut dom, a, NodeType::Text("t".to_string()));
    assert_eq!(dom.print_tree(), "t");
}

#[test]
fn get_children_reflects_creation_order() {
    let mut dom = DOM::new(DomElem::Empty);
    let a = Node::new(&DomElem::Empty, element(TAG::DIV), &mut dom);
    dom.set_root(DomElem::Node(a));
    let b = Node::new(&DomElem::Node(a), element(TAG::P), &mut dom);
    let c = Node::new(&DomElem::Node(a), element(TAG::P), &mut dom);
    assert_eq!(dom.get_node(a).get_children(), &vec![b, c]);
    assert!(dom.get_node(b).get_children().is_empty());
}
