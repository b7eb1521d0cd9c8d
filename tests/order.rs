use mimicui::order::{order_all, sort_attributes};
use mimicui::{Element, Node};

fn attrs(list: &[(&str, Option<&str>)]) -> Vec<(String, Option<String>)> {
    list.iter().map(|(k, v)| (k.to_string(), v.map(|s| s.to_string()))).collect()
}

#[test]
fn attributes_are_sorted_by_name() {
    let sorted = sort_attributes(attrs(&[("style", Some("x")), ("alt", None), ("data-z", Some("1")), ("Zed", Some("2"))]));
    assert_eq!(sorted, attrs(&[("Zed", Some("2")), ("alt", None), ("data-z", Some("1")), ("style", Some("x"))]));
    assert_eq!(sort_attributes(Vec::new()), Vec::new());
    assert_eq!(sort_attributes(attrs(&[("ab", None), ("a", None)])), attrs(&[("a", None), ("ab", None)]));
}

#[test]
fn ordering_reaches_nested_elements_and_keeps_the_rest() {
    let inner = Node::Element(Element {
        name: "span".to_string(),
        id: Some("in".to_string()),
        classes: vec!["c".to_string()],
        attributes: attrs(&[("b", None), ("a", Some("1"))]),
        children: vec![Node::Text("t".to_string())],
    });
    let outer = Node::Element(Element {
        name: "div".to_string(),
        id: None,
        classes: Vec::new(),
        attributes: attrs(&[("z", None), ("y", None)]),
        children: vec![inner, Node::Comment("c".to_string())],
    });
    let out = order_all(vec![outer, Node::Text("x".to_string())]);
    assert_eq!(out.len(), 2);
    match &out[0] {
        Node::Element(e) => {
            assert_eq!(e.name, "div");
            assert_eq!(e.attributes, attrs(&[("y", None), ("z", None)]));
            assert_eq!(e.children.len(), 2);
            match &e.children[0] {
                Node::Element(i) => {
                    assert_eq!(i.id.as_deref(), Some("in"));
                    assert_eq!(i.classes, vec!["c".to_string()]);
                    assert_eq!(i.attributes, attrs(&[("a", Some("1")), ("b", None)]));
                    assert!(matches!(&i.children[0], Node::Text(t) if t == "t"));
                }
                _ => panic!("expected an element"),
            }
            assert!(matches!(&e.children[1], Node::Comment(t) if t == "c"));
        }
        _ => panic!("expected an element"),
    }
    assert!(matches!(&out[1], Node::Text(t) if t == "x"));
}
