use mimicui::{html_to_js, translate, Element, HTMLScriptifier, Node};

fn el(name: &str, id: Option<&str>, attributes: &[(&str, Option<&str>)], children: Vec<Node>) -> Node {
    Node::Element(Element {
        name: name.to_string(),
        id: id.map(|s| s.to_string()),
        classes: Vec::new(),
        attributes: attributes
            .iter()
            .map(|(k, v)| (k.to_string(), v.map(|s| s.to_string())))
            .collect(),
        children,
    })
}

fn text(t: &str) -> Node {
    Node::Text(t.to_string())
}

fn program(lines: &[&str]) -> String {
    let mut out = String::from("function createMimic() {");
    for l in lines {
        out.push_str("    ");
        out.push_str(l);
        out.push('\n');
    }
    out.push('}');
    out
}

#[test]
fn div_with_text_child() {
    let tree = vec![el("div", None, &[], vec![text("Hello, world!")])];
    let expected = program(&[
        "",
        "const root = document.createElement('div');",
        "",
        "const container = document.createElement('div');",
        "",
        "const text = document.createTextNode('Hello, world!');",
        "",
        "root.appendChild(container);",
        "",
        "container.appendChild(text);",
        "",
        "return root;",
    ]);
    assert_eq!(translate(&tree), expected);
}

#[test]
fn empty_tree_gives_only_root() {
    let expected = program(&["", "const root = document.createElement('div');", "", "return root;"]);
    assert_eq!(translate(&Vec::new()), expected);
}

#[test]
fn nodes_are_visited_breadth_first() {
    let tree = vec![
        el("ul", None, &[], vec![el("li", None, &[], vec![text("deep")]), el("li", None, &[], vec![])]),
        el("p", None, &[], vec![]),
    ];
    let out = translate(&tree);
    let order = ["const ul ", "const paragraph ", "const li ", "const li2 ", "const text "];
    let mut at = 0;
    for item in order {
        let found = out[at..].find(item).expect(item);
        at += found + item.len();
    }
    let links = [
        "root.appendChild(ul);\n",
        "root.appendChild(paragraph);\n",
        "    \n    ul.appendChild(li);\n",
        "ul.appendChild(li2);\n",
        "    \n    li.appendChild(text);\n",
    ];
    let mut at = 0;
    for item in links {
        let found = out[at..].find(item).expect(item);
        at += found + item.len();
    }
}

#[test]
fn attributes_keep_their_order() {
    let tree = vec![el("a", Some("home"), &[("href", Some("/")), ("data-foo", Some("bar")), ("style", Some("x"))], vec![])];
    let out = translate(&tree);
    let first = out.find("home.setAttribute('href', '/');").unwrap();
    let second = out.find("home.dataset.data-foo = 'bar';").unwrap();
    let third = out.find("home.style.cssText = 'x';").unwrap();
    assert!(first < second && second < third);
    assert!(out.contains("const home = document.createElement('a');"));
}

#[test]
fn translating_twice_gives_the_same_text() {
    let tree = vec![el("div", None, &[("data-x", None)], vec![text("a"), Node::Comment("b".to_string())])];
    assert_eq!(translate(&tree), translate(&tree));
}

#[test]
fn each_translation_starts_a_fresh_registry() {
    let tree = vec![el("p", None, &[], vec![])];
    let first = translate(&tree);
    let second = translate(&tree);
    assert!(second.contains("const paragraph = "));
    assert_eq!(first, second);
}

#[test]
fn identifiers_are_distinct_in_a_translation() {
    let tree = vec![
        el("p", None, &[], vec![text("a"), text("b")]),
        el("p", None, &[], vec![text("c")]),
        Node::Comment("x".to_string()),
    ];
    let out = translate(&tree);
    let mut names: Vec<&str> = out
        .lines()
        .filter_map(|l| l.trim().strip_prefix("const "))
        .map(|l| l.split(' ').next().unwrap())
        .collect();
    let n = names.len();
    assert_eq!(n, 7);
    names.sort();
    names.dedup();
    assert_eq!(names.len(), n);
}

#[test]
fn html_source_is_parsed_and_translated() {
    let out = html_to_js("<p class=\"x\">Hi</p>".to_string()).unwrap();
    assert!(out.contains("const paragraph = document.createElement('p');"));
    assert!(out.contains("paragraph.classList.add('x');"));
    assert!(out.contains("const text = document.createTextNode('Hi');"));
    assert!(out.contains("paragraph.appendChild(text);"));
}

#[test]
fn scriptifier_object_translates_source() {
    let mut s = HTMLScriptifier::new();
    let out = s.scriptify_html("<!-- note --><span>x</span>").unwrap();
    assert!(out.contains("document.createComment("));
    assert!(out.contains("const textSpan = document.createElement('span');"));
    assert!(out.ends_with("    return root;\n}"));
}

#[test]
fn refused_markup_gives_no_code() {
    let mut s = HTMLScriptifier::new();
    assert_eq!(s.scriptify_html("<p>a</p><html></html>"), None);
    assert_eq!(html_to_js("<p>a</p><html></html>".to_string()), None);
    assert_eq!(html_to_js("<body>x</body>".to_string()), None);
}

#[test]
fn parsed_attributes_are_written_in_name_order() {
    let source = "<div title=\"t\" data-b=\"q\" href=\"h\" aria-x=\"a\"></div>";
    let out = html_to_js(source.to_string()).unwrap();
    let a = out.find("container.setAttribute('aria-x', 'a');").unwrap();
    let b = out.find("container.dataset.data-b = 'q';").unwrap();
    let c = out.find("container.setAttribute('href', 'h');").unwrap();
    let d = out.find("container.setAttribute('title', 't');").unwrap();
    assert!(a < b && b < c && c < d);
    for _ in 0..5 {
        assert_eq!(html_to_js(source.to_string()).unwrap(), out);
    }
}
