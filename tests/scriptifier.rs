use mimicui::{Element, Node, NodeScriptifier};

fn element(name: &str, id: Option<&str>, classes: &[&str], attributes: &[(&str, Option<&str>)]) -> Element {
    Element {
        name: name.to_string(),
        id: id.map(|s| s.to_string()),
        classes: classes.iter().map(|s| s.to_string()).collect(),
        attributes: attributes
            .iter()
            .map(|(k, v)| (k.to_string(), v.map(|s| s.to_string())))
            .collect(),
        children: Vec::new(),
    }
}

#[test]
fn test_simple_text_is_scriptified_correctly() {
    let mut scriptifier = NodeScriptifier::new();
    let (name, code) = scriptifier.scriptify(&Node::Text("Hello, world!".into()));

    assert_eq!(name, "text");
    assert_eq!(
        code,
        vec!["const text = document.createTextNode('Hello, world!');"]
    );
}

#[test]
fn test_special_symbols_in_comment_are_handled_properly() {
    let comment = "Hey\\n".to_string();
    let mut scriptifier = NodeScriptifier::new();
    let (name, code) = scriptifier.scriptify(&Node::Comment(comment));

    assert_eq!(name, "comment");
    assert_eq!(
        code,
        vec!["const comment = document.createComment('Hey\\\\n');"]
    );
}

#[test]
fn second_text_node_gets_a_suffix() {
    let mut scriptifier = NodeScriptifier::new();
    let (first, _) = scriptifier.scriptify_text("a");
    let (second, code) = scriptifier.scriptify_text("it's");
    assert_eq!(first, "text");
    assert_eq!(second, "text2");
    assert_eq!(code, vec!["const text2 = document.createTextNode('it\\'s');"]);
}

#[test]
fn element_named_after_id_with_classes_and_attributes() {
    let mut scriptifier = NodeScriptifier::new();
    let e = element(
        "section",
        Some("main-menu"),
        &["nav", "dark"],
        &[("style", Some("color: red")), ("data-foo", Some("bar")), ("href", Some("/x")), ("hidden", None)],
    );
    let (name, code) = scriptifier.scriptify_element(&e);
    assert_eq!(name, "mainMenu");
    assert_eq!(
        code,
        vec![
            "const mainMenu = document.createElement('section');",
            "mainMenu.classList.add('nav', 'dark');",
            "mainMenu.style.cssText = 'color: red';",
            "mainMenu.dataset.data-foo = 'bar';",
            "mainMenu.setAttribute('href', '/x');",
            "mainMenu.setAttribute('hidden', '');",
        ]
    );
}

#[test]
fn data_attribute_uses_dataset() {
    let mut scriptifier = NodeScriptifier::new();
    let e = element("span", None, &[], &[("data-foo", Some("bar"))]);
    let (name, code) = scriptifier.scriptify(&Node::Element(e));
    assert_eq!(name, "textSpan");
    assert_eq!(code.len(), 2);
    assert!(code[1].contains(".dataset."));
    assert!(code[1].contains("foo"));
    assert!(code[1].contains("'bar'"));
    assert!(!code[1].contains("setAttribute"));
}

#[test]
fn element_without_classes_has_no_class_statement() {
    let mut scriptifier = NodeScriptifier::new();
    let e = element("my_widget", None, &[], &[]);
    let (name, code) = scriptifier.scriptify_element(&e);
    assert_eq!(name, "myWidget");
    assert_eq!(code, vec!["const myWidget = document.createElement('my_widget');"]);
}
