use mimicui::Sanitizer;

#[test]
fn test_not_seen_before_name_not_changed() {
    let mut sanitizer = Sanitizer::new();
    assert_eq!(sanitizer.sanitize_name("test"), "test");
}

#[test]
fn test_previously_seen_name_changed_to_prevent_collisions() {
    let mut sanitizer = Sanitizer::new();

    let first = sanitizer.sanitize_name("test");
    let second = sanitizer.sanitize_name("test");
    let third = sanitizer.sanitize_name("test");

    assert_eq!(first, "test");
    assert_eq!(second, "test2");
    assert_eq!(third, "test3");
}

#[test]
fn test_seen_special_name_also_gets_modified_to_prevent_collisions() {
    let mut sanitizer = Sanitizer::new();

    let first = sanitizer.sanitize_name("p");
    let second = sanitizer.sanitize_name("p");

    assert_eq!(first, "paragraph");
    assert_eq!(second, "paragraph2");
}

#[test]
fn every_alias_is_applied() {
    let mut sanitizer = Sanitizer::new();
    let pairs = [
        ("a", "link"),
        ("div", "container"),
        ("b", "bold"),
        ("i", "italics"),
        ("pre", "preformatted"),
        ("code", "codeBlock"),
        ("h", "heading"),
        ("span", "textSpan"),
    ];
    for (base, expected) in pairs {
        assert_eq!(sanitizer.sanitize_name(base), expected);
    }
}

#[test]
fn delimited_names_become_camel_case() {
    let mut sanitizer = Sanitizer::new();
    assert_eq!(sanitizer.sanitize_name("my-long_name"), "myLongName");
    assert_eq!(sanitizer.sanitize_name("--nav--bar__x"), "navBarX");
    assert_eq!(sanitizer.sanitize_name("main-9lives"), "main9lives");
}

#[test]
fn camel_case_and_alias_share_one_counter() {
    let mut sanitizer = Sanitizer::new();
    assert_eq!(sanitizer.sanitize_name("link"), "link");
    assert_eq!(sanitizer.sanitize_name("a"), "link2");
    assert_eq!(sanitizer.sanitize_name("my-box"), "myBox");
    assert_eq!(sanitizer.sanitize_name("my_box"), "myBox2");
}

#[test]
fn name_of_only_delimiters_falls_back_to_node() {
    let mut sanitizer = Sanitizer::new();
    assert_eq!(sanitizer.sanitize_name("-_-"), "node");
    assert_eq!(sanitizer.sanitize_name(""), "node2");
}

#[test]
fn counter_past_nine_is_written_in_full() {
    let mut sanitizer = Sanitizer::new();
    let mut last = String::new();
    for _ in 0..12 {
        last = sanitizer.sanitize_name("item");
    }
    assert_eq!(last, "item12");
}

#[test]
fn sanitize_text_escapes_backslash_and_quotes() {
    let sanitizer = Sanitizer::new();
    assert_eq!(sanitizer.sanitize_text("a\\b"), "a\\\\b");
    assert_eq!(sanitizer.sanitize_text("say \"hi\""), "say \\\"hi\\\"");
    assert_eq!(sanitizer.sanitize_text("it's"), "it\\'s");
    assert_eq!(sanitizer.sanitize_text("line\nnext"), "line\nnext");
    assert_eq!(sanitizer.sanitize_text(""), "");
}

fn unescape(s: &str) -> String {
    s.replace("\\'", "'").replace("\\\"", "\"").replace("\\\\", "\\")
}

#[test]
fn escaping_round_trips() {
    let sanitizer = Sanitizer::new();
    let plain = "a\\'b\"c\\\\";
    let escaped = sanitizer.sanitize_text(plain);
    assert_eq!(escaped, "a\\\\\\'b\\\"c\\\\\\\\");
    assert_eq!(unescape(&escaped), plain);
}
