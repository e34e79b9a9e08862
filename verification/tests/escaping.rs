use citegraph::escape;

#[test]
fn escape_a_string() {
    assert_eq!(escape("asdf \"foo\" \\aaa"), "asdf \\\"foo\\\" \\\\aaa");
}

#[test]
fn main_escape_a_string() {
    assert_eq!(escape("asdf \"foo\" \\aaa"), "asdf \\\"foo\\\" \\\\aaa");
}

#[test]
fn escape_leaves_plain_text_alone() {
    assert_eq!(escape("plain title 123"), "plain title 123");
}

#[test]
fn escape_empty_string() {
    assert_eq!(escape(""), "");
}

#[test]
fn escape_only_specials() {
    assert_eq!(escape("\\\""), "\\\\\\\"");
}

#[test]
fn node_line_renders_all_fields() {
    let node = citegraph::ProtoPaper {
        id: Some(String::from("p1")),
        title: String::from("a \"quoted\" title"),
        url: Some(String::from("https://example.org/p1")),
    };
    assert_eq!(
        citegraph::render::node_line(&node),
        "    \"p1\" [label=\"a \\\"quoted\\\" title\",URL=\"https://example.org/p1\"];"
    );
}

#[test]
fn node_line_renders_absent_fields_empty() {
    let node = citegraph::ProtoPaper { id: None, title: String::from("t"), url: None };
    assert_eq!(citegraph::render::node_line(&node), "    \"\" [label=\"t\",URL=\"\"];");
}
