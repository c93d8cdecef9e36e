use miniconf_parser::grammar::MiniConfParser;
use miniconf_parser::grammar::Node;
use miniconf_parser::grammar::ValueNode;

fn chars_to_string(v: &[char]) -> String {
    v.iter().collect()
}

#[test]
fn section_header_parses_hyphenated_names() {
    let input = "[build-target]";
    let name = MiniConfParser::parse_section_header_str(input).expect("header parses");
    assert_eq!(name, "build-target");
}

#[test]
fn key_value_allows_inline_comments() {
    let input = r#"name = "alpha" # inline comment"#;
    let nodes = MiniConfParser::parse_text(input).expect("line parses");
    assert_eq!(nodes.len(), 1);
    match &nodes[0] {
        Node::Pair { key, value, line } => {
            assert_eq!(chars_to_string(key), "name");
            assert_eq!(*line, 1);
            assert!(matches!(value, ValueNode::Quoted { .. }));
        }
        other => panic!("expected a key/value node, got {:?}", other),
    }
}

#[test]
fn value_rule_supports_all_atoms() {
    let cases = ["\"quoted\"", "bare_word", "42", "-3.14", "true", "no"];
    for input in cases {
        let parsed = MiniConfParser::parse_value_str(input);
        assert!(parsed.is_ok(), "value {:?} should parse", input);
    }
}

#[test]
fn array_rule_preserves_nested_values() {
    let node = MiniConfParser::parse_value_str("[one, 2, \"three\"]").expect("array parses");
    match node {
        ValueNode::Arr { items } => assert_eq!(items.len(), 3),
        other => panic!("expected an array node, got {:?}", other),
    }
}

#[test]
fn text_rule_handles_sections_and_root() {
    let input = r#"
    # doc header
    title = Example
    enabled = true

    [database]
    host = localhost
    tags = [primary, read]
    "#;

    let nodes = MiniConfParser::parse_text(input).expect("text parses");
    let mut has_title = false;
    let mut has_database = false;
    for node in &nodes {
        match node {
            Node::Pair { key, .. } => {
                if chars_to_string(key) == "title" {
                    has_title = true;
                }
            }
            Node::Header { name, .. } => {
                if chars_to_string(name) == "database" {
                    has_database = true;
                }
            }
        }
    }
    assert!(has_title);
    assert!(has_database);
}

#[test]
fn number_atom_keeps_its_lexeme() {
    let node = MiniConfParser::parse_value_str("-3.14").expect("number parses");
    match node {
        ValueNode::Num { text, .. } => assert_eq!(chars_to_string(&text), "-3.14"),
        other => panic!("expected a number node, got {:?}", other),
    }
}

#[test]
fn malformed_inputs_are_syntax_errors() {
    assert!(MiniConfParser::parse_text("key\n").is_err());
    assert!(MiniConfParser::parse_text("= 5\n").is_err());
    assert!(MiniConfParser::parse_text("[broken\n").is_err());
    assert!(MiniConfParser::parse_text("q = \"unterminated\n").is_err());
    assert!(MiniConfParser::parse_text("xs = [1, 2\n").is_err());
    assert!(MiniConfParser::parse_section_header_str("[-bad]").is_err());
}

#[test]
fn syntax_error_reports_line_and_column() {
    let err = MiniConfParser::parse_text("ok = 1\nbroken line\n").unwrap_err();
    match err {
        miniconf_parser::MiniConfError::Syntax { line, column, .. } => {
            assert_eq!(line, 2);
            assert_eq!(column, 8);
        }
        other => panic!("expected a syntax error, got {:?}", other),
    }
}
