use miniconf_parser::Document;
use miniconf_parser::Entry;
use miniconf_parser::MiniConfError;
use miniconf_parser::Section;
use miniconf_parser::ParseErrorKind;
use miniconf_parser::Value;
use miniconf_parser::parse_str;
use miniconf_parser::parser::unescape;
use miniconf_parser::text::usize_to_string;

#[test]
fn parses_minimal_document() {
    let doc = parse_str("key = value\n").expect("parsed");
    let root = doc.section("root").expect("root section");
    assert_eq!(root.entries[0].key, "key");
}

#[test]
fn minimal_document_entry_details() {
    let doc = parse_str("key = value\n").expect("parsed");
    let root = doc.section("root").expect("root section");
    assert_eq!(root.entries.len(), 1);
    let entry = &root.entries[0];
    assert_eq!(entry.key, "key");
    assert_eq!(entry.line, 1);
    match &entry.value {
        Value::String(s) => assert_eq!(s, "value"),
        other => panic!("expected a string value, got {:?}", other),
    }
}

#[test]
fn two_sections_with_typed_values() {
    let input = "title = Example\nenabled = true\n\n[database]\nhost = localhost\ntags = [primary, read]\n";
    let doc = parse_str(input).expect("parsed");

    let root = doc.section("root").expect("root section");
    assert_eq!(root.entries.len(), 2);
    assert_eq!(root.entries[0].key, "title");
    match &root.entries[0].value {
        Value::String(s) => assert_eq!(s, "Example"),
        other => panic!("expected a string, got {:?}", other),
    }
    assert_eq!(root.entries[1].key, "enabled");
    assert!(matches!(root.entries[1].value, Value::Bool(true)));

    let database = doc.section("database").expect("database section");
    assert_eq!(database.entries.len(), 2);
    assert_eq!(database.entries[0].key, "host");
    match &database.entries[0].value {
        Value::String(s) => assert_eq!(s, "localhost"),
        other => panic!("expected a string, got {:?}", other),
    }
    assert_eq!(database.entries[1].key, "tags");
    match &database.entries[1].value {
        Value::Array(items) => {
            assert_eq!(items.len(), 2);
            match (&items[0], &items[1]) {
                (Value::String(a), Value::String(b)) => {
                    assert_eq!(a, "primary");
                    assert_eq!(b, "read");
                }
                other => panic!("expected two strings, got {:?}", other),
            }
        }
        other => panic!("expected an array, got {:?}", other),
    }
}

#[test]
fn duplicate_key_cites_second_line() {
    let err = parse_str("name = \"a\"\nname = \"b\"\n").unwrap_err();
    match err {
        MiniConfError::Semantic { kind, line, message } => {
            assert_eq!(kind, ParseErrorKind::DuplicateKey);
            assert_eq!(line, 2);
            assert_eq!(message, "key `name` already defined in [root]");
        }
        other => panic!("expected a semantic error, got {:?}", other),
    }
}

#[test]
fn duplicate_key_across_repeated_section_header() {
    let input = "[a]\nx = 1\n[b]\ny = 2\n[a]\nx = 2\n";
    let err = parse_str(input).unwrap_err();
    match err {
        MiniConfError::Semantic { kind, line, message } => {
            assert_eq!(kind, ParseErrorKind::DuplicateKey);
            assert_eq!(line, 6);
            assert_eq!(message, "key `x` already defined in [a]");
        }
        other => panic!("expected a semantic error, got {:?}", other),
    }
}

#[test]
fn unique_keys_count_entries() {
    let input = "a = 1\nb = 2\n[s]\nc = 3\nd = 4\ne = 5\n[s]\nf = 6\n";
    let doc = parse_str(input).expect("parsed");
    assert_eq!(doc.section("root").unwrap().entries.len(), 2);
    assert_eq!(doc.section("s").unwrap().entries.len(), 4);
}

#[test]
fn quoted_string_decoding_handles_escaped_quote() {
    assert_eq!(unescape("\"a\\\"b\""), "a\"b");
}

#[test]
fn quoted_string_escapes() {
    assert_eq!(unescape("\"line\\nbreak\""), "line\nbreak");
    assert_eq!(unescape("\"tab\\there\""), "tab\there");
    assert_eq!(unescape("\"back\\\\slash\""), "back\\slash");
    // an unknown escape copies the character through literally
    assert_eq!(unescape("\"a\\qb\""), "aqb");
    assert_eq!(unescape("\"\""), "");
}

#[test]
fn arrays_preserve_order_and_count() {
    let doc = parse_str("xs = [1, 2, 3]\n").expect("parsed");
    let root = doc.section("root").unwrap();
    match &root.entries[0].value {
        Value::Array(items) => {
            assert_eq!(items.len(), 3);
            let expected = [1.0_f64, 2.0, 3.0];
            for (item, want) in items.iter().zip(expected.iter()) {
                match item {
                    Value::Number(text) => {
                        assert_eq!(text.parse::<f64>().unwrap(), *want);
                    }
                    other => panic!("expected a number, got {:?}", other),
                }
            }
        }
        other => panic!("expected an array, got {:?}", other),
    }
}

#[test]
fn empty_array_is_valid() {
    let doc = parse_str("xs = []\n").expect("parsed");
    match &doc.section("root").unwrap().entries[0].value {
        Value::Array(items) => assert!(items.is_empty()),
        other => panic!("expected an array, got {:?}", other),
    }
}

#[test]
fn section_iteration_is_alphabetical() {
    let doc = parse_str("[zeta]\nk = 1\n[alpha]\nk = 2\n").expect("parsed");
    let names: Vec<&str> = doc.sections().iter().map(|s| s.name.as_str()).collect();
    assert_eq!(names, vec!["alpha", "root", "zeta"]);
}

#[test]
fn root_section_exists_for_comment_only_input() {
    let doc = parse_str("# only a comment\n").expect("parsed");
    let root = doc.section("root").expect("root section");
    assert_eq!(root.entries.len(), 0);
}

#[test]
fn empty_input_gives_empty_root() {
    let doc = parse_str("").expect("parsed");
    let root = doc.section("root").expect("root section");
    assert!(root.entries.is_empty());
    assert_eq!(doc.sections().len(), 1);
}

#[test]
fn boolean_spellings() {
    let doc = parse_str("a = true\nb = false\nc = yes\nd = no\n").expect("parsed");
    let root = doc.section("root").unwrap();
    assert!(matches!(root.entries[0].value, Value::Bool(true)));
    assert!(matches!(root.entries[1].value, Value::Bool(false)));
    assert!(matches!(root.entries[2].value, Value::Bool(true)));
    assert!(matches!(root.entries[3].value, Value::Bool(false)));
}

#[test]
fn section_header_with_no_entries_still_appears() {
    let doc = parse_str("[empty-one]\n").expect("parsed");
    let sec = doc.section("empty-one").expect("section exists");
    assert!(sec.entries.is_empty());
}

#[test]
fn missing_section_lookup_is_none() {
    let doc = parse_str("key = value\n").expect("parsed");
    assert!(doc.section("absent").is_none());
}

#[test]
fn value_as_str_only_for_strings() {
    let doc = parse_str("a = word\nb = true\n").expect("parsed");
    let root = doc.section("root").unwrap();
    assert_eq!(root.entries[0].value.as_str(), Some("word"));
    assert_eq!(root.entries[1].value.as_str(), None);
}

#[test]
fn error_messages_render() {
    let err = parse_str("name = 1\nname = 2\n").unwrap_err();
    assert_eq!(
        err.message(),
        "duplicate key on line 2: key `name` already defined in [root]"
    );
    let err = parse_str("broken\n").unwrap_err();
    assert!(err.message().starts_with("parse error: expected "));
}

#[test]
fn decimal_rendering_of_line_numbers() {
    assert_eq!(usize_to_string(0), "0");
    assert_eq!(usize_to_string(7), "7");
    assert_eq!(usize_to_string(1234), "1234");
    assert_eq!(usize_to_string(1000), "1000");
}

#[test]
fn constructors_build_expected_shapes() {
    let doc = Document::new();
    assert!(doc.sections().is_empty());
    assert!(doc.section("root").is_none());
    let doc: Document = Default::default();
    assert!(doc.sections().is_empty());

    let sec = Section::new("general");
    assert_eq!(sec.name, "general");
    assert!(sec.entries.is_empty());

    let entry = Entry::new("k".to_string(), Value::Bool(false), 3);
    assert_eq!(entry.key, "k");
    assert_eq!(entry.line, 3);
    assert!(matches!(entry.value, Value::Bool(false)));
}

#[test]
fn section_order_with_many_sections() {
    let input = "# leading note\nr = 0\n[mu]\nm = 1\n[beta]\nb = 2\n[omega]\no = 3\n";
    let doc = parse_str(input).expect("parsed");
    let names: Vec<&str> = doc.sections().iter().map(|s| s.name.as_str()).collect();
    assert_eq!(names, vec!["beta", "mu", "omega", "root"]);
    assert_eq!(doc.section("root").unwrap().entries[0].key, "r");
    assert_eq!(doc.section("root").unwrap().entries[0].line, 2);
}
