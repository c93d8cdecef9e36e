use miniconf_parser::cli::Cli;
use miniconf_parser::cli::Command;
use miniconf_parser::cli::OutputFormat;
use miniconf_parser::cli::RunOutput;
use miniconf_parser::cli::format_value;
use miniconf_parser::cli::render_pretty;
use miniconf_parser::parse_str;
use miniconf_parser::Value;

#[test]
fn check_reports_valid_input() {
    let cli = Cli {
        command: Command::Check { source: "key = value\n".to_string() },
    };
    assert!(matches!(cli.run(), Ok(RunOutput::Valid)));
}

#[test]
fn check_reports_invalid_input() {
    let cli = Cli {
        command: Command::Check { source: "key =\n".to_string() },
    };
    assert!(cli.run().is_err());
}

#[test]
fn parse_pretty_renders_document() {
    let source = "title = Example\nenabled = true\n\n[database]\nhost = localhost\ntags = [primary, read]\n";
    let cli = Cli {
        command: Command::Parse { source: source.to_string(), format: OutputFormat::Pretty },
    };
    match cli.run() {
        Ok(RunOutput::Rendered(text)) => {
            // sections render in name order: `database` precedes `root`
            assert_eq!(
                text,
                "[database]\nhost = localhost\ntags = [primary, read]\n\ntitle = Example\nenabled = true"
            );
        }
        other => panic!("expected rendered text, got {:?}", other),
    }
}

#[test]
fn parse_json_hands_back_the_document() {
    let cli = Cli {
        command: Command::Parse { source: "key = value\n".to_string(), format: OutputFormat::Json },
    };
    match cli.run() {
        Ok(RunOutput::Parsed(doc)) => {
            assert!(doc.section("root").is_some());
        }
        other => panic!("expected a parsed document, got {:?}", other),
    }
}

#[test]
fn format_value_renders_each_shape() {
    assert_eq!(format_value(&Value::String("word".to_string())), "word");
    assert_eq!(format_value(&Value::Number("-3.14".to_string())), "-3.14");
    assert_eq!(format_value(&Value::Bool(true)), "true");
    assert_eq!(format_value(&Value::Bool(false)), "false");
    let arr = Value::Array(vec![
        Value::Number("1".to_string()),
        Value::String("two".to_string()),
        Value::Array(vec![]),
    ]);
    assert_eq!(format_value(&arr), "[1, two, []]");
}

#[test]
fn render_pretty_skips_root_header_and_trims() {
    let doc = parse_str("key = value\n").expect("parsed");
    assert_eq!(render_pretty(&doc), "key = value");
}

#[test]
fn render_pretty_of_empty_document() {
    let doc = parse_str("").expect("parsed");
    assert_eq!(render_pretty(&doc), "");
}
