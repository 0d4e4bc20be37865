use ion::{Ion, Value};

#[test]
fn duplicate_section_unfiltered_last_wins() {
    let doc = Ion::from_str("[A]\nk=\"1\"\n[A]\nk=\"2\"\n").unwrap();
    assert_eq!(1, doc.iter().len());
    assert_eq!(Some("2"), doc.get("A").unwrap().get("k").unwrap().as_str());
}

#[test]
fn duplicate_section_filtered_first_wins() {
    let doc = Ion::from_str_filtered("[A]\nk=\"1\"\n[A]\nk=\"2\"\n", vec!["A"]).unwrap();
    assert_eq!(1, doc.iter().len());
    assert_eq!(Some("1"), doc.get("A").unwrap().get("k").unwrap().as_str());
}

#[test]
fn duplicate_names_in_the_filter_match_twice() {
    let doc =
        Ion::from_str_filtered("[A]\nk=\"1\"\n[A]\nk=\"2\"\n[B]\n", vec!["A", "A"]).unwrap();
    assert_eq!(Some("2"), doc.get("A").unwrap().get("k").unwrap().as_str());
    assert!(doc.get("B").is_none());
}

#[test]
fn unterminated_array_names_section_and_array() {
    let err = Ion::from_str("[S]\nk = [ \"a\"").unwrap_err();
    assert_eq!(
        "ParserError(ParserError { section: \"S\", desc: \"Cannot finish an array\" })",
        err.to_string()
    );
}

#[test]
fn unterminated_dictionary_names_section_and_dictionary() {
    let err = Ion::from_str("[S]\nk = { foo = \"bar\"").unwrap_err();
    assert_eq!(
        "ParserError(ParserError { section: \"S\", desc: \"Cannot finish a dictionary\" })",
        err.to_string()
    );
}

#[test]
fn empty_filter_gives_empty_document_without_reading_bodies() {
    let doc = Ion::from_str_filtered("[A]\nk = [ \"a\"\n[B]\nbad =\n", vec![]).unwrap();
    assert_eq!(0, doc.iter().len());
    let doc = Ion::from_str_filtered("", vec![]).unwrap();
    assert_eq!(0, doc.iter().len());
}

#[test]
fn filter_stops_after_last_wanted_section() {
    let doc = Ion::from_str_filtered("[A]\nk = 1\n[B]\nbad = [\n", vec!["A"]).unwrap();
    assert_eq!(Some(&Value::Integer(1)), doc.get("A").unwrap().get("k"));
    assert!(doc.get("B").is_none());
}

#[test]
fn implicit_default_section() {
    let text = "k = 1\n| a | b |\n";
    let doc = Ion::from_str(text).unwrap();
    assert_eq!(1, doc.iter().len());
    assert!(doc.get("root").is_some());
    let doc = Ion::from_str_filtered(text, vec!["root"]).unwrap();
    assert_eq!(0, doc.iter().len());
    let doc = Ion::from_str("").unwrap();
    assert_eq!(1, doc.iter().len());
}

const SAMPLE: &str = r#"
[hotel]
name = "Grand \"Sea\" View"
stars = 5
rate = 12.50
open = true
rooms = [ 1, 2, [ "a", "b" ] ]
geo = { lat = 52, tags = { kind = "city" } }
| col 1 | a\|b | x\\y |
|-------|------|------|
| v1    | tab\there | line\nbreak |

[other]
| only |
"#;

#[test]
fn serialize_renders_sections_entries_and_rows() {
    let doc = Ion::from_str(SAMPLE).unwrap();
    let expected = "[hotel]\n\
geo = { lat = 52, tags = { kind = \"city\" } }\n\
name = \"Grand \\\"Sea\\\" View\"\n\
open = true\n\
rate = 12.50\n\
rooms = [ 1, 2, [ \"a\", \"b\" ] ]\n\
stars = 5\n\
| col 1 | a\\|b | x\\\\y |\n\
| ------- | ------ | ------ |\n\
| v1 | tab\\there | line\\nbreak |\n\
\n\
[other]\n\
| only |\n\
\n";
    assert_eq!(expected, doc.to_string());
}

#[test]
fn round_trip_reproduces_content() {
    let first = Ion::from_str(SAMPLE).unwrap();
    let text = first.to_string();
    let second = Ion::from_str(&text).unwrap();
    assert_eq!(first.iter(), second.iter());
}

#[test]
fn parse_serialize_parse_is_idempotent() {
    let first = Ion::from_str(SAMPLE).unwrap();
    let second = Ion::from_str(&first.to_string()).unwrap();
    let third = Ion::from_str(&second.to_string()).unwrap();
    assert_eq!(second.iter(), third.iter());
    assert_eq!(first.to_string(), second.to_string());
}

#[test]
fn cell_with_pipe_round_trips() {
    let mut doc_text = String::from("[T]\n");
    doc_text.push_str("| a\\|b |\n");
    let doc = Ion::from_str(&doc_text).unwrap();
    let cell = &doc.get("T").unwrap().rows[0][0];
    assert_eq!(Some("a|b"), cell.as_str());
    assert_eq!("a\\|b", cell.to_string());
    let again = Ion::from_str(&doc.to_string()).unwrap();
    assert_eq!(Some("a|b"), again.get("T").unwrap().rows[0][0].as_str());
}

#[test]
fn quoted_and_integer_rendering() {
    assert_eq!(
        "\"a\\\"b\\\\c\\nd\"",
        Value::String("a\"b\\c\nd".to_string()).to_quoted_string()
    );
    assert_eq!("-9223372036854775808", Value::Integer(i64::MIN).to_string());
    assert_eq!("0", Value::Integer(0).to_string());
    assert_eq!("false", Value::Boolean(false).to_string());
}

#[test]
fn value_written_quoted_reads_back() {
    let doc = Ion::from_str("v = { a = [1, \"x\\\"y|z\", { n = true }], b = 2.50, c = \"\" }\n")
        .unwrap();
    let v = doc.get("root").unwrap().get("v").unwrap();
    let text = format!("w = {}\n", v.to_quoted_string());
    let again = Ion::from_str(&text).unwrap();
    assert_eq!(Some(v), again.get("root").unwrap().get("w"));
    assert_eq!(
        "{ a = [ 1, \"x\\\"y|z\", { n = true } ], b = 2.50, c = \"\" }",
        v.to_quoted_string()
    );
}

#[test]
fn get_mut_changes_in_place() {
    let mut doc = Ion::from_str("[A]\nk = 1\n").unwrap();
    {
        let section = doc.get_mut("A").unwrap();
        *section.get_mut("k").unwrap() = Value::Integer(5);
        assert!(section.get_mut("missing").is_none());
    }
    assert_eq!(Some(&Value::Integer(5)), doc.get("A").unwrap().get("k"));
    assert!(doc.get_mut("B").is_none());
}

#[test]
fn array_may_span_lines() {
    let mut p = ion::Parser::new("[\n\"a\",\n\"b\"\n]");
    assert_eq!(
        Some(Value::Array(vec![
            Value::String("a".into()),
            Value::String("b".into())
        ])),
        p.finish_array().unwrap()
    );
}

#[test]
fn empty_filter_reads_nothing_at_all() {
    let doc = Ion::from_str_filtered("k =\n[A]\nx = 1\n", vec![]).unwrap();
    assert_eq!(0, doc.iter().len());
    let mut p = ion::Parser::new_filtered("k =\n", vec![]);
    assert!(p.next().is_none());
}

#[test]
fn control_characters_in_errors_are_escaped() {
    let err = Ion::from_str("[a\u{1}b]\nk =\n").unwrap_err();
    assert_eq!(
        "ParserError(ParserError { section: \"a\\u{1}b\", desc: \"Cannot read a value\" })",
        err.to_string()
    );
}

#[test]
fn cells_lose_unicode_trailing_whitespace() {
    let doc = Ion::from_str("| a\u{3000} | b\u{a0}|\n").unwrap();
    assert_eq!(
        vec![Value::String("a".into()), Value::String("b".into())],
        doc.get("root").unwrap().rows[0]
    );
}
