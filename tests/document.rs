use ion::{Ion, IonError, Section, Value};

fn ion(raw: &str) -> Ion {
    raw.parse::<Ion>().expect("Failed parsing to 'Ion'")
}

fn ion_filtered(raw: &str, accepted: Vec<&str>) -> Ion {
    Ion::from_str_filtered(raw, accepted).expect("Failed parsing by 'from_str_filtered' to 'Ion'")
}

fn check_as_string() {
    let v = Value::String("foo".into());
    assert_eq!(Some(&"foo".to_string()), v.as_string());
    let v = Value::Integer(1);
    assert_eq!(None, v.as_string());
}

fn check_as_boolean() {
    let v = Value::Boolean(true);
    assert_eq!(Some(true), v.as_boolean());
    let v = Value::Integer(1);
    assert_eq!(None, v.as_boolean());
}

fn check_as_integer() {
    let v = Value::Integer(1);
    assert_eq!(Some(1), v.as_integer());
    let v = Value::String("foo".into());
    assert_eq!(None, v.as_integer());
}

fn check_as_str() {
    let v = Value::String("foo".into());
    assert_eq!(Some("foo"), v.as_str());
    let v = Value::Integer(1);
    assert_eq!(None, v.as_str());
}

fn check_row_without_header() {
    let ion = ion(r#"
            [FOO]
            |1||2|
            |1|   |2|
            |1|2|3|
        "#);
    let rows = ion.get("FOO").unwrap().rows_without_header();
    assert!(rows.len() == 3);
}

fn check_row_with_header() {
    let ion = ion(r#"
            [FOO]
            | 1 | 2 | 3 |
            |---|---|---|
            |1||2|
            |1|   |2|
        "#);
    let rows = ion.get("FOO").unwrap().rows_without_header();
    assert!(rows.len() == 2);
}

fn check_no_rows_with_header() {
    let ion = ion(r#"
            [FOO]
            | 1 | 2 | 3 |
            |---|---|---|
        "#);
    let rows = ion.get("FOO").unwrap().rows_without_header();
    assert_eq!(0, rows.len());
}

fn check_filtered_section() {
    let ion = ion_filtered(
        r#"
            [FOO]
            |1||2|
            |1|   |2|
            |1|2|3|
            [BAR]
            |1||2|
        "#,
        vec!["FOO"],
    );
    let rows = ion.get("FOO").unwrap().rows_without_header();
    assert_eq!(3, rows.len());
    assert!(ion.get("BAR").is_none());
}

#[test]
fn ion_as_string() {
    check_as_string();
}

#[test]
fn ion_as_boolean() {
    check_as_boolean();
}

#[test]
fn ion_as_integer() {
    check_as_integer();
}

#[test]
fn ion_as_str() {
    check_as_str();
}

#[test]
fn ion_row_without_header() {
    check_row_without_header();
}

#[test]
fn ion_row_with_header() {
    check_row_with_header();
}

#[test]
fn ion_no_rows_with_header() {
    check_no_rows_with_header();
}

#[test]
fn ion_filtered_section() {
    check_filtered_section();
}

#[test]
fn mod_as_string() {
    let v = Value::String("foo".into());
    assert_eq!(Some("foo"), v.as_str());
    let v = Value::Integer(1);
    assert_eq!(None, v.as_str());
}

#[test]
fn mod_as_boolean() {
    check_as_boolean();
}

#[test]
fn mod_as_integer() {
    check_as_integer();
}

#[test]
fn mod_as_str() {
    check_as_str();
}

#[test]
fn mod_row_without_header() {
    check_row_without_header();
}

#[test]
fn mod_row_with_header() {
    check_row_with_header();
}

#[test]
fn mod_no_rows_with_header() {
    check_no_rows_with_header();
}

#[test]
fn mod_filtered_section() {
    check_filtered_section();
}

#[test]
fn integer() {
    let v: Value = "1".parse().unwrap();
    assert_eq!(1, v.as_str().unwrap().parse::<i32>().unwrap());
}

#[test]
fn float() {
    let v: Value = "4.0".parse().unwrap();
    assert_eq!(4.0f64, v.as_str().unwrap().parse::<f64>().unwrap());
}

#[test]
fn de_ser_broken_array_and_eof() {
    let text = "[CONTRACT]\nname = \"hotel\"\nlocations = [\"WAW\", \"WRO\"";
    let ion_err = text.parse::<Ion>().unwrap_err();
    let expected =
        "ParserError(ParserError { section: \"CONTRACT\", desc: \"Cannot finish an array\" })";
    assert_eq!(expected, ion_err.to_string());
}

#[test]
fn de_ser_broken_dictionary_and_eof() {
    let text = "[CONTRACT]\nname = \"hotel\"\nview = { sea = \"yes\", km = 4";
    let ion_err = text.parse::<Ion>().unwrap_err();
    let expected =
        "ParserError(ParserError { section: \"CONTRACT\", desc: \"Cannot finish a dictionary\" })";
    assert_eq!(expected, ion_err.to_string());
}

#[test]
fn fetch_reports_missing_section_and_value() {
    let ion = ion("[A]\nk = \"v\"\n");
    assert_eq!(
        "MissingSection(\"B\")",
        ion.fetch("B").unwrap_err().to_string()
    );
    let section = ion.fetch("A").unwrap();
    assert_eq!(Some("v"), section.fetch("k").unwrap().as_str());
    assert_eq!(
        IonError::MissingValue("x".to_string()),
        section.fetch("x").unwrap_err()
    );
    assert_eq!("MissingValue(\"x\")", section.fetch("x").unwrap_err().to_string());
}

#[test]
fn remove_takes_the_section_out() {
    let mut ion = ion("[A]\nk = 1\n[B]\nk = 2\n");
    let a = ion.remove("A").unwrap();
    assert_eq!(Some(&Value::Integer(1)), a.get("k"));
    assert!(ion.get("A").is_none());
    assert!(ion.remove("A").is_none());
    let names: Vec<&str> = ion.iter().iter().map(|(n, _)| n.as_str()).collect();
    assert_eq!(vec!["B"], names);
}

#[test]
fn get_key_value_and_iteration_order() {
    let ion = ion("[b]\n[a]\n[c]\n");
    let (name, _) = ion.get_key_value("a").unwrap();
    assert_eq!("a", name);
    let names: Vec<&str> = ion.iter().iter().map(|(n, _)| n.as_str()).collect();
    assert_eq!(vec!["a", "b", "c"], names);
}

#[test]
fn value_accessors_and_nested_lookup() {
    let ion = ion("d = { inner = { x = 7 }, f = 1.50, list = [true] }\n");
    let d = ion.get("root").unwrap().get("d").unwrap();
    assert_eq!("dictionary", d.type_str());
    assert_eq!(
        Some(&Value::Integer(7)),
        d.get("inner").unwrap().get("x")
    );
    assert_eq!(Some("1.50"), d.get("f").unwrap().as_float_text());
    assert_eq!("float", d.get("f").unwrap().type_str());
    assert_eq!(
        Some(&vec![Value::Boolean(true)]),
        d.get("list").unwrap().as_array()
    );
    assert!(d.as_dictionary().is_some());
    assert!(d.get("nope").is_none());
    assert!(Value::Integer(3).get("x").is_none());
    assert!(!d.is_string());
}

#[test]
fn value_constructors() {
    assert_eq!(Value::String("x".to_string()), Value::new_string("x"));
    assert_eq!(
        Value::Array(vec![Value::String("x".to_string())]),
        Value::new_string_array("x")
    );
    assert_eq!(
        Value::Array(vec![Value::Integer(5)]),
        Value::new_array(Value::Integer(5))
    );
}

#[test]
fn free_from_str_parses_like_the_method() {
    let a = ion::from_str("[A]\nk = 1\n").unwrap();
    let b = Ion::from_str("[A]\nk = 1\n").unwrap();
    assert_eq!(a.to_string(), b.to_string());
}

#[test]
fn section_new_is_empty() {
    let s = Section::new();
    assert_eq!(0, s.rows.len());
    assert_eq!(0, s.dictionary.len());
    assert!(s.dictionary.is_empty());
    assert_eq!("", s.to_string());
}
