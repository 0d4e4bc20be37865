use ion::{Dictionary, Element, NameMap, Parser, Section, Value};

fn ok_some(r: Result<Option<Value>, ion::ParserError>) -> Value {
    r.expect("Expected Ok got Err").expect("Expected Some got None")
}

fn string_row(cells: &[&str]) -> Vec<Value> {
    cells.iter().map(|c| Value::String(c.to_string())).collect()
}

fn finish_string_ok() {
    let mut target = Parser::new("\"foObar\"");
    assert_eq!(Some("foObar"), ok_some(target.finish_string()).as_str());

    // An unterminated string fails: the input ends before the closing quote.
    let mut target = Parser::new("\"foObar");
    assert_eq!(
        "ParserError { section: \"unknown\", desc: \"Cannot finish string\" }",
        target.finish_string().unwrap_err().to_string()
    );

    let mut target = Parser::new("\"\"");
    assert_eq!(Some(""), ok_some(target.finish_string()).as_str());
}

fn finish_string_err() {
    let mut target = Parser::new("\"");
    assert_eq!(
        "ParserError { section: \"unknown\", desc: \"Cannot finish string\" }",
        target.finish_string().unwrap_err().to_string()
    );

    let mut target = Parser::new("");
    assert_eq!(
        "ParserError { section: \"unknown\", desc: \"Cannot finish string\" }",
        target.finish_string().unwrap_err().to_string()
    );
}

#[test]
fn finish_string_unescapes() {
    let mut target = Parser::new(r#""a\"b\\c\nd\te""#);
    assert_eq!(Some("a\"b\\c\nd\\te"), ok_some(target.finish_string()).as_str());
}

fn finish_array_ok() {
    let mut target = Parser::new("[]");
    assert_eq!(Value::Array(vec![]), ok_some(target.finish_array()));

    let mut target = Parser::new("[\"a\", 4, 5.6]");
    assert_eq!(
        Value::Array(vec![
            Value::String("a".to_string()),
            Value::Integer(4),
            Value::Float("5.6".to_string())
        ]),
        ok_some(target.finish_array())
    );
}

fn finish_array_err() {
    let mut target = Parser::new("[\"a\"");
    assert_eq!(
        "ParserError { section: \"unknown\", desc: \"Cannot finish an array\" }",
        target.finish_array().unwrap_err().to_string()
    );

    let mut target = Parser::new("[");
    assert_eq!(
        "ParserError { section: \"unknown\", desc: \"Cannot finish an array\" }",
        target.finish_array().unwrap_err().to_string()
    );
}

fn finish_dictionary_ok() {
    let mut target = Parser::new("{}");
    assert_eq!(
        Value::Dictionary(Dictionary::new()),
        ok_some(target.finish_dictionary())
    );

    let mut target = Parser::new("{ foo = [\"bar\"] }");
    assert_eq!(
        "{ foo = [ \"bar\" ] }",
        ok_some(target.finish_dictionary()).to_string()
    );
}

fn finish_dictionary_err() {
    let mut target = Parser::new("{");
    assert_eq!(
        "ParserError { section: \"unknown\", desc: \"Cannot finish a dictionary\" }",
        target.finish_dictionary().unwrap_err().to_string()
    );

    let mut target = Parser::new("{ foo");
    assert_eq!(
        "ParserError { section: \"unknown\", desc: \"Expected the '=' key value separator\" }",
        target.finish_dictionary().unwrap_err().to_string()
    );

    let mut target = Parser::new("{ foo = ");
    assert_eq!(
        "ParserError { section: \"unknown\", desc: \"Cannot read a value\" }",
        target.finish_dictionary().unwrap_err().to_string()
    );

    let mut target = Parser::new("{ foo = \"bar\"");
    assert_eq!(
        "ParserError { section: \"unknown\", desc: \"Cannot finish a dictionary\" }",
        target.finish_dictionary().unwrap_err().to_string()
    );

    let mut target = Parser::new("{ foo = [\"bar\"");
    assert_eq!(
        "ParserError { section: \"unknown\", desc: \"Cannot finish an array\" }",
        target.finish_array().unwrap_err().to_string()
    );

    let mut target = Parser::new("{ foo = [\"bar\"]");
    assert_eq!(
        "ParserError { section: \"unknown\", desc: \"Cannot finish a dictionary\" }",
        target.finish_dictionary().unwrap_err().to_string()
    );

    let mut target = Parser::new("{ | foo |");
    assert_eq!(
        "ParserError { section: \"unknown\", desc: \"Wrong entry of a dictionary\" }",
        target.finish_dictionary().unwrap_err().to_string()
    );
}

#[test]
fn slice_to_inc() {
    let mut target = Parser::new("foObar");
    assert_eq!(Some("foOb".to_string()), target.slice_to_inc('b'));
    assert_eq!(Some((4, 'a')), target.next_char());

    let mut target = Parser::new("foObar");
    assert_eq!(Some("f".to_string()), target.slice_to_inc('f'));
    assert_eq!(Some((1, 'o')), target.next_char());
}

#[test]
fn slice_to_exc() {
    let mut target = Parser::new("foObar");
    assert_eq!(Some("foO".to_string()), target.slice_to_exc('b'));
    assert_eq!(Some((4, 'a')), target.next_char());

    let mut target = Parser::new("foObar");
    assert_eq!(Some("".to_string()), target.slice_to_exc('f'));
    assert_eq!(Some((1, 'o')), target.next_char());
}

#[test]
fn slice_while() {
    let mut target = Parser::new("foObar");
    assert_eq!(Some("foO".to_string()), target.slice_while(|c| c != 'b'));
    assert_eq!(Some((3, 'b')), target.next_char());

    let mut target = Parser::new("foObar");
    assert_eq!(None, target.slice_while(|c| c != 'f'));
    assert_eq!(Some((0, 'f')), target.next_char());
}

#[test]
fn slices_at_end_of_input() {
    let mut target = Parser::new("");
    assert_eq!(None, target.slice_to_inc('x'));
    assert_eq!(None, target.slice_to_exc('x'));
    assert_eq!(None, target.next_char());
}

fn next_ok(target: &mut Parser) -> Element {
    target
        .next()
        .expect("Expected Some got None")
        .expect("Expected Ok got Err")
}

#[test]
fn next_returns() {
    let raw = r#"
                [dict]
                first = "first"
                # comment
                second ="another"
                whitespace = "  "
                empty = ""
                some_bool = true

                ary = [ "col1", 2,"col3", false]

                [table]

                |abc|def|
                |---|---|
                |one|two|
                # comment
                |  1| 2 |
                |  2| 3 |

                [three]
                a=1
                B=2
                | this |
            "#;

    let mut target = Parser::new(raw);

    assert_eq!(Element::Section("dict".to_owned()), next_ok(&mut target));
    assert_eq!(
        Element::Entry("first".to_owned(), Value::String("first".to_owned())),
        next_ok(&mut target)
    );
    assert_eq!(Element::Comment(" comment\n".into()), next_ok(&mut target));
    assert_eq!(
        Element::Entry("second".to_owned(), Value::String("another".to_owned())),
        next_ok(&mut target)
    );
    assert_eq!(
        Element::Entry("whitespace".to_owned(), Value::String("  ".to_owned())),
        next_ok(&mut target)
    );
    assert_eq!(
        Element::Entry("empty".to_owned(), Value::String("".to_owned())),
        next_ok(&mut target)
    );
    assert_eq!(
        Element::Entry("some_bool".to_owned(), Value::Boolean(true)),
        next_ok(&mut target)
    );
    assert_eq!(
        Element::Entry(
            "ary".to_owned(),
            Value::Array(vec![
                Value::String("col1".to_owned()),
                Value::Integer(2),
                Value::String("col3".to_owned()),
                Value::Boolean(false)
            ])
        ),
        next_ok(&mut target)
    );

    assert_eq!(Element::Section("table".to_owned()), next_ok(&mut target));
    assert_eq!(Element::Row(string_row(&["abc", "def"])), next_ok(&mut target));
    assert_eq!(Element::Row(string_row(&["---", "---"])), next_ok(&mut target));
    assert_eq!(Element::Row(string_row(&["one", "two"])), next_ok(&mut target));
    assert_eq!(Element::Comment(" comment\n".into()), next_ok(&mut target));
    assert_eq!(Element::Row(string_row(&["1", "2"])), next_ok(&mut target));
    assert_eq!(Element::Row(string_row(&["2", "3"])), next_ok(&mut target));
    assert_eq!(Element::Section("three".to_owned()), next_ok(&mut target));
    assert_eq!(
        Element::Entry("a".to_owned(), Value::Integer(1)),
        next_ok(&mut target)
    );
    assert_eq!(
        Element::Entry("B".to_owned(), Value::Integer(2)),
        next_ok(&mut target)
    );
    assert_eq!(Element::Row(string_row(&["this"])), next_ok(&mut target));
    assert_eq!(None, target.next());
    assert_eq!(None, target.next());
}

fn root_with(section: Section) -> NameMap<Section> {
    let mut expected = NameMap::new();
    expected.insert("root".to_owned(), section);
    expected
}

fn root_section_has_dictionary_with_string() {
    let raw = r#"
                            foo = "bar"
                        "#;
    let mut target = Parser::new(raw);
    let actual = target.read().expect("Read failed");

    let mut section = Section::new();
    section
        .dictionary
        .insert("foo".to_owned(), Value::String("bar".to_owned()));
    assert_eq!(root_with(section), actual);
}

fn root_section_has_dictionary_with_array() {
    let raw = r#"
                            arr = ["WAW", "WRO"]
                        "#;
    let mut target = Parser::new(raw);
    let actual = target.read().expect("Read failed");

    let mut section = Section::new();
    let array = vec![
        Value::String("WAW".to_owned()),
        Value::String("WRO".to_owned()),
    ];
    section
        .dictionary
        .insert("arr".to_owned(), Value::Array(array));
    assert_eq!(root_with(section), actual);
}

fn root_section_has_dictionary_with_dictionary() {
    let raw = r#"
                            ndict = { foo = "bar" }
                        "#;
    let mut target = Parser::new(raw);
    let actual = target.read().expect("Read failed");

    let mut section = Section::new();
    let mut dict = Dictionary::new();
    dict.insert("foo".to_owned(), Value::String("bar".to_owned()));
    section
        .dictionary
        .insert("ndict".to_owned(), Value::Dictionary(dict));
    assert_eq!(root_with(section), actual);
}

fn root_section_has_dictionary_with_dictionary_with_new_lines() {
    let raw = r#"
                            R75042 = {
                            view = "SV"
                            loc  = ["M", "B"]
                            dist = { beach_km = 4.1 }
                        }"#;
    let mut target = Parser::new(raw);
    let actual = target.read().expect("Read failed");

    let mut sect = Section::new();
    let mut dict = Dictionary::new();
    dict.insert("view".to_owned(), Value::String("SV".to_owned()));
    let array = vec![Value::String("M".to_owned()), Value::String("B".to_owned())];
    dict.insert("loc".to_owned(), Value::Array(array));
    let mut dict_dict = Dictionary::new();
    dict_dict.insert("beach_km".to_owned(), Value::Float("4.1".to_owned()));
    dict.insert("dist".to_owned(), Value::Dictionary(dict_dict));
    sect.dictionary
        .insert("R75042".to_owned(), Value::Dictionary(dict));
    assert_eq!(root_with(sect), actual);
}

#[test]
fn then_returns_error() {
    let raw = r#"
                            key =
                        "#;
    let mut target = Parser::new(raw);
    let actual = target.read().expect_err("Expected Err got Ok");

    assert_eq!(
        "ParserError { section: \"unknown\", desc: \"Cannot read a value\" }",
        actual.to_string()
    );
}

#[test]
fn then_returns_array() {
    let raw = r#"
                            |1|2|
                            |3|
                        "#;
    let mut target = Parser::new(raw);
    let actual = target.read().expect("Read failed");

    let mut sect = Section::new();
    sect.rows.push(string_row(&["1", "2"]));
    sect.rows.push(string_row(&["3"]));
    assert_eq!(root_with(sect), actual);
}

#[test]
fn then_returns_array_with_empty_strings_on_empty_cells() {
    let raw = r#"
                            |1||2|
                            |3|   |
                        "#;
    let mut target = Parser::new(raw);
    let actual = target.read().expect("Read failed");

    let mut sect = Section::new();
    sect.rows.push(string_row(&["1", "", "2"]));
    sect.rows.push(string_row(&["3", ""]));
    assert_eq!(root_with(sect), actual);
}

#[test]
fn then_returns_section() {
    let raw = r#"
                            [SECTION]

                            key = "value"
                            # now a table
                            | col1 | col2|
                            | col1 | col2| # comment
                            | col1 | col2|
                        "#;

    let mut expected = NameMap::new();
    let mut section = Section::new();
    section
        .dictionary
        .insert("key".to_owned(), Value::String("value".to_owned()));
    section.rows.push(string_row(&["col1", "col2"]));
    section.rows.push(string_row(&["col1", "col2"]));
    section.rows.push(string_row(&["col1", "col2"]));
    expected.insert("SECTION".to_owned(), section);

    let mut target = Parser::new(raw);
    assert_eq!(expected, target.read().unwrap());
}

#[test]
fn then_returns_last_occurance_of_section() {
    let raw = r#"
                            [SECTION]
                            1key = "1value"
                            | 1col1 | 1col2|
                            [SECTION]
                            2key = "2value"
                            | 2col1 | 2col2|
                        "#;
    let mut target = Parser::new(raw);
    let actual = target.read().expect("Read failed");

    let mut expected = NameMap::new();
    let mut section = Section::new();
    section
        .dictionary
        .insert("2key".to_owned(), Value::String("2value".to_owned()));
    section.rows.push(string_row(&["2col1", "2col2"]));
    expected.insert("SECTION".to_owned(), section);
    assert_eq!(expected, actual);
}

fn accepted_section() -> NameMap<Section> {
    let mut expected = NameMap::new();
    let mut section = Section::new();
    section
        .dictionary
        .insert("key".to_owned(), Value::String("value".to_owned()));
    section.rows.push(string_row(&["col1", "col2"]));
    expected.insert("ACCEPTED".to_owned(), section);
    expected
}

fn filtered_root_and_no_other_sections_returns_nothing() {
    let raw = r#"
                            nkey = "nvalue"
                            | ncol1 | ncol2 |
                        "#;
    let mut target = Parser::new_filtered(raw, vec!["ACCEPTED"]);
    let actual = target.read().expect("Read failed");
    assert_eq!(NameMap::<Section>::new(), actual);
}

fn filtered_root_then_accepted_section() {
    let raw = r#"
                            nkey = "nvalue"
                            | ncol1 | ncol2 |
                            [ACCEPTED]
                            key = "value"
                            | col1 | col2|
                        "#;
    let mut target = Parser::new_filtered(raw, vec!["ACCEPTED"]);
    let actual = target.read().expect("Read failed");
    assert_eq!(accepted_section(), actual);
}

fn filtered_root_then_filtered_section_returns_nothing() {
    let raw = r#"
                            nkey = "nvalue"
                            | ncol1 | ncol2 |
                            [FILTERED]
                            key = "value"
                            | col1 | col2|
                        "#;
    let mut target = Parser::new_filtered(raw, vec!["ACCEPTED"]);
    let actual = target.read().expect("Read failed");
    assert_eq!(NameMap::<Section>::new(), actual);
}

fn accepted_section_and_no_other_sections() {
    let raw = r#"
                            [ACCEPTED]
                            key = "value"
                            | col1 | col2|
                        "#;
    let mut target = Parser::new_filtered(raw, vec!["ACCEPTED"]);
    let actual = target.read().expect("Read failed");
    assert_eq!(accepted_section(), actual);
}

fn accepted_section_then_filtered_section() {
    let raw = r#"
                            [ACCEPTED]
                            key = "value"
                            | col1 | col2|
                            [FILTERED]
                            fkey = "fvalue"
                            | fcol1 | fcol2|
                        "#;
    let mut target = Parser::new_filtered(raw, vec!["ACCEPTED"]);
    let actual = target.read().expect("Read failed");
    assert_eq!(accepted_section(), actual);
}

fn first_accepted_section() -> NameMap<Section> {
    let mut expected = NameMap::new();
    let mut section = Section::new();
    section
        .dictionary
        .insert("1key".to_owned(), Value::String("1value".to_owned()));
    section.rows.push(string_row(&["1col1", "1col2"]));
    expected.insert("ACCEPTED".to_owned(), section);
    expected
}

fn then_returns_first_occurance_of_accepted_section() {
    let raw = r#"
                                [ACCEPTED]
                                1key = "1value"
                                | 1col1 | 1col2|
                                [ACCEPTED]
                                2key = "2value"
                                | 2col1 | 2col2|
                            "#;
    let mut target = Parser::new_filtered(raw, vec!["ACCEPTED"]);
    let actual = target.read().expect("Read failed");
    assert_eq!(first_accepted_section(), actual);
}

fn then_returns_first_occurance_of_accepted_section_among_others() {
    let raw = r#"
                                [ACCEPTED]
                                1key = "1value"
                                | 1col1 | 1col2|
                                [ACCEPTED]
                                2key = "2value"
                                | 2col1 | 2col2|
                            "#;
    let mut target = Parser::new_filtered(raw, vec!["ACCEPTED", "ANOTHER"]);
    let actual = target.read().expect("Read failed");
    assert_eq!(first_accepted_section(), actual);
}

fn filtered_section_and_no_other_sections_returns_nothing() {
    let raw = r#"
                            [FILTERED]
                            key = "value"
                            | col1 | col2|
                        "#;
    let mut target = Parser::new_filtered(raw, vec!["ACCEPTED"]);
    let actual = target.read().expect("Read failed");
    assert_eq!(NameMap::<Section>::new(), actual);
}

fn filtered_section_then_accepted_section() {
    let raw = r#"
                            [FILTERED]
                            fkey = "fvalue"
                            | fcol1 | fcol2|
                            [ACCEPTED]
                            key = "value"
                            | col1 | col2|
                        "#;
    let mut target = Parser::new_filtered(raw, vec!["ACCEPTED"]);
    let actual = target.read().expect("Read failed");
    assert_eq!(accepted_section(), actual);
}

#[test]
fn capacity_hints_do_not_change_the_result() {
    let raw = "[A]\nk = [1, 2, 3]\n|a|b|\n";
    let mut plain = Parser::new(raw);
    let mut tuned = Parser::new(raw)
        .with_section_capacity(0)
        .with_row_capacity(0)
        .with_array_capacity(0);
    assert_eq!(plain.read().unwrap(), tuned.read().unwrap());
}

#[test]
fn integer_too_large_is_an_error() {
    let mut target = Parser::new("[N]\nbig = 9223372036854775808\n");
    assert_eq!(
        "ParserError { section: \"N\", desc: \"number too large to fit in target type\" }",
        target.read().unwrap_err().to_string()
    );
    let mut target = Parser::new("max = 9223372036854775807\n");
    let doc = target.read().unwrap();
    assert_eq!(
        Some(&Value::Integer(9223372036854775807)),
        doc.get("root").unwrap().get("max")
    );
}

#[test]
fn missing_separator_is_an_error() {
    let mut target = Parser::new("[S]\nkey \"v\"\n");
    assert_eq!(
        "ParserError { section: \"S\", desc: \"Expected the '=' key value separator\" }",
        target.read().unwrap_err().to_string()
    );
}

#[test]
fn parser_ok() {
    finish_string_ok();
    finish_array_ok();
    finish_dictionary_ok();
}

#[test]
fn parser_err() {
    finish_string_err();
    finish_array_err();
    finish_dictionary_err();
}

#[test]
fn parser_then_returns_dictionary() {
    root_section_has_dictionary_with_string();
    root_section_has_dictionary_with_array();
    root_section_has_dictionary_with_dictionary();
    root_section_has_dictionary_with_dictionary_with_new_lines();
}

#[test]
fn parser_then_returns_nothing() {
    filtered_root_and_no_other_sections_returns_nothing();
    filtered_root_then_filtered_section_returns_nothing();
    filtered_section_and_no_other_sections_returns_nothing();
}

#[test]
fn parser_then_returns_accepted_section() {
    filtered_root_then_accepted_section();
    accepted_section_and_no_other_sections();
    accepted_section_then_filtered_section();
    filtered_section_then_accepted_section();
}

#[test]
fn parser_then_returns_first_occurance_of_accepted_section() {
    then_returns_first_occurance_of_accepted_section();
    then_returns_first_occurance_of_accepted_section_among_others();
}
