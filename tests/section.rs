use ion::{Ion, Section, Value};

fn ion(raw: &str) -> Ion {
    raw.parse::<Ion>().expect("Failed parsing to 'Ion'")
}

fn count_by_value(section: Section) -> usize {
    let mut it = section.into_iter();
    let mut rows = Vec::new();
    while let Some(row) = it.next() {
        rows.push(row);
    }
    rows.len()
}

const NO_HEADER: &str = r#"
                    [FOO]
                    |1||2|
                    |1|   |2|
                    |1|2|3|
                    "#;

#[test]
fn it_works_on_ref_section() {
    let ion = ion(NO_HEADER);
    let section: &Section = ion.get("FOO").unwrap();
    let rows: Vec<_> = section.rows_without_header().iter().collect();
    assert_eq!(3, rows.len());
}

#[test]
fn it_works_on_section_by_value() {
    let mut ion = ion(NO_HEADER);
    let section: Section = ion.remove("FOO").unwrap();
    assert_eq!(3, count_by_value(section));
}

#[test]
fn it_works_with_loop() {
    let mut ion = ion(NO_HEADER);
    let section: Section = ion.remove("FOO").unwrap();
    let mut it = section.into_iter();
    let mut rows = Vec::new();
    loop {
        match it.next() {
            Some(row) => rows.push(row),
            None => break,
        }
    }
    assert_eq!(3, rows.len());
}

#[test]
fn it_works_with_section_by_value() {
    let mut ion = ion(r#"
                    [FOO]
                    | 1 | 2 | 3 |
                    |---|---|---|
                    |1||2|
                    |1|   |2|
                    |1|2|3|
                    "#);
    let section: Section = ion.remove("FOO").unwrap();
    let it = section.into_iter();
    assert_eq!((3, Some(3)), it.size_hint());
    let section: Section = ion_section_again();
    assert_eq!(3, count_by_value(section));
}

fn ion_section_again() -> Section {
    let mut ion = ion(r#"
                    [FOO]
                    | 1 | 2 | 3 |
                    |---|---|---|
                    |1||2|
                    |1|   |2|
                    |1|2|3|
                    "#);
    ion.remove("FOO").unwrap()
}

#[test]
fn section_cell_content_can_start_with_hyphen() {
    let ion1 = ion(r#"
                [FOO]
                |head1|head2|head3|
                |-----|-----|-----|
                | -3  | emp | a   |
                | -3  | -b  | b   |
                | -3  | b   | -b  |
                "#);
    assert_eq!(3, ion1.get("FOO").unwrap().rows_without_header().len());

    let ion2 = ion(r#"
                [FOO]
                | -3  | emp | a   |
                | -3  | -b  | b   |
                | -3  | b   | -b  |
                "#);
    assert_eq!(3, ion2.get("FOO").unwrap().rows_without_header().len());
}

#[test]
fn section_cell_content_can_be_empty() {
    let ion1 = ion(r#"
                [FOO]
                |head1|head2|head3|
                |-----|-----|-----|
                |     | emp | a   |
                |     |     | b   |
                |     | b   |     |
                "#);
    assert_eq!(3, ion1.get("FOO").unwrap().rows_without_header().len());

    let ion2 = ion(r#"
                [FOO]
                |     | emp | a   |
                |     |     | b   |
                |     | b   |     |
                "#);
    assert_eq!(3, ion2.get("FOO").unwrap().rows_without_header().len());
}

#[test]
fn section_cell_content_with_escaped_pipe() {
    let ion1 = ion(r#"
                [FOO]
                |head1 |head2 |head3 |head4 | head5  |
                |------|------|------|------|--------|
                | a\|b | a\\b | a\nb | a\tb | a\\\nb |
                "#);
    let section = ion1.get("FOO").unwrap();
    let first_row = section.rows_without_header().first().unwrap();
    assert_eq!(5, first_row.len());
    assert_eq!(Value::String("a|b".to_string()), first_row[0]);
    assert_eq!(Value::String("a\\b".to_string()), first_row[1]);
    assert_eq!(Value::String("a\nb".to_string()), first_row[2]);
    assert_eq!(Value::String("a\tb".to_string()), first_row[3]);
    assert_eq!(Value::String("a\\\nb".to_string()), first_row[4]);
    assert_eq!(1, section.rows_without_header().len());

    let ion2 = ion(r#"
                [FOO]
                |     | a\|b  | a   |
                |     |       | b   |
                |     | b     |     |
                "#);
    let section = ion2.get("FOO").unwrap();
    let first_row = section.rows.first().unwrap();
    assert_eq!(3, first_row.len());
    assert_eq!("", first_row[0].to_string());
    // A cell is written back with its pipe escaped.
    assert_eq!("a\\|b", first_row[1].to_string());
    assert_eq!(Some("a|b"), first_row[1].as_str());
    assert_eq!("a", first_row[2].to_string());
    assert_eq!(3, section.rows_without_header().len());
}

#[test]
fn section_section_can_have_no_content_rows() {
    let ion1 = ion(r#"
                [FOO]
                |head1|head2|head3|
                |-----|-----|-----|
                "#);
    assert_eq!(0, ion1.get("FOO").unwrap().rows_without_header().len());

    let ion2 = ion(r#"
                [FOO]
                "#);
    assert_eq!(0, ion2.get("FOO").unwrap().rows_without_header().len());
}

fn cells(cells: &[&str]) -> Vec<Value> {
    cells.iter().map(|c| Value::String(c.to_string())).collect()
}

#[test]
fn header_separator_pair_is_dropped() {
    let mut section = Section::new();
    section.rows.push(cells(&["1", "2", "3"]));
    section.rows.push(cells(&["---", "---", "---"]));
    section.rows.push(cells(&["a", "b", "c"]));
    assert_eq!(3, section.rows.len());
    let content = section.rows_without_header();
    assert_eq!(1, content.len());
    assert_eq!(cells(&["a", "b", "c"]), content[0]);
}

#[test]
fn separator_must_be_a_non_empty_dash_run_in_the_second_row() {
    let mut section = Section::new();
    section.rows.push(cells(&["---"]));
    section.rows.push(cells(&["a"]));
    assert_eq!(2, section.rows_without_header().len());

    let mut section = Section::new();
    section.rows.push(cells(&["h"]));
    section.rows.push(cells(&[""]));
    assert_eq!(2, section.rows_without_header().len());

    let mut section = Section::new();
    section.rows.push(cells(&["h"]));
    section.rows.push(cells(&["-x-"]));
    assert_eq!(2, section.rows_without_header().len());

    let mut section = Section::new();
    section.rows.push(cells(&["h"]));
    section.rows.push(vec![Value::Integer(1)]);
    assert_eq!(2, section.rows_without_header().len());
}
