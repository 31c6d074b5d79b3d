use xer2csv::parser::parse_sections;

#[test]
fn example_two_sections() {
    let sections = parse_sections("%T TASK\n%F\tid\tname\n%R\t1\n%T RSRC\n%F\tid\n%R\t9\tX\n");
    assert_eq!(sections.len(), 2);
    assert_eq!(sections[0].name, "TASK");
    assert_eq!(sections[0].headers, vec!["id".to_string(), "name".to_string()]);
    assert_eq!(sections[0].rows, vec![vec!["1".to_string(), String::new()]]);
    assert_eq!(sections[1].name, "RSRC");
    assert_eq!(sections[1].headers, vec!["id".to_string()]);
    assert_eq!(sections[1].rows, vec![vec!["9".to_string(), "X".to_string()]]);
}

#[test]
fn short_row_padded_to_header_count() {
    let sections = parse_sections("%T A\n%F\ta\tb\tc\n%R\tx\n");
    assert_eq!(sections.len(), 1);
    assert_eq!(
        sections[0].rows,
        vec![vec!["x".to_string(), String::new(), String::new()]]
    );
}

#[test]
fn long_row_kept_unchanged() {
    let sections = parse_sections("%T A\n%F\ta\n%R\tx\ty\tz\n");
    assert_eq!(sections.len(), 1);
    assert_eq!(
        sections[0].rows,
        vec![vec!["x".to_string(), "y".to_string(), "z".to_string()]]
    );
}

#[test]
fn one_section_per_named_tag() {
    let sections = parse_sections("%T A\n%T\n%T B\n%T \n%T C\n");
    assert_eq!(sections.len(), 3);
    assert_eq!(sections[0].name, "A");
    assert_eq!(sections[1].name, "B");
    assert_eq!(sections[2].name, "C");
}

#[test]
fn no_tags_no_sections() {
    let sections = parse_sections("id\tname\nfoo\tbar\n%F\ta\n%R\tx\n");
    assert!(sections.is_empty());
}

#[test]
fn leading_data_before_first_tag_discarded() {
    let sections = parse_sections("%F\ta\n%R\tx\n%T B\n%F\tb\n");
    assert_eq!(sections.len(), 1);
    assert_eq!(sections[0].name, "B");
    assert_eq!(sections[0].headers, vec!["b".to_string()]);
    assert!(sections[0].rows.is_empty());
}

#[test]
fn unnamed_section_never_finished() {
    let sections = parse_sections("%T\n%F\ta\n%R\tx\n");
    assert!(sections.is_empty());
    let sections = parse_sections("%T \n%F\ta\n%R\tx\n");
    assert!(sections.is_empty());
}

#[test]
fn later_field_line_replaces_headers() {
    let sections = parse_sections("%T A\n%F\ta\tb\n%F\tc\n");
    assert_eq!(sections.len(), 1);
    assert_eq!(sections[0].headers, vec!["c".to_string()]);
}

#[test]
fn crlf_and_surrounding_whitespace_trimmed() {
    let sections = parse_sections("  %T TASK  \r\n%F\tid\r\n%R\t7\r\n");
    assert_eq!(sections.len(), 1);
    assert_eq!(sections[0].name, "TASK");
    assert_eq!(sections[0].headers, vec!["id".to_string()]);
    assert_eq!(sections[0].rows, vec![vec!["7".to_string()]]);
}

#[test]
fn section_name_keeps_inner_spaces() {
    let sections = parse_sections("%T PROJECT WBS\n%F\tid\n");
    assert_eq!(sections.len(), 1);
    assert_eq!(sections[0].name, "PROJECT WBS");
}

#[test]
fn blank_and_unknown_lines_ignored() {
    let sections = parse_sections("%T A\n\n%F\tid\n%X junk\nplain text\n%R\t1\n");
    assert_eq!(sections.len(), 1);
    assert_eq!(sections[0].headers, vec!["id".to_string()]);
    assert_eq!(sections[0].rows, vec![vec!["1".to_string()]]);
}

#[test]
fn no_field_line_leaves_rows_unpadded() {
    let sections = parse_sections("%T A\n%R\tx\ty\n");
    assert_eq!(sections.len(), 1);
    assert!(sections[0].headers.is_empty());
    assert_eq!(sections[0].rows, vec![vec!["x".to_string(), "y".to_string()]]);
}

#[test]
fn empty_input_yields_nothing() {
    assert!(parse_sections("").is_empty());
}

#[test]
fn section_open_at_end_of_input_is_flushed() {
    let sections = parse_sections("%T LAST");
    assert_eq!(sections.len(), 1);
    assert_eq!(sections[0].name, "LAST");
    assert!(sections[0].headers.is_empty());
    assert!(sections[0].rows.is_empty());
}
