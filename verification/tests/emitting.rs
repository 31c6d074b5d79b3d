use xer2csv::emit::{convert_content, csv_file_name, section_csv, xer_stem};
use xer2csv::parser::{parse_sections, Section};

#[test]
fn example_csv_bodies() {
    let sections = parse_sections("%T TASK\n%F\tid\tname\n%R\t1\n%T RSRC\n%F\tid\n%R\t9\tX\n");
    assert_eq!(section_csv(&sections[0]), b"id,name\n1,\n".to_vec());
    assert_eq!(section_csv(&sections[1]), b"id\n9,X\n".to_vec());
    assert_eq!(csv_file_name("TASK"), "TASK.csv");
    assert_eq!(csv_file_name("RSRC"), "RSRC.csv");
}

#[test]
fn header_only_section_has_one_record() {
    let sections = parse_sections("%T TASK\n%F\tid\tname\n");
    assert_eq!(sections.len(), 1);
    assert!(sections[0].rows.is_empty());
    assert_eq!(section_csv(&sections[0]), b"id,name\n".to_vec());
}

#[test]
fn spaces_in_name_become_underscores() {
    assert_eq!(csv_file_name("PROJECT WBS"), "PROJECT_WBS.csv");
    assert_eq!(csv_file_name("A B C"), "A_B_C.csv");
    let out = convert_content(&b"%T PROJECT WBS\n%F\tid\n".to_vec());
    assert_eq!(out.len(), 1);
    assert_eq!(out[0].file_name, "PROJECT_WBS.csv");
}

#[test]
fn field_with_comma_is_quoted() {
    let sections = parse_sections("%T A\n%F\th\n%R\tv,w\n");
    assert_eq!(section_csv(&sections[0]), b"h\n\"v,w\"\n".to_vec());
}

#[test]
fn embedded_quotes_are_doubled() {
    let section = Section {
        name: "A".to_string(),
        headers: vec!["h".to_string()],
        rows: vec![vec!["say \"hi\"".to_string()]],
    };
    assert_eq!(section_csv(&section), b"h\n\"say \"\"hi\"\"\"\n".to_vec());
}

#[test]
fn no_tags_no_output_files() {
    let out = convert_content(&b"id\tname\nfoo\tbar\n".to_vec());
    assert!(out.is_empty());
}

#[test]
fn whole_file_conversion() {
    let out = convert_content(&b"%T TASK\n%F\tid\tname\n%R\t1\n%T RSRC\n%F\tid\n%R\t9\tX\n".to_vec());
    assert_eq!(out.len(), 2);
    assert_eq!(out[0].file_name, "TASK.csv");
    assert_eq!(out[0].bytes, b"id,name\n1,\n".to_vec());
    assert_eq!(out[1].file_name, "RSRC.csv");
    assert_eq!(out[1].bytes, b"id\n9,X\n".to_vec());
}

#[test]
fn rerun_gives_identical_output() {
    let bytes = b"%T TASK\n%F\tid\tname\n%R\t1\tA B\n%T RSRC\n%F\tid\n".to_vec();
    let first = convert_content(&bytes);
    let second = convert_content(&bytes);
    assert_eq!(first.len(), second.len());
    for (a, b) in first.iter().zip(second.iter()) {
        assert_eq!(a.file_name, b.file_name);
        assert_eq!(a.bytes, b.bytes);
    }
}

#[test]
fn invalid_utf8_replaced_not_fatal() {
    let mut bytes = b"%T A".to_vec();
    bytes.push(0xFF);
    bytes.extend_from_slice(b"B\n%F\tx\n");
    let out = convert_content(&bytes);
    assert_eq!(out.len(), 1);
    assert_eq!(out[0].file_name, "A\u{FFFD}B.csv");
    assert_eq!(out[0].bytes, b"x\n".to_vec());
}

#[test]
fn headerless_section_gets_empty_header_record() {
    let sections = parse_sections("%T A\n%R\tx\n");
    assert_eq!(section_csv(&sections[0]), b"\"\"\nx\n".to_vec());
}

#[test]
fn xer_stem_recognises_the_extension() {
    assert_eq!(xer_stem("plan.xer"), Some("plan".to_string()));
    assert_eq!(xer_stem("a.b.xer"), Some("a.b".to_string()));
    assert_eq!(xer_stem(".xer"), None);
    assert_eq!(xer_stem("plan.XER"), None);
    assert_eq!(xer_stem("plan.txt"), None);
    assert_eq!(xer_stem("xer"), None);
    assert_eq!(xer_stem("..xer"), Some(".".to_string()));
}
