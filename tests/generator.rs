use sqlstate_codegen::emit::{generate, make_consts, make_header, make_type};
use sqlstate_codegen::registry::{parse_errors, Registry};
use sqlstate_codegen::table::{Error, Kind, MalformedRow, RowFault};

fn only_entry(reg: &Registry) -> &Error {
    assert_eq!(reg.len(), 1);
    &reg.entries()[0]
}

#[test]
fn success_row_without_description() {
    let reg = parse_errors("00000 S ERRCODE_SUCCESSFUL_COMPLETION\n").unwrap();
    let e = only_entry(&reg);
    assert_eq!(e.code, "00000");
    assert_eq!(e.name, "SUCCESSFUL_COMPLETION");
    assert_eq!(e.kind, Kind::Success);
    assert_eq!(e.message, None);
}

#[test]
fn error_row_with_description() {
    let reg = parse_errors("42601 E ERRCODE_SYNTAX_ERROR syntax_error\n").unwrap();
    let e = only_entry(&reg);
    assert_eq!(e.code, "42601");
    assert_eq!(e.name, "SYNTAX_ERROR");
    assert_eq!(e.kind, Kind::Error);
    assert_eq!(e.message.as_deref(), Some("syntax error"));
}

#[test]
fn warning_row() {
    let reg = parse_errors("01000 W ERRCODE_WARNING warning\n").unwrap();
    assert_eq!(only_entry(&reg).kind, Kind::Warning);
}

#[test]
fn comment_lines_give_nothing() {
    let text = "# comment\n42601 E ERRCODE_SYNTAX_ERROR syntax_error\n# comment\n";
    let reg = parse_errors(text).unwrap();
    assert_eq!(only_entry(&reg).code, "42601");
}

#[test]
fn section_and_blank_lines_give_nothing() {
    let text = "Section: Class 00 - Successful Completion\n\n   \t\n00000 S ERRCODE_SUCCESSFUL_COMPLETION";
    let reg = parse_errors(text).unwrap();
    assert_eq!(only_entry(&reg).code, "00000");
}

#[test]
fn empty_text_gives_empty_registry() {
    let reg = parse_errors("").unwrap();
    assert_eq!(reg.len(), 0);
}

#[test]
fn two_fields_fail_and_nothing_is_produced() {
    let r = generate("00000 S ERRCODE_SUCCESSFUL_COMPLETION\n42601 E\n");
    assert_eq!(r, Err(MalformedRow { line: 1, fault: RowFault::MissingField }));
}

#[test]
fn unknown_severity_fails() {
    let r = parse_errors("42601 X ERRCODE_SYNTAX_ERROR\n");
    assert_eq!(r.err(), Some(MalformedRow { line: 0, fault: RowFault::UnknownSeverity }));
}

#[test]
fn malformed_codes_fail() {
    for bad in ["4260", "426011", "4260a", "42-01", "4260\u{e9}"] {
        let text = format!("{bad} E ERRCODE_SYNTAX_ERROR\n");
        let r = parse_errors(&text);
        assert_eq!(r.err(), Some(MalformedRow { line: 0, fault: RowFault::InvalidCode }), "{bad}");
    }
}

#[test]
fn bare_prefix_leaves_no_name() {
    let r = parse_errors("# x\n42601 E ERRCODE_\n");
    assert_eq!(r.err(), Some(MalformedRow { line: 1, fault: RowFault::EmptyName }));
}

#[test]
fn first_malformed_line_is_reported() {
    let r = parse_errors("42601 E\n42602 Q ERRCODE_X\n");
    assert_eq!(r.err(), Some(MalformedRow { line: 0, fault: RowFault::MissingField }));
}

#[test]
fn extra_fields_are_ignored() {
    let reg = parse_errors("42601\tE  ERRCODE_SYNTAX_ERROR  syntax_error trailing words\r\n").unwrap();
    let e = only_entry(&reg);
    assert_eq!(e.message.as_deref(), Some("syntax error"));
    assert_eq!(e.name, "SYNTAX_ERROR");
}

#[test]
fn name_without_prefix_is_kept() {
    let reg = parse_errors("42601 E SYNTAX_ERROR\n").unwrap();
    assert_eq!(only_entry(&reg).name, "SYNTAX_ERROR");
}

#[test]
fn duplicate_code_last_row_wins() {
    let reg = parse_errors("42601 E ERRCODE_FIRST\n42601 W ERRCODE_SECOND\n").unwrap();
    let e = only_entry(&reg);
    assert_eq!(e.name, "SECOND");
    assert_eq!(e.kind, Kind::Warning);
}

#[test]
fn entries_ascend_by_code() {
    let reg = parse_errors("42601 E ERRCODE_B\n00000 S ERRCODE_A\n0A000 E ERRCODE_C\n01000 W ERRCODE_D\n").unwrap();
    let codes: Vec<&str> = reg.entries().iter().map(|e| e.code.as_str()).collect();
    assert_eq!(codes, vec!["00000", "01000", "0A000", "42601"]);
}

#[test]
fn shuffled_rows_give_same_output() {
    let a = "00000 S ERRCODE_A\n01000 W ERRCODE_B warn\n42601 E ERRCODE_C syntax_error\n";
    let b = "42601 E ERRCODE_C syntax_error\n# note\n00000 S ERRCODE_A\n01000 W ERRCODE_B warn\n";
    assert_eq!(generate(a).unwrap(), generate(b).unwrap());
}

#[test]
fn parsing_twice_gives_the_same_registry() {
    let text = "42601 E ERRCODE_SYNTAX_ERROR syntax_error\n00000 S ERRCODE_SUCCESSFUL_COMPLETION\n";
    let a = parse_errors(text).unwrap();
    let b = parse_errors(text).unwrap();
    assert_eq!(format!("{:?}", a.entries()), format!("{:?}", b.entries()));
}

#[test]
fn regenerating_is_byte_identical() {
    let text = "42601 E ERRCODE_SYNTAX_ERROR syntax_error\n00000 S ERRCODE_SUCCESSFUL_COMPLETION\n";
    assert_eq!(generate(text).unwrap().into_bytes(), generate(text).unwrap().into_bytes());
}

#[test]
fn lookup_finds_every_parsed_code() {
    let reg = parse_errors("42601 E ERRCODE_B\n00000 S ERRCODE_A\n").unwrap();
    for code in ["00000", "42601"] {
        assert_eq!(reg.from_code(code).unwrap().code, code);
    }
}

#[test]
fn lookup_of_unknown_code_is_none() {
    let reg = parse_errors("42601 E ERRCODE_SYNTAX_ERROR\n").unwrap();
    assert!(reg.from_code("99999").is_none());
    assert!(reg.from_code("").is_none());
}

#[test]
fn render_with_description() {
    let reg = parse_errors("42601 E ERRCODE_SYNTAX_ERROR syntax_error\n").unwrap();
    let expected = "/// syntax error\npub const SYNTAX_ERROR: State = State {\n    code: \"42601\",\n    name: \"SYNTAX_ERROR\",\n    kind: Kind::Error,\n    message: Some(\"syntax error\"),\n};\n";
    assert_eq!(only_entry(&reg).render(), expected);
}

#[test]
fn render_without_description() {
    let reg = parse_errors("00000 S ERRCODE_SUCCESSFUL_COMPLETION\n").unwrap();
    let expected = "\npub const SUCCESSFUL_COMPLETION: State = State {\n    code: \"00000\",\n    name: \"SUCCESSFUL_COMPLETION\",\n    kind: Kind::Success,\n    message: None,\n};\n";
    assert_eq!(only_entry(&reg).render(), expected);
}

#[test]
fn header_is_one_marker_line() {
    let mut out = String::from("x");
    make_header(&mut out);
    assert_eq!(out, "x// Autogenerated file - DO NOT EDIT\n");
}

#[test]
fn consts_and_lookup_in_code_order() {
    let reg = parse_errors("42601 W ERRCODE_B\n00000 S ERRCODE_A\n").unwrap();
    let mut consts = String::new();
    make_consts(&reg, &mut consts);
    assert!(consts.find("const A:").unwrap() < consts.find("const B:").unwrap());
    let mut lookup = String::new();
    make_type(&reg, &mut lookup);
    let expected = "\nimpl State {\n    /// Creates a `State` from its error code.\n    pub fn from_code(s: &str) -> State {\n        match s {\n            \"00000\" => A,\n            \"42601\" => B,\n            _ => unreachable!(),\n        }\n    }\n}\n";
    assert_eq!(lookup, expected);
}

#[test]
fn whole_output() {
    let out = generate("00000 S ERRCODE_SUCCESSFUL_COMPLETION\n").unwrap();
    let expected = "// Autogenerated file - DO NOT EDIT\n\npub const SUCCESSFUL_COMPLETION: State = State {\n    code: \"00000\",\n    name: \"SUCCESSFUL_COMPLETION\",\n    kind: Kind::Success,\n    message: None,\n};\n\nimpl State {\n    /// Creates a `State` from its error code.\n    pub fn from_code(s: &str) -> State {\n        match s {\n            \"00000\" => SUCCESSFUL_COMPLETION,\n            _ => unreachable!(),\n        }\n    }\n}\n";
    assert_eq!(out, expected);
}

#[test]
fn empty_table_lookup_keeps_blank_line() {
    let out = generate("# nothing here\n").unwrap();
    let expected = "// Autogenerated file - DO NOT EDIT\n\nimpl State {\n    /// Creates a `State` from its error code.\n    pub fn from_code(s: &str) -> State {\n        match s {\n\n            _ => unreachable!(),\n        }\n    }\n}\n";
    assert_eq!(out, expected);
}
