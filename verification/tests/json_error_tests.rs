use grading::json_error::{compose_json_error, format_json_error, JsonErrorCategory};
use grading::models::{Config, SaveTarget};

#[test]
fn message_with_position_shows_line_and_caret() {
    let src = "{\r\n  \"a\": tru\n}";
    let m = compose_json_error(src, JsonErrorCategory::Syntax, 2, 8, "expected value");
    assert_eq!(m, "JSON syntax error at line 2, column 8: expected value\n  \"a\": tru\n       ^\n");
}

#[test]
fn data_errors_get_a_hint() {
    let m = compose_json_error("x", JsonErrorCategory::Data, 1, 1, "missing field `students`");
    assert_eq!(
        m,
        "JSON structure/type mismatch at line 1, column 1: missing field `students`\nx\n^\nHint: field name misspelled? wrong type? missing field?"
    );
}

#[test]
fn message_without_position() {
    assert_eq!(compose_json_error("", JsonErrorCategory::Io, 0, 0, "oops"), "JSON parse error: oops\n");
    let m = compose_json_error("a\nb", JsonErrorCategory::Eof, 5, 0, "eof");
    assert_eq!(m, "Unexpected end of file at line 5, column 0: eof\n\n^\n");
}

#[test]
fn message_for_a_real_parse_error() {
    let src = "{\n  \"x\": [1,\n";
    let e = serde_json::from_str::<serde_json::Value>(src).unwrap_err();
    let expected = format!(
        "Unexpected end of file at line {}, column {}: {}\n",
        e.line(),
        e.column(),
        e
    );
    let m = format_json_error(src, &e);
    assert!(m.starts_with(&expected), "{}", m);
}

#[test]
fn empty_session_and_save_target() {
    let mut c = Config::new();
    assert!(c.questions.is_empty() && c.students.is_empty() && c.scores.is_empty() && c.ratings.is_empty());
    assert_eq!(c.save_target(), SaveTarget::ChooseFile);
    c.set_save_path("/tmp/s.json".to_string());
    assert_eq!(c.save_target(), SaveTarget::Path("/tmp/s.json".to_string()));
}

#[test]
fn message_takes_line_column_and_text_from_the_error() {
    let src = "{\n  \"a\": 1,\n  \"b\": trux\n}";
    let e = serde_json::from_str::<serde_json::Value>(src).unwrap_err();
    assert_eq!(e.line(), 3);
    assert_ne!(e.line(), e.column());
    let expected = format!(
        "JSON syntax error at line 3, column {}: {}\n  \"b\": trux\n{}^\n",
        e.column(),
        e,
        " ".repeat(e.column() - 1)
    );
    assert_eq!(format_json_error(src, &e), expected);
}

#[test]
fn io_error_message_has_no_position() {
    let io = std::io::Error::new(std::io::ErrorKind::Other, "disk gone");
    let e = serde_json::Error::io(io);
    assert_eq!(format_json_error("{}", &e), format!("JSON parse error: {}\n", e));
}
