use grading::json_error::format_json_error;
use grading::models::{Config, Rating, Student};
use grading::session::screen_loaded_text;

#[test]
fn undecodable_file_is_reported() {
    let m = screen_loaded_text(&Err("invalid utf-8 sequence of 1 bytes from index 0".to_string()));
    assert_eq!(m, Some("Invalid UTF-8: invalid utf-8 sequence of 1 bytes from index 0".to_string()));
}

#[test]
fn blank_file_is_empty() {
    assert_eq!(screen_loaded_text(&Ok(String::new())), Some("Empty file.".to_string()));
    assert_eq!(screen_loaded_text(&Ok(" \n\t\r\n".to_string())), Some("Empty file.".to_string()));
    assert_eq!(screen_loaded_text(&Ok("{}".to_string())), None);
    assert_eq!(screen_loaded_text(&Ok(" x ".to_string())), None);
}

fn session_with(name: &str) -> Config {
    let mut c = Config::new();
    c.students.push(Student { id: "S1".to_string(), name: name.to_string() });
    c.ratings.push(Rating { label: "A".to_string(), min_score: 80 });
    c
}

#[test]
fn parsed_session_replaces_the_current_one_and_remembers_its_file() {
    let mut current = session_with("Old");
    current.save_path = Some("/old.json".to_string());
    let mut loaded = session_with("New");
    loaded.save_path = Some("/elsewhere.json".to_string());
    let m = current.finish_load("{}", Ok(loaded.clone()), "/picked.json".to_string());
    assert_eq!(m, "Loaded.");
    assert_eq!(current.students, loaded.students);
    assert_eq!(current.ratings, loaded.ratings);
    assert_eq!(current.save_path, Some("/picked.json".to_string()));
}

#[test]
fn parse_error_keeps_the_session_and_explains() {
    let mut current = session_with("Old");
    let before = current.clone();
    let txt = "{\n  \"students\": [\n";
    let e = serde_json::from_str::<serde_json::Value>(txt).unwrap_err();
    let expected = format_json_error(txt, &e);
    let e = serde_json::from_str::<serde_json::Value>(txt).unwrap_err();
    let m = current.finish_load(txt, Err(e), "/picked.json".to_string());
    assert_eq!(m, expected);
    assert!(m.starts_with("Unexpected end of file at line"));
    assert_eq!(current, before);
}
