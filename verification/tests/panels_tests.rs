use grading::models::{Config, Question, Student};
use grading::panels::{
    character_hotkey, comment_panel_texts, next_focus, next_student_index, prev_focus,
    prev_student_index, selection_down, selection_enter, selection_up, student_label, GradingHotkey,
};

#[test]
fn moving_between_students_stays_in_range() {
    assert_eq!(prev_student_index(0), 0);
    assert_eq!(prev_student_index(3), 2);
    assert_eq!(next_student_index(0, 3), 1);
    assert_eq!(next_student_index(2, 3), 2);
    assert_eq!(next_student_index(5, 3), 2);
    assert_eq!(next_student_index(0, 0), 0);
}

#[test]
fn moving_between_score_fields() {
    assert_eq!(next_focus(0, 3), 1);
    assert_eq!(next_focus(2, 3), 3);
    assert_eq!(next_focus(3, 3), 3);
    assert_eq!(prev_focus(0), 0);
    assert_eq!(prev_focus(2), 1);
}

#[test]
fn search_list_selection() {
    assert_eq!(selection_down(0, 3), 1);
    assert_eq!(selection_down(2, 3), 2);
    assert_eq!(selection_down(4, 0), 4);
    assert_eq!(selection_up(0), 0);
    assert_eq!(selection_up(2), 1);
    assert_eq!(selection_enter(1, 3), Some(1));
    assert_eq!(selection_enter(7, 3), Some(2));
    assert_eq!(selection_enter(0, 0), None);
}

#[test]
fn character_hotkeys() {
    assert_eq!(character_hotkey("f"), Some(GradingHotkey::OpenSearch));
    assert_eq!(character_hotkey("F"), Some(GradingHotkey::OpenSearch));
    assert_eq!(character_hotkey("j"), Some(GradingHotkey::PreviousStudent));
    assert_eq!(character_hotkey("L"), Some(GradingHotkey::NextStudent));
    assert_eq!(character_hotkey("x"), None);
    assert_eq!(character_hotkey("ff"), None);
    assert_eq!(character_hotkey(""), None);
}

#[test]
fn label_of_current_student() {
    let mut c = Config::new();
    c.students = vec![Student { id: "S1".into(), name: "Alice".into() }];
    assert_eq!(student_label(&c, 0), "S1 Alice");
    assert_eq!(student_label(&c, 1), "No student");
}

#[test]
fn comment_panel_reads_and_writes_the_focused_question() {
    let mut c = Config::new();
    c.questions = vec![
        Question { id: 3, name: "Q3".into(), full_score: 5, weight_bits: 0, comment: "old".into() },
        Question { id: 3, name: "dup".into(), full_score: 5, weight_bits: 0, comment: "other".into() },
    ];
    assert_eq!(comment_panel_texts(&c, Some(3)), ("old".to_string(), "Q3".to_string()));
    assert_eq!(comment_panel_texts(&c, Some(4)), (String::new(), "（問題未選択）".to_string()));
    assert_eq!(comment_panel_texts(&c, None), (String::new(), "（問題未選択）".to_string()));
    c.set_question_comment(Some(3), "new".to_string());
    assert_eq!(c.questions[0].comment, "new");
    assert_eq!(c.questions[1].comment, "other");
    c.set_question_comment(None, "ignored".to_string());
    c.set_question_comment(Some(9), "ignored".to_string());
    assert_eq!(c.questions[0].comment, "new");
}
