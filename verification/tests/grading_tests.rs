use grading::grading::{
    current_student_id, graded_answers, matrix_table, question_or_default, recorded_score,
    score_cells, score_from_input, score_input_value, GradedAnswer,
};
use grading::models::{Config, Question, Score, Student};

fn question(id: u32, name: &str, full: u32, weight: f32) -> Question {
    Question { id, name: name.to_string(), full_score: full, weight_bits: weight.to_bits(), comment: String::new() }
}

fn student(id: &str, name: &str) -> Student {
    Student { id: id.to_string(), name: name.to_string() }
}

fn score(sid: &str, qid: u32, v: Option<u32>) -> Score {
    Score { student_id: sid.to_string(), question_id: qid, score: v }
}

fn sample() -> Config {
    let mut c = Config::new();
    c.questions = vec![question(1, "Q1", 10, 1.0), question(2, "Q2", 20, 2.0)];
    c.students = vec![student("S1", "Alice"), student("S2", "Bob"), student("S3", "Carol")];
    c
}

#[test]
fn input_keeps_digits_up_to_full_score() {
    assert_eq!(score_from_input("8", 10), Some(8));
    assert_eq!(score_from_input("1a0", 10), Some(10));
    assert_eq!(score_from_input("11", 10), None);
    assert_eq!(score_from_input("", 10), None);
    assert_eq!(score_from_input("abc", 10), None);
    assert_eq!(score_from_input("99999999999", u32::MAX), None);
    assert_eq!(score_from_input("-3", 10), Some(3));
}

#[test]
fn entering_a_score_appends_then_updates() {
    let mut c = sample();
    c.enter_score_input(0, 1, "7");
    assert_eq!(c.scores, vec![score("S1", 1, Some(7))]);
    c.enter_score_input(0, 1, "9x");
    assert_eq!(c.scores, vec![score("S1", 1, Some(9))]);
    c.enter_score_input(0, 1, "50");
    assert_eq!(c.scores, vec![score("S1", 1, None)]);
    c.enter_score_input(1, 2, "20");
    assert_eq!(c.scores, vec![score("S1", 1, None), score("S2", 2, Some(20))]);
}

#[test]
fn entering_a_score_for_unknown_question_uses_stand_in() {
    let mut c = sample();
    c.enter_score_input(0, 99, "100");
    assert_eq!(c.scores, vec![score("S1", 0, Some(100))]);
    c.enter_score_input(7, 1, "3");
    assert_eq!(c.scores[1], score("", 1, Some(3)));
}

#[test]
fn read_after_write() {
    let mut c = sample();
    c.scores = vec![score("S2", 1, Some(4)), score("S1", 2, Some(5))];
    c.record_score(&"S1".to_string(), 1, Some(6));
    assert_eq!(recorded_score(&c.scores, &"S1".to_string(), 1), Some(6));
    assert_eq!(recorded_score(&c.scores, &"S2".to_string(), 1), Some(4));
    assert_eq!(recorded_score(&c.scores, &"S1".to_string(), 2), Some(5));
}

#[test]
fn last_entry_wins_in_lookup_first_entry_in_edit() {
    let scores = vec![score("S1", 1, Some(1)), score("S1", 1, Some(2))];
    assert_eq!(recorded_score(&scores, &"S1".to_string(), 1), Some(2));
    let mut c = sample();
    c.scores = scores;
    assert_eq!(score_input_value(&c, &"S1".to_string(), 1), Some("1".to_string()));
    c.record_score(&"S1".to_string(), 1, Some(3));
    assert_eq!(c.scores[0].score, Some(3));
    assert_eq!(c.scores[1].score, Some(2));
}

#[test]
fn score_field_text() {
    let mut c = sample();
    c.scores = vec![score("S1", 1, None), score("S1", 2, Some(12))];
    assert_eq!(score_input_value(&c, &"S1".to_string(), 1), Some(String::new()));
    assert_eq!(score_input_value(&c, &"S1".to_string(), 2), Some("12".to_string()));
    assert_eq!(score_input_value(&c, &"S2".to_string(), 2), None);
}

#[test]
fn stand_in_question() {
    let c = sample();
    let q = question_or_default(&c, 42);
    assert_eq!(q.id, 0);
    assert_eq!(q.name, "Unknown");
    assert_eq!(q.full_score, 100);
    assert_eq!(f32::from_bits(q.weight_bits), 1.0);
    assert_eq!(question_or_default(&c, 2).name, "Q2");
    assert_eq!(current_student_id(&c, 1), "S2");
    assert_eq!(current_student_id(&c, 3), "");
}

#[test]
fn graded_answers_need_every_score_and_positive_full() {
    let mut c = sample();
    c.scores = vec![score("S1", 1, Some(5)), score("S1", 2, Some(10)), score("S2", 1, Some(3))];
    assert_eq!(
        graded_answers(&c, &"S1".to_string()),
        Some(vec![
            GradedAnswer { score: 5, full_score: 10, weight_bits: 1.0f32.to_bits() },
            GradedAnswer { score: 10, full_score: 20, weight_bits: 2.0f32.to_bits() },
        ])
    );
    assert_eq!(graded_answers(&c, &"S2".to_string()), None);
    c.questions[0].full_score = 0;
    assert_eq!(graded_answers(&c, &"S1".to_string()), None);
}

#[test]
fn matrix_rows_and_completed_count() {
    let mut c = sample();
    c.scores = vec![score("S1", 1, Some(5)), score("S1", 2, Some(10)), score("S2", 1, Some(3))];
    assert_eq!(score_cells(&c, &"S2".to_string()), vec!["3".to_string(), String::new()]);
    let pct = vec!["50".to_string(), "x".to_string(), "y".to_string()];
    let (rows, done) = matrix_table(&c, true, &pct);
    assert_eq!(done, 1);
    assert_eq!(rows.len(), 3);
    assert_eq!(rows[0].student_id, "S1");
    assert_eq!(rows[0].student_name, "Alice");
    assert_eq!(rows[0].scores, vec!["5".to_string(), "10".to_string()]);
    assert_eq!(rows[0].final_display, "50");
    assert_eq!(rows[1].final_display, "");
    assert_eq!(rows[2].scores, vec![String::new(), String::new()]);
    let (rows, done) = matrix_table(&c, false, &pct);
    assert_eq!(done, 0);
    assert_eq!(rows[0].final_display, "");
}

#[test]
fn entering_scores_never_duplicates_a_key() {
    let mut c = sample();
    for (idx, qid, input) in [(0usize, 1u32, "3"), (1, 1, "4"), (0, 1, "5"), (0, 2, "6"), (1, 1, "x"), (2, 2, "20")] {
        c.enter_score_input(idx, qid, input);
    }
    for i in 0..c.scores.len() {
        for j in (i + 1)..c.scores.len() {
            let (a, b) = (&c.scores[i], &c.scores[j]);
            assert!(!(a.student_id == b.student_id && a.question_id == b.question_id));
        }
    }
    assert_eq!(recorded_score(&c.scores, &"S1".to_string(), 1), Some(5));
    assert_eq!(recorded_score(&c.scores, &"S2".to_string(), 1), None);
    assert_eq!(score_input_value(&c, &"S3".to_string(), 2), Some("20".to_string()));
}

#[test]
fn graded_answers_ignore_other_students_entries() {
    let entry = |sid: &str, qid: u32, v: Option<u32>| Score { student_id: sid.to_string(), question_id: qid, score: v };
    let mut a = Config::new();
    a.questions = vec![question(1, "Q1", 10, 1.0), question(2, "Q2", 20, 2.0)];
    a.students = vec![student("S1", "A"), student("S2", "B")];
    a.scores = vec![entry("S1", 1, Some(7)), entry("S2", 1, Some(3)), entry("S1", 2, Some(15))];
    let mut b = a.clone();
    b.scores = vec![entry("S2", 2, None), entry("S1", 1, Some(7)), entry("S1", 2, Some(15)), entry("S2", 1, Some(9))];
    b.students = vec![student("S1", "A")];
    let s1 = "S1".to_string();
    let expected = Some(vec![
        GradedAnswer { score: 7, full_score: 10, weight_bits: 1.0f32.to_bits() },
        GradedAnswer { score: 15, full_score: 20, weight_bits: 2.0f32.to_bits() },
    ]);
    assert_eq!(graded_answers(&a, &s1), expected);
    assert_eq!(graded_answers(&b, &s1), expected);
    let s2 = "S2".to_string();
    assert_eq!(graded_answers(&a, &s2), None);
    assert_eq!(graded_answers(&b, &s2), None);
}
