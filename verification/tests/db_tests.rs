use grading::db::{
    like_pattern, question_from_form, validate_question, validate_student, FormProblem, QuestionProblem,
    QuestionRow, StudentProblem, StudentRow,
};

fn qrow(name: &str, weight: f32) -> QuestionRow {
    QuestionRow { id: 1, name: name.to_string(), full_score: 10, weight_bits: weight.to_bits(), comment: String::new() }
}

#[test]
fn question_checks() {
    assert_eq!(validate_question(&qrow("Q1", 1.0)), Ok(()));
    assert_eq!(validate_question(&qrow("  ", 1.0)), Err(QuestionProblem::NameEmpty));
    assert_eq!(validate_question(&qrow(" ", -1.0)), Err(QuestionProblem::NameEmpty));
    assert_eq!(validate_question(&qrow("Q", -0.5)), Err(QuestionProblem::WeightNegative));
    assert_eq!(validate_question(&qrow("Q", f32::NEG_INFINITY)), Err(QuestionProblem::WeightNegative));
    assert_eq!(validate_question(&qrow("Q", -0.0)), Ok(()));
    assert_eq!(validate_question(&qrow("Q", f32::NAN)), Ok(()));
    assert_eq!(validate_question(&qrow("Q", 0.0)), Ok(()));
}

#[test]
fn weight_bits_agree_with_float_comparison() {
    for w in [-3.5f32, -0.0, 0.0, 1e-40, -1e-40, f32::INFINITY, f32::NEG_INFINITY, f32::NAN, -f32::NAN] {
        let refused = validate_question(&qrow("Q", w)) == Err(QuestionProblem::WeightNegative);
        assert_eq!(refused, w < 0.0, "weight {:?}", w);
    }
}

#[test]
fn student_checks() {
    let s = |id: &str, name: &str| StudentRow { id: id.to_string(), name: name.to_string() };
    assert_eq!(validate_student(&s("S1", "A")), Ok(()));
    assert_eq!(validate_student(&s(" ", "")), Err(StudentProblem::IdEmpty));
    assert_eq!(validate_student(&s("S1", "\t")), Err(StudentProblem::NameEmpty));
    assert_eq!(StudentProblem::IdEmpty.message(), "student.id is empty");
    assert_eq!(QuestionProblem::WeightNegative.message(), "question.weight < 0");
}

#[test]
fn search_pattern() {
    assert_eq!(like_pattern("ab"), "%ab%");
    assert_eq!(like_pattern(""), "%%");
}

#[test]
fn question_form() {
    let w = Some(1.5f32.to_bits());
    let row = question_from_form(" 3 ", " Q3 ", " 10 ", w, " note ").unwrap();
    assert_eq!(row, QuestionRow { id: 3, name: "Q3".into(), full_score: 10, weight_bits: 1.5f32.to_bits(), comment: "note".into() });
    assert_eq!(question_from_form("3", "Q", "ten", w, ""), Err(FormProblem::FullScoreNotInteger));
    assert_eq!(question_from_form("3", "Q", "10", None, ""), Err(FormProblem::WeightNotNumber));
    assert_eq!(question_from_form("Q3", "Q", "10", w, ""), Err(FormProblem::IdNotInteger));
    assert_eq!(question_from_form("x", "Q", "x", None, ""), Err(FormProblem::FullScoreNotInteger));
    assert_eq!(FormProblem::FullScoreNotInteger.message(), "full_score は整数で入力してください");
}
