use grading::csv_import::{
    preview_questions, preview_students, questions_from_records, read_csv_records, read_students_csv_bytes,
    students_from_records,
    CsvField, CsvImportError, RecordProblem,
};
use grading::db::{QuestionRow, StudentRow};

#[test]
fn students_from_csv() {
    let rows = read_students_csv_bytes(b"id,name\n S1 , Alice \nS2,Bob\n").unwrap();
    assert_eq!(
        rows,
        vec![
            StudentRow { id: "S1".into(), name: "Alice".into() },
            StudentRow { id: "S2".into(), name: "Bob".into() },
        ]
    );
    assert_eq!(read_students_csv_bytes(b"id,name\n").unwrap(), vec![]);
}

#[test]
fn student_csv_with_a_short_header_lacks_a_name() {
    let e = read_students_csv_bytes(b"id\nS1\n").unwrap_err();
    assert_eq!(e.problem, RecordProblem::Missing(CsvField::Name));
    assert_eq!(e.line, 2);
    assert_eq!(e.message(), "missing name");
}

#[test]
fn unreadable_record_reports_its_line() {
    let e = read_students_csv_bytes(b"id,name\nS1,A\nS2,B,extra\n").unwrap_err();
    assert_eq!(e.problem, RecordProblem::Unreadable);
    assert_eq!(e.line, 3);
    assert!(!e.detail.is_empty());
    assert!(e.message().starts_with("csv read error at line 3: "));
}

fn weights(records: &Vec<Result<Vec<String>, String>>) -> Vec<Result<u32, String>> {
    records
        .iter()
        .map(|r| match r.as_ref().ok().and_then(|f| f.get(3)) {
            Some(w) => w.parse::<f64>().map(|w| (w as f32).to_bits()).map_err(|e| e.to_string()),
            None => Err(String::new()),
        })
        .collect()
}

#[test]
fn questions_from_csv() {
    let records = read_csv_records(b"id,name,full_score,weight,comment\n1,Q1,10,1.5,easy\n2, Q2 ,20,2,\n");
    let rows = questions_from_records(&records, &weights(&records)).unwrap();
    assert_eq!(
        rows,
        vec![
            QuestionRow { id: 1, name: "Q1".into(), full_score: 10, weight_bits: 1.5f32.to_bits(), comment: "easy".into() },
            QuestionRow { id: 2, name: "Q2".into(), full_score: 20, weight_bits: 2.0f32.to_bits(), comment: String::new() },
        ]
    );
}

#[test]
fn question_record_problems_in_field_order() {
    let bad = |text: &[u8]| {
        let records = read_csv_records(text);
        questions_from_records(&records, &weights(&records)).unwrap_err()
    };
    let e = bad(b"id,name,full_score,weight,comment\n1,Q1,ten,x,c\n");
    assert_eq!((e.problem, e.line), (RecordProblem::Invalid(CsvField::FullScore), 2));
    assert_eq!(e.message(), "invalid full_score at line 2: invalid digit found in string");
    let e = bad(b"id,name,full_score,weight,comment\n1,Q1,10,1,c\n2,Q2,5,heavy,c\n");
    assert_eq!((e.problem, e.line), (RecordProblem::Invalid(CsvField::Weight), 3));
    assert_eq!(e.message(), "invalid weight at line 3: invalid float literal");
    let e = bad(b"id,name,full_score,weight,comment\nQ1,Q1,10,1,c\n");
    assert_eq!(e.problem, RecordProblem::Invalid(CsvField::Id));
    assert_eq!(e.message(), "invalid id at line 2: invalid digit found in string");
    let e = bad(b"id,name,full_score,weight,comment\n1,Q1,4294967296,1,c\n");
    assert_eq!(e.message(), "invalid full_score at line 2: number too large to fit in target type");
    let e = bad(b"id,name,full_score,weight,comment\n,Q1,10,1,c\n");
    assert_eq!(e.message(), "invalid id at line 2: cannot parse integer from empty string");
    let e = bad(b"id,name,full_score,weight,comment\n1,Q1,10,,c\n");
    assert_eq!(e.message(), "invalid weight at line 2: cannot parse float from empty string");
    let e = bad(b"id,name,full_score,weight\n1,Q1,10,1\n");
    assert_eq!(e.problem, RecordProblem::Missing(CsvField::Comment));
    assert_eq!(e.message(), "");
    let e = bad(b"id,name,full_score\n1,Q1,10\n");
    assert_eq!(e.problem, RecordProblem::Missing(CsvField::Weight));
    assert_eq!(e.message(), "missing weight");
}

#[test]
fn import_error_messages() {
    let e = CsvImportError { problem: RecordProblem::Missing(CsvField::FullScore), line: 4, detail: String::new() };
    assert_eq!(e.message(), "missing full_score");
    let e = CsvImportError { problem: RecordProblem::Unreadable, line: 12, detail: "boom".into() };
    assert_eq!(e.message(), "csv read error at line 12: boom");
    let e = CsvImportError { problem: RecordProblem::Invalid(CsvField::Id), line: 7, detail: "why".into() };
    assert_eq!(e.message(), "invalid id at line 7: why");
}

#[test]
fn previews_take_the_first_rows() {
    let s: Vec<StudentRow> = (0..7).map(|i| StudentRow { id: format!("S{}", i), name: String::new() }).collect();
    assert_eq!(preview_students(&s, 5), s[..5].to_vec());
    assert_eq!(preview_students(&s, 50), s);
    assert_eq!(preview_students(&s, 0), vec![]);
    let q = vec![QuestionRow { id: 1, name: "Q".into(), full_score: 1, weight_bits: 0, comment: String::new() }];
    assert_eq!(preview_questions(&q, 5), q);
}

#[test]
fn record_problems_of_hand_made_records() {
    let rec = |fields: &[&str]| -> Result<Vec<String>, String> { Ok(fields.iter().map(|f| f.to_string()).collect()) };
    let e = students_from_records(&vec![rec(&["S1", "A"]), rec(&[])]).unwrap_err();
    assert_eq!((e.problem, e.line), (RecordProblem::Missing(CsvField::Id), 3));
    assert_eq!(e.message(), "missing id");
    let e = students_from_records(&vec![Err("bad bytes".to_string())]).unwrap_err();
    assert_eq!((e.problem, e.line, e.detail.as_str()), (RecordProblem::Unreadable, 2, "bad bytes"));
    let one = vec![rec(&["7"])];
    let e = questions_from_records(&one, &vec![Err(String::new())]).unwrap_err();
    assert_eq!(e.problem, RecordProblem::Missing(CsvField::Name));
    let two = vec![rec(&["7", "Q"])];
    let e = questions_from_records(&two, &vec![Err(String::new())]).unwrap_err();
    assert_eq!(e.problem, RecordProblem::Missing(CsvField::FullScore));
    let bad_id = vec![rec(&["-7", "Q", "1", "1", ""])];
    let e = questions_from_records(&bad_id, &vec![Ok(0)]).unwrap_err();
    assert_eq!((e.problem, e.line), (RecordProblem::Invalid(CsvField::Id), 2));
    assert_eq!(e.message(), "invalid id at line 2: invalid digit found in string");
    let bad_weight = vec![rec(&["7", "Q", "1", "w", ""])];
    let e = questions_from_records(&bad_weight, &vec![Err("not a number".to_string())]).unwrap_err();
    assert_eq!((e.problem, e.detail.as_str()), (RecordProblem::Invalid(CsvField::Weight), "not a number"));
    assert_eq!(e.message(), "invalid weight at line 2: not a number");
}
