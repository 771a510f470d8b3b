use grading::models::{Config, Student};
use grading::students::{next_student_id, position_of_student, search_students};

fn st(id: &str, name: &str) -> Student {
    Student { id: id.to_string(), name: name.to_string() }
}

#[test]
fn first_student_is_s1() {
    assert_eq!(next_student_id(&vec![]), "S1");
}

#[test]
fn ids_count_up_from_the_last() {
    assert_eq!(next_student_id(&vec![st("S1", ""), st("S9", "")]), "S10");
    assert_eq!(next_student_id(&vec![st("S009", "")]), "S10");
    assert_eq!(next_student_id(&vec![st("ID", "")]), "ID1");
    assert_eq!(next_student_id(&vec![st("A12B", "")]), "A1");
    assert_eq!(next_student_id(&vec![st("X4294967295", "")]), "X4294967295");
    assert_eq!(next_student_id(&vec![st("", "")]), "1");
}

#[test]
fn roster_edits() {
    let mut c = Config::new();
    c.add_student_row();
    c.add_student_row();
    assert_eq!(c.students, vec![st("S1", ""), st("S2", "")]);
    c.set_student_name(1, "Bob".to_string());
    c.set_student_id(0, "A7".to_string());
    assert_eq!(c.students, vec![st("A7", ""), st("S2", "Bob")]);
    c.remove_student(5);
    assert_eq!(c.students.len(), 2);
    c.remove_student(0);
    assert_eq!(c.students, vec![st("S2", "Bob")]);
    c.replace_students(vec![st("Z1", "Zed")]);
    assert_eq!(c.students, vec![st("Z1", "Zed")]);
    c.clear_students();
    assert!(c.students.is_empty());
}

#[test]
fn search_matches_id_case_insensitively_and_name_exactly() {
    let roster = vec![st("b002", "山田太郎"), st("A001", "Alice"), st("a010", "bob"), st("C003", "Ab")];
    let ids = |v: Vec<Student>| v.into_iter().map(|s| s.id).collect::<Vec<_>>();
    assert_eq!(ids(search_students(&roster, " a0 ")), vec!["A001", "a010"]);
    assert_eq!(ids(search_students(&roster, "太郎")), vec!["b002"]);
    assert_eq!(ids(search_students(&roster, "b")), vec!["C003", "a010", "b002"]);
    assert_eq!(ids(search_students(&roster, "A")), vec!["A001", "C003", "a010"]);
    assert!(search_students(&roster, "   ").is_empty());
    assert!(search_students(&roster, "zzz").is_empty());
}

#[test]
fn search_keeps_at_most_thirty_in_roster_order() {
    let roster: Vec<Student> = (0..40).rev().map(|i| st(&format!("S{:02}", i), "x")).collect();
    let found = search_students(&roster, "S");
    assert_eq!(found.len(), 30);
    assert_eq!(found[0].id, "S10");
    assert_eq!(found[29].id, "S39");
}

#[test]
fn position_of_first_matching_id() {
    let roster = vec![st("S1", "a"), st("S2", "b"), st("S2", "c")];
    assert_eq!(position_of_student(&roster, &"S2".to_string()), Some(1));
    assert_eq!(position_of_student(&roster, &"S9".to_string()), None);
}
