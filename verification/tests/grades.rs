//! Tests of the grade and student processing: pseudonymization of the
//! identifying codes, grouping, indexing and collection building.

use backboard::cryptography::hash;
use backboard::grades_processor::{
    build_grade_collection, group_grades_by_hashed_code, index_students_by_hashed_code,
    BackboardGrade, BackboardStudent, BackboardUser,
};

fn grade(om_code: &str, subject: &str, school_class: Option<&str>) -> BackboardGrade {
    BackboardGrade {
        student_name: String::from("Minta Diák"),
        school_class: school_class.map(String::from),
        om_code: String::from(om_code),
        subject_category: String::from("category"),
        subject: String::from(subject),
        group: String::from("group"),
        teacher: Some(String::from("Minta Tanár")),
        theme: String::from("theme"),
        kind: Some(String::from("kind")),
        text_grade: String::from("Jeles(5)"),
        grade: Some(String::from("5")),
        short_text_grade: String::from(""),
        behavior_grade: String::from(""),
        diligence_grade: String::from(""),
        create_date: String::from("2024. 01. 01."),
        record_date: String::from("2024. 01. 02."),
    }
}

fn student(om_code: &str, name: &str, class: &str) -> BackboardStudent {
    BackboardStudent {
        name: String::from(name),
        om_code: String::from(om_code),
        class: String::from(class),
    }
}

fn user() -> BackboardUser {
    BackboardUser {
        id: String::from("42"),
        public_key: String::from("pk"),
        om_code_hashed: hash("1234567A89"),
    }
}

#[test]
fn hashed_om_code_hashes_and_clears() {
    let mut g = grade("1234567A89", "maths", None);
    let hashed = g.hashed_om_code();
    assert_eq!(hashed, hash("1234567A89"));
    assert_eq!(g.om_code, "");
    assert_eq!(g.subject, "maths");

    let mut s = student("1234567A89", "Minta Diák", "11.F");
    let hashed = s.hashed_om_code();
    assert_eq!(hashed, hash("1234567A89"));
    assert_eq!(s.om_code, "");
    assert_eq!(s.class, "11.F");
}

#[test]
fn grades_group_under_the_hashed_code_in_order() {
    let grades = vec![
        grade("1234567A89", "maths", None),
        grade("7654321B98", "history", None),
        grade("1234567A89", "physics", None),
    ];
    let groups = group_grades_by_hashed_code(grades);
    assert_eq!(groups.len(), 2);
    assert_eq!(groups[0].0, hash("1234567A89"));
    assert_eq!(groups[1].0, hash("7654321B98"));
    assert_eq!(groups[0].1.len(), 2);
    assert_eq!(groups[0].1[0].subject, "maths");
    assert_eq!(groups[0].1[1].subject, "physics");
    assert_eq!(groups[1].1.len(), 1);
    assert_eq!(groups[1].1[0].subject, "history");
    for (_, members) in &groups {
        for member in members {
            assert_eq!(member.om_code, "");
        }
    }
}

#[test]
fn grouping_nothing_gives_nothing() {
    let groups = group_grades_by_hashed_code(Vec::new());
    assert!(groups.is_empty());
}

#[test]
fn students_index_keeps_the_last_row_per_code() {
    let students = vec![
        student("1234567A89", "Minta Diák", "11.F"),
        student("7654321B98", "Próba Tanuló", "10.A"),
        student("1234567A89", "Minta Diák", "12.F"),
    ];
    let index = index_students_by_hashed_code(students);
    assert_eq!(index.len(), 2);
    assert_eq!(index[0].0, hash("1234567A89"));
    assert_eq!(index[0].1.class, "12.F");
    assert_eq!(index[0].1.om_code, "");
    assert_eq!(index[1].0, hash("7654321B98"));
    assert_eq!(index[1].1.class, "10.A");
}

#[test]
fn collection_prefers_the_student_index() {
    let grades = vec![grade("1234567A89", "maths", Some("9.C"))];
    let collection = build_grade_collection(
        grades,
        Some(student("", "Minta Diák", "11.F")),
        user(),
    );
    assert_eq!(collection.student_name, "Minta Diák");
    assert_eq!(collection.school_class.as_deref(), Some("11.F"));
    assert_eq!(collection.grades.len(), 1);
    assert_eq!(collection.user.id, "42");
}

#[test]
fn collection_falls_back_to_the_grades() {
    let grades = vec![
        grade("", "maths", None),
        grade("", "history", Some("11.F")),
        grade("", "physics", Some("12.F")),
    ];
    let collection = build_grade_collection(grades, None, user());
    assert_eq!(collection.student_name, "Minta Diák");
    assert_eq!(collection.school_class.as_deref(), Some("11.F"));

    let classless = vec![grade("", "maths", None)];
    let collection = build_grade_collection(classless, None, user());
    assert_eq!(collection.school_class, None);
}
