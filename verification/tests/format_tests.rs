use yagg::format::parse_new_grades_message;
use yagg::models::GradeDiff;

fn change(course: &str, category: &str, grade: &str, name: &str) -> GradeDiff {
    GradeDiff {
        course: course.to_string(),
        category: category.to_string(),
        grade: grade.to_string(),
        average: "-".to_string(),
        name: name.to_string(),
    }
}

#[test]
fn message_is_exact() {
    let diffs = vec![
        change("Math", "laboratoire", "5.0", "Labo 1"),
        change("Phys", "cours", "4.5", ""),
    ];
    let message = parse_new_grades_message(diffs);
    assert_eq!(
        message,
        "📚 New Grades Available! 📚\n\n\
         🔬 New grade in laboratoire for Math (Labo 1) : 5.0\n\
         📖 New grade in cours for Phys : 4.5\n\
         \nKeep up the excellence! 🚀"
    );
}

#[test]
fn formatting_twice_is_byte_identical() {
    let diffs = vec![
        change("Math", "cours", "5.5", "Exam"),
        change("Algo", "projet", "6.0", "Rendu"),
    ];
    let first = parse_new_grades_message(diffs.clone());
    let second = parse_new_grades_message(diffs);
    assert_eq!(first.as_bytes(), second.as_bytes());
}

#[test]
fn marker_depends_on_category_alone() {
    let lab = parse_new_grades_message(vec![change("X", "laboratoire", "1", "")]);
    let other = parse_new_grades_message(vec![change("X", "autre", "1", "")]);
    assert!(lab.contains("🔬"));
    assert!(!lab.contains("📖"));
    assert!(other.contains("📖"));
    assert!(!other.contains("🔬"));
}

#[test]
fn empty_change_list_is_skipped_by_the_caller() {
    // The caller-side precondition: a run with no changes sends nothing, so
    // the formatter is only reached through a non-emptiness check.
    let changes: Vec<GradeDiff> = Vec::new();
    let notified = if changes.is_empty() {
        None
    } else {
        Some(parse_new_grades_message(changes))
    };
    assert_eq!(notified, None);
}
