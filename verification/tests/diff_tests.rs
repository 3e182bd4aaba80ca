use yagg::diff::diff_count_based;
use yagg::diff::diff_grades;
use yagg::diff::diff_identity_based;
use yagg::models::Course;
use yagg::models::Grade;

fn grade(value: &str, category: &str, average: &str, name: &str) -> Grade {
    Grade {
        value: value.to_string(),
        category: category.to_string(),
        average: average.to_string(),
        name: name.to_string(),
    }
}

fn course(name: &str, grades: Vec<Grade>) -> Course {
    Course { name: name.to_string(), grades }
}

#[test]
fn first_run_suppresses_all_changes() {
    let fetched = vec![course("X", vec![grade("5.5", "cours", "-", "Exam")])];
    let changes = diff_grades(None, &fetched);
    assert!(changes.is_empty());
}

#[test]
fn rerun_with_unchanged_source_is_silent() {
    let fetched = vec![
        course("X", vec![grade("5.5", "cours", "4.9", "Exam"), grade("4.0", "laboratoire", "-", "Lab 1")]),
        course("Y", vec![grade("3.5", "projet", "-", "Report")]),
    ];
    let changes = diff_grades(Some(&fetched), &fetched);
    assert!(changes.is_empty());
}

#[test]
fn rerun_without_names_is_silent_too() {
    let fetched = vec![course("X", vec![grade("A", "lab", "-", ""), grade("A", "lab", "-", "")])];
    let changes = diff_grades(Some(&fetched), &fetched);
    assert!(changes.is_empty());
}

#[test]
fn count_based_reports_duplicate_grade_once() {
    let baseline = vec![course("X", vec![grade("A", "lab", "-", "")])];
    let fetched = vec![course("X", vec![grade("A", "lab", "-", ""), grade("A", "lab", "-", "")])];
    let changes = diff_grades(Some(&baseline), &fetched);
    assert_eq!(changes.len(), 1);
    assert_eq!(changes[0].course, "X");
    assert_eq!(changes[0].category, "lab");
    assert_eq!(changes[0].grade, "A");
}

#[test]
fn count_based_ignores_decreases() {
    let baseline = vec![course("X", vec![grade("A", "lab", "-", ""), grade("A", "lab", "-", "")])];
    let fetched = vec![course("X", vec![grade("A", "lab", "-", "")])];
    let changes = diff_count_based(&baseline, &fetched);
    assert!(changes.is_empty());
}

#[test]
fn identity_based_reports_updated_value() {
    let baseline = vec![course("X", vec![grade("4.0", "cours", "-", "Midterm")])];
    let fetched = vec![course("X", vec![grade("4.5", "cours", "-", "Midterm")])];
    let changes = diff_grades(Some(&baseline), &fetched);
    assert_eq!(changes.len(), 1);
    assert_eq!(changes[0].grade, "4.5");
    assert_eq!(changes[0].name, "Midterm");
}

#[test]
fn identity_based_is_silent_on_identical_entry() {
    let baseline = vec![course("X", vec![grade("4.0", "cours", "-", "Midterm")])];
    let fetched = vec![course("X", vec![grade("4.0", "cours", "-", "Midterm")])];
    let changes = diff_identity_based(&baseline, &fetched);
    assert!(changes.is_empty());
}

#[test]
fn new_course_contributes_every_entry() {
    let baseline = vec![course("Old", vec![grade("4.0", "cours", "-", "Exam")])];
    let fetched = vec![
        course("Old", vec![grade("4.0", "cours", "-", "Exam")]),
        course(
            "New",
            vec![
                grade("5.0", "cours", "-", "Test 1"),
                grade("5.5", "laboratoire", "-", "Lab 1"),
                grade("6.0", "laboratoire", "-", "Lab 2"),
            ],
        ),
    ];
    let changes = diff_grades(Some(&baseline), &fetched);
    assert_eq!(changes.len(), 3);
    assert!(changes.iter().all(|c| c.course == "New"));
    assert_eq!(changes[0].grade, "5.0");
    assert_eq!(changes[1].grade, "5.5");
    assert_eq!(changes[2].grade, "6.0");
}

#[test]
fn new_course_contributes_every_entry_count_based() {
    let baseline = vec![course("Old", vec![grade("4.0", "cours", "-", "")])];
    let fetched = vec![
        course("Old", vec![grade("4.0", "cours", "-", "")]),
        course("New", vec![grade("5.0", "cours", "-", ""), grade("5.0", "cours", "-", "")]),
    ];
    let changes = diff_count_based(&baseline, &fetched);
    assert_eq!(changes.len(), 2);
    assert!(changes.iter().all(|c| c.course == "New"));
}

#[test]
fn identity_entry_new_within_known_course() {
    let baseline = vec![course("X", vec![grade("4.0", "cours", "-", "Midterm")])];
    let fetched = vec![
        course(
            "X",
            vec![grade("4.0", "cours", "-", "Midterm"), grade("5.0", "cours", "-", "Final")],
        ),
    ];
    let changes = diff_identity_based(&baseline, &fetched);
    assert_eq!(changes.len(), 1);
    assert_eq!(changes[0].name, "Final");
    assert_eq!(changes[0].grade, "5.0");
}

#[test]
fn same_name_different_category_is_new() {
    let baseline = vec![course("X", vec![grade("4.0", "cours", "-", "Test 1")])];
    let fetched = vec![
        course(
            "X",
            vec![grade("4.0", "cours", "-", "Test 1"), grade("4.0", "laboratoire", "-", "Test 1")],
        ),
    ];
    let changes = diff_identity_based(&baseline, &fetched);
    assert_eq!(changes.len(), 1);
    assert_eq!(changes[0].category, "laboratoire");
}
