use yagg::diff::diff_grades;
use yagg::format::parse_new_grades_message;
use yagg::models::Course;
use yagg::models::Grade;
use yagg::snapshot::encode_snapshot;
use yagg::snapshot::load_baseline;

fn grade(value: &str, category: &str, name: &str) -> Grade {
    Grade {
        value: value.to_string(),
        category: category.to_string(),
        average: "-".to_string(),
        name: name.to_string(),
    }
}

#[test]
fn two_runs_over_the_snapshot_store() {
    // First run: no snapshot file yet, so nothing is reported, but the
    // snapshot is written with the fetched data in full.
    let fetched = vec![Course {
        name: "Math".to_string(),
        grades: vec![grade("5.5", "cours", "Exam")],
    }];
    let baseline = load_baseline(None).expect("missing file is fine");
    assert!(baseline.is_none());
    let changes = diff_grades(baseline.as_ref(), &fetched);
    assert!(changes.is_empty());
    let stored = encode_snapshot(&fetched);

    // Second run: the identical report yields no changes.
    let baseline = load_baseline(Some(&stored)).expect("snapshot must decode");
    assert_eq!(baseline.as_ref(), Some(&fetched));
    let changes = diff_grades(baseline.as_ref(), &fetched);
    assert!(changes.is_empty());

    // Third run: one new grade arrives and is reported.
    let fresh = vec![Course {
        name: "Math".to_string(),
        grades: vec![grade("5.5", "cours", "Exam"), grade("4.0", "laboratoire", "Labo")],
    }];
    let baseline = load_baseline(Some(&stored)).expect("snapshot must decode");
    let changes = diff_grades(baseline.as_ref(), &fresh);
    assert_eq!(changes.len(), 1);
    assert_eq!(changes[0].grade, "4.0");
    let message = parse_new_grades_message(changes);
    assert!(message.contains("🔬 New grade in laboratoire for Math (Labo) : 4.0"));
}
