use yagg::error::GradeError;
use yagg::models::Course;
use yagg::models::Grade;
use yagg::snapshot::decode_snapshot;
use yagg::snapshot::encode_snapshot;
use yagg::snapshot::load_baseline;

fn grade(value: &str, category: &str, average: &str, name: &str) -> Grade {
    Grade {
        value: value.to_string(),
        category: category.to_string(),
        average: average.to_string(),
        name: name.to_string(),
    }
}

#[test]
fn encode_of_small_list_is_exact() {
    let courses = vec![Course {
        name: "X".to_string(),
        grades: vec![grade("A", "lab", "-", "")],
    }];
    let text = encode_snapshot(&courses);
    assert_eq!(text, "1;1:X1;1:A3:lab1:-0:");
}

#[test]
fn encode_of_empty_list_is_exact() {
    let courses: Vec<Course> = Vec::new();
    assert_eq!(encode_snapshot(&courses), "0;");
}

#[test]
fn round_trip_reproduces_the_structure() {
    let courses = vec![
        Course {
            name: "Maths".to_string(),
            grades: vec![
                grade("5.5", "cours", "4.9", "Exam 1"),
                grade("4.0", "laboratoire", "-", "Lab: part 2; draft"),
            ],
        },
        Course { name: "Physique 2".to_string(), grades: vec![] },
        Course {
            name: "Algo".to_string(),
            grades: vec![grade("6.0", "projet", "5.1", "Rendu final")],
        },
    ];
    let text = encode_snapshot(&courses);
    let back = decode_snapshot(&text).expect("snapshot must decode");
    assert_eq!(back, courses);
}

#[test]
fn round_trip_keeps_awkward_characters() {
    let courses = vec![Course {
        name: "C;12:34".to_string(),
        grades: vec![grade("5½", "catégorie", "", "a:b;c\"d\\e\n🚀")],
    }];
    let text = encode_snapshot(&courses);
    let back = decode_snapshot(&text).expect("snapshot must decode");
    assert_eq!(back, courses);
}

#[test]
fn corrupt_snapshot_is_rejected() {
    assert_eq!(decode_snapshot("junk"), Err(GradeError::SnapshotCorrupt));
    assert_eq!(decode_snapshot(""), Err(GradeError::SnapshotCorrupt));
    assert_eq!(decode_snapshot("1;"), Err(GradeError::SnapshotCorrupt));
    assert_eq!(decode_snapshot("1;1:X1;1:A3:lab1:-0:extra"), Err(GradeError::SnapshotCorrupt));
    assert_eq!(decode_snapshot("99999999999999999999999999;"), Err(GradeError::SnapshotCorrupt));
}

#[test]
fn missing_or_empty_snapshot_is_no_baseline() {
    assert_eq!(load_baseline(None), Ok(None));
    let empty = String::new();
    assert_eq!(load_baseline(Some(&empty)), Ok(None));
}

#[test]
fn present_snapshot_is_the_baseline() {
    let courses = vec![Course {
        name: "X".to_string(),
        grades: vec![grade("A", "lab", "-", "")],
    }];
    let text = encode_snapshot(&courses);
    assert_eq!(load_baseline(Some(&text)), Ok(Some(courses)));
}

#[test]
fn present_but_corrupt_snapshot_fails() {
    let bad = "not a snapshot".to_string();
    assert_eq!(load_baseline(Some(&bad)), Err(GradeError::SnapshotCorrupt));
}
