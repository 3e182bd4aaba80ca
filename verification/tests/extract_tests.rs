use yagg::envelope::parse_html_response;
use yagg::error::GradeError;
use yagg::extract::parse_grades;
use yagg::extract::walk_rows;
use yagg::extract::Cell;
use yagg::extract::Row;

fn wrap(html: &str) -> String {
    let escaped = html.replace('"', "\\\\\"").replace('/', "\\\\/");
    format!(
        "before|+:\"{{\\\"parts\\\":{{\\\"result\\\":\\\"{}\\\"}}}}\"|after",
        escaped
    )
}

#[test]
fn envelope_unwraps_and_unescapes() {
    let raw = wrap("<a href=\"x\">a/b</a>");
    let html = parse_html_response(&raw).expect("envelope must unwrap");
    assert_eq!(html, "<a href=\"x\">a/b</a>");
}

#[test]
fn envelope_without_markers_fails() {
    assert_eq!(
        parse_html_response("no envelope here"),
        Err(GradeError::UnwrapFailed)
    );
}

#[test]
fn report_without_table_is_malformed() {
    let raw = wrap("<div>nothing here</div>");
    assert_eq!(parse_grades(&raw), Err(GradeError::MalformedReport));
}

#[test]
fn table_walk_extracts_courses_in_order() {
    let html = "<table class=\"displayArray\">\
        <tr><td class=\"bigheader\">Math 1.1 extra</td></tr>\
        <tr><td>Cours</td></tr>\
        <tr><td>w1</td><td>Test 1</td><td>4.8</td><td>x</td><td class=\"bodyCC\">5.5 *</td></tr>\
        <tr><td>w2</td><td>Test 2</td><td>-</td><td>x</td><td class=\"bodyCC\">-</td></tr>\
        <tr><td>Laboratoire</td></tr>\
        <tr><td>w3</td><td>Labo 1</td><td>5.0</td><td>x</td><td class=\"bodyCC\">4.5</td></tr>\
        <tr><td class=\"bigheader\">Phys 2</td></tr>\
        <tr><td>Cours</td></tr>\
        <tr><td>w4</td><td>Exam</td><td>3.9</td><td>x</td><td class=\"bodyCC\">4.0</td></tr>\
        </table>";
    let raw = wrap(html);
    let courses = parse_grades(&raw).expect("report must parse");
    assert_eq!(courses.len(), 2);

    assert_eq!(courses[0].name, "Math");
    assert_eq!(courses[0].grades.len(), 2);
    assert_eq!(courses[0].grades[0].value, "5.5");
    assert_eq!(courses[0].grades[0].category, "cours");
    assert_eq!(courses[0].grades[0].average, "4.8");
    assert_eq!(courses[0].grades[0].name, "Test 1");
    assert_eq!(courses[0].grades[1].value, "4.5");
    assert_eq!(courses[0].grades[1].category, "laboratoire");
    assert_eq!(courses[0].grades[1].average, "5.0");
    assert_eq!(courses[0].grades[1].name, "Labo 1");

    assert_eq!(courses[1].name, "Phys");
    assert_eq!(courses[1].grades.len(), 1);
    assert_eq!(courses[1].grades[0].value, "4.0");
    assert_eq!(courses[1].grades[0].category, "cours");
    assert_eq!(courses[1].grades[0].average, "3.9");
    assert_eq!(courses[1].grades[0].name, "Exam");
}

#[test]
fn sentinel_rows_contribute_nothing() {
    let html = "<table class=\"displayArray\">\
        <tr><td class=\"bigheader\">Math 1</td></tr>\
        <tr><td>Cours</td></tr>\
        <tr><td>w</td><td>Test</td><td>-</td><td>x</td><td class=\"bodyCC\">-</td></tr>\
        </table>";
    let raw = wrap(html);
    let courses = parse_grades(&raw).expect("report must parse");
    assert_eq!(courses.len(), 1);
    assert!(courses[0].grades.is_empty());
}

fn cell(class: &str, texts: &[&str]) -> Cell {
    Cell {
        class: class.to_string(),
        texts: texts.iter().map(|t| t.to_string()).collect(),
    }
}

#[test]
fn two_cell_row_is_malformed() {
    let rows = vec![Row {
        cells: vec![cell("", &["a"]), cell("bodyCC", &["5.0"])],
    }];
    assert_eq!(walk_rows(&rows), Err(GradeError::MalformedReport));
}

#[test]
fn textless_leading_cell_is_malformed() {
    let rows = vec![Row { cells: vec![cell("", &[])] }];
    assert_eq!(walk_rows(&rows), Err(GradeError::MalformedReport));
}

#[test]
fn empty_row_list_yields_no_courses() {
    let rows: Vec<Row> = Vec::new();
    assert_eq!(walk_rows(&rows), Ok(Vec::new()));
}

#[test]
fn accumulator_without_header_is_never_emitted() {
    let rows = vec![Row {
        cells: vec![
            cell("", &["w"]),
            cell("", &["Test"]),
            cell("", &["4.0"]),
            cell("", &["x"]),
            cell("bodyCC", &["5.0"]),
        ],
    }];
    let courses = walk_rows(&rows).expect("rows must walk");
    assert!(courses.is_empty());
}
