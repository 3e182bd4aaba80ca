//! Table-walk stage of the extractor.
//!
//! The recovered HTML holds one results table.  Its rows are walked top to
//! bottom with two pieces of running state: the course accumulator, flushed
//! when a row's leading cell carries the section-header marker class, and the
//! sticky category label, updated when the leading cell's text holds one of
//! the category keywords.  A row whose result cell carries the body marker
//! class contributes one grade entry, unless its value resolves to the
//! "no grade" sentinel.

use crate::envelope::parse_html_response;
use crate::envelope::unwrapped_html;
use crate::error::GradeError;
use crate::models::Course;
use crate::models::CourseModel;
use crate::models::Grade;
use crate::models::GradeModel;
use crate::models::wf_courses;
use crate::text::contains_seq;
use crate::text::contains_str;
use crate::text::first_token;
use crate::text::first_token_str;
use crate::text::str_eq;
use vstd::prelude::*;
use vstd::string::StringExecFns;

verus! {

/// One table cell: its `class` attribute (empty when absent) and its text
/// chunks in document order.
#[derive(Debug, Clone, PartialEq)]
pub struct Cell {
    pub class: String,
    pub texts: Vec<String>,
}

/// Mathematical model of a [`Cell`].
#[verifier::ext_equal]
pub struct CellModel {
    pub class: Seq<char>,
    pub texts: Seq<Seq<char>>,
}

impl View for Cell {
    type V = CellModel;

    open spec fn view(&self) -> CellModel {
        CellModel { class: self.class@, texts: self.texts.deep_view() }
    }
}

impl DeepView for Cell {
    type V = CellModel;

    open spec fn deep_view(&self) -> CellModel {
        self@
    }
}

/// One table row: its cells in document order.
#[derive(Debug, Clone, PartialEq)]
pub struct Row {
    pub cells: Vec<Cell>,
}

/// Mathematical model of a [`Row`].
#[verifier::ext_equal]
pub struct RowModel {
    pub cells: Seq<CellModel>,
}

impl View for Row {
    type V = RowModel;

    open spec fn view(&self) -> RowModel {
        RowModel { cells: self.cells.deep_view() }
    }
}

impl DeepView for Row {
    type V = RowModel;

    open spec fn deep_view(&self) -> RowModel {
        self@
    }
}

/// The "no grade" sentinel token.
pub open spec fn sentinel() -> Seq<char> {
    "-"@
}

/// The class marker of a section-header cell.
pub open spec fn header_marker() -> Seq<char> {
    "bigheader"@
}

/// The class marker of a result cell.
pub open spec fn body_marker() -> Seq<char> {
    "bodyCC"@
}

/// The cell's text chunks joined with single spaces.
pub open spec fn joined(texts: Seq<Seq<char>>) -> Seq<char>
    decreases texts.len(),
{
    if texts.len() == 0 {
        Seq::empty()
    } else if texts.len() == 1 {
        texts[0]
    } else {
        texts[0] + seq![' '] + joined(texts.drop_first())
    }
}

/// The first whitespace-delimited token of `s`, or the sentinel when there is
/// none.
pub open spec fn token_or_sentinel(s: Seq<char>) -> Seq<char> {
    if first_token(s).len() == 0 {
        sentinel()
    } else {
        first_token(s)
    }
}

/// The category tag after seeing a leading cell with text `cell_text`: one of
/// the keyword-mapped tags, or the previous tag when no keyword occurs.
pub open spec fn category_update(cat: Seq<char>, cell_text: Seq<char>) -> Seq<char> {
    if contains_seq(cell_text, "Cours"@) {
        "cours"@
    } else if contains_seq(cell_text, "Laboratoire"@) {
        "laboratoire"@
    } else if contains_seq(cell_text, "Projet"@) {
        "projet"@
    } else {
        cat
    }
}

/// The running state of the table walk.
#[verifier::ext_equal]
pub struct WalkState {
    pub course_name: Seq<char>,
    pub course_grades: Seq<GradeModel>,
    pub category: Seq<char>,
    pub courses: Seq<CourseModel>,
}

/// The walk starts with an empty accumulator, no category and no output.
pub open spec fn initial_state() -> WalkState {
    WalkState {
        course_name: Seq::empty(),
        course_grades: Seq::empty(),
        category: Seq::empty(),
        courses: Seq::empty(),
    }
}

/// The accumulator flushed into the output; an empty-named accumulator is
/// never emitted.
pub open spec fn flush(st: WalkState) -> Seq<CourseModel> {
    if st.course_name.len() > 0 {
        st.courses.push(CourseModel { name: st.course_name, grades: st.course_grades })
    } else {
        st.courses
    }
}

/// The grade contribution of one row, applied after the header and category
/// updates.  `None` is a structural failure: a malformed cell layout.
pub open spec fn grade_step(st: WalkState, row: RowModel) -> Option<WalkState> {
    let n = row.cells.len() as int;
    let name_cell = if n > 1 {
        row.cells[1]
    } else {
        row.cells[0]
    };
    let avg_cell = if n > 1 {
        row.cells[n - 3]
    } else {
        row.cells[0]
    };
    let grade_cell = if n > 1 {
        row.cells[n - 1]
    } else {
        row.cells[0]
    };
    if !contains_seq(grade_cell.class, body_marker()) {
        Some(st)
    } else if avg_cell.texts.len() == 0 || grade_cell.texts.len() == 0 {
        None
    } else {
        let value = token_or_sentinel(grade_cell.texts[0]);
        if value == sentinel() {
            Some(st)
        } else {
            Some(
                WalkState {
                    course_grades: st.course_grades.push(
                        GradeModel {
                            value,
                            category: st.category,
                            average: token_or_sentinel(avg_cell.texts[0]),
                            name: joined(name_cell.texts),
                        },
                    ),
                    ..st
                },
            )
        }
    }
}

/// One step of the table walk over one row.
pub open spec fn walk_step(st: WalkState, row: RowModel) -> Option<WalkState> {
    if row.cells.len() == 0 {
        Some(st)
    } else if row.cells[0].texts.len() == 0 {
        None
    } else {
        let first_text = row.cells[0].texts[0];
        let st1 = if contains_seq(row.cells[0].class, header_marker()) {
            if st.course_name.len() > 0 {
                WalkState {
                    course_name: first_token(first_text),
                    course_grades: Seq::empty(),
                    category: st.category,
                    courses: st.courses.push(
                        CourseModel { name: st.course_name, grades: st.course_grades },
                    ),
                }
            } else {
                WalkState { course_name: first_token(first_text), ..st }
            }
        } else {
            st
        };
        let st2 = WalkState { category: category_update(st1.category, first_text), ..st1 };
        if row.cells.len() == 2 {
            None
        } else {
            grade_step(st2, row)
        }
    }
}

/// The walk folded over a row sequence.
pub open spec fn walk_from(st: WalkState, rows: Seq<RowModel>) -> Option<WalkState>
    decreases rows.len(),
{
    if rows.len() == 0 {
        Some(st)
    } else {
        match walk_step(st, rows[0]) {
            Some(st2) => walk_from(st2, rows.drop_first()),
            None => None,
        }
    }
}

/// The course list extracted from a row sequence: the full walk, with the
/// final accumulator flushed.
pub open spec fn courses_of_rows(rows: Seq<RowModel>) -> Option<Seq<CourseModel>> {
    match walk_from(initial_state(), rows) {
        Some(st) => Some(flush(st)),
        None => None,
    }
}

/// What the HTML parser hands back for a given document: for each row of the
/// designated results table, its cells' class attributes and text chunks;
/// nothing when the document has no such table.
pub uninterp spec fn rows_of(html: Seq<char>) -> Option<Seq<RowModel>>;

/// Relies on scraper's HTML parsing (`Html::parse_document`, `Selector`
/// queries for the `table.displayArray` results table and its `tr` and `td`
/// elements, `ElementRef::attr` and `ElementRef::text`): hands back each
/// row's cells with their `class` attribute (empty when absent) and text
/// chunks, `None` when no results table exists.  The result is a function of
/// the document text alone.
#[verifier::external_body]
fn extract_rows(html: &str) -> (r: Option<Vec<Row>>)
    ensures
        match r {
            Some(rows) => rows_of(html@) == Some(rows.deep_view()),
            None => rows_of(html@) is None,
        },
{
    let document = scraper::Html::parse_document(html);
    let table_sel = scraper::Selector::parse("table.displayArray").unwrap();
    let tr_sel = scraper::Selector::parse("tr").unwrap();
    let td_sel = scraper::Selector::parse("td").unwrap();
    let table = document.select(&table_sel).next()?;
    let rows = table.select(&tr_sel).map(|tr| Row {
        cells: tr.select(&td_sel).map(|td| Cell {
            class: td.value().attr("class").unwrap_or("").to_string(),
            texts: td.text().map(|t| t.to_string()).collect(),
        }).collect(),
    }).collect();
    Some(rows)
}

/// Appending one chunk extends the joined text at its end.
proof fn lemma_joined_push(texts: Seq<Seq<char>>, x: Seq<char>)
    ensures
        joined(texts.push(x)) == if texts.len() == 0 {
            x
        } else {
            joined(texts) + seq![' '] + x
        },
    decreases texts.len(),
{
    if texts.len() == 0 {
        assert(texts.push(x)[0] == x);
        assert(joined(texts.push(x)) == x);
    } else if texts.len() == 1 {
        assert(texts.push(x).drop_first() =~= texts.drop_first().push(x));
        lemma_joined_push(texts.drop_first(), x);
        assert(joined(texts.push(x)) == texts[0] + seq![' '] + x);
        assert(joined(texts) == texts[0]);
    } else {
        assert(texts.push(x).drop_first() =~= texts.drop_first().push(x));
        lemma_joined_push(texts.drop_first(), x);
        assert(joined(texts) + seq![' '] + x =~= texts[0] + seq![' '] + (joined(texts.drop_first())
            + seq![' '] + x));
    }
}

/// The cell's text chunks joined with single spaces, as a string.
fn joined_texts(texts: &Vec<String>) -> (r: String)
    ensures
        r@ == joined(texts.deep_view()),
{
    let mut r = String::new();
    let mut k: usize = 0;
    proof {
        assert(texts.deep_view().take(0) =~= Seq::<Seq<char>>::empty());
    }
    while k < texts.len()
        invariant
            k <= texts@.len(),
            texts.deep_view().len() == texts@.len(),
            r@ == joined(texts.deep_view().take(k as int)),
        decreases texts@.len() - k,
    {
        if k > 0 {
            r.push(' ');
        }
        r.append(texts[k].as_str());
        proof {
            let d = texts.deep_view();
            assert(d.take(k as int).push(d[k as int]) =~= d.take(k + 1 as int));
            lemma_joined_push(d.take(k as int), d[k as int]);
            assert(d[k as int] == texts@[k as int]@);
        }
        k = k + 1;
    }
    proof {
        assert(texts.deep_view().take(texts@.len() as int) =~= texts.deep_view());
    }
    r
}

/// The first whitespace-delimited token of `s`, or `"-"` when `s` has none.
fn token_or_sentinel_str(s: &String) -> (r: String)
    ensures
        r@ == token_or_sentinel(s@),
{
    let t = first_token_str(s.as_str());
    if t.as_str().is_empty() {
        "-".to_owned()
    } else {
        t
    }
}

/// Walks the rows of the results table into the course list.  Fails with
/// [`GradeError::MalformedReport`] exactly when a row breaks the expected cell
/// layout: a leading cell without text, a result row without a result or
/// average text, or a two-cell row, which cannot carry the result-cell
/// offsets.
pub fn walk_rows(rows: &Vec<Row>) -> (r: Result<Vec<Course>, GradeError>)
    ensures
        match courses_of_rows(rows.deep_view()) {
            Some(cs) => r is Ok && r->Ok_0.deep_view() == cs,
            None => r == Err::<Vec<Course>, GradeError>(GradeError::MalformedReport),
        },
{
    let mut course_name = String::new();
    let mut course_grades: Vec<Grade> = Vec::new();
    let mut category = String::new();
    let mut courses: Vec<Course> = Vec::new();
    let ghost all_rows = rows.deep_view();
    let mut ri: usize = 0;
    proof {
        assert(all_rows.skip(0) =~= all_rows);
        assert(course_grades.deep_view() =~= Seq::<GradeModel>::empty());
        assert(courses.deep_view() =~= Seq::<CourseModel>::empty());
        assert(state_of(course_name@, course_grades.deep_view(), category@, courses.deep_view())
            =~= initial_state());
    }
    while ri < rows.len()
        invariant
            ri <= rows@.len(),
            all_rows == rows.deep_view(),
            all_rows.len() == rows@.len(),
            walk_from(initial_state(), all_rows) == walk_from(
                state_of(course_name@, course_grades.deep_view(), category@, courses.deep_view()),
                all_rows.skip(ri as int),
            ),
        decreases rows@.len() - ri,
    {
        let ghost st = state_of(
            course_name@,
            course_grades.deep_view(),
            category@,
            courses.deep_view(),
        );
        let ghost rest = all_rows.skip(ri as int);
        proof {
            assert(rest[0] == all_rows[ri as int]);
            assert(rest.drop_first() =~= all_rows.skip(ri + 1 as int));
            assert(rows@[ri as int].deep_view() == all_rows[ri as int]);
        }
        let row = &rows[ri];
        let rn = row.cells.len();
        if rn > 0 {
            let first = &row.cells[0];
            proof {
                assert(first@ == all_rows[ri as int].cells[0]);
            }
            if first.texts.len() == 0 {
                proof {
                    assert(walk_step(st, rest[0]) is None);
                }
                return Err(GradeError::MalformedReport);
            }
            let first_text = &first.texts[0];
            proof {
                assert(first_text@ == all_rows[ri as int].cells[0].texts[0]);
            }
            if contains_str(first.class.as_str(), "bigheader") {
                if !course_name.as_str().is_empty() {
                    let finished_grades = course_grades;
                    course_grades = Vec::new();
                    courses.push(Course { name: course_name, grades: finished_grades });
                    proof {
                        assert(courses.deep_view() =~= st.courses.push(
                            CourseModel { name: st.course_name, grades: st.course_grades },
                        ));
                        assert(course_grades.deep_view() =~= Seq::<GradeModel>::empty());
                    }
                } else {
                }
                course_name = first_token_str(first_text.as_str());
            }
            let ghost st1 = state_of(
                course_name@,
                course_grades.deep_view(),
                category@,
                courses.deep_view(),
            );
            if contains_str(first_text.as_str(), "Cours") {
                category = "cours".to_owned();
            } else if contains_str(first_text.as_str(), "Laboratoire") {
                category = "laboratoire".to_owned();
            } else if contains_str(first_text.as_str(), "Projet") {
                category = "projet".to_owned();
            }
            let ghost st2 = state_of(
                course_name@,
                course_grades.deep_view(),
                category@,
                courses.deep_view(),
            );
            proof {
                assert(st2.category == category_update(st1.category, first_text@));
                assert(st2 =~= WalkState {
                    category: category_update(st1.category, first_text@),
                    ..st1
                });
            }
            if rn == 2 {
                proof {
                    assert(walk_step(st, rest[0]) is None);
                }
                return Err(GradeError::MalformedReport);
            }
            let name_cell = if rn > 1 {
                &row.cells[1]
            } else {
                &row.cells[0]
            };
            let avg_cell = if rn > 1 {
                &row.cells[rn - 3]
            } else {
                &row.cells[0]
            };
            let grade_cell = if rn > 1 {
                &row.cells[rn - 1]
            } else {
                &row.cells[0]
            };
            proof {
                let rm = all_rows[ri as int];
                assert(name_cell@ == if rm.cells.len() > 1 {
                    rm.cells[1]
                } else {
                    rm.cells[0]
                });
                assert(avg_cell@ == if rm.cells.len() > 1 {
                    rm.cells[rm.cells.len() - 3]
                } else {
                    rm.cells[0]
                });
                assert(grade_cell@ == if rm.cells.len() > 1 {
                    rm.cells[rm.cells.len() - 1]
                } else {
                    rm.cells[0]
                });
            }
            if contains_str(grade_cell.class.as_str(), "bodyCC") {
                if avg_cell.texts.len() == 0 || grade_cell.texts.len() == 0 {
                    proof {
                        assert(walk_step(st, rest[0]) is None);
                    }
                    return Err(GradeError::MalformedReport);
                }
                let value = token_or_sentinel_str(&grade_cell.texts[0]);
                proof {
                    assert(grade_cell.texts[0]@ == grade_cell@.texts[0]);
                    assert(avg_cell.texts[0]@ == avg_cell@.texts[0]);
                }
                if !str_eq(value.as_str(), "-") {
                    let average = token_or_sentinel_str(&avg_cell.texts[0]);
                    let name = joined_texts(&name_cell.texts);
                    let grade = Grade { value, category: category.clone(), average, name };
                    let ghost gm = grade@;
                    course_grades.push(grade);
                    proof {
                        assert(course_grades.deep_view() =~= st2.course_grades.push(gm));
                        assert(state_of(
                            course_name@,
                            course_grades.deep_view(),
                            category@,
                            courses.deep_view(),
                        ) =~= WalkState { course_grades: st2.course_grades.push(gm), ..st2 });
                    }
                }
            }
            proof {
                let stn = state_of(
                    course_name@,
                    course_grades.deep_view(),
                    category@,
                    courses.deep_view(),
                );
                assert(grade_step(st2, rest[0]) == Some(stn));
                assert(walk_step(st, rest[0]) == Some(stn));
            }
        }
        proof {
            let stn = state_of(
                course_name@,
                course_grades.deep_view(),
                category@,
                courses.deep_view(),
            );
            assert(walk_step(st, rest[0]) == Some(stn));
            assert(walk_from(st, rest) == walk_from(stn, all_rows.skip(ri + 1 as int)));
        }
        ri = ri + 1;
    }
    let ghost st_final = state_of(
        course_name@,
        course_grades.deep_view(),
        category@,
        courses.deep_view(),
    );
    proof {
        assert(all_rows.skip(all_rows.len() as int).len() == 0);
        assert(walk_from(initial_state(), all_rows) == Some(st_final));
        assert(courses_of_rows(all_rows) == Some(flush(st_final)));
    }
    if !course_name.as_str().is_empty() {
        let final_grades = course_grades;
        courses.push(Course { name: course_name, grades: final_grades });
        proof {
            assert(courses.deep_view() =~= flush(st_final));
        }
    } else {
        proof {
            assert(courses.deep_view() == flush(st_final));
        }
    }
    Ok(courses)
}

/// No grade of `gs` carries the sentinel as its value.
pub open spec fn grades_sentinel_free(gs: Seq<GradeModel>) -> bool {
    forall|j: int| 0 <= j < gs.len() ==> (#[trigger] gs[j]).value != sentinel()
}

/// No grade of any course of `cs` carries the sentinel as its value.
pub open spec fn courses_sentinel_free(cs: Seq<CourseModel>) -> bool {
    forall|i: int| 0 <= i < cs.len() ==> grades_sentinel_free((#[trigger] cs[i]).grades)
}

/// Both the accumulator and the finished courses are sentinel-free.
pub open spec fn state_sentinel_free(st: WalkState) -> bool {
    grades_sentinel_free(st.course_grades) && courses_sentinel_free(st.courses)
}

/// One walk step keeps the state sentinel-free: a row whose grade cell
/// resolves to the sentinel contributes nothing.
proof fn lemma_walk_step_sentinel(st: WalkState, row: RowModel)
    requires
        state_sentinel_free(st),
        walk_step(st, row) is Some,
    ensures
        state_sentinel_free(walk_step(st, row)->Some_0),
{
    let stn = walk_step(st, row)->Some_0;
    if row.cells.len() == 0 {
    } else {
        let st1 = if contains_seq(row.cells[0].class, header_marker()) {
            if st.course_name.len() > 0 {
                WalkState {
                    course_name: first_token(row.cells[0].texts[0]),
                    course_grades: Seq::empty(),
                    category: st.category,
                    courses: st.courses.push(
                        CourseModel { name: st.course_name, grades: st.course_grades },
                    ),
                }
            } else {
                WalkState { course_name: first_token(row.cells[0].texts[0]), ..st }
            }
        } else {
            st
        };
        assert(state_sentinel_free(st1)) by {
            if contains_seq(row.cells[0].class, header_marker()) && st.course_name.len() > 0 {
                let pushed = st.courses.push(
                    CourseModel { name: st.course_name, grades: st.course_grades },
                );
                assert forall|i: int|
                    0 <= i < pushed.len() implies grades_sentinel_free(
                    (#[trigger] pushed[i]).grades,
                ) by {
                    if i < st.courses.len() {
                        assert(pushed[i] == st.courses[i]);
                    } else {
                        assert(pushed[i].grades == st.course_grades);
                    }
                }
            }
        }
        let st2 = WalkState { category: category_update(st1.category, row.cells[0].texts[0]), ..st1 };
        assert(state_sentinel_free(st2));
        if row.cells.len() != 2 {
            assert(grade_step(st2, row) == Some(stn));
            let n = row.cells.len() as int;
            let avg_cell = if n > 1 {
                row.cells[n - 3]
            } else {
                row.cells[0]
            };
            let grade_cell = if n > 1 {
                row.cells[n - 1]
            } else {
                row.cells[0]
            };
            if contains_seq(grade_cell.class, body_marker()) && !(avg_cell.texts.len() == 0
                || grade_cell.texts.len() == 0) {
                let value = token_or_sentinel(grade_cell.texts[0]);
                if value != sentinel() {
                    let gs = stn.course_grades;
                    assert forall|j: int|
                        0 <= j < gs.len() implies (#[trigger] gs[j]).value != sentinel() by {
                        if j < st2.course_grades.len() {
                            assert(gs[j] == st2.course_grades[j]);
                        } else {
                            assert(gs[j].value == value);
                        }
                    }
                }
            }
        }
    }
}

/// The whole walk keeps the state sentinel-free.
proof fn lemma_walk_from_sentinel(st: WalkState, rows: Seq<RowModel>)
    requires
        state_sentinel_free(st),
        walk_from(st, rows) is Some,
    ensures
        state_sentinel_free(walk_from(st, rows)->Some_0),
    decreases rows.len(),
{
    if rows.len() > 0 {
        lemma_walk_step_sentinel(st, rows[0]);
        lemma_walk_from_sentinel(walk_step(st, rows[0])->Some_0, rows.drop_first());
    }
}

/// Sentinel exclusion: a row whose grade cell resolves to the "no grade"
/// sentinel contributes no grade entry, so no extracted course ever holds a
/// grade whose value is the sentinel — and such a row can never reach a diff.
pub proof fn lemma_sentinel_excluded(rows: Seq<RowModel>)
    requires
        courses_of_rows(rows) is Some,
    ensures
        courses_sentinel_free(courses_of_rows(rows)->Some_0),
{
    lemma_walk_from_sentinel(initial_state(), rows);
    let st = walk_from(initial_state(), rows)->Some_0;
    let out = flush(st);
    assert forall|i: int| 0 <= i < out.len() implies grades_sentinel_free(
        (#[trigger] out[i]).grades,
    ) by {
        if i < st.courses.len() {
            assert(out[i] == st.courses[i]);
        } else {
            assert(out[i].grades == st.course_grades);
        }
    }
}

/// One walk step keeps every finished course's name non-empty: the
/// accumulator is only flushed when it carries a name.
proof fn lemma_walk_step_names(st: WalkState, row: RowModel)
    requires
        wf_courses(st.courses),
        walk_step(st, row) is Some,
    ensures
        wf_courses(walk_step(st, row)->Some_0.courses),
{
    let stn = walk_step(st, row)->Some_0;
    if row.cells.len() > 0 && contains_seq(row.cells[0].class, header_marker())
        && st.course_name.len() > 0 {
        let pushed = st.courses.push(CourseModel { name: st.course_name, grades: st.course_grades });
        assert forall|i: int| 0 <= i < pushed.len() implies (#[trigger] pushed[i]).name.len()
            > 0 by {
            if i < st.courses.len() {
                assert(pushed[i] == st.courses[i]);
            }
        }
        assert(stn.courses == pushed);
    } else {
        assert(stn.courses == st.courses);
    }
}

/// The whole walk keeps every finished course's name non-empty.
proof fn lemma_walk_from_names(st: WalkState, rows: Seq<RowModel>)
    requires
        wf_courses(st.courses),
        walk_from(st, rows) is Some,
    ensures
        wf_courses(walk_from(st, rows)->Some_0.courses),
    decreases rows.len(),
{
    if rows.len() > 0 {
        lemma_walk_step_names(st, rows[0]);
        lemma_walk_from_names(walk_step(st, rows[0])->Some_0, rows.drop_first());
    }
}

/// Every materialized course carries a non-empty name: an empty-named
/// in-progress accumulator is never emitted.
pub proof fn lemma_extracted_names_non_empty(rows: Seq<RowModel>)
    requires
        courses_of_rows(rows) is Some,
    ensures
        wf_courses(courses_of_rows(rows)->Some_0),
{
    lemma_walk_from_names(initial_state(), rows);
    let st = walk_from(initial_state(), rows)->Some_0;
    let out = flush(st);
    assert forall|i: int| 0 <= i < out.len() implies (#[trigger] out[i]).name.len() > 0 by {
        if i < st.courses.len() {
            assert(out[i] == st.courses[i]);
        }
    }
}

/// Builds the [`WalkState`] that a set of running values stands for.
pub open spec fn state_of(
    name: Seq<char>,
    grades: Seq<GradeModel>,
    cat: Seq<char>,
    courses: Seq<CourseModel>,
) -> WalkState {
    WalkState { course_name: name, course_grades: grades, category: cat, courses }
}

/// Extracts the normalized course list from the raw portal payload: unwraps
/// the envelope, parses the recovered HTML and walks the results table.
/// Fails with [`GradeError::UnwrapFailed`] exactly when no envelope marker
/// pair is present, and with [`GradeError::MalformedReport`] exactly when the
/// document has no results table or a row breaks the expected cell layout.
pub fn parse_grades(html_content: &str) -> (r: Result<Vec<Course>, GradeError>)
    ensures
        match unwrapped_html(html_content@) {
            None => r == Err::<Vec<Course>, GradeError>(GradeError::UnwrapFailed),
            Some(html) => match rows_of(html) {
                None => r == Err::<Vec<Course>, GradeError>(GradeError::MalformedReport),
                Some(rows) => match courses_of_rows(rows) {
                    None => r == Err::<Vec<Course>, GradeError>(GradeError::MalformedReport),
                    Some(cs) => r is Ok && r->Ok_0.deep_view() == cs,
                },
            },
        },
{
    let html = match parse_html_response(html_content) {
        Ok(h) => h,
        Err(e) => {
            return Err(e);
        },
    };
    let rows = match extract_rows(html.as_str()) {
        Some(rows) => rows,
        None => {
            return Err(GradeError::MalformedReport);
        },
    };
    walk_rows(&rows)
}

} // verus!
