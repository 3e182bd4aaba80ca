//! Diff engine: compares a freshly extracted course list against the snapshot
//! baseline and emits one change record per newly observed or changed grade.
//!
//! Two comparison strategies are supported, picked by how much identity the
//! entries carry.  When every fetched grade has a (non-empty) name, entries
//! are matched by (category, name) and a change is emitted for an unmatched
//! entry or a matched entry whose value differs.  Otherwise occurrences of
//! each (course, category, value) triple are counted on both sides and each
//! positive delta emits that many changes; decreases are never reported.

use crate::models::Course;
use crate::models::CourseModel;
use crate::models::Grade;
use crate::models::GradeDiff;
use crate::models::GradeDiffModel;
use crate::models::GradeModel;
use crate::text::str_eq;
use vstd::prelude::*;

verus! {

/// The change record that a grade of a course turns into.
pub open spec fn to_change(course: Seq<char>, g: GradeModel) -> GradeDiffModel {
    GradeDiffModel {
        course,
        category: g.category,
        grade: g.value,
        average: g.average,
        name: g.name,
    }
}

/// Every grade of every course carries a non-empty name, so entries can be
/// matched by identity.
pub open spec fn carries_identity(cs: Seq<CourseModel>) -> bool {
    forall|i: int, j: int|
        0 <= i < cs.len() && 0 <= j < cs[i].grades.len() ==> (#[trigger] cs[i].grades[j]).name.len()
            > 0
}

/// The first course of `cs` named `name`, if any.
pub open spec fn find_course(cs: Seq<CourseModel>, name: Seq<char>) -> Option<CourseModel>
    decreases cs.len(),
{
    if cs.len() == 0 {
        None
    } else if cs[0].name == name {
        Some(cs[0])
    } else {
        find_course(cs.drop_first(), name)
    }
}

/// The first grade of `gs` with the given category and name, if any.
pub open spec fn find_grade(gs: Seq<GradeModel>, category: Seq<char>, name: Seq<char>) -> Option<
    GradeModel,
>
    decreases gs.len(),
{
    if gs.len() == 0 {
        None
    } else if gs[0].name == name && gs[0].category == category {
        Some(gs[0])
    } else {
        find_grade(gs.drop_first(), category, name)
    }
}

/// Identity-based changes of one course's grades against the baseline grades
/// `old_gs`: an entry with no (category, name) match is new, a matched entry
/// with a different value is changed, a matched entry with the same value
/// emits nothing.
pub open spec fn identity_course_changes(
    old_gs: Seq<GradeModel>,
    course: Seq<char>,
    gs: Seq<GradeModel>,
) -> Seq<GradeDiffModel>
    decreases gs.len(),
{
    if gs.len() == 0 {
        Seq::empty()
    } else {
        let head = match find_grade(old_gs, gs[0].category, gs[0].name) {
            Some(og) => if og.value != gs[0].value {
                seq![to_change(course, gs[0])]
            } else {
                Seq::empty()
            },
            None => seq![to_change(course, gs[0])],
        };
        head + identity_course_changes(old_gs, course, gs.drop_first())
    }
}

/// The baseline grades a fetched course is compared against: those of the
/// course of the same name, or none when the course is new.
pub open spec fn baseline_grades(baseline: Seq<CourseModel>, name: Seq<char>) -> Seq<GradeModel> {
    match find_course(baseline, name) {
        Some(oc) => oc.grades,
        None => Seq::empty(),
    }
}

/// Identity-based changes of the fetched list against the baseline, in
/// fetched order.
pub open spec fn identity_changes(
    baseline: Seq<CourseModel>,
    fetched: Seq<CourseModel>,
) -> Seq<GradeDiffModel>
    decreases fetched.len(),
{
    if fetched.len() == 0 {
        Seq::empty()
    } else {
        identity_course_changes(
            baseline_grades(baseline, fetched[0].name),
            fetched[0].name,
            fetched[0].grades,
        ) + identity_changes(baseline, fetched.drop_first())
    }
}

/// Every grade of every course of `cs`, flattened to change records in table
/// order.
pub open spec fn entries_of(cs: Seq<CourseModel>) -> Seq<GradeDiffModel>
    decreases cs.len(),
{
    if cs.len() == 0 {
        Seq::empty()
    } else {
        cs[0].grades.map_values(|g: GradeModel| to_change(cs[0].name, g)) + entries_of(
            cs.drop_first(),
        )
    }
}

/// `a` and `b` describe the same (course, category, value) triple.
pub open spec fn same_triple(a: GradeDiffModel, b: GradeDiffModel) -> bool {
    a.course == b.course && a.category == b.category && a.grade == b.grade
}

/// How many entries of `es` carry the triple of `e`.
pub open spec fn count_triple(es: Seq<GradeDiffModel>, e: GradeDiffModel) -> nat
    decreases es.len(),
{
    if es.len() == 0 {
        0
    } else {
        (if same_triple(es[0], e) {
            1nat
        } else {
            0nat
        }) + count_triple(es.drop_first(), e)
    }
}

/// Count-based changes: walking the fetched entries in order with the already
/// walked entries in `seen`, an entry is emitted exactly when its occurrence
/// count so far exceeds the baseline count of its triple.
pub open spec fn count_changes_from(
    base_entries: Seq<GradeDiffModel>,
    entries: Seq<GradeDiffModel>,
    seen: Seq<GradeDiffModel>,
) -> Seq<GradeDiffModel>
    decreases entries.len(),
{
    if entries.len() == 0 {
        Seq::empty()
    } else {
        let e = entries[0];
        (if count_triple(seen, e) + 1 > count_triple(base_entries, e) {
            seq![e]
        } else {
            Seq::empty()
        }) + count_changes_from(base_entries, entries.drop_first(), seen.push(e))
    }
}

/// Count-based changes of the fetched list against the baseline.
pub open spec fn count_changes(
    baseline: Seq<CourseModel>,
    fetched: Seq<CourseModel>,
) -> Seq<GradeDiffModel> {
    count_changes_from(entries_of(baseline), entries_of(fetched), Seq::empty())
}

/// The changes between a baseline and a fetched list: identity-based when the
/// fetched entries carry identity, count-based otherwise.
pub open spec fn changes_between(
    baseline: Seq<CourseModel>,
    fetched: Seq<CourseModel>,
) -> Seq<GradeDiffModel> {
    if carries_identity(fetched) {
        identity_changes(baseline, fetched)
    } else {
        count_changes(baseline, fetched)
    }
}

/// A fresh copy of a change record.
fn clone_change(e: &GradeDiff) -> (r: GradeDiff)
    ensures
        r@ == e@,
{
    GradeDiff {
        course: e.course.clone(),
        category: e.category.clone(),
        grade: e.grade.clone(),
        average: e.average.clone(),
        name: e.name.clone(),
    }
}

/// Whether every fetched grade carries a non-empty name.
pub fn carries_identity_exec(cs: &Vec<Course>) -> (r: bool)
    ensures
        r == carries_identity(cs.deep_view()),
{
    let ghost d = cs.deep_view();
    let mut i: usize = 0;
    while i < cs.len()
        invariant
            i <= cs@.len(),
            d == cs.deep_view(),
            d.len() == cs@.len(),
            forall|a: int, b: int|
                0 <= a < i && 0 <= b < d[a].grades.len() ==> (#[trigger] d[a].grades[b]).name.len()
                    > 0,
        decreases cs@.len() - i,
    {
        let course = &cs[i];
        let mut j: usize = 0;
        while j < course.grades.len()
            invariant
                j <= course.grades@.len(),
                d == cs.deep_view(),
                d.len() == cs@.len(),
                i < cs@.len(),
                course == cs@[i as int],
                forall|b: int|
                    0 <= b < j ==> (#[trigger] d[i as int].grades[b]).name.len() > 0,
            decreases course.grades@.len() - j,
        {
            if course.grades[j].name.as_str().is_empty() {
                proof {
                    assert(d[i as int].grades[j as int].name.len() == 0);
                }
                return false;
            }
            j = j + 1;
        }
        i = i + 1;
    }
    true
}

/// Characterizes [`find_course`]: it returns the first course with the given
/// name, and `None` exactly when no course has it.
pub proof fn lemma_find_course_characterization(cs: Seq<CourseModel>, name: Seq<char>)
    ensures
        match find_course(cs, name) {
            Some(c) => exists|i: int|
                0 <= i < cs.len() && cs[i] == c && cs[i].name == name && (forall|k: int|
                    0 <= k < i ==> cs[k].name != name),
            None => forall|i: int| 0 <= i < cs.len() ==> cs[i].name != name,
        },
    decreases cs.len(),
{
    if cs.len() == 0 {
    } else if cs[0].name == name {
        assert(0 <= 0 < cs.len() && cs[0] == cs[0] && cs[0].name == name && (forall|k: int|
            0 <= k < 0 ==> cs[k].name != name));
    } else {
        lemma_find_course_characterization(cs.drop_first(), name);
        match find_course(cs.drop_first(), name) {
            Some(c) => {
                let i = choose|i: int|
                    0 <= i < cs.drop_first().len() && cs.drop_first()[i] == c
                        && cs.drop_first()[i].name == name && (forall|k: int|
                        0 <= k < i ==> cs.drop_first()[k].name != name);
                assert(cs[i + 1] == c && cs[i + 1].name == name);
                assert(forall|k: int| 0 <= k < i + 1 ==> cs[k].name != name) by {
                    assert(forall|k: int|
                        1 <= k < i + 1 ==> cs[k] == cs.drop_first()[k - 1]);
                }
            },
            None => {
                assert(forall|k: int| 1 <= k < cs.len() ==> cs[k] == cs.drop_first()[k - 1]);
            },
        }
    }
}

/// Characterizes [`find_grade`] in the same way.
pub proof fn lemma_find_grade_characterization(
    gs: Seq<GradeModel>,
    category: Seq<char>,
    name: Seq<char>,
)
    ensures
        match find_grade(gs, category, name) {
            Some(g) => exists|i: int|
                0 <= i < gs.len() && gs[i] == g && gs[i].name == name && gs[i].category == category
                    && (forall|k: int|
                    0 <= k < i ==> !(gs[k].name == name && gs[k].category == category)),
            None => forall|i: int|
                0 <= i < gs.len() ==> !(gs[i].name == name && gs[i].category == category),
        },
    decreases gs.len(),
{
    if gs.len() == 0 {
    } else if gs[0].name == name && gs[0].category == category {
        assert(0 <= 0 < gs.len() && gs[0] == gs[0] && (forall|k: int|
            0 <= k < 0 ==> !(gs[k].name == name && gs[k].category == category)));
    } else {
        lemma_find_grade_characterization(gs.drop_first(), category, name);
        match find_grade(gs.drop_first(), category, name) {
            Some(g) => {
                let i = choose|i: int|
                    0 <= i < gs.drop_first().len() && gs.drop_first()[i] == g
                        && gs.drop_first()[i].name == name && gs.drop_first()[i].category
                        == category && (forall|k: int|
                        0 <= k < i ==> !(gs.drop_first()[k].name == name
                            && gs.drop_first()[k].category == category));
                assert(gs[i + 1] == g);
                assert(forall|k: int|
                    1 <= k < i + 1 ==> gs[k] == gs.drop_first()[k - 1]);
            },
            None => {
                assert(forall|k: int| 1 <= k < gs.len() ==> gs[k] == gs.drop_first()[k - 1]);
            },
        }
    }
}

/// The first course of `b` named `name`, by linear search.
fn find_course_exec<'a>(b: &'a Vec<Course>, name: &String) -> (r: Option<&'a Course>)
    ensures
        match r {
            Some(c) => find_course(b.deep_view(), name@) == Some(c.deep_view()),
            None => find_course(b.deep_view(), name@) is None,
        },
{
    proof {
        lemma_find_course_characterization(b.deep_view(), name@);
    }
    let ghost d = b.deep_view();
    let mut i: usize = 0;
    while i < b.len()
        invariant
            i <= b@.len(),
            d == b.deep_view(),
            d.len() == b@.len(),
            forall|k: int| 0 <= k < i ==> d[k].name != name@,
        decreases b@.len() - i,
    {
        if str_eq(b[i].name.as_str(), name.as_str()) {
            proof {
                assert(d[i as int] == b@[i as int].deep_view());
                assert(d[i as int].name == name@);
                lemma_find_course_characterization(d, name@);
                if find_course(d, name@) is None {
                    assert(false);
                }
                let w = choose|w: int|
                    0 <= w < d.len() && d[w] == find_course(d, name@)->Some_0 && d[w].name == name@
                        && (forall|k: int| 0 <= k < w ==> d[k].name != name@);
                assert(w == i as int);
            }
            return Some(&b[i]);
        }
        i = i + 1;
    }
    None
}

/// The first grade of `gs` with the given category and name, by linear search.
fn find_grade_exec<'a>(gs: &'a Vec<Grade>, category: &String, name: &String) -> (r:
    Option<&'a Grade>)
    ensures
        match r {
            Some(g) => find_grade(gs.deep_view(), category@, name@) == Some(g.deep_view()),
            None => find_grade(gs.deep_view(), category@, name@) is None,
        },
{
    proof {
        lemma_find_grade_characterization(gs.deep_view(), category@, name@);
    }
    let ghost d = gs.deep_view();
    let mut i: usize = 0;
    while i < gs.len()
        invariant
            i <= gs@.len(),
            d == gs.deep_view(),
            d.len() == gs@.len(),
            forall|k: int| 0 <= k < i ==> !(d[k].name == name@ && d[k].category == category@),
        decreases gs@.len() - i,
    {
        if str_eq(gs[i].name.as_str(), name.as_str()) && str_eq(
            gs[i].category.as_str(),
            category.as_str(),
        ) {
            proof {
                assert(d[i as int] == gs@[i as int].deep_view());
                assert(d[i as int].name == name@ && d[i as int].category == category@);
                lemma_find_grade_characterization(d, category@, name@);
                if find_grade(d, category@, name@) is None {
                    assert(false);
                }
                let w = choose|w: int|
                    0 <= w < d.len() && d[w] == find_grade(d, category@, name@)->Some_0
                        && d[w].name == name@ && d[w].category == category@ && (forall|k: int|
                        0 <= k < w ==> !(d[k].name == name@ && d[k].category == category@));
                assert(w == i as int);
            }
            return Some(&gs[i]);
        }
        i = i + 1;
    }
    None
}

/// Identity-based comparison of the fetched list against the baseline.
pub fn diff_identity_based(baseline: &Vec<Course>, fetched: &Vec<Course>) -> (r: Vec<GradeDiff>)
    ensures
        r.deep_view() == identity_changes(baseline.deep_view(), fetched.deep_view()),
{
    let ghost bd = baseline.deep_view();
    let ghost fd = fetched.deep_view();
    let mut out: Vec<GradeDiff> = Vec::new();
    let mut i: usize = 0;
    proof {
        assert(fd.skip(0) =~= fd);
        assert(out.deep_view() =~= Seq::<GradeDiffModel>::empty());
        assert(out.deep_view() + identity_changes(bd, fd) =~= identity_changes(bd, fd));
    }
    while i < fetched.len()
        invariant
            i <= fetched@.len(),
            bd == baseline.deep_view(),
            fd == fetched.deep_view(),
            fd.len() == fetched@.len(),
            identity_changes(bd, fd) == out.deep_view() + identity_changes(bd, fd.skip(i as int)),
        decreases fetched@.len() - i,
    {
        let course = &fetched[i];
        let ghost rest = fd.skip(i as int);
        proof {
            assert(rest[0] == fd[i as int]);
            assert(rest.drop_first() =~= fd.skip(i + 1 as int));
            assert(course.deep_view() == fd[i as int]);
        }
        let old_course = find_course_exec(baseline, &course.name);
        let ghost old_gs = baseline_grades(bd, fd[i as int].name);
        let ghost cname = fd[i as int].name;
        let ghost cgrades = fd[i as int].grades;
        let mut j: usize = 0;
        proof {
            assert(cgrades.skip(0) =~= cgrades);
            assert(identity_changes(bd, rest) == identity_course_changes(old_gs, cname, cgrades)
                + identity_changes(bd, fd.skip(i + 1 as int)));
            assert(out.deep_view() + (identity_course_changes(old_gs, cname, cgrades)
                + identity_changes(bd, fd.skip(i + 1 as int))) =~= (out.deep_view()
                + identity_course_changes(old_gs, cname, cgrades)) + identity_changes(
                bd,
                fd.skip(i + 1 as int),
            ));
        }
        while j < course.grades.len()
            invariant
                j <= course.grades@.len(),
                bd == baseline.deep_view(),
                fd == fetched.deep_view(),
                i < fetched@.len(),
                course == fetched@[i as int],
                course.deep_view() == fd[i as int],
                cname == fd[i as int].name,
                cgrades == fd[i as int].grades,
                old_gs == baseline_grades(bd, cname),
                match old_course {
                    Some(oc) => find_course(bd, cname) == Some(oc.deep_view()),
                    None => find_course(bd, cname) is None,
                },
                cgrades.len() == course.grades@.len(),
                identity_changes(bd, fd) == (out.deep_view() + identity_course_changes(
                    old_gs,
                    cname,
                    cgrades.skip(j as int),
                )) + identity_changes(bd, fd.skip(i + 1 as int)),
            decreases course.grades@.len() - j,
        {
            let g = &course.grades[j];
            let ghost grest = cgrades.skip(j as int);
            proof {
                assert(grest[0] == cgrades[j as int]);
                assert(grest.drop_first() =~= cgrades.skip(j + 1 as int));
                assert(g.deep_view() == cgrades[j as int]);
            }
            let matched = match old_course {
                Some(oc) => find_grade_exec(&oc.grades, &g.category, &g.name),
                None => None,
            };
            proof {
                match old_course {
                    Some(oc) => {
                        assert(old_gs == oc.deep_view().grades);
                    },
                    None => {
                        assert(old_gs =~= Seq::<GradeModel>::empty());
                        assert(find_grade(old_gs, g@.category, g@.name) is None);
                    },
                }
            }
            let emit = match matched {
                Some(og) => !str_eq(og.value.as_str(), g.value.as_str()),
                None => true,
            };
            let ghost out_old = out.deep_view();
            if emit {
                out.push(
                    GradeDiff {
                        course: course.name.clone(),
                        category: g.category.clone(),
                        grade: g.value.clone(),
                        average: g.average.clone(),
                        name: g.name.clone(),
                    },
                );
                proof {
                    assert(out.deep_view() =~= out_old.push(to_change(cname, grest[0])));
                }
            }
            proof {
                let tail = identity_course_changes(old_gs, cname, cgrades.skip(j + 1 as int));
                let head = identity_course_changes(old_gs, cname, grest);
                if emit {
                    assert(head == seq![to_change(cname, grest[0])] + tail);
                } else {
                    assert(head == Seq::<GradeDiffModel>::empty() + tail);
                    assert(head =~= tail);
                }
                assert((out.deep_view() + tail) =~= (out_old + head));
            }
            j = j + 1;
        }
        proof {
            assert(cgrades.skip(cgrades.len() as int).len() == 0);
            assert(identity_course_changes(old_gs, cname, cgrades.skip(cgrades.len() as int))
                == Seq::<GradeDiffModel>::empty());
            assert(out.deep_view() + identity_course_changes(
                old_gs,
                cname,
                cgrades.skip(cgrades.len() as int),
            ) =~= out.deep_view());
        }
        i = i + 1;
    }
    proof {
        assert(fd.skip(fd.len() as int).len() == 0);
        assert(out.deep_view() =~= identity_changes(bd, fd));
    }
    out
}

/// Appending an entry adds one to the count of its own triple and nothing to
/// any other.
proof fn lemma_count_triple_push(es: Seq<GradeDiffModel>, x: GradeDiffModel, e: GradeDiffModel)
    ensures
        count_triple(es.push(x), e) == count_triple(es, e) + (if same_triple(x, e) {
            1nat
        } else {
            0nat
        }),
    decreases es.len(),
{
    if es.len() == 0 {
        assert(es.push(x)[0] == x);
        assert(es.push(x).drop_first() =~= es);
    } else {
        assert(es.push(x)[0] == es[0]);
        assert(es.push(x).drop_first() =~= es.drop_first().push(x));
        lemma_count_triple_push(es.drop_first(), x, e);
    }
}

/// `a` and `b` describe the same (course, category, value) triple.
fn same_triple_exec(a: &GradeDiff, b: &GradeDiff) -> (r: bool)
    ensures
        r == same_triple(a@, b@),
{
    str_eq(a.course.as_str(), b.course.as_str()) && str_eq(
        a.category.as_str(),
        b.category.as_str(),
    ) && str_eq(a.grade.as_str(), b.grade.as_str())
}

/// Every grade of every course of `cs`, flattened to change records in order.
pub fn entries_vec(cs: &Vec<Course>) -> (r: Vec<GradeDiff>)
    ensures
        r.deep_view() == entries_of(cs.deep_view()),
{
    let ghost d = cs.deep_view();
    let mut out: Vec<GradeDiff> = Vec::new();
    let mut i: usize = 0;
    proof {
        assert(d.skip(0) =~= d);
        assert(out.deep_view() =~= Seq::<GradeDiffModel>::empty());
        assert(out.deep_view() + entries_of(d) =~= entries_of(d));
    }
    while i < cs.len()
        invariant
            i <= cs@.len(),
            d == cs.deep_view(),
            d.len() == cs@.len(),
            entries_of(d) == out.deep_view() + entries_of(d.skip(i as int)),
        decreases cs@.len() - i,
    {
        let course = &cs[i];
        let ghost rest = d.skip(i as int);
        let ghost cname = d[i as int].name;
        let ghost cgrades = d[i as int].grades;
        let ghost cl = |g: GradeModel| to_change(cname, g);
        proof {
            assert(rest[0] == d[i as int]);
            assert(rest.drop_first() =~= d.skip(i + 1 as int));
            assert(course.deep_view() == d[i as int]);
            assert(rest[0].grades.map_values(|g: GradeModel| to_change(rest[0].name, g)) =~= cgrades
                .skip(0).map_values(cl));
            assert(entries_of(rest) == cgrades.skip(0).map_values(cl) + entries_of(
                d.skip(i + 1 as int),
            ));
            assert(out.deep_view() + (cgrades.skip(0).map_values(cl) + entries_of(
                d.skip(i + 1 as int),
            )) =~= (out.deep_view() + cgrades.skip(0).map_values(cl)) + entries_of(
                d.skip(i + 1 as int),
            ));
        }
        let mut j: usize = 0;
        while j < course.grades.len()
            invariant
                j <= course.grades@.len(),
                d == cs.deep_view(),
                i < cs@.len(),
                course == cs@[i as int],
                course.deep_view() == d[i as int],
                cname == d[i as int].name,
                cgrades == d[i as int].grades,
                cgrades.len() == course.grades@.len(),
                cl == (|g: GradeModel| to_change(cname, g)),
                entries_of(d) == (out.deep_view() + cgrades.skip(j as int).map_values(cl))
                    + entries_of(d.skip(i + 1 as int)),
            decreases course.grades@.len() - j,
        {
            let g = &course.grades[j];
            proof {
                assert(g.deep_view() == cgrades[j as int]);
            }
            let ghost out_old = out.deep_view();
            out.push(
                GradeDiff {
                    course: course.name.clone(),
                    category: g.category.clone(),
                    grade: g.value.clone(),
                    average: g.average.clone(),
                    name: g.name.clone(),
                },
            );
            proof {
                assert(out.deep_view() =~= out_old.push(to_change(cname, cgrades[j as int])));
                assert(cgrades.skip(j as int).map_values(cl) =~= seq![
                    to_change(cname, cgrades[j as int]),
                ] + cgrades.skip(j + 1 as int).map_values(cl));
                assert((out.deep_view() + cgrades.skip(j + 1 as int).map_values(cl)) =~= (out_old
                    + cgrades.skip(j as int).map_values(cl)));
            }
            j = j + 1;
        }
        proof {
            assert(cgrades.skip(cgrades.len() as int).map_values(cl) =~= Seq::<
                GradeDiffModel,
            >::empty());
            assert(out.deep_view() + cgrades.skip(cgrades.len() as int).map_values(cl) =~= out
                .deep_view());
        }
        i = i + 1;
    }
    proof {
        assert(d.skip(d.len() as int).len() == 0);
        assert(out.deep_view() =~= entries_of(d));
    }
    out
}

/// How many of the first `upto` entries of `es` carry the triple of `e`.
fn count_triple_exec(es: &Vec<GradeDiff>, upto: usize, e: &GradeDiff) -> (r: usize)
    requires
        upto <= es@.len(),
    ensures
        r == count_triple(es.deep_view().take(upto as int), e@),
        r <= upto,
{
    let ghost d = es.deep_view();
    let mut cnt: usize = 0;
    let mut k: usize = 0;
    proof {
        assert(d.take(0) =~= Seq::<GradeDiffModel>::empty());
    }
    while k < upto
        invariant
            k <= upto <= es@.len(),
            d == es.deep_view(),
            d.len() == es@.len(),
            cnt <= k,
            cnt == count_triple(d.take(k as int), e@),
        decreases upto - k,
    {
        let same = same_triple_exec(&es[k], e);
        proof {
            assert(es@[k as int].deep_view() == d[k as int]);
            assert(d.take(k as int).push(d[k as int]) =~= d.take(k + 1 as int));
            lemma_count_triple_push(d.take(k as int), d[k as int], e@);
        }
        if same {
            cnt = cnt + 1;
        }
        k = k + 1;
    }
    cnt
}

/// Count-based comparison of the fetched list against the baseline.
pub fn diff_count_based(baseline: &Vec<Course>, fetched: &Vec<Course>) -> (r: Vec<GradeDiff>)
    ensures
        r.deep_view() == count_changes(baseline.deep_view(), fetched.deep_view()),
{
    let bents = entries_vec(baseline);
    let ents = entries_vec(fetched);
    let ghost be = entries_of(baseline.deep_view());
    let ghost ed = entries_of(fetched.deep_view());
    let mut out: Vec<GradeDiff> = Vec::new();
    let mut k: usize = 0;
    proof {
        assert(ed.skip(0) =~= ed);
        assert(ed.take(0) =~= Seq::<GradeDiffModel>::empty());
        assert(out.deep_view() =~= Seq::<GradeDiffModel>::empty());
        assert(out.deep_view() + count_changes_from(be, ed, Seq::empty()) =~= count_changes_from(
            be,
            ed,
            Seq::empty(),
        ));
    }
    while k < ents.len()
        invariant
            k <= ents@.len(),
            be == bents.deep_view(),
            ed == ents.deep_view(),
            ed.len() == ents@.len(),
            count_changes_from(be, ed, Seq::empty()) == out.deep_view() + count_changes_from(
                be,
                ed.skip(k as int),
                ed.take(k as int),
            ),
        decreases ents@.len() - k,
    {
        let ghost rest = ed.skip(k as int);
        proof {
            assert(rest[0] == ed[k as int]);
            assert(rest.drop_first() =~= ed.skip(k + 1 as int));
            assert(ed.take(k as int).push(ed[k as int]) =~= ed.take(k + 1 as int));
            assert(ents@[k as int].deep_view() == ed[k as int]);
            assert(be.take(bents@.len() as int) =~= be);
        }
        let e = &ents[k];
        let c_seen = count_triple_exec(&ents, k, e);
        let c_base = count_triple_exec(&bents, bents.len(), e);
        let ghost out_old = out.deep_view();
        if c_seen + 1 > c_base {
            out.push(clone_change(e));
            proof {
                assert(out.deep_view() =~= out_old.push(ed[k as int]));
                assert(count_changes_from(be, rest, ed.take(k as int)) == seq![ed[k as int]]
                    + count_changes_from(be, ed.skip(k + 1 as int), ed.take(k + 1 as int)));
                assert((out.deep_view() + count_changes_from(
                    be,
                    ed.skip(k + 1 as int),
                    ed.take(k + 1 as int),
                )) =~= (out_old + count_changes_from(be, rest, ed.take(k as int))));
            }
        } else {
            proof {
                assert(count_changes_from(be, rest, ed.take(k as int)) == Seq::<
                    GradeDiffModel,
                >::empty() + count_changes_from(be, ed.skip(k + 1 as int), ed.take(k + 1 as int)));
                assert((out.deep_view() + count_changes_from(
                    be,
                    ed.skip(k + 1 as int),
                    ed.take(k + 1 as int),
                )) =~= (out_old + count_changes_from(be, rest, ed.take(k as int))));
            }
        }
        k = k + 1;
    }
    proof {
        assert(ed.skip(ed.len() as int).len() == 0);
        assert(out.deep_view() =~= count_changes_from(be, ed, Seq::empty()));
    }
    out
}

/// Counting distributes over concatenation.
proof fn lemma_count_triple_concat(a: Seq<GradeDiffModel>, b: Seq<GradeDiffModel>, e: GradeDiffModel)
    ensures
        count_triple(a + b, e) == count_triple(a, e) + count_triple(b, e),
    decreases a.len(),
{
    if a.len() == 0 {
        assert(a + b =~= b);
    } else {
        assert((a + b)[0] == a[0]);
        assert((a + b).drop_first() =~= a.drop_first() + b);
        lemma_count_triple_concat(a.drop_first(), b, e);
    }
}

/// When no entry's running count can exceed its baseline count, the
/// count-based walk emits nothing.
proof fn lemma_ccf_no_new(be: Seq<GradeDiffModel>, ents: Seq<GradeDiffModel>, k: int)
    requires
        0 <= k <= ents.len(),
        forall|j: int|
            k <= j < ents.len() ==> count_triple(ents.take(j), #[trigger] ents[j]) + 1
                <= count_triple(be, ents[j]),
    ensures
        count_changes_from(be, ents.skip(k), ents.take(k)) == Seq::<GradeDiffModel>::empty(),
    decreases ents.len() - k,
{
    if k == ents.len() {
        assert(ents.skip(k).len() == 0);
    } else {
        let e = ents[k];
        assert(ents.skip(k)[0] == e);
        assert(ents.skip(k).drop_first() =~= ents.skip(k + 1));
        assert(ents.take(k).push(e) =~= ents.take(k + 1));
        lemma_ccf_no_new(be, ents, k + 1);
        assert(count_changes_from(be, ents.skip(k), ents.take(k)) =~= Seq::<
            GradeDiffModel,
        >::empty() + count_changes_from(be, ents.skip(k + 1), ents.take(k + 1)));
    }
}

/// Re-running on an unchanged source is silent under the count-based
/// strategy: diffing any course list against itself emits no change.
pub proof fn lemma_rerun_unchanged_count(cs: Seq<CourseModel>)
    ensures
        count_changes(cs, cs) == Seq::<GradeDiffModel>::empty(),
{
    let ents = entries_of(cs);
    assert forall|j: int|
        0 <= j < ents.len() implies count_triple(ents.take(j), #[trigger] ents[j]) + 1
        <= count_triple(ents, ents[j]) by {
        assert(ents =~= ents.take(j) + ents.skip(j));
        lemma_count_triple_concat(ents.take(j), ents.skip(j), ents[j]);
        assert(ents.skip(j)[0] == ents[j]);
        assert(count_triple(ents.skip(j), ents[j]) >= 1);
    }
    lemma_ccf_no_new(ents, ents, 0);
    assert(ents.skip(0) =~= ents);
    assert(ents.take(0) =~= Seq::<GradeDiffModel>::empty());
}

/// No two courses share a name.
pub open spec fn distinct_course_names(cs: Seq<CourseModel>) -> bool {
    forall|i: int, j: int| 0 <= i < j < cs.len() ==> (#[trigger] cs[i]).name != (#[trigger] cs[j]).name
}

/// No two grades share both category and name.
pub open spec fn distinct_identities(gs: Seq<GradeModel>) -> bool {
    forall|i: int, j: int|
        0 <= i < j < gs.len() ==> !((#[trigger] gs[i]).category == (#[trigger] gs[j]).category
            && gs[i].name == gs[j].name)
}

/// When every entry's identity match in the baseline carries its own value,
/// a course contributes no change.
proof fn lemma_icc_unchanged(old_gs: Seq<GradeModel>, course: Seq<char>, gs: Seq<GradeModel>)
    requires
        forall|j: int|
            0 <= j < gs.len() ==> {
                &&& find_grade(old_gs, (#[trigger] gs[j]).category, gs[j].name) is Some
                &&& find_grade(old_gs, gs[j].category, gs[j].name)->Some_0.value == gs[j].value
            },
    ensures
        identity_course_changes(old_gs, course, gs) == Seq::<GradeDiffModel>::empty(),
    decreases gs.len(),
{
    if gs.len() > 0 {
        assert(forall|j: int| 0 <= j < gs.drop_first().len() ==> gs.drop_first()[j] == gs[j + 1]);
        lemma_icc_unchanged(old_gs, course, gs.drop_first());
        assert(identity_course_changes(old_gs, course, gs) =~= Seq::<GradeDiffModel>::empty()
            + identity_course_changes(old_gs, course, gs.drop_first()));
    }
}

/// When every fetched course finds itself in the baseline and its grades are
/// identity-distinct, the identity-based walk emits nothing.
proof fn lemma_identity_self_suffix(baseline: Seq<CourseModel>, cs: Seq<CourseModel>)
    requires
        forall|i: int|
            0 <= i < cs.len() ==> find_course(baseline, (#[trigger] cs[i]).name) == Some(cs[i]),
        forall|i: int| 0 <= i < cs.len() ==> distinct_identities((#[trigger] cs[i]).grades),
    ensures
        identity_changes(baseline, cs) == Seq::<GradeDiffModel>::empty(),
    decreases cs.len(),
{
    if cs.len() > 0 {
        let gs = cs[0].grades;
        assert(baseline_grades(baseline, cs[0].name) == gs);
        assert forall|j: int|
            0 <= j < gs.len() implies {
            &&& find_grade(gs, (#[trigger] gs[j]).category, gs[j].name) is Some
            &&& find_grade(gs, gs[j].category, gs[j].name)->Some_0.value == gs[j].value
        } by {
            lemma_find_grade_characterization(gs, gs[j].category, gs[j].name);
            match find_grade(gs, gs[j].category, gs[j].name) {
                Some(g) => {
                    let w = choose|w: int|
                        0 <= w < gs.len() && gs[w] == g && gs[w].name == gs[j].name
                            && gs[w].category == gs[j].category && (forall|k: int|
                            0 <= k < w ==> !(gs[k].name == gs[j].name && gs[k].category
                                == gs[j].category));
                    assert(w == j);
                },
                None => {
                    assert(false);
                },
            }
        }
        lemma_icc_unchanged(gs, cs[0].name, gs);
        assert(forall|i: int| 0 <= i < cs.drop_first().len() ==> cs.drop_first()[i] == cs[i + 1]);
        lemma_identity_self_suffix(baseline, cs.drop_first());
        assert(identity_changes(baseline, cs) =~= Seq::<GradeDiffModel>::empty()
            + identity_changes(baseline, cs.drop_first()));
    }
}

/// Re-running on an unchanged source is silent under the identity-based
/// strategy, for any course list whose names identify its courses: distinct
/// course names and, within each course, distinct (category, name) pairs.
pub proof fn lemma_rerun_unchanged_identity(cs: Seq<CourseModel>)
    requires
        distinct_course_names(cs),
        forall|i: int| 0 <= i < cs.len() ==> distinct_identities((#[trigger] cs[i]).grades),
    ensures
        identity_changes(cs, cs) == Seq::<GradeDiffModel>::empty(),
{
    assert forall|i: int|
        0 <= i < cs.len() implies find_course(cs, (#[trigger] cs[i]).name) == Some(cs[i]) by {
        lemma_find_course_characterization(cs, cs[i].name);
        match find_course(cs, cs[i].name) {
            Some(c) => {
                let w = choose|w: int|
                    0 <= w < cs.len() && cs[w] == c && cs[w].name == cs[i].name && (forall|k: int|
                        0 <= k < w ==> cs[k].name != cs[i].name);
                assert(w == i);
            },
            None => {
                assert(false);
            },
        }
    }
    lemma_identity_self_suffix(cs, cs);
}

/// Re-running on an unchanged source is silent, whichever strategy the
/// entries select, for any course list whose names identify its contents.
pub proof fn lemma_rerun_unchanged(cs: Seq<CourseModel>)
    requires
        distinct_course_names(cs),
        forall|i: int| 0 <= i < cs.len() ==> distinct_identities((#[trigger] cs[i]).grades),
    ensures
        changes_between(cs, cs) == Seq::<GradeDiffModel>::empty(),
{
    if carries_identity(cs) {
        lemma_rerun_unchanged_identity(cs);
    } else {
        lemma_rerun_unchanged_count(cs);
    }
}

/// The changes of `es` that concern one course, in order.
pub open spec fn for_course(es: Seq<GradeDiffModel>, cname: Seq<char>) -> Seq<GradeDiffModel>
    decreases es.len(),
{
    if es.len() == 0 {
        Seq::empty()
    } else if es[0].course == cname {
        seq![es[0]] + for_course(es.drop_first(), cname)
    } else {
        for_course(es.drop_first(), cname)
    }
}

/// Every grade of a course absent from the baseline is a change: under the
/// identity-based strategy, such a course contributes exactly its entries,
/// one change per entry, in order.
pub proof fn lemma_new_course_identity(baseline: Seq<CourseModel>, c: CourseModel)
    requires
        forall|i: int| 0 <= i < baseline.len() ==> (#[trigger] baseline[i]).name != c.name,
    ensures
        identity_course_changes(baseline_grades(baseline, c.name), c.name, c.grades)
            == c.grades.map_values(|g: GradeModel| to_change(c.name, g)),
{
    lemma_find_course_characterization(baseline, c.name);
    match find_course(baseline, c.name) {
        Some(_) => {
            assert(false);
        },
        None => {},
    }
    lemma_icc_all_new(c.name, c.grades);
}

/// Against an empty baseline grade list, every entry is emitted.
proof fn lemma_icc_all_new(course: Seq<char>, gs: Seq<GradeModel>)
    ensures
        identity_course_changes(Seq::empty(), course, gs) == gs.map_values(
            |g: GradeModel| to_change(course, g),
        ),
    decreases gs.len(),
{
    let cl = |g: GradeModel| to_change(course, g);
    if gs.len() == 0 {
        assert(gs.map_values(cl) =~= Seq::<GradeDiffModel>::empty());
    } else {
        lemma_icc_all_new(course, gs.drop_first());
        assert(gs.drop_first().map_values(cl) =~= gs.map_values(cl).drop_first());
        assert(identity_course_changes(Seq::empty(), course, gs) == seq![to_change(course, gs[0])]
            + gs.map_values(cl).drop_first());
        assert(seq![to_change(course, gs[0])] + gs.map_values(cl).drop_first() =~= gs.map_values(
            cl,
        ));
    }
}

/// The entries of `es` whose baseline triple count is zero are all emitted,
/// whatever was seen before them.
proof fn lemma_ccf_for_course(
    be: Seq<GradeDiffModel>,
    ents: Seq<GradeDiffModel>,
    seen: Seq<GradeDiffModel>,
    cname: Seq<char>,
)
    requires
        forall|j: int|
            0 <= j < ents.len() && (#[trigger] ents[j]).course == cname ==> count_triple(
                be,
                ents[j],
            ) == 0,
    ensures
        for_course(count_changes_from(be, ents, seen), cname) == for_course(ents, cname),
    decreases ents.len(),
{
    if ents.len() > 0 {
        let e = ents[0];
        assert(forall|j: int| 0 <= j < ents.drop_first().len() ==> ents.drop_first()[j] == ents[j
            + 1]);
        lemma_ccf_for_course(be, ents.drop_first(), seen.push(e), cname);
        let tail = count_changes_from(be, ents.drop_first(), seen.push(e));
        if count_triple(seen, e) + 1 > count_triple(be, e) {
            assert(count_changes_from(be, ents, seen) == seq![e] + tail);
            assert((seq![e] + tail)[0] == e);
            assert((seq![e] + tail).drop_first() =~= tail);
        } else {
            assert(e.course != cname);
            assert(count_changes_from(be, ents, seen) =~= Seq::<GradeDiffModel>::empty() + tail);
            assert(count_changes_from(be, ents, seen) =~= tail);
        }
    }
}

/// No baseline entry of an absent course exists, so its triple counts are
/// zero.
proof fn lemma_count_absent_course(baseline: Seq<CourseModel>, e: GradeDiffModel)
    requires
        forall|i: int| 0 <= i < baseline.len() ==> (#[trigger] baseline[i]).name != e.course,
    ensures
        count_triple(entries_of(baseline), e) == 0,
    decreases baseline.len(),
{
    if baseline.len() > 0 {
        let head = baseline[0].grades.map_values(
            |g: GradeModel| to_change(baseline[0].name, g),
        );
        lemma_count_triple_concat(head, entries_of(baseline.drop_first()), e);
        lemma_count_no_match(head, e);
        assert(forall|i: int|
            0 <= i < baseline.drop_first().len() ==> baseline.drop_first()[i] == baseline[i + 1]);
        lemma_count_absent_course(baseline.drop_first(), e);
    }
}

/// A sequence with no entry of the triple's course counts zero.
proof fn lemma_count_no_match(es: Seq<GradeDiffModel>, e: GradeDiffModel)
    requires
        forall|j: int| 0 <= j < es.len() ==> (#[trigger] es[j]).course != e.course,
    ensures
        count_triple(es, e) == 0,
    decreases es.len(),
{
    if es.len() > 0 {
        assert(forall|j: int| 0 <= j < es.drop_first().len() ==> es.drop_first()[j] == es[j + 1]);
        lemma_count_no_match(es.drop_first(), e);
    }
}

/// Every grade of a course absent from the baseline is a change: under the
/// count-based strategy, the changes concerning that course are exactly the
/// fetched entries of that course, one change per entry, in order.
pub proof fn lemma_new_course_count(
    baseline: Seq<CourseModel>,
    fetched: Seq<CourseModel>,
    cname: Seq<char>,
)
    requires
        forall|i: int| 0 <= i < baseline.len() ==> (#[trigger] baseline[i]).name != cname,
    ensures
        for_course(count_changes(baseline, fetched), cname) == for_course(
            entries_of(fetched),
            cname,
        ),
{
    let ents = entries_of(fetched);
    assert forall|j: int|
        0 <= j < ents.len() && (#[trigger] ents[j]).course == cname implies count_triple(
        entries_of(baseline),
        ents[j],
    ) == 0 by {
        lemma_count_absent_course(baseline, ents[j]);
    }
    lemma_ccf_for_course(entries_of(baseline), ents, Seq::empty(), cname);
}

/// Compares the fetched course list against the snapshot baseline.  With no
/// baseline (first run) every change is suppressed; with one, the changes are
/// identity-based when the fetched entries carry names and count-based
/// otherwise, in fetched order.
pub fn diff_grades(baseline: Option<&Vec<Course>>, fetched: &Vec<Course>) -> (r: Vec<GradeDiff>)
    ensures
        match baseline {
            Some(b) => r.deep_view() == changes_between(b.deep_view(), fetched.deep_view()),
            None => r@.len() == 0,
        },
{
    match baseline {
        None => Vec::new(),
        Some(b) => {
            if carries_identity_exec(fetched) {
                diff_identity_based(b, fetched)
            } else {
                diff_count_based(b, fetched)
            }
        },
    }
}

} // verus!
