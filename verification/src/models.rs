use vstd::prelude::*;

verus! {

/// One graded assessment as it appears in the report table.
///
/// `value` is the grade token as displayed; the `"-"` sentinel for "not yet
/// graded" is filtered out before a `Grade` is ever built.  `category` is
/// inherited from the most recent category header row.  `name` and `average`
/// are empty when the source table does not carry them.
#[derive(Debug, Clone, PartialEq)]
pub struct Grade {
    pub value: String,
    pub category: String,
    pub average: String,
    pub name: String,
}

/// Mathematical model of a [`Grade`]: each field as a character sequence.
#[verifier::ext_equal]
pub struct GradeModel {
    pub value: Seq<char>,
    pub category: Seq<char>,
    pub average: Seq<char>,
    pub name: Seq<char>,
}

impl View for Grade {
    type V = GradeModel;

    open spec fn view(&self) -> GradeModel {
        GradeModel {
            value: self.value@,
            category: self.category@,
            average: self.average@,
            name: self.name@,
        }
    }
}

impl DeepView for Grade {
    type V = GradeModel;

    open spec fn deep_view(&self) -> GradeModel {
        self@
    }
}

/// One course and its grade entries, in table order.
#[derive(Debug, Clone, PartialEq)]
pub struct Course {
    pub name: String,
    pub grades: Vec<Grade>,
}

/// Mathematical model of a [`Course`].
#[verifier::ext_equal]
pub struct CourseModel {
    pub name: Seq<char>,
    pub grades: Seq<GradeModel>,
}

impl View for Course {
    type V = CourseModel;

    open spec fn view(&self) -> CourseModel {
        CourseModel { name: self.name@, grades: self.grades.deep_view() }
    }
}

impl DeepView for Course {
    type V = CourseModel;

    open spec fn deep_view(&self) -> CourseModel {
        self@
    }
}

/// One newly observed or changed grade, flattened for rendering.
#[derive(Debug, Clone, PartialEq)]
pub struct GradeDiff {
    pub course: String,
    pub category: String,
    pub grade: String,
    pub average: String,
    pub name: String,
}

/// Mathematical model of a [`GradeDiff`].
#[verifier::ext_equal]
pub struct GradeDiffModel {
    pub course: Seq<char>,
    pub category: Seq<char>,
    pub grade: Seq<char>,
    pub average: Seq<char>,
    pub name: Seq<char>,
}

impl View for GradeDiff {
    type V = GradeDiffModel;

    open spec fn view(&self) -> GradeDiffModel {
        GradeDiffModel {
            course: self.course@,
            category: self.category@,
            grade: self.grade@,
            average: self.average@,
            name: self.name@,
        }
    }
}

impl DeepView for GradeDiff {
    type V = GradeDiffModel;

    open spec fn deep_view(&self) -> GradeDiffModel {
        self@
    }
}

/// A course list is well formed when every course carries a non-empty name:
/// empty-named in-progress accumulators are never emitted.
pub open spec fn wf_courses(cs: Seq<CourseModel>) -> bool {
    forall|i: int| 0 <= i < cs.len() ==> (#[trigger] cs[i]).name.len() > 0
}

} // verus!
