//! Notification formatter: renders an ordered change list into one display
//! string — a fixed header, one line per change with a category-dependent
//! marker, and a fixed footer.  Pure and deterministic; input order is kept.

use crate::models::GradeDiff;
use crate::models::GradeDiffModel;
use crate::text::str_eq;
use vstd::prelude::*;
use vstd::string::StringExecFns;

verus! {

/// The marker of one change: the microscope for the laboratory category, the
/// book for every other.
pub open spec fn marker_for(category: Seq<char>) -> Seq<char> {
    if category == "laboratoire"@ {
        "🔬"@
    } else {
        "📖"@
    }
}

/// One line of the notification body; the entry name is shown when there is
/// one.
pub open spec fn change_line(d: GradeDiffModel) -> Seq<char> {
    marker_for(d.category) + " New grade in "@ + d.category + " for "@ + d.course + (if d.name.len()
        > 0 {
        " ("@ + d.name + ")"@
    } else {
        Seq::<char>::empty()
    }) + " : "@ + d.grade + "\n"@
}

/// The notification body: one line per change, in input order.
pub open spec fn lines_of(ds: Seq<GradeDiffModel>) -> Seq<char>
    decreases ds.len(),
{
    if ds.len() == 0 {
        Seq::empty()
    } else {
        change_line(ds[0]) + lines_of(ds.drop_first())
    }
}

/// The fixed first line of every notification.
pub open spec fn message_header() -> Seq<char> {
    "📚 New Grades Available! 📚\n\n"@
}

/// The fixed last line of every notification.
pub open spec fn message_footer() -> Seq<char> {
    "\nKeep up the excellence! 🚀"@
}

/// The whole notification text for a change list.
pub open spec fn message_of(ds: Seq<GradeDiffModel>) -> Seq<char> {
    message_header() + lines_of(ds) + message_footer()
}

/// Formatting is deterministic: change lists with the same content always
/// format to the same text, character for character.
pub proof fn lemma_formatter_deterministic(a: Seq<GradeDiffModel>, b: Seq<GradeDiffModel>)
    requires
        a == b,
    ensures
        message_of(a) == message_of(b),
{
}

/// Renders the change list into the notification message: header, one
/// marker-led line per change in input order, footer.
pub fn parse_new_grades_message(diffs: Vec<GradeDiff>) -> (r: String)
    ensures
        r@ == message_of(diffs.deep_view()),
{
    let ghost d = diffs.deep_view();
    let mut message = "📚 New Grades Available! 📚\n\n".to_owned();
    let mut i: usize = 0;
    proof {
        assert(d.skip(0) =~= d);
        assert(message@ + Seq::<char>::empty() =~= message@);
    }
    while i < diffs.len()
        invariant
            i <= diffs@.len(),
            d == diffs.deep_view(),
            d.len() == diffs@.len(),
            message_header() + lines_of(d) == message@ + lines_of(d.skip(i as int)),
        decreases diffs@.len() - i,
    {
        let ghost rest = d.skip(i as int);
        let ghost before = message@;
        proof {
            assert(rest[0] == d[i as int]);
            assert(rest.drop_first() =~= d.skip(i + 1 as int));
            assert(diffs@[i as int].deep_view() == d[i as int]);
        }
        let diff = &diffs[i];
        if str_eq(diff.category.as_str(), "laboratoire") {
            message.append("🔬");
        } else {
            message.append("📖");
        }
        message.append(" New grade in ");
        message.append(diff.category.as_str());
        message.append(" for ");
        message.append(diff.course.as_str());
        if !diff.name.as_str().is_empty() {
            message.append(" (");
            message.append(diff.name.as_str());
            message.append(")");
        }
        message.append(" : ");
        message.append(diff.grade.as_str());
        message.append("\n");
        proof {
            assert(message@ =~= before + change_line(d[i as int]));
            assert(lines_of(rest) == change_line(d[i as int]) + lines_of(d.skip(i + 1 as int)));
            assert(message@ + lines_of(d.skip(i + 1 as int)) =~= before + lines_of(rest));
        }
        i = i + 1;
    }
    proof {
        assert(d.skip(d.len() as int).len() == 0);
        assert(message@ =~= message_header() + lines_of(d));
    }
    message.append("\nKeep up the excellence! 🚀");
    proof {
        assert(message@ =~= message_of(d));
    }
    message
}

} // verus!
