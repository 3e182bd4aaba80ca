//! Unwrap stage of the extractor.
//!
//! The portal returns the report as literal HTML escaped inside a JSON-like
//! envelope.  The inner string is located between the first occurrence of the
//! opening marker and the last occurrence of the closing marker after it, and
//! the escaping (`\\"` for a quote, `\\/` for a slash) is then reversed.

use crate::error::GradeError;
use crate::text::chars_vec;
use crate::text::find_first;
use crate::text::find_last;
use crate::text::first_match;
use crate::text::last_match;
use crate::text::lemma_first_match_characterization;
use crate::text::lemma_last_match_characterization;
use crate::text::match_at;
use crate::text::string_of;
use crate::text::sub_chars;
use vstd::prelude::*;

verus! {

/// The text that opens the envelope's inner string: `+:"{\"parts\":{\"result\":\"`.
pub open spec fn open_marker() -> Seq<char> {
    "+:\"{\\\"parts\\\":{\\\"result\\\":\\\""@
}

/// The text that closes the envelope's inner string: `\"}}"`.
pub open spec fn close_marker() -> Seq<char> {
    "\\\"}}\""@
}

/// Reverses the envelope's character escaping in one left-to-right pass:
/// `\\"` becomes `"` and `\\/` becomes `/`; everything else is kept.
pub open spec fn unescape(s: Seq<char>) -> Seq<char>
    decreases s.len(),
{
    if s.len() >= 3 && s[0] == '\\' && s[1] == '\\' && (s[2] == '"' || s[2] == '/') {
        seq![s[2]] + unescape(s.skip(3))
    } else if s.len() > 0 {
        seq![s[0]] + unescape(s.skip(1))
    } else {
        Seq::empty()
    }
}

/// The still-escaped inner string of the envelope, when a marker pair is
/// present.
pub open spec fn envelope_inner(raw: Seq<char>) -> Option<Seq<char>> {
    match first_match(raw, open_marker()) {
        Some(i) => {
            let tail = raw.skip(i + open_marker().len() as int);
            match last_match(tail, close_marker()) {
                Some(j) => Some(tail.take(j)),
                None => None,
            }
        },
        None => None,
    }
}

/// The literal HTML carried by the envelope: the inner string with its
/// escaping reversed.
pub open spec fn unwrapped_html(raw: Seq<char>) -> Option<Seq<char>> {
    match envelope_inner(raw) {
        Some(inner) => Some(unescape(inner)),
        None => None,
    }
}

/// Reverses the envelope escaping of `v`.
fn unescape_chars(v: &Vec<char>) -> (r: Vec<char>)
    ensures
        r@ == unescape(v@),
{
    let mut out: Vec<char> = Vec::new();
    let mut i: usize = 0;
    proof {
        assert(v@.skip(0) =~= v@);
        assert(out@ + unescape(v@) =~= unescape(v@));
    }
    while i < v.len()
        invariant
            i <= v@.len(),
            unescape(v@) == out@ + unescape(v@.skip(i as int)),
        decreases v@.len() - i,
    {
        let ghost rest = v@.skip(i as int);
        proof {
            assert(rest.len() == v@.len() - i);
            assert forall|k: int| 0 <= k < rest.len() implies rest[k] == v@[i + k] by {}
        }
        if v.len() - i >= 3 && v[i] == '\\' && v[i + 1] == '\\' && (v[i + 2] == '"' || v[i + 2]
            == '/') {
            out.push(v[i + 2]);
            proof {
                assert(rest.skip(3) =~= v@.skip(i + 3 as int));
                assert(unescape(rest) == seq![rest[2]] + unescape(rest.skip(3)));
                assert(out@ + unescape(v@.skip(i + 3 as int)) =~= unescape(v@));
            }
            i = i + 3;
        } else {
            out.push(v[i]);
            proof {
                assert(rest.skip(1) =~= v@.skip(i + 1 as int));
                assert(unescape(rest) == seq![rest[0]] + unescape(rest.skip(1)));
                assert(out@ + unescape(v@.skip(i + 1 as int)) =~= unescape(v@));
            }
            i = i + 1;
        }
    }
    proof {
        assert(v@.skip(v@.len() as int).len() == 0);
        assert(out@ =~= unescape(v@));
    }
    out
}

/// Isolates the envelope's inner string from the raw payload and reverses its
/// escaping, recovering the literal HTML of the report.  Fails with
/// [`GradeError::UnwrapFailed`] exactly when no marker pair is present.
pub fn parse_html_response(raw: &str) -> (r: Result<String, GradeError>)
    ensures
        match unwrapped_html(raw@) {
            Some(html) => r is Ok && r->Ok_0@ == html,
            None => r == Err::<String, GradeError>(GradeError::UnwrapFailed),
        },
{
    let v = chars_vec(raw);
    let omark = chars_vec("+:\"{\\\"parts\\\":{\\\"result\\\":\\\"");
    proof {
        assert(omark@ == open_marker());
    }
    let found = find_first(&v, &omark);
    match found {
        None => Err(GradeError::UnwrapFailed),
        Some(i) => {
            let vn = v.len();
            proof {
                lemma_first_match_characterization(v@, omark@);
                assert(match_at(v@, omark@, i as int));
                assert(i + omark@.len() <= vn);
            }
            let start = i + omark.len();
            let tail = sub_chars(&v, start, v.len());
            proof {
                assert(tail@ =~= v@.skip(start as int));
            }
            let cmark = chars_vec("\\\"}}\"");
            proof {
                assert(cmark@ == close_marker());
            }
            let closing = find_last(&tail, &cmark);
            match closing {
                None => Err(GradeError::UnwrapFailed),
                Some(j) => {
                    proof {
                        lemma_last_match_characterization(tail@, cmark@);
                        assert(match_at(tail@, cmark@, j as int));
                    }
                    let inner = sub_chars(&tail, 0, j);
                    proof {
                        assert(inner@ =~= tail@.take(j as int));
                    }
                    let un = unescape_chars(&inner);
                    Ok(string_of(&un))
                },
            }
        },
    }
}

} // verus!
