//! Snapshot codec: the durable form of the course list.
//!
//! The snapshot is a single text document: a length-prefixed encoding of the
//! ordered course list, `count ';' course*`, each course
//! `name-string count ';' grade*`, each grade four strings
//! (value, category, average, name), each string `length ':' characters`.
//! Length prefixes make escaping unnecessary, so the encoding round-trips
//! exactly.  The decoder accepts exactly the strings the encoder can produce
//! (up to redundant leading zeros in a length) and rejects everything else.

use crate::error::GradeError;
use crate::models::Course;
use crate::models::CourseModel;
use crate::models::Grade;
use crate::models::GradeModel;
use crate::text::chars_vec;
use crate::text::string_of;
use crate::text::sub_chars;
use vstd::prelude::*;
use vstd::string::StringExecFns;
use vstd::string::StrSliceExecFns;

verus! {

/// The character for one decimal digit.
pub open spec fn digit_char(d: nat) -> char {
    if d == 0 {
        '0'
    } else if d == 1 {
        '1'
    } else if d == 2 {
        '2'
    } else if d == 3 {
        '3'
    } else if d == 4 {
        '4'
    } else if d == 5 {
        '5'
    } else if d == 6 {
        '6'
    } else if d == 7 {
        '7'
    } else if d == 8 {
        '8'
    } else {
        '9'
    }
}

/// A decimal digit character.
pub open spec fn is_digit(c: char) -> bool {
    '0' <= c && c <= '9'
}

/// The value of one digit character.
pub open spec fn digit_val(c: char) -> int {
    c as int - '0' as int
}

/// The decimal representation of `n`, most significant digit first.
pub open spec fn dec_rep(n: nat) -> Seq<char>
    decreases n,
{
    if n < 10 {
        seq![digit_char(n)]
    } else {
        dec_rep(n / 10).push(digit_char(n % 10))
    }
}

/// One length-prefixed string: `length ':' characters`.
pub open spec fn enc_str(s: Seq<char>) -> Seq<char> {
    dec_rep(s.len()) + seq![':'] + s
}

/// One grade: its four strings in order.
pub open spec fn enc_grade(g: GradeModel) -> Seq<char> {
    enc_str(g.value) + enc_str(g.category) + enc_str(g.average) + enc_str(g.name)
}

/// A grade list, one grade after the other.
pub open spec fn enc_grades(gs: Seq<GradeModel>) -> Seq<char>
    decreases gs.len(),
{
    if gs.len() == 0 {
        Seq::empty()
    } else {
        enc_grade(gs[0]) + enc_grades(gs.drop_first())
    }
}

/// One course: its name, then its counted grade list.
pub open spec fn enc_course(c: CourseModel) -> Seq<char> {
    enc_str(c.name) + dec_rep(c.grades.len()) + seq![';'] + enc_grades(c.grades)
}

/// A course list, one course after the other.
pub open spec fn enc_courses(cs: Seq<CourseModel>) -> Seq<char>
    decreases cs.len(),
{
    if cs.len() == 0 {
        Seq::empty()
    } else {
        enc_course(cs[0]) + enc_courses(cs.drop_first())
    }
}

/// The whole snapshot: the counted course list.
pub open spec fn encode_snapshot_spec(cs: Seq<CourseModel>) -> Seq<char> {
    dec_rep(cs.len()) + seq![';'] + enc_courses(cs)
}

/// The length of the maximal leading digit run of `s`.
pub open spec fn digit_prefix_len(s: Seq<char>) -> nat
    decreases s.len(),
{
    if s.len() > 0 && is_digit(s[0]) {
        1 + digit_prefix_len(s.drop_first())
    } else {
        0
    }
}

/// The number a digit string spells, most significant digit first.
pub open spec fn nat_of_digits(ds: Seq<char>) -> int
    decreases ds.len(),
{
    if ds.len() == 0 {
        0
    } else {
        nat_of_digits(ds.take(ds.len() - 1)) * 10 + digit_val(ds[ds.len() - 1])
    }
}

/// Reads the leading number of `s`: its value and what follows the digits.
/// Nothing is read when `s` does not start with a digit.
pub open spec fn parse_nat(s: Seq<char>) -> Option<(int, Seq<char>)> {
    let k = digit_prefix_len(s);
    if k == 0 {
        None
    } else {
        Some((nat_of_digits(s.take(k as int)), s.skip(k as int)))
    }
}

/// Reads one length-prefixed string: the number, a `':'`, then that many
/// characters.
pub open spec fn parse_str(s: Seq<char>) -> Option<(Seq<char>, Seq<char>)> {
    match parse_nat(s) {
        Some((n, r)) => if r.len() >= n + 1 && r[0] == ':' {
            Some((r.subrange(1, n + 1), r.skip(n + 1)))
        } else {
            None
        },
        None => None,
    }
}

/// Reads one grade: its four strings in order.
pub open spec fn parse_grade(s: Seq<char>) -> Option<(GradeModel, Seq<char>)> {
    match parse_str(s) {
        Some((value, r1)) => match parse_str(r1) {
            Some((category, r2)) => match parse_str(r2) {
                Some((average, r3)) => match parse_str(r3) {
                    Some((name, r4)) => Some((GradeModel { value, category, average, name }, r4)),
                    None => None,
                },
                None => None,
            },
            None => None,
        },
        None => None,
    }
}

/// Reads exactly `n` grades.
pub open spec fn parse_grades(s: Seq<char>, n: nat) -> Option<(Seq<GradeModel>, Seq<char>)>
    decreases n,
{
    if n == 0 {
        Some((Seq::empty(), s))
    } else {
        match parse_grade(s) {
            Some((g, r)) => match parse_grades(r, (n - 1) as nat) {
                Some((gs, rest)) => Some((seq![g] + gs, rest)),
                None => None,
            },
            None => None,
        }
    }
}

/// Reads one course: its name, a grade count, a `';'`, then that many grades.
pub open spec fn parse_course(s: Seq<char>) -> Option<(CourseModel, Seq<char>)> {
    match parse_str(s) {
        Some((name, r1)) => match parse_nat(r1) {
            Some((n, r2)) => if n >= 0 && r2.len() >= 1 && r2[0] == ';' {
                match parse_grades(r2.skip(1), n as nat) {
                    Some((gs, rest)) => Some((CourseModel { name, grades: gs }, rest)),
                    None => None,
                }
            } else {
                None
            },
            None => None,
        },
        None => None,
    }
}

/// Reads exactly `n` courses.
pub open spec fn parse_courses(s: Seq<char>, n: nat) -> Option<(Seq<CourseModel>, Seq<char>)>
    decreases n,
{
    if n == 0 {
        Some((Seq::empty(), s))
    } else {
        match parse_course(s) {
            Some((c, r)) => match parse_courses(r, (n - 1) as nat) {
                Some((cs, rest)) => Some((seq![c] + cs, rest)),
                None => None,
            },
            None => None,
        }
    }
}

/// Decodes a snapshot document: the course count, a `';'`, that many courses,
/// and nothing after them.
pub open spec fn decode_snapshot_spec(s: Seq<char>) -> Option<Seq<CourseModel>> {
    match parse_nat(s) {
        Some((n, r)) => if n >= 0 && r.len() >= 1 && r[0] == ';' {
            match parse_courses(r.skip(1), n as nat) {
                Some((cs, rest)) => if rest.len() == 0 {
                    Some(cs)
                } else {
                    None
                },
                None => None,
            }
        } else {
            None
        },
        None => None,
    }
}

/// Digit characters carry their value.
proof fn lemma_digit_char_val(d: nat)
    requires
        d < 10,
    ensures
        is_digit(digit_char(d)),
        digit_val(digit_char(d)) == d,
{
}

/// A decimal representation is a non-empty digit string.
proof fn lemma_dec_rep_digits(n: nat)
    ensures
        dec_rep(n).len() >= 1,
        forall|i: int| 0 <= i < dec_rep(n).len() ==> is_digit(#[trigger] dec_rep(n)[i]),
    decreases n,
{
    if n < 10 {
        lemma_digit_char_val(n);
    } else {
        lemma_dec_rep_digits(n / 10);
        lemma_digit_char_val(n % 10);
        assert forall|i: int| 0 <= i < dec_rep(n).len() implies is_digit(#[trigger] dec_rep(n)[i]) by {
            if i < dec_rep(n / 10).len() {
                assert(dec_rep(n)[i] == dec_rep(n / 10)[i]);
            } else {
                assert(dec_rep(n)[i] == digit_char(n % 10));
            }
        }
    }
}

/// The digit prefix is exactly the run of digits up to the first non-digit.
proof fn lemma_digit_prefix_boundary(s: Seq<char>, j: int)
    requires
        0 <= j <= s.len(),
        forall|k: int| 0 <= k < j ==> is_digit(s[k]),
        j < s.len() ==> !is_digit(s[j]),
    ensures
        digit_prefix_len(s) == j,
    decreases j,
{
    if j == 0 {
    } else {
        assert(is_digit(s[0]));
        lemma_digit_prefix_boundary(s.drop_first(), j - 1);
    }
}

/// A run of leading digits bounds the digit prefix from below.
proof fn lemma_digit_prefix_at_least(s: Seq<char>, j: int)
    requires
        0 <= j <= s.len(),
        forall|k: int| 0 <= k < j ==> is_digit(s[k]),
    ensures
        digit_prefix_len(s) >= j,
    decreases j,
{
    if j == 0 {
    } else {
        assert(is_digit(s[0]));
        lemma_digit_prefix_at_least(s.drop_first(), j - 1);
    }
}

/// Every character of the digit prefix is a digit.
proof fn lemma_digit_prefix_digits(s: Seq<char>)
    ensures
        digit_prefix_len(s) <= s.len(),
        forall|k: int| 0 <= k < digit_prefix_len(s) ==> is_digit(s[k]),
    decreases s.len(),
{
    if s.len() > 0 && is_digit(s[0]) {
        lemma_digit_prefix_digits(s.drop_first());
        assert forall|k: int| 0 <= k < digit_prefix_len(s) implies is_digit(s[k]) by {
            if k > 0 {
                assert(s[k] == s.drop_first()[k - 1]);
            }
        }
    }
}

/// Appending a digit multiplies the value by ten and adds the digit.
proof fn lemma_nod_push(ds: Seq<char>, c: char)
    ensures
        nat_of_digits(ds.push(c)) == nat_of_digits(ds) * 10 + digit_val(c),
{
    assert(ds.push(c).take(ds.push(c).len() - 1) =~= ds);
    assert(ds.push(c)[ds.push(c).len() - 1] == c);
}

/// A digit string spells a non-negative number.
proof fn lemma_nod_nonneg(ds: Seq<char>)
    requires
        forall|k: int| 0 <= k < ds.len() ==> is_digit(ds[k]),
    ensures
        nat_of_digits(ds) >= 0,
    decreases ds.len(),
{
    if ds.len() > 0 {
        assert(ds.take(ds.len() - 1) =~= ds.subrange(0, ds.len() - 1));
        lemma_nod_nonneg(ds.take(ds.len() - 1));
        assert(is_digit(ds[ds.len() - 1]));
    }
}

/// A digit string spells at least what any of its prefixes spells.
proof fn lemma_nod_prefix_le(ds: Seq<char>, j: int)
    requires
        0 <= j <= ds.len(),
        forall|k: int| 0 <= k < ds.len() ==> is_digit(ds[k]),
    ensures
        nat_of_digits(ds.take(j)) <= nat_of_digits(ds),
    decreases ds.len() - j,
{
    if j == ds.len() {
        assert(ds.take(j) =~= ds);
    } else {
        lemma_nod_prefix_le(ds, j + 1);
        let t = ds.take(j + 1);
        assert(t.take(t.len() - 1) =~= ds.take(j));
        assert(is_digit(t[t.len() - 1]));
        assert(nat_of_digits(ds.take(j)) >= 0) by {
            assert(forall|k: int| 0 <= k < ds.take(j).len() ==> is_digit(ds.take(j)[k]));
            lemma_nod_nonneg(ds.take(j));
        }
        assert(nat_of_digits(t) == nat_of_digits(ds.take(j)) * 10 + digit_val(t[t.len() - 1]));
    }
}

/// The decimal representation spells the number back.
proof fn lemma_nod_dec_rep(n: nat)
    ensures
        nat_of_digits(dec_rep(n)) == n,
    decreases n,
{
    if n < 10 {
        lemma_digit_char_val(n);
        let ds = dec_rep(n);
        assert(ds == seq![digit_char(n)]);
        assert(ds.len() == 1);
        assert(ds.take(0) =~= Seq::<char>::empty());
        assert(nat_of_digits(ds.take(0)) == 0);
        assert(ds[0] == digit_char(n));
        assert(nat_of_digits(ds) == nat_of_digits(ds.take(0)) * 10 + digit_val(ds[0]));
    } else {
        lemma_nod_dec_rep(n / 10);
        lemma_digit_char_val(n % 10);
        lemma_nod_push(dec_rep(n / 10), digit_char(n % 10));
        assert(dec_rep(n) == dec_rep(n / 10).push(digit_char(n % 10)));
        assert(n / 10 * 10 + n % 10 == n) by {
            vstd::arithmetic::div_mod::lemma_fundamental_div_mod(n as int, 10);
        }
    }
}

/// Reading a number back from its encoding yields the number and the rest,
/// provided the rest does not begin with a digit.
proof fn lemma_parse_nat_enc(n: nat, rest: Seq<char>)
    requires
        rest.len() == 0 || !is_digit(rest[0]),
    ensures
        parse_nat(dec_rep(n) + rest) == Some((n as int, rest)),
{
    let d = dec_rep(n);
    let s = d + rest;
    lemma_dec_rep_digits(n);
    assert(forall|k: int| 0 <= k < d.len() ==> s[k] == d[k]);
    assert((d.len() as int) < s.len() ==> s[d.len() as int] == rest[0]);
    lemma_digit_prefix_boundary(s, d.len() as int);
    assert(s.take(d.len() as int) =~= d);
    assert(s.skip(d.len() as int) =~= rest);
    lemma_nod_dec_rep(n);
}

/// Reading a string back from its encoding yields the string and the rest.
proof fn lemma_parse_str_enc(x: Seq<char>, rest: Seq<char>)
    ensures
        parse_str(enc_str(x) + rest) == Some((x, rest)),
{
    let r2 = seq![':'] + x + rest;
    assert(enc_str(x) + rest =~= dec_rep(x.len()) + r2);
    assert(r2[0] == ':');
    assert(!is_digit(':'));
    lemma_parse_nat_enc(x.len(), r2);
    assert(r2.subrange(1, x.len() as int + 1) =~= x);
    assert(r2.skip(x.len() as int + 1) =~= rest);
}

/// Reading a grade back from its encoding yields the grade and the rest.
proof fn lemma_parse_grade_enc(g: GradeModel, rest: Seq<char>)
    ensures
        parse_grade(enc_grade(g) + rest) == Some((g, rest)),
{
    let r3 = enc_str(g.name) + rest;
    let r2 = enc_str(g.average) + r3;
    let r1 = enc_str(g.category) + r2;
    assert(enc_grade(g) + rest =~= enc_str(g.value) + r1);
    lemma_parse_str_enc(g.value, r1);
    lemma_parse_str_enc(g.category, r2);
    lemma_parse_str_enc(g.average, r3);
    lemma_parse_str_enc(g.name, rest);
}

/// Reading a grade list back from its encoding yields the list and the rest.
proof fn lemma_parse_grades_enc(gs: Seq<GradeModel>, rest: Seq<char>)
    ensures
        parse_grades(enc_grades(gs) + rest, gs.len()) == Some((gs, rest)),
    decreases gs.len(),
{
    if gs.len() == 0 {
        assert(enc_grades(gs) + rest =~= rest);
        assert(gs =~= Seq::<GradeModel>::empty());
    } else {
        let tail_rest = enc_grades(gs.drop_first()) + rest;
        assert(enc_grades(gs) + rest =~= enc_grade(gs[0]) + tail_rest);
        lemma_parse_grade_enc(gs[0], tail_rest);
        lemma_parse_grades_enc(gs.drop_first(), rest);
        assert(seq![gs[0]] + gs.drop_first() =~= gs);
    }
}

/// Reading a course back from its encoding yields the course and the rest.
proof fn lemma_parse_course_enc(c: CourseModel, rest: Seq<char>)
    ensures
        parse_course(enc_course(c) + rest) == Some((c, rest)),
{
    let r2 = seq![';'] + (enc_grades(c.grades) + rest);
    let r1 = dec_rep(c.grades.len()) + r2;
    assert(enc_course(c) + rest =~= enc_str(c.name) + r1);
    lemma_parse_str_enc(c.name, r1);
    assert(r2[0] == ';');
    assert(!is_digit(';'));
    lemma_parse_nat_enc(c.grades.len(), r2);
    assert(r2.skip(1) =~= enc_grades(c.grades) + rest);
    lemma_parse_grades_enc(c.grades, rest);
}

/// Reading a course list back from its encoding yields the list and the rest.
proof fn lemma_parse_courses_enc(cs: Seq<CourseModel>, rest: Seq<char>)
    ensures
        parse_courses(enc_courses(cs) + rest, cs.len()) == Some((cs, rest)),
    decreases cs.len(),
{
    if cs.len() == 0 {
        assert(enc_courses(cs) + rest =~= rest);
        assert(cs =~= Seq::<CourseModel>::empty());
    } else {
        let tail_rest = enc_courses(cs.drop_first()) + rest;
        assert(enc_courses(cs) + rest =~= enc_course(cs[0]) + tail_rest);
        lemma_parse_course_enc(cs[0], tail_rest);
        lemma_parse_courses_enc(cs.drop_first(), rest);
        assert(seq![cs[0]] + cs.drop_first() =~= cs);
    }
}

/// Writing a course list to the snapshot form and reading it back reproduces
/// the same list: names, entry order and every field.
pub proof fn lemma_snapshot_round_trip(cs: Seq<CourseModel>)
    ensures
        decode_snapshot_spec(encode_snapshot_spec(cs)) == Some(cs),
{
    let r2 = seq![';'] + enc_courses(cs);
    assert(encode_snapshot_spec(cs) =~= dec_rep(cs.len()) + r2);
    assert(r2[0] == ';');
    assert(!is_digit(';'));
    lemma_parse_nat_enc(cs.len(), r2);
    assert(r2.skip(1) =~= enc_courses(cs) + Seq::<char>::empty());
    lemma_parse_courses_enc(cs, Seq::empty());
}

/// A parsed string sits behind its length prefix and separator, so parsing
/// consumes at least two characters.
proof fn lemma_parse_str_consumes(s: Seq<char>)
    ensures
        parse_str(s) is Some ==> parse_str(s)->Some_0.1.len() + 2 <= s.len(),
{
    if parse_str(s) is Some {
        let k = digit_prefix_len(s);
        lemma_digit_prefix_digits(s);
        assert(forall|j: int| 0 <= j < s.take(k as int).len() ==> is_digit(s.take(k as int)[j]));
        lemma_nod_nonneg(s.take(k as int));
    }
}

/// Parsing a grade consumes at least one character.
proof fn lemma_parse_grade_consumes(s: Seq<char>)
    ensures
        parse_grade(s) is Some ==> parse_grade(s)->Some_0.1.len() < s.len(),
{
    if parse_grade(s) is Some {
        let r1 = parse_str(s)->Some_0.1;
        let r2 = parse_str(r1)->Some_0.1;
        let r3 = parse_str(r2)->Some_0.1;
        lemma_parse_str_consumes(s);
        lemma_parse_str_consumes(r1);
        lemma_parse_str_consumes(r2);
        lemma_parse_str_consumes(r3);
    }
}

/// Parsing the rest never grows it.
proof fn lemma_parse_grades_shrinks(s: Seq<char>, n: nat)
    ensures
        parse_grades(s, n) is Some ==> parse_grades(s, n)->Some_0.1.len() <= s.len(),
    decreases n,
{
    if n > 0 && parse_grades(s, n) is Some {
        lemma_parse_grade_consumes(s);
        lemma_parse_grades_shrinks(parse_grade(s)->Some_0.1, (n - 1) as nat);
    }
}

/// More grades than characters cannot be read.
proof fn lemma_parse_grades_overrun(s: Seq<char>, n: nat)
    requires
        n > s.len(),
    ensures
        parse_grades(s, n) is None,
    decreases n,
{
    if parse_grade(s) is Some {
        lemma_parse_grade_consumes(s);
        lemma_parse_grades_overrun(parse_grade(s)->Some_0.1, (n - 1) as nat);
    }
}

/// Parsing a course consumes at least one character.
proof fn lemma_parse_course_consumes(s: Seq<char>)
    ensures
        parse_course(s) is Some ==> parse_course(s)->Some_0.1.len() < s.len(),
{
    if parse_course(s) is Some {
        let r1 = parse_str(s)->Some_0.1;
        lemma_parse_str_consumes(s);
        let k = digit_prefix_len(r1);
        lemma_digit_prefix_digits(r1);
        let r2 = parse_nat(r1)->Some_0.1;
        let n = parse_nat(r1)->Some_0.0;
        lemma_parse_grades_shrinks(r2.skip(1), n as nat);
    }
}

/// More courses than characters cannot be read.
proof fn lemma_parse_courses_overrun(s: Seq<char>, n: nat)
    requires
        n > s.len(),
    ensures
        parse_courses(s, n) is None,
    decreases n,
{
    if parse_course(s) is Some {
        lemma_parse_course_consumes(s);
        lemma_parse_courses_overrun(parse_course(s)->Some_0.1, (n - 1) as nat);
    }
}

/// A decimal digit character.
fn is_digit_exec(c: char) -> (r: bool)
    ensures
        r == is_digit(c),
{
    c >= '0' && c <= '9'
}

/// The value of one digit character.
fn digit_val_exec(c: char) -> (r: usize)
    requires
        is_digit(c),
    ensures
        r as int == digit_val(c),
{
    (c as u32 - '0' as u32) as usize
}

/// Scans the number at position `p`.  Gives its value and the position after
/// its digits; refuses a number larger than the document, which no later
/// check could accept anyway.
fn parse_count_exec(v: &Vec<char>, p: usize) -> (r: Option<(usize, usize)>)
    requires
        p <= v@.len(),
    ensures
        match r {
            Some(pr) => p <= pr.1 <= v@.len() && pr.0 <= v@.len() && parse_nat(v@.skip(p as int))
                == Some((pr.0 as int, v@.skip(pr.1 as int))),
            None => match parse_nat(v@.skip(p as int)) {
                Some(pr) => pr.0 > v@.len(),
                None => true,
            },
        },
{
    let ghost s = v@.skip(p as int);
    proof {
        assert(s.len() == v@.len() - p);
        assert forall|k: int| 0 <= k < s.len() implies s[k] == v@[p + k] by {}
    }
    let vlen = v.len();
    if p == vlen || !is_digit_exec(v[p]) {
        proof {
            lemma_digit_prefix_boundary(s, 0);
        }
        return None;
    }
    let mut q: usize = p;
    let mut acc: usize = 0;
    while q < vlen && is_digit_exec(v[q])
        invariant
            p <= q <= vlen,
            vlen == v@.len(),
            acc <= vlen,
            s == v@.skip(p as int),
            s.len() == v@.len() - p,
            forall|k: int| 0 <= k < s.len() ==> s[k] == v@[p + k],
            forall|k: int| p <= k < q ==> is_digit(v@[k]),
            acc as int == nat_of_digits(v@.subrange(p as int, q as int)),
        decreases vlen - q,
    {
        let d = digit_val_exec(v[q]);
        let ghost pre = v@.subrange(p as int, q as int);
        proof {
            assert(pre.push(v@[q as int]) =~= v@.subrange(p as int, q as int + 1));
            lemma_nod_push(pre, v@[q as int]);
        }
        if acc > vlen / 10 || d > vlen - acc * 10 {
            proof {
                let j = q + 1 - p;
                assert(s.take(j as int) =~= v@.subrange(p as int, q as int + 1));
                assert(forall|k: int| 0 <= k < j ==> is_digit(s[k]));
                lemma_digit_prefix_at_least(s, j as int);
                lemma_digit_prefix_digits(s);
                let k = digit_prefix_len(s);
                assert(forall|m: int|
                    0 <= m < s.take(k as int).len() ==> is_digit(s.take(k as int)[m]));
                assert(s.take(k as int).take(j as int) =~= s.take(j as int));
                lemma_nod_prefix_le(s.take(k as int), j as int);
                assert(nat_of_digits(s.take(j as int)) > vlen);
            }
            return None;
        }
        acc = acc * 10 + d;
        q = q + 1;
    }
    proof {
        lemma_digit_prefix_boundary(s, q - p);
        assert(s.take(q - p) =~= v@.subrange(p as int, q as int));
        assert(s.skip(q - p) =~= v@.skip(q as int));
    }
    Some((acc, q))
}

/// Reads one length-prefixed string at position `p`.
fn parse_str_exec(v: &Vec<char>, p: usize) -> (r: Option<(String, usize)>)
    requires
        p <= v@.len(),
    ensures
        match r {
            Some(pr) => p <= pr.1 <= v@.len() && parse_str(v@.skip(p as int)) == Some(
                (pr.0@, v@.skip(pr.1 as int)),
            ),
            None => parse_str(v@.skip(p as int)) is None,
        },
{
    let ghost s = v@.skip(p as int);
    let counted = parse_count_exec(v, p);
    match counted {
        None => {
            proof {
                if parse_nat(s) is Some {
                    let n = parse_nat(s)->Some_0.0;
                    let rr = parse_nat(s)->Some_0.1;
                    let k = digit_prefix_len(s);
                    lemma_digit_prefix_digits(s);
                    assert(rr == s.skip(k as int));
                    assert(rr.len() <= s.len() <= v@.len());
                    assert(n > v@.len());
                }
            }
            None
        },
        Some((n, q)) => {
            let ghost rr = v@.skip(q as int);
            proof {
                assert(rr.len() == v@.len() - q);
            }
            if q == v.len() {
                return None;
            }
            proof {
                assert(rr[0] == v@[q as int]);
            }
            if v[q] != ':' {
                return None;
            }
            if n > v.len() - (q + 1) {
                return None;
            }
            let content = sub_chars(v, q + 1, q + 1 + n);
            let st = string_of(&content);
            proof {
                assert(rr.subrange(1, n as int + 1) =~= v@.subrange(
                    q as int + 1,
                    q as int + 1 + n as int,
                ));
                assert(rr.skip(n as int + 1) =~= v@.skip(q as int + 1 + n as int));
            }
            Some((st, q + 1 + n))
        },
    }
}

/// Reads one grade at position `p`.
fn parse_grade_exec(v: &Vec<char>, p: usize) -> (r: Option<(Grade, usize)>)
    requires
        p <= v@.len(),
    ensures
        match r {
            Some(pr) => p <= pr.1 <= v@.len() && parse_grade(v@.skip(p as int)) == Some(
                (pr.0@, v@.skip(pr.1 as int)),
            ),
            None => parse_grade(v@.skip(p as int)) is None,
        },
{
    let (value, p1) = match parse_str_exec(v, p) {
        Some(x) => x,
        None => {
            return None;
        },
    };
    let (category, p2) = match parse_str_exec(v, p1) {
        Some(x) => x,
        None => {
            return None;
        },
    };
    let (average, p3) = match parse_str_exec(v, p2) {
        Some(x) => x,
        None => {
            return None;
        },
    };
    let (name, p4) = match parse_str_exec(v, p3) {
        Some(x) => x,
        None => {
            return None;
        },
    };
    Some((Grade { value, category, average, name }, p4))
}

/// Reads one course at position `p`.
fn parse_course_exec(v: &Vec<char>, p: usize) -> (r: Option<(Course, usize)>)
    requires
        p <= v@.len(),
    ensures
        match r {
            Some(pr) => p <= pr.1 <= v@.len() && parse_course(v@.skip(p as int)) == Some(
                (pr.0.deep_view(), v@.skip(pr.1 as int)),
            ),
            None => parse_course(v@.skip(p as int)) is None,
        },
{
    let (name, p1) = match parse_str_exec(v, p) {
        Some(x) => x,
        None => {
            return None;
        },
    };
    let ghost r1 = v@.skip(p1 as int);
    let counted = parse_count_exec(v, p1);
    let (n, p2) = match counted {
        Some(x) => x,
        None => {
            proof {
                if parse_nat(r1) is Some {
                    let cnt = parse_nat(r1)->Some_0.0;
                    let r2 = parse_nat(r1)->Some_0.1;
                    lemma_digit_prefix_digits(r1);
                    assert(cnt > v@.len());
                    if r2.len() >= 1 && r2[0] == ';' {
                        assert(r2.skip(1).len() < r2.len() <= r1.len() <= v@.len());
                        lemma_parse_grades_overrun(r2.skip(1), cnt as nat);
                    }
                }
            }
            return None;
        },
    };
    let ghost r2 = v@.skip(p2 as int);
    if p2 == v.len() {
        return None;
    }
    proof {
        assert(r2[0] == v@[p2 as int]);
        assert(r2.len() == v@.len() - p2);
    }
    if v[p2] != ';' {
        return None;
    }
    let mut grades: Vec<Grade> = Vec::new();
    let mut pos: usize = p2 + 1;
    let mut i: usize = 0;
    let ghost gstart = v@.skip(p2 as int + 1);
    proof {
        assert(r2.skip(1) =~= gstart);
        assert(grades.deep_view() =~= Seq::<GradeModel>::empty());
        assert(v@.skip(pos as int) == gstart);
    }
    while i < n
        invariant
            i <= n,
            p < pos <= v@.len(),
            n <= v@.len(),
            p <= p1 <= p2 < v@.len(),
            parse_str(v@.skip(p as int)) == Some((name@, v@.skip(p1 as int))),
            parse_nat(v@.skip(p1 as int)) == Some((n as int, v@.skip(p2 as int))),
            v@[p2 as int] == ';',
            v@.skip(p2 as int).len() >= 1,
            v@.skip(p2 as int)[0] == ';',
            v@.skip(p2 as int).skip(1) == gstart,
            gstart == v@.skip(p2 as int + 1),
            match parse_grades(v@.skip(pos as int), (n - i) as nat) {
                Some(pr) => parse_grades(gstart, n as nat) == Some(
                    (grades.deep_view() + pr.0, pr.1),
                ),
                None => parse_grades(gstart, n as nat) is None,
            },
        decreases n - i,
    {
        let parsed = parse_grade_exec(v, pos);
        match parsed {
            None => {
                proof {
                    assert(parse_grades(v@.skip(pos as int), (n - i) as nat) is None);
                }
                return None;
            },
            Some((g, q)) => {
                let ghost gm = g@;
                let ghost out_old = grades.deep_view();
                proof {
                    assert(parse_grade(v@.skip(pos as int)) == Some((gm, v@.skip(q as int))));
                    match parse_grades(v@.skip(q as int), (n - i - 1) as nat) {
                        Some(pr) => {
                            assert(parse_grades(v@.skip(pos as int), (n - i) as nat) == Some(
                                (seq![gm] + pr.0, pr.1),
                            ));
                            assert(out_old + (seq![gm] + pr.0) =~= out_old.push(gm) + pr.0);
                        },
                        None => {
                            assert(parse_grades(v@.skip(pos as int), (n - i) as nat) is None);
                        },
                    }
                }
                grades.push(g);
                proof {
                    assert(grades.deep_view() =~= out_old.push(gm));
                }
                pos = q;
            },
        }
        i = i + 1;
    }
    proof {
        assert(parse_grades(v@.skip(pos as int), 0) == Some(
            (Seq::<GradeModel>::empty(), v@.skip(pos as int)),
        ));
        assert(grades.deep_view() + Seq::<GradeModel>::empty() =~= grades.deep_view());
    }
    let course = Course { name, grades };
    Some((course, pos))
}

/// Decodes a snapshot document into the course list it spells.  Fails with
/// [`GradeError::SnapshotCorrupt`] exactly when the document does not follow
/// the snapshot form.
pub fn decode_snapshot(s: &str) -> (r: Result<Vec<Course>, GradeError>)
    ensures
        match decode_snapshot_spec(s@) {
            Some(cs) => r is Ok && r->Ok_0.deep_view() == cs,
            None => r == Err::<Vec<Course>, GradeError>(GradeError::SnapshotCorrupt),
        },
{
    let v = chars_vec(s);
    proof {
        assert(v@.skip(0) =~= v@);
    }
    let counted = parse_count_exec(&v, 0);
    let (n, p1) = match counted {
        Some(x) => x,
        None => {
            proof {
                if parse_nat(v@) is Some {
                    let cnt = parse_nat(v@)->Some_0.0;
                    let r1 = parse_nat(v@)->Some_0.1;
                    lemma_digit_prefix_digits(v@);
                    assert(cnt > v@.len());
                    if r1.len() >= 1 && r1[0] == ';' {
                        assert(r1.skip(1).len() < r1.len() <= v@.len());
                        lemma_parse_courses_overrun(r1.skip(1), cnt as nat);
                    }
                }
            }
            return Err(GradeError::SnapshotCorrupt);
        },
    };
    let ghost r1 = v@.skip(p1 as int);
    if p1 == v.len() {
        return Err(GradeError::SnapshotCorrupt);
    }
    proof {
        assert(r1[0] == v@[p1 as int]);
        assert(r1.len() == v@.len() - p1);
    }
    if v[p1] != ';' {
        return Err(GradeError::SnapshotCorrupt);
    }
    let mut courses: Vec<Course> = Vec::new();
    let mut pos: usize = p1 + 1;
    let mut i: usize = 0;
    let ghost cstart = v@.skip(p1 as int + 1);
    proof {
        assert(r1.skip(1) =~= cstart);
        assert(courses.deep_view() =~= Seq::<CourseModel>::empty());
        assert(v@.skip(pos as int) == cstart);
    }
    while i < n
        invariant
            i <= n,
            pos <= v@.len(),
            n <= v@.len(),
            p1 < v@.len(),
            v@ == s@,
            parse_nat(v@) == Some((n as int, v@.skip(p1 as int))),
            v@.skip(p1 as int).len() >= 1,
            v@.skip(p1 as int)[0] == ';',
            v@.skip(p1 as int).skip(1) == cstart,
            cstart == v@.skip(p1 as int + 1),
            match parse_courses(v@.skip(pos as int), (n - i) as nat) {
                Some(pr) => parse_courses(cstart, n as nat) == Some(
                    (courses.deep_view() + pr.0, pr.1),
                ),
                None => parse_courses(cstart, n as nat) is None,
            },
        decreases n - i,
    {
        let parsed = parse_course_exec(&v, pos);
        match parsed {
            None => {
                proof {
                    assert(parse_courses(v@.skip(pos as int), (n - i) as nat) is None);
                }
                return Err(GradeError::SnapshotCorrupt);
            },
            Some((c, q)) => {
                let ghost cm = c.deep_view();
                let ghost out_old = courses.deep_view();
                proof {
                    assert(parse_course(v@.skip(pos as int)) == Some((cm, v@.skip(q as int))));
                    match parse_courses(v@.skip(q as int), (n - i - 1) as nat) {
                        Some(pr) => {
                            assert(parse_courses(v@.skip(pos as int), (n - i) as nat) == Some(
                                (seq![cm] + pr.0, pr.1),
                            ));
                            assert(out_old + (seq![cm] + pr.0) =~= out_old.push(cm) + pr.0);
                        },
                        None => {
                            assert(parse_courses(v@.skip(pos as int), (n - i) as nat) is None);
                        },
                    }
                }
                courses.push(c);
                proof {
                    assert(courses.deep_view() =~= out_old.push(cm));
                }
                pos = q;
            },
        }
        i = i + 1;
    }
    proof {
        assert(parse_courses(v@.skip(pos as int), 0) == Some(
            (Seq::<CourseModel>::empty(), v@.skip(pos as int)),
        ));
        assert(courses.deep_view() + Seq::<CourseModel>::empty() =~= courses.deep_view());
    }
    if pos != v.len() {
        proof {
            assert(v@.skip(pos as int).len() > 0);
        }
        return Err(GradeError::SnapshotCorrupt);
    }
    proof {
        assert(v@.skip(pos as int).len() == 0);
    }
    Ok(courses)
}

/// Reads the baseline out of the snapshot file's contents: `None` stands for
/// a missing file.  A missing or empty snapshot is no baseline; anything else
/// must decode.
pub fn load_baseline(contents: Option<&String>) -> (r: Result<Option<Vec<Course>>, GradeError>)
    ensures
        match contents {
            None => r is Ok && r->Ok_0 is None,
            Some(text) => if text@.len() == 0 {
                r is Ok && r->Ok_0 is None
            } else {
                match decode_snapshot_spec(text@) {
                    Some(cs) => r is Ok && r->Ok_0 is Some && r->Ok_0->Some_0.deep_view() == cs,
                    None => r == Err::<Option<Vec<Course>>, GradeError>(
                        GradeError::SnapshotCorrupt,
                    ),
                }
            },
        },
{
    match contents {
        None => Ok(None),
        Some(text) => {
            if text.as_str().is_empty() {
                Ok(None)
            } else {
                match decode_snapshot(text.as_str()) {
                    Ok(cs) => Ok(Some(cs)),
                    Err(e) => Err(e),
                }
            }
        },
    }
}

/// The character for one decimal digit.
fn digit_char_exec(d: usize) -> (r: char)
    requires
        d < 10,
    ensures
        r == digit_char(d as nat),
{
    if d == 0 {
        '0'
    } else if d == 1 {
        '1'
    } else if d == 2 {
        '2'
    } else if d == 3 {
        '3'
    } else if d == 4 {
        '4'
    } else if d == 5 {
        '5'
    } else if d == 6 {
        '6'
    } else if d == 7 {
        '7'
    } else if d == 8 {
        '8'
    } else {
        '9'
    }
}

/// Appends the decimal representation of `n`.
fn push_dec(out: &mut String, n: usize)
    ensures
        final (out)@ == old(out)@ + dec_rep(n as nat),
    decreases n,
{
    if n < 10 {
        out.push(digit_char_exec(n));
        proof {
            assert(old(out)@ + dec_rep(n as nat) =~= old(out)@.push(digit_char(n as nat)));
        }
    } else {
        push_dec(out, n / 10);
        out.push(digit_char_exec(n % 10));
        proof {
            assert(old(out)@ + dec_rep(n as nat) =~= (old(out)@ + dec_rep((n / 10) as nat)).push(
                digit_char((n % 10) as nat),
            ));
        }
    }
}

/// Appends one length-prefixed string.
fn push_enc_str(out: &mut String, s: &String)
    ensures
        final (out)@ == old(out)@ + enc_str(s@),
{
    let n = s.as_str().unicode_len();
    push_dec(out, n);
    out.push(':');
    out.append(s.as_str());
    proof {
        assert(old(out)@ + enc_str(s@) =~= ((old(out)@ + dec_rep(s@.len())).push(':')) + s@);
    }
}

/// Appends one grade.
fn push_enc_grade(out: &mut String, g: &Grade)
    ensures
        final (out)@ == old(out)@ + enc_grade(g@),
{
    push_enc_str(out, &g.value);
    push_enc_str(out, &g.category);
    push_enc_str(out, &g.average);
    push_enc_str(out, &g.name);
    proof {
        assert(old(out)@ + enc_grade(g@) =~= (((old(out)@ + enc_str(g@.value)) + enc_str(
            g@.category,
        )) + enc_str(g@.average)) + enc_str(g@.name));
    }
}

/// Appends one course.
fn push_enc_course(out: &mut String, c: &Course)
    ensures
        final (out)@ == old(out)@ + enc_course(c.deep_view()),
{
    push_enc_str(out, &c.name);
    push_dec(out, c.grades.len());
    out.push(';');
    let ghost gd = c.grades.deep_view();
    let ghost base = out@;
    let mut j: usize = 0;
    proof {
        assert(gd.skip(0) =~= gd);
        assert(base + Seq::<char>::empty() =~= base);
    }
    while j < c.grades.len()
        invariant
            j <= c.grades@.len(),
            gd == c.grades.deep_view(),
            gd.len() == c.grades@.len(),
            base + enc_grades(gd) == out@ + enc_grades(gd.skip(j as int)),
        decreases c.grades@.len() - j,
    {
        let ghost rest = gd.skip(j as int);
        proof {
            assert(rest[0] == gd[j as int]);
            assert(rest.drop_first() =~= gd.skip(j + 1 as int));
            assert(c.grades@[j as int].deep_view() == gd[j as int]);
        }
        let ghost before = out@;
        push_enc_grade(out, &c.grades[j]);
        proof {
            assert(enc_grades(rest) == enc_grade(gd[j as int]) + enc_grades(
                gd.skip(j + 1 as int),
            ));
            assert(out@ + enc_grades(gd.skip(j + 1 as int)) =~= before + enc_grades(rest));
        }
        j = j + 1;
    }
    proof {
        assert(gd.skip(gd.len() as int).len() == 0);
        assert(enc_grades(gd.skip(gd.len() as int)) == Seq::<char>::empty());
        assert(out@ =~= out@ + enc_grades(gd.skip(gd.len() as int)));
        assert(out@ =~= base + enc_grades(gd));
        assert(c.deep_view().grades == gd);
        assert(old(out)@ + enc_course(c.deep_view()) =~= (((old(out)@ + enc_str(c.name@))
            + dec_rep(gd.len())).push(';')) + enc_grades(gd));
    }
}

/// Encodes the course list into the snapshot document.
pub fn encode_snapshot(courses: &Vec<Course>) -> (r: String)
    ensures
        r@ == encode_snapshot_spec(courses.deep_view()),
{
    let ghost d = courses.deep_view();
    let mut out = String::new();
    push_dec(&mut out, courses.len());
    out.push(';');
    let ghost base = out@;
    proof {
        assert(d.len() == courses@.len());
        assert(base =~= dec_rep(d.len()) + seq![';']);
        assert(d.skip(0) =~= d);
        assert(base + Seq::<char>::empty() =~= base);
    }
    let mut i: usize = 0;
    while i < courses.len()
        invariant
            i <= courses@.len(),
            d == courses.deep_view(),
            d.len() == courses@.len(),
            base + enc_courses(d) == out@ + enc_courses(d.skip(i as int)),
        decreases courses@.len() - i,
    {
        let ghost rest = d.skip(i as int);
        proof {
            assert(rest[0] == d[i as int]);
            assert(rest.drop_first() =~= d.skip(i + 1 as int));
            assert(courses@[i as int].deep_view() == d[i as int]);
        }
        let ghost before = out@;
        push_enc_course(&mut out, &courses[i]);
        proof {
            assert(enc_courses(rest) == enc_course(d[i as int]) + enc_courses(
                d.skip(i + 1 as int),
            ));
            assert(out@ + enc_courses(d.skip(i + 1 as int)) =~= before + enc_courses(rest));
        }
        i = i + 1;
    }
    proof {
        assert(d.skip(d.len() as int).len() == 0);
        assert(enc_courses(d.skip(d.len() as int)) == Seq::<char>::empty());
        assert(out@ =~= out@ + enc_courses(d.skip(d.len() as int)));
        assert(out@ =~= base + enc_courses(d));
        assert(out@ =~= encode_snapshot_spec(d));
    }
    out
}

} // verus!
