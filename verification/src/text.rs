//! Character-level text helpers shared by the extractor, the codec and the
//! formatter.  All searching and token splitting is done on `Vec<char>` /
//! `Seq<char>`, so every helper has an exact contract.

use vstd::prelude::*;

verus! {

/// Relies on std's `String::push`: appends the given character to the end of
/// the string.
pub assume_specification[ String::push ](s: &mut String, c: char)
    ensures
        final (s)@ == old(s)@.push(c),
;

/// A character that separates whitespace-delimited tokens.
pub open spec fn is_space(c: char) -> bool {
    c == ' ' || c == '\t' || c == '\n' || c == '\r' || c == '\u{b}' || c == '\u{c}'
}

/// Exec mirror of [`is_space`].
pub fn is_space_char(c: char) -> (r: bool)
    ensures
        r == is_space(c),
{
    c == ' ' || c == '\t' || c == '\n' || c == '\r' || c == '\u{b}' || c == '\u{c}'
}

/// The characters of `s`, in order.
pub fn chars_vec(s: &str) -> (r: Vec<char>)
    ensures
        r@ == s@,
{
    let mut r: Vec<char> = Vec::new();
    for c in it: s.chars()
        invariant
            it.seq() == s@,
            r@ == it.seq().take(it.index() as int),
    {
        r.push(c);
    }
    proof {
        assert(r@ =~= s@);
    }
    r
}

/// The string holding exactly the characters of `v`.
pub fn string_of(v: &Vec<char>) -> (r: String)
    ensures
        r@ == v@,
{
    let mut r = String::new();
    let mut i: usize = 0;
    while i < v.len()
        invariant
            i <= v.len(),
            r@ == v@.take(i as int),
        decreases v.len() - i,
    {
        r.push(v[i]);
        proof {
            assert(r@ =~= v@.take(i + 1 as int));
        }
        i = i + 1;
    }
    proof {
        assert(r@ =~= v@);
    }
    r
}

/// `a` and `b` spell the same characters.
pub fn str_eq(a: &str, b: &str) -> (r: bool)
    ensures
        r == (a@ == b@),
{
    let va = chars_vec(a);
    let vb = chars_vec(b);
    chars_eq(&va, &vb)
}

/// `a` and `b` hold the same characters.
pub fn chars_eq(a: &Vec<char>, b: &Vec<char>) -> (r: bool)
    ensures
        r == (a@ == b@),
{
    if a.len() != b.len() {
        return false;
    }
    let mut i: usize = 0;
    while i < a.len()
        invariant
            i <= a.len(),
            a.len() == b.len(),
            forall|j: int| 0 <= j < i ==> a@[j] == b@[j],
        decreases a.len() - i,
    {
        if a[i] != b[i] {
            return false;
        }
        i = i + 1;
    }
    proof {
        assert(a@ =~= b@);
    }
    true
}

/// `needle` occurs in `hay` starting at index `i`.
pub open spec fn match_at(hay: Seq<char>, needle: Seq<char>, i: int) -> bool {
    &&& 0 <= i
    &&& i + needle.len() <= hay.len()
    &&& hay.subrange(i, i + needle.len() as int) == needle
}

/// `needle` occurs somewhere in `hay`.
pub open spec fn contains_seq(hay: Seq<char>, needle: Seq<char>) -> bool {
    exists|i: int| match_at(hay, needle, i)
}

/// Whether `needle` occurs in `hay` at position `i`, decided character by
/// character.
fn matches_at(hay: &Vec<char>, needle: &Vec<char>, i: usize) -> (r: bool)
    requires
        i + needle@.len() <= hay@.len(),
    ensures
        r == match_at(hay@, needle@, i as int),
{
    let hn = hay.len();
    let nl = needle.len();
    let mut j: usize = 0;
    while j < nl
        invariant
            j <= nl,
            nl == needle@.len(),
            hn == hay@.len(),
            i + nl <= hn,
            forall|k: int| 0 <= k < j ==> hay@[i + k] == needle@[k],
        decreases nl - j,
    {
        if hay[i + j] != needle[j] {
            proof {
                assert(hay@.subrange(i as int, i + needle@.len() as int)[j as int] != needle@[j as int]);
            }
            return false;
        }
        j = j + 1;
    }
    proof {
        assert(hay@.subrange(i as int, i + needle@.len() as int) =~= needle@);
    }
    true
}

/// `needle` occurs somewhere in `hay`.
pub fn contains_chars(hay: &Vec<char>, needle: &Vec<char>) -> (r: bool)
    ensures
        r == contains_seq(hay@, needle@),
{
    if needle.len() > hay.len() {
        return false;
    }
    if needle.len() == 0 {
        proof {
            assert(hay@.subrange(0, 0) =~= needle@);
            assert(match_at(hay@, needle@, 0));
        }
        return true;
    }
    let count = hay.len() - needle.len() + 1;
    let mut i: usize = 0;
    while i < count
        invariant
            i <= count,
            count == hay@.len() - needle@.len() + 1,
            1 <= needle@.len() <= hay@.len(),
            forall|k: int| 0 <= k < i ==> !match_at(hay@, needle@, k),
        decreases count - i,
    {
        if matches_at(hay, needle, i) {
            return true;
        }
        i = i + 1;
    }
    false
}

/// `needle` occurs in the string `hay`.
pub fn contains_str(hay: &str, needle: &str) -> (r: bool)
    ensures
        r == contains_seq(hay@, needle@),
{
    let vh = chars_vec(hay);
    let vn = chars_vec(needle);
    contains_chars(&vh, &vn)
}

/// Index of the first occurrence of `needle` in `hay`, if any.
pub open spec fn first_match(hay: Seq<char>, needle: Seq<char>) -> Option<int>
    decreases hay.len(),
{
    if match_at(hay, needle, 0) {
        Some(0)
    } else if hay.len() == 0 {
        None
    } else {
        match first_match(hay.drop_first(), needle) {
            Some(i) => Some(i + 1),
            None => None,
        }
    }
}

/// Index of the last occurrence of `needle` in `hay` at a position below `k`,
/// if any.
pub open spec fn last_match_below(hay: Seq<char>, needle: Seq<char>, k: nat) -> Option<int>
    decreases k,
{
    if k == 0 {
        None
    } else if match_at(hay, needle, k - 1) {
        Some(k - 1)
    } else {
        last_match_below(hay, needle, (k - 1) as nat)
    }
}

/// Index of the last occurrence of `needle` in `hay`, if any.
pub open spec fn last_match(hay: Seq<char>, needle: Seq<char>) -> Option<int> {
    if needle.len() <= hay.len() {
        last_match_below(hay, needle, (hay.len() - needle.len() + 1) as nat)
    } else {
        None
    }
}

/// Shifting the haystack by one shifts every match position by one.
proof fn lemma_match_at_shift(hay: Seq<char>, needle: Seq<char>, i: int)
    requires
        hay.len() > 0,
        0 <= i,
    ensures
        match_at(hay, needle, i + 1) == match_at(hay.drop_first(), needle, i),
{
    if i + 1 + needle.len() <= hay.len() {
        assert(hay.subrange(i + 1, i + 1 + needle.len() as int) =~= hay.drop_first().subrange(
            i,
            i + needle.len() as int,
        ));
    }
}

/// [`first_match`] returns exactly the least matching index.
pub proof fn lemma_first_match_characterization(hay: Seq<char>, needle: Seq<char>)
    ensures
        match first_match(hay, needle) {
            Some(i) => match_at(hay, needle, i) && (forall|j: int|
                0 <= j < i ==> !match_at(hay, needle, j)),
            None => forall|j: int| !match_at(hay, needle, j),
        },
    decreases hay.len(),
{
    if match_at(hay, needle, 0) {
    } else if hay.len() == 0 {
        assert forall|j: int| !match_at(hay, needle, j) by {
            if match_at(hay, needle, j) {
                assert(j == 0);
            }
        }
    } else {
        lemma_first_match_characterization(hay.drop_first(), needle);
        match first_match(hay.drop_first(), needle) {
            Some(i) => {
                lemma_match_at_shift(hay, needle, i);
                assert(match_at(hay, needle, i + 1));
                assert forall|j: int| 0 <= j < i + 1 implies !match_at(hay, needle, j) by {
                    if 0 < j {
                        lemma_match_at_shift(hay, needle, j - 1);
                    }
                }
            },
            None => {
                assert forall|j: int| !match_at(hay, needle, j) by {
                    if 0 < j {
                        lemma_match_at_shift(hay, needle, j - 1);
                    }
                }
            },
        }
    }
}

/// [`last_match_below`] returns exactly the greatest matching index below `k`.
proof fn lemma_last_match_below_characterization(hay: Seq<char>, needle: Seq<char>, k: nat)
    ensures
        match last_match_below(hay, needle, k) {
            Some(i) => match_at(hay, needle, i) && 0 <= i < k && (forall|j: int|
                i < j < k ==> !match_at(hay, needle, j)),
            None => forall|j: int| 0 <= j < k ==> !match_at(hay, needle, j),
        },
    decreases k,
{
    if k == 0 {
    } else if match_at(hay, needle, k - 1) {
    } else {
        lemma_last_match_below_characterization(hay, needle, (k - 1) as nat);
    }
}

/// [`last_match`] returns exactly the greatest matching index.
pub proof fn lemma_last_match_characterization(hay: Seq<char>, needle: Seq<char>)
    ensures
        match last_match(hay, needle) {
            Some(i) => match_at(hay, needle, i) && (forall|j: int|
                i < j ==> !match_at(hay, needle, j)),
            None => forall|j: int| !match_at(hay, needle, j),
        },
{
    if needle.len() <= hay.len() {
        let k = (hay.len() - needle.len() + 1) as nat;
        lemma_last_match_below_characterization(hay, needle, k);
        match last_match(hay, needle) {
            Some(i) => {
                assert forall|j: int| i < j implies !match_at(hay, needle, j) by {}
            },
            None => {
                assert forall|j: int| !match_at(hay, needle, j) by {}
            },
        }
    } else {
        assert forall|j: int| !match_at(hay, needle, j) by {}
    }
}

/// Index of the first occurrence of `needle` in `hay`, if any.
pub fn find_first(hay: &Vec<char>, needle: &Vec<char>) -> (r: Option<usize>)
    ensures
        match r {
            Some(i) => first_match(hay@, needle@) == Some(i as int),
            None => first_match(hay@, needle@) is None,
        },
{
    proof {
        lemma_first_match_characterization(hay@, needle@);
    }
    if needle.len() > hay.len() {
        return None;
    }
    if needle.len() == 0 {
        proof {
            assert(hay@.subrange(0, 0) =~= needle@);
            assert(match_at(hay@, needle@, 0));
        }
        return Some(0);
    }
    let count = hay.len() - needle.len() + 1;
    let mut i: usize = 0;
    while i < count
        invariant
            i <= count,
            count == hay@.len() - needle@.len() + 1,
            1 <= needle@.len() <= hay@.len(),
            forall|k: int| 0 <= k < i ==> !match_at(hay@, needle@, k),
        decreases count - i,
    {
        if matches_at(hay, needle, i) {
            proof {
                lemma_first_match_characterization(hay@, needle@);
            }
            return Some(i);
        }
        i = i + 1;
    }
    None
}

/// Index of the last occurrence of `needle` in `hay`, if any.
pub fn find_last(hay: &Vec<char>, needle: &Vec<char>) -> (r: Option<usize>)
    ensures
        match r {
            Some(i) => last_match(hay@, needle@) == Some(i as int),
            None => last_match(hay@, needle@) is None,
        },
{
    proof {
        lemma_last_match_characterization(hay@, needle@);
    }
    if needle.len() > hay.len() {
        return None;
    }
    if needle.len() == 0 {
        proof {
            assert(hay@.subrange(hay@.len() as int, hay@.len() as int) =~= needle@);
            assert(match_at(hay@, needle@, hay@.len() as int));
        }
        return Some(hay.len());
    }
    let mut i: usize = hay.len() - needle.len() + 1;
    while i > 0
        invariant
            i <= hay@.len() - needle@.len() + 1,
            needle@.len() <= hay@.len(),
            forall|k: int| i <= k ==> !match_at(hay@, needle@, k),
        decreases i,
    {
        i = i - 1;
        if matches_at(hay, needle, i) {
            proof {
                lemma_last_match_characterization(hay@, needle@);
            }
            return Some(i);
        }
    }
    None
}

/// The characters of `v` from `a` (inclusive) to `b` (exclusive).
pub fn sub_chars(v: &Vec<char>, a: usize, b: usize) -> (r: Vec<char>)
    requires
        a <= b <= v@.len(),
    ensures
        r@ == v@.subrange(a as int, b as int),
{
    let mut r: Vec<char> = Vec::new();
    let mut i: usize = a;
    while i < b
        invariant
            a <= i <= b <= v@.len(),
            r@ == v@.subrange(a as int, i as int),
        decreases b - i,
    {
        r.push(v[i]);
        proof {
            assert(r@ =~= v@.subrange(a as int, i + 1 as int));
        }
        i = i + 1;
    }
    r
}

/// The first whitespace-delimited token of `s`, empty when `s` is empty or
/// all whitespace.
pub open spec fn first_token(s: Seq<char>) -> Seq<char>
    decreases s.len(),
{
    if s.len() == 0 {
        Seq::empty()
    } else if is_space(s[0]) {
        first_token(s.drop_first())
    } else {
        lead_token(s)
    }
}

/// The maximal non-whitespace prefix of `s`.
pub open spec fn lead_token(s: Seq<char>) -> Seq<char>
    decreases s.len(),
{
    if s.len() == 0 || is_space(s[0]) {
        Seq::empty()
    } else {
        seq![s[0]] + lead_token(s.drop_first())
    }
}

/// Dropping a whitespace prefix does not change the first token.
proof fn lemma_first_token_skip_spaces(s: Seq<char>, i: int)
    requires
        0 <= i <= s.len(),
        forall|j: int| 0 <= j < i ==> is_space(s[j]),
    ensures
        first_token(s) == first_token(s.skip(i)),
    decreases i,
{
    if i == 0 {
        assert(s.skip(0) =~= s);
    } else {
        assert(first_token(s) == first_token(s.drop_first()));
        assert(s.drop_first() =~= s.skip(1));
        lemma_first_token_skip_spaces(s.skip(1), i - 1);
        assert(s.skip(1).skip(i - 1) =~= s.skip(i));
    }
}

/// On a sequence whose non-whitespace prefix ends at `j`, the leading token is
/// exactly that prefix.
proof fn lemma_lead_token_prefix(s: Seq<char>, j: int)
    requires
        0 <= j <= s.len(),
        forall|k: int| 0 <= k < j ==> !is_space(s[k]),
        j < s.len() ==> is_space(s[j]),
    ensures
        lead_token(s) == s.take(j),
    decreases j,
{
    if j == 0 {
        assert(s.take(0) =~= Seq::<char>::empty());
    } else {
        assert(s.drop_first() =~= s.skip(1));
        lemma_lead_token_prefix(s.skip(1), j - 1);
        assert(seq![s[0]] + s.skip(1).take(j - 1) =~= s.take(j));
    }
}

/// The first token of `s` is `s.subrange(start, end)` when everything before
/// `start` is whitespace, the characters of `[start, end)` are not, and the
/// token is closed off at `end`.
pub proof fn lemma_first_token_segment(s: Seq<char>, start: int, end: int)
    requires
        0 <= start <= end <= s.len(),
        forall|j: int| 0 <= j < start ==> is_space(s[j]),
        forall|k: int| start <= k < end ==> !is_space(s[k]),
        start == end ==> start == s.len(),
        end < s.len() ==> is_space(s[end]),
    ensures
        first_token(s) == s.subrange(start, end),
{
    lemma_first_token_skip_spaces(s, start);
    let t = s.skip(start);
    if start == s.len() {
        assert(t =~= Seq::<char>::empty());
        assert(s.subrange(start, end) =~= Seq::<char>::empty());
    } else {
        assert(!is_space(t[0]));
        assert(first_token(t) == lead_token(t));
        lemma_lead_token_prefix(t, end - start);
        assert(t.take(end - start) =~= s.subrange(start, end));
    }
}

/// The first whitespace-delimited token of `v`.
pub fn first_token_chars(v: &Vec<char>) -> (r: Vec<char>)
    ensures
        r@ == first_token(v@),
{
    let n = v.len();
    let mut start: usize = 0;
    while start < n && is_space_char(v[start])
        invariant
            start <= n,
            n == v@.len(),
            forall|j: int| 0 <= j < start ==> is_space(v@[j]),
        decreases n - start,
    {
        start = start + 1;
    }
    let mut end: usize = start;
    while end < n && !is_space_char(v[end])
        invariant
            start <= end <= n,
            n == v@.len(),
            forall|k: int| start <= k < end ==> !is_space(v@[k]),
        decreases n - end,
    {
        end = end + 1;
    }
    let mut r: Vec<char> = Vec::new();
    let mut i: usize = start;
    while i < end
        invariant
            start <= i <= end <= n,
            n == v@.len(),
            r@ == v@.subrange(start as int, i as int),
        decreases end - i,
    {
        r.push(v[i]);
        proof {
            assert(r@ =~= v@.subrange(start as int, i + 1 as int));
        }
        i = i + 1;
    }
    proof {
        lemma_first_token_segment(v@, start as int, end as int);
    }
    r
}

/// The first whitespace-delimited token of `s`, as a string.
pub fn first_token_str(s: &str) -> (r: String)
    ensures
        r@ == first_token(s@),
{
    let v = chars_vec(s);
    let t = first_token_chars(&v);
    string_of(&t)
}

} // verus!
