//! Small string operations with their exact meaning: trimming white space,
//! trimming a repeated suffix, and the segment after the last `/`.

use vstd::prelude::*;

verus! {

/// The characters with Unicode's `White_Space` property, which
/// `char::is_whitespace` and `str::trim` go by.
pub open spec fn is_white_space(c: char) -> bool {
    ('\u{9}' <= c && c <= '\u{d}') || c == ' ' || c == '\u{85}' || c == '\u{a0}' || c
        == '\u{1680}' || ('\u{2000}' <= c && c <= '\u{200a}') || c == '\u{2028}' || c
        == '\u{2029}' || c == '\u{202f}' || c == '\u{205f}' || c == '\u{3000}'
}

/// `s` without the white space at its start.
pub open spec fn trim_start_spec(s: Seq<char>) -> Seq<char>
    decreases s.len(),
{
    if s.len() > 0 && is_white_space(s[0]) {
        trim_start_spec(s.drop_first())
    } else {
        s
    }
}

/// `s` without the white space at its end.
pub open spec fn trim_end_spec(s: Seq<char>) -> Seq<char>
    decreases s.len(),
{
    if s.len() > 0 && is_white_space(s.last()) {
        trim_end_spec(s.drop_last())
    } else {
        s
    }
}

/// `s` without white space at either end, as `str::trim` gives it.
pub open spec fn trim_spec(s: Seq<char>) -> Seq<char> {
    trim_end_spec(trim_start_spec(s))
}

fn is_white_space_exec(c: char) -> (b: bool)
    ensures
        b == is_white_space(c),
{
    ('\u{9}' <= c && c <= '\u{d}') || c == ' ' || c == '\u{85}' || c == '\u{a0}' || c
        == '\u{1680}' || ('\u{2000}' <= c && c <= '\u{200a}') || c == '\u{2028}' || c
        == '\u{2029}' || c == '\u{202f}' || c == '\u{205f}' || c == '\u{3000}'
}

/// `s` without white space at either end.
pub fn trim(s: &str) -> (res: String)
    ensures
        res@ == trim_spec(s@),
{
    let n = s.unicode_len();
    let mut a: usize = 0;
    assert(s@.skip(0) =~= s@);
    while a < n && is_white_space_exec(s.get_char(a))
        invariant
            n == s@.len(),
            a <= n,
            trim_start_spec(s@) == trim_start_spec(s@.skip(a as int)),
        decreases n - a,
    {
        assert(s@.skip(a as int).drop_first() =~= s@.skip(a + 1));
        a = a + 1;
    }
    assert(trim_start_spec(s@) == s@.skip(a as int)) by {
        if a < n {
            assert(s@.skip(a as int)[0] == s@[a as int]);
        }
    }
    let mut b: usize = n;
    assert(s@.skip(a as int) =~= s@.subrange(a as int, n as int));
    while b > a && is_white_space_exec(s.get_char(b - 1))
        invariant
            n == s@.len(),
            a <= b <= n,
            trim_spec(s@) == trim_end_spec(s@.subrange(a as int, b as int)),
        decreases b,
    {
        assert(s@.subrange(a as int, b as int).drop_last() =~= s@.subrange(a as int, b - 1));
        b = b - 1;
    }
    assert(trim_end_spec(s@.subrange(a as int, b as int)) == s@.subrange(a as int, b as int)) by {
        if b > a {
            assert(s@.subrange(a as int, b as int).last() == s@[b - 1]);
        }
    }
    String::from_str(s.substring_char(a, b))
}

/// `s` without the copies of `suffix` at its end, as `str::trim_end_matches`
/// removes them.
pub open spec fn trim_end_matches_spec(s: Seq<char>, suffix: Seq<char>) -> Seq<char>
    decreases s.len(),
{
    if suffix.len() > 0 && s.len() >= suffix.len() && s.subrange(
        s.len() - suffix.len(),
        s.len() as int,
    ) == suffix {
        trim_end_matches_spec(s.subrange(0, s.len() - suffix.len()), suffix)
    } else {
        s
    }
}

/// The part of `s` after its last `/` (all of `s` when it has none), the
/// first item that `s.rsplit('/')` yields.
pub open spec fn last_segment(s: Seq<char>) -> Seq<char>
    decreases s.len(),
{
    if s.len() == 0 {
        s
    } else if s.last() == '/' {
        seq![]
    } else {
        last_segment(s.drop_last()).push(s.last())
    }
}

/// `s[a..b]` ends with `suffix`.
fn ends_with_at(s: &str, b: usize, suffix: &str) -> (r: bool)
    requires
        b <= s@.len(),
    ensures
        r == (s@.subrange(0, b as int).len() >= suffix@.len() && s@.subrange(0, b as int).subrange(
            b - suffix@.len(),
            b as int,
        ) == suffix@),
{
    let m = suffix.unicode_len();
    if m > b {
        return false;
    }
    let mut k: usize = 0;
    while k < m
        invariant
            m == suffix@.len(),
            m <= b <= s@.len(),
            k <= m,
            forall|j: int| 0 <= j < k ==> s@[b - m + j] == #[trigger] suffix@[j],
        decreases m - k,
    {
        if s.get_char(b - m + k) != suffix.get_char(k) {
            assert(s@.subrange(0, b as int).subrange(b - m, b as int)[k as int] != suffix@[k as int]);
            return false;
        }
        k = k + 1;
    }
    assert(s@.subrange(0, b as int).subrange(b - m, b as int) =~= suffix@);
    true
}

/// `s` without the copies of `suffix` at its end.
pub fn trim_end_matches(s: &str, suffix: &str) -> (res: String)
    ensures
        res@ == trim_end_matches_spec(s@, suffix@),
{
    let m = suffix.unicode_len();
    let mut b = s.unicode_len();
    assert(s@.subrange(0, b as int) =~= s@);
    while m > 0 && ends_with_at(s, b, suffix)
        invariant
            m == suffix@.len(),
            b <= s@.len(),
            trim_end_matches_spec(s@, suffix@) == trim_end_matches_spec(
                s@.subrange(0, b as int),
                suffix@,
            ),
        decreases b,
    {
        assert(s@.subrange(0, b as int).subrange(0, b - m) =~= s@.subrange(0, b - m));
        b = b - m;
    }
    String::from_str(s.substring_char(0, b))
}

/// The part of `s` after its last `/`.
pub fn last_segment_of(s: &str) -> (res: String)
    ensures
        res@ == last_segment(s@),
{
    let n = s.unicode_len();
    let mut a = n;
    assert(s@.subrange(0, n as int) =~= s@);
    assert(last_segment(s@) + s@.subrange(n as int, n as int) =~= last_segment(s@));
    while a > 0 && s.get_char(a - 1) != '/'
        invariant
            a <= n == s@.len(),
            last_segment(s@) == last_segment(s@.subrange(0, a as int)) + s@.subrange(
                a as int,
                n as int,
            ),
        decreases a,
    {
        assert(s@.subrange(0, a as int).drop_last() =~= s@.subrange(0, a - 1));
        assert(s@.subrange(a - 1, n as int) =~= seq![s@[a - 1]] + s@.subrange(a as int, n as int));
        assert(last_segment(s@.subrange(0, a as int)) == last_segment(s@.subrange(0, a - 1)).push(
            s@[a - 1],
        ));
        assert(last_segment(s@.subrange(0, a - 1)).push(s@[a - 1]) + s@.subrange(a as int, n as int)
            =~= last_segment(s@.subrange(0, a - 1)) + s@.subrange(a - 1, n as int));
        a = a - 1;
    }
    assert(last_segment(s@.subrange(0, a as int)) =~= seq![]) by {
        if a > 0 {
            assert(s@.subrange(0, a as int).last() == s@[a - 1]);
        }
    }
    assert(last_segment(s@) =~= s@.subrange(a as int, n as int));
    String::from_str(s.substring_char(a, n))
}


/// Trimming the start leaves nothing, or something that starts with a
/// character that is not white space.
pub proof fn lemma_trim_start_shape(s: Seq<char>)
    ensures
        trim_start_spec(s).len() > 0 ==> !is_white_space(trim_start_spec(s)[0]),
    decreases s.len(),
{
    if s.len() > 0 && is_white_space(s[0]) {
        lemma_trim_start_shape(s.drop_first());
    }
}

/// Trimming the end leaves a prefix of the text that is empty or ends with
/// a character that is not white space.
pub proof fn lemma_trim_end_shape(s: Seq<char>)
    ensures
        trim_end_spec(s).len() <= s.len(),
        trim_end_spec(s) =~= s.subrange(0, trim_end_spec(s).len() as int),
        trim_end_spec(s).len() > 0 ==> !is_white_space(trim_end_spec(s).last()),
    decreases s.len(),
{
    if s.len() > 0 && is_white_space(s.last()) {
        let d = s.drop_last();
        lemma_trim_end_shape(d);
        assert(trim_end_spec(s) == trim_end_spec(d));
        let k = trim_end_spec(d).len() as int;
        assert(d.subrange(0, k) =~= s.subrange(0, k));
    } else {
        assert(trim_end_spec(s) == s);
        assert(s.subrange(0, s.len() as int) =~= s);
    }
}

/// Text that neither starts nor ends with white space is its own trim.
pub proof fn lemma_trim_untouched(s: Seq<char>)
    requires
        s.len() > 0 ==> !is_white_space(s[0]) && !is_white_space(s.last()),
    ensures
        trim_spec(s) == s,
{
    assert(trim_start_spec(s) == s);
    assert(trim_end_spec(s) == s);
}

/// Trimming twice trims once.
pub proof fn lemma_trim_idempotent(s: Seq<char>)
    ensures
        trim_spec(trim_spec(s)) == trim_spec(s),
{
    let u = trim_start_spec(s);
    let t = trim_end_spec(u);
    lemma_trim_start_shape(s);
    lemma_trim_end_shape(u);
    if t.len() > 0 {
        assert(t[0] == u.subrange(0, t.len() as int)[0]);
        assert(t[0] == u[0]);
    }
    lemma_trim_untouched(t);
}

} // verus!
