//! Paths as strings: joining, `~` expansion and collapsing, and the
//! component structure that comparisons of paths go by.

use vstd::prelude::*;

verus! {

/// The operating system whose path conventions and configuration keys apply.
#[derive(Clone, Copy, PartialEq, Eq, Debug)]
pub enum Platform {
    Unix,
    Windows,
}

/// A character that separates path components on `plat`.
pub open spec fn is_sep(c: char, plat: Platform) -> bool {
    c == '/' || (plat == Platform::Windows && c == '\\')
}

/// The separator that joining inserts on `plat`.
pub open spec fn main_sep(plat: Platform) -> char {
    match plat {
        Platform::Unix => '/',
        Platform::Windows => '\\',
    }
}

pub open spec fn is_ascii_alpha(c: char) -> bool {
    ('a' <= c && c <= 'z') || ('A' <= c && c <= 'Z')
}

/// `s` begins with a drive prefix such as `C:` (Windows only).
pub open spec fn has_drive(s: Seq<char>, plat: Platform) -> bool {
    plat == Platform::Windows && s.len() >= 2 && is_ascii_alpha(s[0]) && s[1] == ':'
}

/// `s` begins with two separators (Windows only), as a `\\server\share`
/// prefix and the other prefixes of that family do.
pub open spec fn has_unc(s: Seq<char>, plat: Platform) -> bool {
    plat == Platform::Windows && s.len() >= 2 && is_sep(s[0], plat) && is_sep(s[1], plat)
}

/// `s` begins with `\\?\`, written with backslashes only: a verbatim
/// prefix (Windows only).
pub open spec fn is_verbatim(s: Seq<char>, plat: Platform) -> bool {
    plat == Platform::Windows && s.len() >= 4 && s[0] == '\\' && s[1] == '\\' && s[2] == '?'
        && s[3] == '\\'
}

/// Joining `s` onto any base discards the base: it has a drive or a
/// `\\server\share`, `\\.\name` or verbatim prefix.
pub open spec fn replaces_base(s: Seq<char>, plat: Platform) -> bool {
    match plat {
        Platform::Unix => s.len() > 0 && s[0] == '/',
        Platform::Windows => has_drive(s, plat) || root_prefix_len(s, plat) > 0 || is_verbatim(
            s,
            plat,
        ),
    }
}

/// `rest` appended to `base`, as `Path::join` does: a path that replaces
/// the base is taken as it is; on Windows a path that starts with a
/// separator keeps only the prefix of the base; otherwise a separator is
/// put between the two unless the base is empty, ends in a separator or
/// is a bare drive.
pub open spec fn join_spec(base: Seq<char>, rest: Seq<char>, plat: Platform) -> Seq<char> {
    if replaces_base(rest, plat) {
        rest
    } else if plat == Platform::Windows && rest.len() > 0 && is_sep(rest[0], plat) {
        base.subrange(0, prefix_len(base, plat)) + rest
    } else if base.len() > 0 && !is_sep(base.last(), plat)
        && !(has_drive(base, plat) && base.len() == 2) {
        base + seq![main_sep(plat)] + rest
    } else {
        base + rest
    }
}

fn char_at(s: &str, i: usize) -> (c: char)
    requires
        i < s@.len(),
    ensures
        c == s@[i as int],
{
    s.get_char(i)
}

fn is_sep_exec(c: char, plat: Platform) -> (b: bool)
    ensures
        b == is_sep(c, plat),
{
    c == '/' || (matches!(plat, Platform::Windows) && c == '\\')
}

fn has_drive_exec(s: &str, plat: Platform) -> (b: bool)
    ensures
        b == has_drive(s@, plat),
{
    if !matches!(plat, Platform::Windows) || s.unicode_len() < 2 {
        return false;
    }
    let c0 = char_at(s, 0);
    let c1 = char_at(s, 1);
    (('a' <= c0 && c0 <= 'z') || ('A' <= c0 && c0 <= 'Z')) && c1 == ':'
}

fn replaces_base_exec(s: &str, plat: Platform) -> (b: bool)
    ensures
        b == replaces_base(s@, plat),
{
    let n = s.unicode_len();
    match plat {
        Platform::Unix => n > 0 && char_at(s, 0) == '/',
        Platform::Windows => has_drive_exec(s, plat) || root_prefix_len_exec(s, plat) > 0 || (n
            >= 4 && char_at(s, 0) == '\\' && char_at(s, 1) == '\\' && char_at(s, 2) == '?'
            && char_at(s, 3) == '\\'),
    }
}

/// The separator of `plat` as a string.
fn sep_str(plat: Platform) -> (s: &'static str)
    ensures
        s@ == seq![main_sep(plat)],
{
    match plat {
        Platform::Unix => {
            proof {
                reveal_strlit("/");
            }
            "/"
        },
        Platform::Windows => {
            proof {
                reveal_strlit("\\");
            }
            "\\"
        },
    }
}

/// `rest` joined onto `base` (see `join_spec`).
pub fn join_path(base: &str, rest: &str, plat: Platform) -> (res: String)
    ensures
        res@ == join_spec(base@, rest@, plat),
{
    if replaces_base_exec(rest, plat) {
        return String::from_str(rest);
    }
    let nb = base.unicode_len();
    let nr = rest.unicode_len();
    if matches!(plat, Platform::Windows) && nr > 0 && is_sep_exec(char_at(rest, 0), plat) {
        let o = prefix_len_exec(base, plat);
        let mut res = String::from_str(base.substring_char(0, o));
        res.append(rest);
        return res;
    }
    let mut res = String::from_str(base);
    if nb > 0 && !is_sep_exec(char_at(base, nb - 1), plat) && !(has_drive_exec(base, plat) && nb
        == 2) {
        res.append(sep_str(plat));
    }
    res.append(rest);
    res
}


/// The first separator of `p` at or after `i`, or the end of `p`.
pub open spec fn next_sep(p: Seq<char>, i: int, plat: Platform) -> int
    decreases p.len() - i,
{
    if i >= p.len() {
        p.len() as int
    } else if is_sep(p[i], plat) {
        i
    } else {
        next_sep(p, i + 1, plat)
    }
}

/// `s` begins with `\\.\` (either slash for each separator): a device
/// prefix (Windows only).
pub open spec fn is_device(s: Seq<char>, plat: Platform) -> bool {
    has_unc(s, plat) && s.len() >= 4 && s[2] == '.' && is_sep(s[3], plat)
}

/// The length of the `\\server\share` prefix that begins `p` (Windows),
/// else 0: two separators (not the start of a verbatim or device prefix),
/// a server name, a separator and a share name.
pub open spec fn unc_len(p: Seq<char>, plat: Platform) -> int {
    if has_unc(p, plat) && !is_verbatim(p, plat) && !is_device(p, plat) {
        let a = next_sep(p, 2, plat);
        let b = next_sep(p, a + 1, plat);
        if 2 < a < p.len() && b > a + 1 {
            b
        } else {
            0
        }
    } else {
        0
    }
}

/// The length of the `\\.\name` prefix that begins `p` (Windows), else 0.
pub open spec fn device_len(p: Seq<char>, plat: Platform) -> int {
    if is_device(p, plat) {
        next_sep(p, 4, plat)
    } else {
        0
    }
}

/// The length of a prefix that carries a root of its own (`\\server\share`
/// or `\\.\name`), else 0.
pub open spec fn root_prefix_len(p: Seq<char>, plat: Platform) -> int {
    unc_len(p, plat) + device_len(p, plat)
}

/// A path that starts with two separators has a whole `\\server\share`
/// or `\\.\name` prefix: not one cut short, and not a verbatim (`\\?\`)
/// path, whose separators this model does not follow.
pub open spec fn whole_prefix(p: Seq<char>, plat: Platform) -> bool {
    has_unc(p, plat) ==> unc_len(p, plat) > 0 || device_len(p, plat) > 4
}

/// The length of the prefix that begins `p` on Windows: a drive (`C:`), a
/// `\\server\share` or a `\\.\name`; 0 when there is none.
pub open spec fn prefix_len(p: Seq<char>, plat: Platform) -> int {
    if has_drive(p, plat) {
        2
    } else {
        root_prefix_len(p, plat)
    }
}

/// `s` with every `/` turned into `\`.
pub open spec fn backslashes(s: Seq<char>) -> Seq<char> {
    s.map_values(|c: char| if c == '/' { '\\' } else { c })
}

/// `c` in upper case, for an ASCII letter.
pub open spec fn to_upper(c: char) -> char {
    if 'a' <= c && c <= 'z' {
        ((c as int) - 32) as char
    } else {
        c
    }
}

/// The prefix as a component. Drives compare without regard to case, so a
/// drive is written as its upper-case letter, `:` and a `/`; a
/// `\\server\share` or `\\.\name` prefix is written with backslashes for
/// its separators, which it compares by. Neither is a form that a name
/// between separators can take.
pub open spec fn prefix_head(p: Seq<char>, plat: Platform) -> Seq<Seq<char>> {
    if has_drive(p, plat) {
        seq![seq![to_upper(p[0]), ':', '/']]
    } else if root_prefix_len(p, plat) > 0 {
        seq![backslashes(p.subrange(0, root_prefix_len(p, plat)))]
    } else {
        seq![]
    }
}

/// A separator follows the prefix, if any.
pub open spec fn has_physical_root(p: Seq<char>, plat: Platform) -> bool {
    p.len() > prefix_len(p, plat) && is_sep(p[prefix_len(p, plat)], plat)
}

/// The path has a root: a separator after its prefix, or a
/// `\\server\share` or `\\.\name` prefix, which always carries one.
pub open spec fn has_root(p: Seq<char>, plat: Platform) -> bool {
    has_physical_root(p, plat) || root_prefix_len(p, plat) > 0
}

/// After its prefix, if any, the path starts with a `.` component, which
/// is kept (only) there.
pub open spec fn has_cur_dir(p: Seq<char>, plat: Platform) -> bool {
    let o = prefix_len(p, plat);
    !has_root(p, plat) && p.len() > o && p[o] == '.' && (p.len() == o + 1 || is_sep(
        p[o + 1],
        plat,
    ))
}

/// Where the components after the prefix and a root or leading `.` begin.
pub open spec fn body_start(p: Seq<char>, plat: Platform) -> int {
    prefix_len(p, plat) + if has_physical_root(p, plat) || has_cur_dir(p, plat) {
        1int
    } else {
        0int
    }
}

/// `p[a..b]` is a component: neither empty nor `.`.
pub open spec fn is_real(p: Seq<char>, a: int, b: int) -> bool {
    b > a && !(b == a + 1 && p[a] == '.')
}

/// The spans `(start, end)` of the components of `p` that follow index
/// `i`, given that the current segment began at `start`.
pub open spec fn spans_from(p: Seq<char>, start: int, i: int, plat: Platform) -> Seq<(int, int)>
    decreases p.len() - i,
{
    if i >= p.len() {
        if is_real(p, start, p.len() as int) {
            seq![(start, p.len() as int)]
        } else {
            seq![]
        }
    } else if is_sep(p[i], plat) {
        let r = spans_from(p, i + 1, i + 1, plat);
        if is_real(p, start, i) {
            seq![(start, i)] + r
        } else {
            r
        }
    } else {
        spans_from(p, start, i + 1, plat)
    }
}

/// The spans of the components of `p` after its root or leading `.`.
pub open spec fn body_spans(p: Seq<char>, plat: Platform) -> Seq<(int, int)> {
    spans_from(p, body_start(p, plat), body_start(p, plat), plat)
}

/// The leading components: the drive prefix, if any, then the root
/// (written `/`) or `.`, if any.
pub open spec fn head(p: Seq<char>, plat: Platform) -> Seq<Seq<char>> {
    prefix_head(p, plat) + if has_root(p, plat) {
        seq![seq!['/']]
    } else if has_cur_dir(p, plat) {
        seq![seq!['.']]
    } else {
        seq![]
    }
}

/// The components of `p`, as `Path::components` yields them: the drive
/// prefix (Windows), the root or a leading `.`, then the segments between
/// separators that are neither empty nor `.`.
pub open spec fn components(p: Seq<char>, plat: Platform) -> Seq<Seq<char>> {
    head(p, plat) + body_spans(p, plat).map_values(|s: (int, int)| p.subrange(s.0, s.1))
}

/// Spans lie inside `p`, in order, each after index `lo`.
pub open spec fn spans_wf(sp: Seq<(int, int)>, lo: int, len: int) -> bool {
    &&& forall|k: int| 0 <= k < sp.len() ==> lo <= #[trigger] sp[k].0 < sp[k].1 <= len
    &&& forall|k: int| 0 <= k < sp.len() - 1 ==> #[trigger] sp[k].1 < sp[k + 1].0
}

/// No span holds a separator, and none is empty or `.`.
pub open spec fn spans_clean(p: Seq<char>, sp: Seq<(int, int)>, plat: Platform) -> bool {
    forall|k: int, m: int|
        0 <= k < sp.len() && sp[k].0 <= m < sp[k].1 ==> !is_sep(#[trigger] p[m], plat)
            && is_real(p, #[trigger] sp[k].0, sp[k].1)
}

pub proof fn lemma_spans_from_wf(p: Seq<char>, start: int, i: int, plat: Platform)
    requires
        0 <= start <= i <= p.len(),
        forall|m: int| start <= m < i ==> !is_sep(#[trigger] p[m], plat),
    ensures
        spans_wf(spans_from(p, start, i, plat), start, p.len() as int),
        spans_clean(p, spans_from(p, start, i, plat), plat),
        spans_from(p, start, i, plat).len() > 0 ==> (spans_from(p, start, i, plat)[0].0 == start
            || spans_from(p, start, i, plat)[0].0 > i),
    decreases p.len() - i,
{
    if i >= p.len() {
    } else if is_sep(p[i], plat) {
        lemma_spans_from_wf(p, i + 1, i + 1, plat);
    } else {
        lemma_spans_from_wf(p, start, i + 1, plat);
    }
}

/// The prefix lies inside `p`; a prefix with a root of its own is followed
/// by a separator or by nothing, and no path has both kinds of prefix.
pub proof fn lemma_prefix_facts(p: Seq<char>, plat: Platform)
    ensures
        0 <= root_prefix_len(p, plat) <= p.len(),
        0 <= prefix_len(p, plat) <= p.len(),
        unc_len(p, plat) > 0 ==> device_len(p, plat) == 0 && unc_len(p, plat) >= 5,
        device_len(p, plat) > 0 ==> unc_len(p, plat) == 0 && device_len(p, plat) >= 4,
        root_prefix_len(p, plat) > 0 ==> has_unc(p, plat) && root_prefix_len(p, plat) >= 4,
        root_prefix_len(p, plat) > 0 && root_prefix_len(p, plat) < p.len() ==> is_sep(
            p[root_prefix_len(p, plat)],
            plat,
        ),
        has_drive(p, plat) ==> root_prefix_len(p, plat) == 0,
        is_device(p, plat) ==> device_len(p, plat) >= 4,
{
    if p.len() >= 2 {
        lemma_next_sep_bounds(p, 2, plat);
        let a = next_sep(p, 2, plat);
        if a < p.len() {
            lemma_next_sep_bounds(p, a + 1, plat);
        }
    }
    if p.len() >= 4 {
        lemma_next_sep_bounds(p, 4, plat);
    }
}

pub proof fn lemma_body_spans_wf(p: Seq<char>, plat: Platform)
    ensures
        spans_wf(body_spans(p, plat), body_start(p, plat), p.len() as int),
        spans_clean(p, body_spans(p, plat), plat),
        0 <= body_start(p, plat) <= p.len(),
{
    lemma_prefix_facts(p, plat);
    lemma_spans_from_wf(p, body_start(p, plat), body_start(p, plat), plat);
}

pub open spec fn spans_view(v: Seq<(usize, usize)>) -> Seq<(int, int)> {
    v.map_values(|s: (usize, usize)| (s.0 as int, s.1 as int))
}

fn is_real_exec(p: &str, a: usize, b: usize) -> (r: bool)
    requires
        a <= b <= p@.len(),
    ensures
        r == is_real(p@, a as int, b as int),
{
    b > a && !(b == a + 1 && char_at(p, a) == '.')
}

/// Cutting `s` where it has a separator, or at its end, leaves `next_sep`
/// before the cut as it was.
pub proof fn lemma_next_sep_cut(s: Seq<char>, n: int, i: int, plat: Platform)
    requires
        0 <= i <= n <= s.len(),
        n < s.len() ==> is_sep(s[n], plat),
    ensures
        next_sep(s.subrange(0, n), i, plat) == next_sep(s, i, plat),
    decreases n - i,
{
    if i < n {
        assert(s.subrange(0, n)[i] == s[i]);
        if !is_sep(s[i], plat) {
            lemma_next_sep_cut(s, n, i + 1, plat);
        }
    }
}

/// `next_sep` lies between `i` and the end of `p`.
pub proof fn lemma_next_sep_bounds(p: Seq<char>, i: int, plat: Platform)
    requires
        0 <= i <= p.len(),
    ensures
        i <= next_sep(p, i, plat) <= p.len(),
        next_sep(p, i, plat) < p.len() ==> is_sep(p[next_sep(p, i, plat)], plat),
    decreases p.len() - i,
{
    if i < p.len() && !is_sep(p[i], plat) {
        lemma_next_sep_bounds(p, i + 1, plat);
    }
}

fn next_sep_exec(p: &str, i: usize, plat: Platform) -> (r: usize)
    requires
        i <= p@.len(),
    ensures
        r == next_sep(p@, i as int, plat),
{
    let n = p.unicode_len();
    let mut j = i;
    while j < n && !is_sep_exec(char_at(p, j), plat)
        invariant
            i <= j <= n,
            n == p@.len(),
            next_sep(p@, i as int, plat) == next_sep(p@, j as int, plat),
        decreases n - j,
    {
        j = j + 1;
    }
    j
}

fn root_prefix_len_exec(p: &str, plat: Platform) -> (r: usize)
    ensures
        r == root_prefix_len(p@, plat),
        r <= p@.len(),
{
    proof {
        lemma_prefix_facts(p@, plat);
    }
    let n = p.unicode_len();
    if !matches!(plat, Platform::Windows) || n < 2 || !is_sep_exec(char_at(p, 0), plat)
        || !is_sep_exec(char_at(p, 1), plat) {
        return 0;
    }
    if n >= 4 && char_at(p, 0) == '\\' && char_at(p, 1) == '\\' && char_at(p, 2) == '?'
        && char_at(p, 3) == '\\' {
        return 0;
    }
    if n >= 4 && char_at(p, 2) == '.' && is_sep_exec(char_at(p, 3), plat) {
        return next_sep_exec(p, 4, plat);
    }
    let a = next_sep_exec(p, 2, plat);
    proof {
        lemma_next_sep_bounds(p@, 2, plat);
    }
    if a <= 2 || a >= n {
        return 0;
    }
    let b = next_sep_exec(p, a + 1, plat);
    proof {
        lemma_next_sep_bounds(p@, a + 1, plat);
    }
    if b > a + 1 {
        b
    } else {
        0
    }
}

fn prefix_len_exec(p: &str, plat: Platform) -> (r: usize)
    ensures
        r == prefix_len(p@, plat),
        r <= p@.len(),
{
    if has_drive_exec(p, plat) {
        2
    } else {
        root_prefix_len_exec(p, plat)
    }
}

fn body_start_exec(p: &str, plat: Platform) -> (r: usize)
    ensures
        r == body_start(p@, plat),
{
    let n = p.unicode_len();
    let o = prefix_len_exec(p, plat);
    if n <= o {
        return o;
    }
    let c0 = char_at(p, o);
    if is_sep_exec(c0, plat) {
        o + 1
    } else if o == 0 || has_drive_exec(p, plat) {
        if c0 == '.' && (n == o + 1 || is_sep_exec(char_at(p, o + 1), plat)) {
            o + 1
        } else {
            o
        }
    } else {
        o
    }
}

/// The spans of the components of `p` after its root or leading `.`.
fn body_spans_exec(p: &str, plat: Platform) -> (res: Vec<(usize, usize)>)
    ensures
        spans_view(res@) == body_spans(p@, plat),
{
    proof {
        lemma_body_spans_wf(p@, plat);
    }
    let n = p.unicode_len();
    let bs = body_start_exec(p, plat);
    let mut res: Vec<(usize, usize)> = Vec::new();
    let mut start = bs;
    let mut i = bs;
    while i < n
        invariant
            n == p@.len(),
            bs == body_start(p@, plat),
            0 <= start <= i <= n,
            spans_view(res@) + spans_from(p@, start as int, i as int, plat) == body_spans(p@, plat),
        decreases n - i,
    {
        let ghost before = spans_view(res@);
        if is_sep_exec(char_at(p, i), plat) {
            if is_real_exec(p, start, i) {
                res.push((start, i));
                assert(spans_view(res@) =~= before + seq![(start as int, i as int)]);
                assert(seq![(start as int, i as int)] + spans_from(p@, i + 1, i + 1, plat)
                    == spans_from(p@, start as int, i as int, plat));
                assert(before + seq![(start as int, i as int)] + spans_from(p@, i + 1, i + 1, plat)
                    =~= before + (seq![(start as int, i as int)] + spans_from(p@, i + 1, i + 1, plat)));
            }
            start = i + 1;
        }
        i = i + 1;
    }
    let ghost before = spans_view(res@);
    if is_real_exec(p, start, n) {
        res.push((start, n));
        assert(spans_view(res@) =~= before + seq![(start as int, n as int)]);
    } else {
        assert(spans_view(res@) =~= before + seq![]);
    }
    res
}


/// The component after the drive prefix: 0 for none, 1 for a root, 2 for `.`.
pub open spec fn head_kind(p: Seq<char>, plat: Platform) -> int {
    if has_root(p, plat) {
        1
    } else if has_cur_dir(p, plat) {
        2
    } else {
        0
    }
}

/// The components of `base` are the first components of `p`.
pub open spec fn starts_with_spec(p: Seq<char>, base: Seq<char>, plat: Platform) -> bool {
    let cp = components(p, plat);
    let cb = components(base, plat);
    cb.len() <= cp.len() && cp.subrange(0, cb.len() as int) == cb
}

/// Where the text of `p` ends once separators and `.` components at its
/// end are left out.
pub open spec fn body_end(p: Seq<char>, plat: Platform) -> int {
    let sp = body_spans(p, plat);
    if sp.len() > 0 {
        sp.last().1
    } else {
        body_start(p, plat)
    }
}

/// What `Path::strip_prefix` gives: `None` unless the components of `base`
/// begin those of `p`; then the part of `p` after them, with the
/// separators and `.` components that border it removed. When `base` has
/// no components at all, `p` itself with only its end trimmed; when `base`
/// is a bare drive and `p` has a root or `.` after that drive, `p` from
/// that root or `.` on.
pub open spec fn strip_prefix_spec(p: Seq<char>, base: Seq<char>, plat: Platform) -> Option<
    Seq<char>,
> {
    if starts_with_spec(p, base, plat) {
        let k = components(base, plat).len();
        let hp = head(p, plat).len();
        let sp = body_spans(p, plat);
        if k == 0 {
            Some(p.subrange(0, body_end(p, plat)))
        } else if k == components(p, plat).len() {
            Some(seq![])
        } else if k < hp {
            Some(p.subrange(prefix_len(p, plat), body_end(p, plat)))
        } else {
            Some(p.subrange(sp[k - hp].0, sp.last().1))
        }
    } else {
        None
    }
}

fn head_kind_exec(p: &str, plat: Platform) -> (r: usize)
    ensures
        r == head_kind(p@, plat),
{
    let n = p.unicode_len();
    let o = prefix_len_exec(p, plat);
    let unc = !has_drive_exec(p, plat) && o > 0;
    if unc || (n > o && is_sep_exec(char_at(p, o), plat)) {
        return 1;
    }
    if n <= o {
        return 0;
    }
    let c0 = char_at(p, o);
    if c0 == '.' && (n == o + 1 || is_sep_exec(char_at(p, o + 1), plat)) {
        2
    } else {
        0
    }
}

/// Two drive letters name the same drive.
fn same_drive(a: char, b: char) -> (r: bool)
    requires
        is_ascii_alpha(a),
        is_ascii_alpha(b),
    ensures
        r == (to_upper(a) == to_upper(b)),
{
    let x = a as u32;
    let y = b as u32;
    let ux = if x >= 97 { x - 32 } else { x };
    let uy = if y >= 97 { y - 32 } else { y };
    proof {
        assert(to_upper(a) as int == ux);
        assert(to_upper(b) as int == uy);
    }
    ux == uy
}

/// The first `m` characters of `p` and the first `n` of `q` are the same
/// once every `/` is read as `\`.
fn backslash_eq(p: &str, m: usize, q: &str, n: usize) -> (r: bool)
    requires
        m <= p@.len(),
        n <= q@.len(),
    ensures
        r == (backslashes(p@.subrange(0, m as int)) == backslashes(q@.subrange(0, n as int))),
{
    let ghost x = backslashes(p@.subrange(0, m as int));
    let ghost y = backslashes(q@.subrange(0, n as int));
    if m != n {
        assert(x.len() != y.len());
        return false;
    }
    let mut k: usize = 0;
    while k < m
        invariant
            m <= p@.len(),
            n <= q@.len(),
            m == n,
            k <= m,
            x == backslashes(p@.subrange(0, m as int)),
            y == backslashes(q@.subrange(0, n as int)),
            forall|i: int| 0 <= i < k ==> #[trigger] x[i] == y[i],
        decreases m - k,
    {
        let a = char_at(p, k);
        let b = char_at(q, k);
        let na = if a == '/' { '\\' } else { a };
        let nb = if b == '/' { '\\' } else { b };
        assert(x[k as int] == na);
        assert(y[k as int] == nb);
        if na != nb {
            return false;
        }
        k = k + 1;
    }
    assert(x =~= y);
    true
}

/// `p[a..b]` and `q[c..d]` hold the same characters.
fn seg_eq(p: &str, a: usize, b: usize, q: &str, c: usize, d: usize) -> (r: bool)
    requires
        a <= b <= p@.len(),
        c <= d <= q@.len(),
    ensures
        r == (p@.subrange(a as int, b as int) == q@.subrange(c as int, d as int)),
{
    if b - a != d - c {
        assert(p@.subrange(a as int, b as int).len() != q@.subrange(c as int, d as int).len());
        return false;
    }
    let mut k: usize = 0;
    while k < b - a
        invariant
            a <= b <= p@.len(),
            c <= d <= q@.len(),
            b - a == d - c,
            0 <= k <= b - a,
            forall|m: int| 0 <= m < k ==> p@.subrange(a as int, b as int)[m] == #[trigger] q@.subrange(c as int, d as int)[m],
        decreases b - a - k,
    {
        if char_at(p, a + k) != char_at(q, c + k) {
            assert(p@.subrange(a as int, b as int)[k as int] != q@.subrange(c as int, d as int)[k as int]);
            return false;
        }
        k = k + 1;
    }
    assert(p@.subrange(a as int, b as int) =~= q@.subrange(c as int, d as int));
    true
}

proof fn lemma_components_index(p: Seq<char>, plat: Platform, k: int)
    requires
        0 <= k < components(p, plat).len(),
    ensures
        k < head(p, plat).len() ==> components(p, plat)[k] == head(p, plat)[k],
        k >= head(p, plat).len() ==> components(p, plat)[k] == p.subrange(
            body_spans(p, plat)[k - head(p, plat).len()].0,
            body_spans(p, plat)[k - head(p, plat).len()].1,
        ),
        components(p, plat).len() == head(p, plat).len() + body_spans(p, plat).len(),
{
}

/// A component between separators is neither the root nor `.`, and holds
/// no `/`.
proof fn lemma_body_not_head(p: Seq<char>, plat: Platform, k: int)
    requires
        0 <= k < body_spans(p, plat).len(),
    ensures
        p.subrange(body_spans(p, plat)[k].0, body_spans(p, plat)[k].1) != seq!['/'],
        p.subrange(body_spans(p, plat)[k].0, body_spans(p, plat)[k].1) != seq!['.'],
        forall|m: int|
            0 <= m < p.subrange(body_spans(p, plat)[k].0, body_spans(p, plat)[k].1).len()
                ==> #[trigger] p.subrange(body_spans(p, plat)[k].0, body_spans(p, plat)[k].1)[m]
                != '/',
{
    lemma_body_spans_wf(p, plat);
    let sp = body_spans(p, plat);
    let c = p.subrange(sp[k].0, sp[k].1);
    assert(!is_sep(p[sp[k].0], plat));
    assert(is_real(p, sp[k].0, sp[k].1));
    if c.len() == 1 {
        assert(c[0] == p[sp[k].0]);
    }
    assert forall|m: int| 0 <= m < c.len() implies #[trigger] c[m] != '/' by {
        assert(c[m] == p[sp[k].0 + m]);
        assert(!is_sep(p[sp[k].0 + m], plat));
    }
}

/// The shape of a prefix component: three characters or more, with a `/`
/// third (a drive) or, on Windows, a `\\` first (a `\\server\share`).
pub open spec fn prefix_like(c: Seq<char>, plat: Platform) -> bool {
    c.len() >= 3 && (c[2] == '/' || (plat == Platform::Windows && c[0] == '\\'))
}

/// A component after the prefix is not shaped like a prefix: it is the
/// root, `.`, or a name, which holds no separator.
proof fn lemma_not_prefix_component(p: Seq<char>, plat: Platform, t: int)
    requires
        prefix_head(p, plat).len() <= t < components(p, plat).len(),
    ensures
        !prefix_like(components(p, plat)[t], plat),
{
    lemma_components_index(p, plat, t);
    let h = head(p, plat).len() as int;
    if t >= h {
        lemma_body_not_head(p, plat, t - h);
        lemma_body_spans_wf(p, plat);
        let sp = body_spans(p, plat);
        let c = p.subrange(sp[t - h].0, sp[t - h].1);
        if c.len() > 0 {
            assert(c[0] == p[sp[t - h].0]);
            assert(!is_sep(p[sp[t - h].0], plat));
        }
    } else {
        assert(head(p, plat)[t].len() == 1);
    }
}

/// The end of the text that `strip_prefix` keeps (see `body_end`).
fn body_end_exec(p: &str, sp: &Vec<(usize, usize)>, plat: Platform) -> (r: usize)
    requires
        spans_view(sp@) == body_spans(p@, plat),
    ensures
        r == body_end(p@, plat),
        r <= p@.len(),
{
    proof {
        lemma_body_spans_wf(p@, plat);
    }
    assert(spans_view(sp@).len() == sp@.len());
    if sp.len() > 0 {
        assert(spans_view(sp@)[sp.len() - 1] == body_spans(p@, plat).last());
        sp[sp.len() - 1].1
    } else {
        body_start_exec(p, plat)
    }
}

/// The part of `p` after the leading components `base`, if `base` begins
/// `p` component by component (see `strip_prefix_spec`).
pub fn strip_prefix(p: &str, base: &str, plat: Platform) -> (res: Option<String>)
    ensures
        match res {
            Some(r) => strip_prefix_spec(p@, base@, plat) == Some(r@),
            None => strip_prefix_spec(p@, base@, plat) is None,
        },
{
    proof {
        lemma_body_spans_wf(p@, plat);
        lemma_body_spans_wf(base@, plat);
    }
    let sp = body_spans_exec(p, plat);
    let sb = body_spans_exec(base, plat);
    let dp = has_drive_exec(p, plat);
    let db = has_drive_exec(base, plat);
    let pp = prefix_len_exec(p, plat);
    let pb = prefix_len_exec(base, plat);
    let rp = head_kind_exec(p, plat);
    let rb = head_kind_exec(base, plat);
    proof {
        lemma_prefix_facts(p@, plat);
        lemma_prefix_facts(base@, plat);
    }
    let d: usize = if pp > 0 { 1 } else { 0 };
    let hpl: usize = d + if rp == 0 { 0 } else { 1 };
    let hbl: usize = (if pb > 0 { 1 } else { 0 }) + if rb == 0 { 0 } else { 1 };
    let ghost cp = components(p@, plat);
    let ghost cb = components(base@, plat);
    let ghost vsp = body_spans(p@, plat);
    let ghost vsb = body_spans(base@, plat);
    assert(prefix_head(p@, plat).len() == d);
    assert(head(p@, plat).len() == hpl);
    assert(head(base@, plat).len() == hbl);
    assert(sp@.len() == vsp.len());
    assert(sb@.len() == vsb.len());
    assert(cp.len() == hpl + sp.len());
    assert(cb.len() == hbl + sb.len());
    let ghost kb = hbl + sb.len();
    if hbl == 0 && sb.len() == 0 {
        assert(cp.subrange(0, 0) =~= cb);
        let end = body_end_exec(p, &sp, plat);
        return Some(String::from_str(p.substring_char(0, end)));
    }
    let same_prefix = if pp == 0 && pb == 0 {
        true
    } else if pp == 0 || pb == 0 {
        false
    } else if dp && db {
        same_drive(char_at(base, 0), char_at(p, 0))
    } else if dp || db {
        false
    } else {
        backslash_eq(p, pp, base, pb)
    };
    if !same_prefix {
        proof {
            if cb.len() <= cp.len() {
                lemma_components_index(p@, plat, 0);
                lemma_components_index(base@, plat, 0);
                if pp > 0 && pb > 0 {
                    if dp && db {
                        assert(cb[0][0] != cp[0][0]);
                    } else if dp {
                        assert(cb[0][0] == '\\');
                        assert(cp[0][0] != cb[0][0]);
                    } else if db {
                        assert(cp[0][0] == '\\');
                        assert(cp[0][0] != cb[0][0]);
                    } else {
                        assert(cp[0] != cb[0]);
                    }
                } else if pb > 0 {
                    lemma_not_prefix_component(p@, plat, 0);
                    assert(prefix_like(cb[0], plat));
                } else {
                    lemma_not_prefix_component(base@, plat, 0);
                    assert(prefix_like(cp[0], plat));
                }
                assert(cp.subrange(0, cb.len() as int)[0] != cb[0]);
            }
        }
        return None;
    }
    assert(prefix_head(p@, plat) == prefix_head(base@, plat));
    if rp != rb {
        if rb == 0 && sb.len() == 0 {
            proof {
                lemma_components_index(p@, plat, 0);
                lemma_components_index(base@, plat, 0);
                assert(cp.subrange(0, cb.len() as int) =~= cb);
            }
            let end = body_end_exec(p, &sp, plat);
            proof {
                assert(pp <= end) by {
                    lemma_body_spans_wf(p@, plat);
                    if sp.len() > 0 {
                        assert(vsp.last().0 >= body_start(p@, plat));
                    }
                }
            }
            return Some(String::from_str(p.substring_char(pp, end)));
        }
        proof {
            if cb.len() <= cp.len() {
                lemma_components_index(p@, plat, d as int);
                lemma_components_index(base@, plat, d as int);
                if rp != 0 && rb != 0 {
                    assert(seq!['/'][0] != seq!['.'][0]);
                    assert(cp[d as int] != cb[d as int]);
                } else if rb != 0 {
                    lemma_body_not_head(p@, plat, 0);
                    assert(cp[d as int] != cb[d as int]);
                } else {
                    lemma_body_not_head(base@, plat, 0);
                    assert(cp[d as int] != cb[d as int]);
                }
                assert(cp.subrange(0, cb.len() as int)[d as int] != cb[d as int]);
            }
        }
        return None;
    }
    assert(head(p@, plat) == head(base@, plat));
    if sb.len() > sp.len() {
        return None;
    }
    let mut j: usize = 0;
    while j < sb.len()
        invariant
            j <= sb.len() <= sp.len(),
            hpl == hbl,
            head(p@, plat) == head(base@, plat),
            cp == components(p@, plat),
            cb == components(base@, plat),
            cp.len() == hpl + sp.len(),
            cb.len() == hbl + sb.len(),
            head(p@, plat).len() == hpl,
            head(base@, plat).len() == hbl,
            vsp == body_spans(p@, plat),
            vsb == body_spans(base@, plat),
            kb == hbl + sb.len(),
            kb > 0,
            sp@.len() == vsp.len(),
            sb@.len() == vsb.len(),
            spans_view(sp@) == vsp,
            spans_view(sb@) == vsb,
            spans_wf(vsp, body_start(p@, plat), p@.len() as int),
            spans_wf(vsb, body_start(base@, plat), base@.len() as int),
            forall|m: int|
                0 <= m < j ==> #[trigger] p@.subrange(vsp[m].0, vsp[m].1) == base@.subrange(
                    vsb[m].0,
                    vsb[m].1,
                ),
        decreases sb.len() - j,
    {
        assert(spans_view(sp@)[j as int] == vsp[j as int]);
        assert(spans_view(sb@)[j as int] == vsb[j as int]);
        if !seg_eq(p, sp[j].0, sp[j].1, base, sb[j].0, sb[j].1) {
            proof {
                lemma_components_index(p@, plat, hpl + j);
                lemma_components_index(base@, plat, hbl + j);
                assert(cp.subrange(0, cb.len() as int)[hbl + j] != cb[hbl + j]);
            }
            return None;
        }
        j = j + 1;
    }
    proof {
        assert forall|m: int| 0 <= m < cb.len() implies cp.subrange(0, cb.len() as int)[m]
            == cb[m] by {
            lemma_components_index(p@, plat, m);
            lemma_components_index(base@, plat, m);
        }
        assert(cp.subrange(0, cb.len() as int) =~= cb);
    }
    if sb.len() == sp.len() {
        return Some(String::new());
    }
    let first = sp[sb.len()].0;
    let last = sp[sp.len() - 1].1;
    proof {
        assert(spans_view(sp@)[sb.len() as int] == vsp[sb.len() as int]);
        assert(spans_view(sp@)[sp.len() - 1] == vsp[sp.len() - 1]);
        if sb.len() < sp.len() - 1 {
            assert(vsp[sb.len() as int].1 <= vsp[sp.len() - 1].0) by {
                assert forall|a: int, b: int| 0 <= a < b < vsp.len() implies vsp[a].1 <= vsp[b].0 by {
                    lemma_spans_ordered(vsp, body_start(p@, plat), p@.len() as int, a, b);
                }
            }
        }
    }
    Some(String::from_str(p.substring_char(first, last)))
}

proof fn lemma_spans_ordered(sp: Seq<(int, int)>, lo: int, len: int, a: int, b: int)
    requires
        spans_wf(sp, lo, len),
        0 <= a < b < sp.len(),
    ensures
        sp[a].1 < sp[b].0,
    decreases b - a,
{
    if b == a + 1 {
    } else {
        lemma_spans_ordered(sp, lo, len, a, b - 1);
        assert(sp[b - 1].1 < sp[b].0);
    }
}


/// `s` with every `\` turned into `/`.
pub open spec fn forward_slashes(s: Seq<char>) -> Seq<char> {
    s.map_values(|c: char| if c == '\\' { '/' } else { c })
}

/// `s` without the copies of `c` at its end.
pub open spec fn trim_end_char(s: Seq<char>, c: char) -> Seq<char>
    decreases s.len(),
{
    if s.len() > 0 && s.last() == c {
        trim_end_char(s.drop_last(), c)
    } else {
        s
    }
}

/// The portable form of a path: the part after the home directory behind
/// `~/`, or else the path itself; `\` becomes `/`, and slashes at the end
/// are dropped.
pub open spec fn collapse_home_spec(p: Seq<char>, home: Option<Seq<char>>, plat: Platform) -> Seq<
    char,
> {
    let fallback = trim_end_char(forward_slashes(p), '/');
    match home {
        Some(h) => match strip_prefix_spec(p, h, plat) {
            Some(rest) => seq!['~', '/'] + trim_end_char(forward_slashes(rest), '/'),
            None => fallback,
        },
        None => fallback,
    }
}

/// `path` with a leading `~` standing for the home directory: `~` alone
/// becomes the home directory, and `~/rest` or `~\rest` becomes `rest`
/// joined onto it. Without a home directory, or without such a `~`, the
/// path stays as it is.
pub open spec fn expand_tilde_spec(path: Seq<char>, home: Option<Seq<char>>, plat: Platform) -> Seq<
    char,
> {
    if path == seq!['~'] {
        match home {
            Some(h) => h,
            None => path,
        }
    } else if path.len() >= 2 && path[0] == '~' && (path[1] == '/' || path[1] == '\\') {
        match home {
            Some(h) => join_spec(h, path.skip(2), plat),
            None => path,
        }
    } else {
        path
    }
}

/// The last component of `p` when it is a name: `None` for a path that
/// has no component after its root or leading `.`, or whose last one is
/// `..`.
pub open spec fn file_name_spec(p: Seq<char>, plat: Platform) -> Option<Seq<char>> {
    let sp = body_spans(p, plat);
    if sp.len() == 0 {
        None
    } else if p.subrange(sp.last().0, sp.last().1) == seq!['.', '.'] {
        None
    } else {
        Some(p.subrange(sp.last().0, sp.last().1))
    }
}

/// `s` with `\` turned into `/`.
fn forward_slashes_exec(s: &str) -> (res: String)
    ensures
        res@ == forward_slashes(s@),
{
    let n = s.unicode_len();
    let mut res = String::new();
    let mut i: usize = 0;
    while i < n
        invariant
            n == s@.len(),
            i <= n,
            res@ == forward_slashes(s@.subrange(0, i as int)),
        decreases n - i,
    {
        let c = char_at(s, i);
        let ghost before = res@;
        if c == '\\' {
            proof {
                reveal_strlit("/");
            }
            res.append("/");
        } else {
            res.append(s.substring_char(i, i + 1));
        }
        assert(forward_slashes(s@.subrange(0, i + 1)) =~= forward_slashes(s@.subrange(0, i as int))
            + seq![forward_slashes(s@.subrange(0, i + 1))[i as int]]);
        assert(res@ =~= forward_slashes(s@.subrange(0, i + 1)));
        i = i + 1;
    }
    assert(s@.subrange(0, n as int) =~= s@);
    res
}

proof fn lemma_trim_end_step(s: Seq<char>, e: int, c: char)
    requires
        0 < e <= s.len(),
        s[e - 1] == c,
    ensures
        trim_end_char(s.subrange(0, e), c) == trim_end_char(s.subrange(0, e - 1), c),
{
    assert(s.subrange(0, e).drop_last() =~= s.subrange(0, e - 1));
}

/// `s` without the slashes at its end.
fn trim_end_slashes(s: &str) -> (res: String)
    ensures
        res@ == trim_end_char(s@, '/'),
{
    let mut e = s.unicode_len();
    assert(s@.subrange(0, e as int) =~= s@);
    while e > 0 && char_at(s, e - 1) == '/'
        invariant
            e <= s@.len(),
            trim_end_char(s@, '/') == trim_end_char(s@.subrange(0, e as int), '/'),
        decreases e,
    {
        proof {
            lemma_trim_end_step(s@, e as int, '/');
        }
        e = e - 1;
    }
    String::from_str(s.substring_char(0, e))
}

/// The portable form of `p` (see `collapse_home_spec`), for storing in
/// the entries file.
pub fn collapse_home(p: &str, home: Option<&str>, platform: Platform) -> (res: String)
    ensures
        res@ == collapse_home_spec(p@, home.deep_view(), platform),
{
    if let Some(h) = home {
        if let Some(rest) = strip_prefix(p, h, platform) {
            let trimmed = trim_end_slashes(forward_slashes_exec(rest.as_str()).as_str());
            proof {
                reveal_strlit("~/");
            }
            let mut res = String::from_str("~/");
            res.append(trimmed.as_str());
            return res;
        }
    }
    trim_end_slashes(forward_slashes_exec(p).as_str())
}

/// `path` with a leading `~` expanded (see `expand_tilde_spec`).
pub fn expand_tilde(path: &str, home: Option<&str>, platform: Platform) -> (res: String)
    ensures
        res@ == expand_tilde_spec(path@, home.deep_view(), platform),
{
    let n = path.unicode_len();
    if n == 1 && char_at(path, 0) == '~' {
        assert(path@ =~= seq!['~']);
        return match home {
            Some(h) => String::from_str(h),
            None => String::from_str(path),
        };
    }
    if n >= 2 && char_at(path, 0) == '~' && (char_at(path, 1) == '/' || char_at(path, 1) == '\\') {
        if let Some(h) = home {
            let rest = path.substring_char(2, n);
            assert(rest@ =~= path@.skip(2));
            return join_path(h, rest, platform);
        }
    }
    proof {
        if path@ == seq!['~'] {
            assert(path@.len() == 1);
        }
    }
    String::from_str(path)
}

/// The last component of `p` when it is a name (see `file_name_spec`).
pub fn file_name(p: &str, platform: Platform) -> (res: Option<String>)
    ensures
        res.deep_view() == file_name_spec(p@, platform),
{
    proof {
        lemma_body_spans_wf(p@, platform);
    }
    let sp = body_spans_exec(p, platform);
    assert(spans_view(sp@).len() == sp@.len());
    if sp.len() == 0 {
        return None;
    }
    let (a, b) = sp[sp.len() - 1];
    assert(spans_view(sp@)[sp.len() - 1] == body_spans(p@, platform).last());
    let name = p.substring_char(a, b);
    if b - a == 2 && char_at(p, a) == '.' && char_at(p, a + 1) == '.' {
        assert(name@ =~= seq!['.', '.']);
        None
    } else {
        proof {
            let ghost sps = body_spans(p@, platform);
            assert(sps.len() > 0);
            assert(sps.last().0 == a && sps.last().1 == b);
            if name@ == seq!['.', '.'] {
                assert(name@.len() == 2);
                assert(name@[0] == p@[a as int]);
                assert(name@[1] == p@[a + 1]);
                assert(false);
            }
            assert(file_name_spec(p@, platform) == Some(name@));
        }
        let r = String::from_str(name);
        assert(Some(r).deep_view() == Some(r@));
        Some(r)
    }
}


/// The spans moved `o` places to the right.
pub open spec fn shift_spans(sp: Seq<(int, int)>, o: int) -> Seq<(int, int)> {
    sp.map_values(|x: (int, int)| (x.0 + o, x.1 + o))
}

/// The spans of a suffix of `s`, moved to where the suffix starts.
pub proof fn lemma_spans_shift(s: Seq<char>, o: int, start: int, i: int, plat: Platform)
    requires
        0 <= o <= s.len(),
        0 <= start <= i,
    ensures
        spans_from(s, start + o, i + o, plat) == shift_spans(
            spans_from(s.subrange(o, s.len() as int), start, i, plat),
            o,
        ),
    decreases s.len() - o - i,
{
    let t = s.subrange(o, s.len() as int);
    if i >= t.len() {
        if start < t.len() {
            assert(t[start] == s[start + o]);
        }
        assert(is_real(s, start + o, s.len() as int) == is_real(t, start, t.len() as int));
        assert(shift_spans(seq![(start, t.len() as int)], o) =~= seq![(start + o, s.len() as int)]);
        assert(shift_spans(seq![], o) =~= seq![]);
    } else {
        assert(t[i] == s[i + o]);
        if start < i {
            assert(t[start] == s[start + o]);
        }
        if is_sep(t[i], plat) {
            lemma_spans_shift(s, o, i + 1, i + 1, plat);
            let r = spans_from(t, i + 1, i + 1, plat);
            assert(is_real(s, start + o, i + o) == is_real(t, start, i));
            assert(shift_spans(seq![(start, i)] + r, o) =~= seq![(start + o, i + o)] + shift_spans(
                r,
                o,
            ));
        } else {
            lemma_spans_shift(s, o, start, i + 1, plat);
        }
    }
}

/// At a separator, the spans split into those before it and those after.
pub proof fn lemma_spans_split(s: Seq<char>, m: int, start: int, i: int, plat: Platform)
    requires
        0 <= start <= i <= m < s.len(),
        is_sep(s[m], plat),
    ensures
        spans_from(s, start, i, plat) == spans_from(s.subrange(0, m), start, i, plat) + spans_from(
            s,
            m + 1,
            m + 1,
            plat,
        ),
    decreases m - i,
{
    let q = s.subrange(0, m);
    if start < m {
        assert(q[start] == s[start]);
    }
    if i == m {
        assert(is_real(q, start, m) == is_real(s, start, m));
        let r = spans_from(s, m + 1, m + 1, plat);
        assert(seq![(start, m)] + r =~= seq![(start, m)] + r);
        assert(seq![] + r =~= r);
    } else {
        assert(q[i] == s[i]);
        if is_sep(s[i], plat) {
            lemma_spans_split(s, m, i + 1, i + 1, plat);
            assert(is_real(q, start, i) == is_real(s, start, i));
            let a = spans_from(q, i + 1, i + 1, plat);
            let r = spans_from(s, m + 1, m + 1, plat);
            assert(seq![(start, i)] + (a + r) =~= (seq![(start, i)] + a) + r);
        } else {
            lemma_spans_split(s, m, start, i + 1, plat);
        }
    }
}

/// Scanning over characters that are not separators changes nothing.
pub proof fn lemma_spans_skip(q: Seq<char>, start: int, i: int, plat: Platform)
    requires
        0 <= start <= i <= q.len(),
        forall|k: int| start <= k < i ==> !is_sep(#[trigger] q[k], plat),
    ensures
        spans_from(q, start, start, plat) == spans_from(q, start, i, plat),
    decreases i - start,
{
    if i > start {
        lemma_spans_skip(q, start, i - 1, plat);
        assert(!is_sep(q[i - 1], plat));
    }
}

/// The spans from the `j`-th on are the spans of the text from where the
/// `j`-th one starts.
pub proof fn lemma_spans_suffix(q: Seq<char>, start: int, i: int, j: int, plat: Platform)
    requires
        0 <= start <= i <= q.len(),
        forall|k: int| start <= k < i ==> !is_sep(#[trigger] q[k], plat),
        0 <= j < spans_from(q, start, i, plat).len(),
    ensures
        spans_from(q, start, i, plat).subrange(j, spans_from(q, start, i, plat).len() as int)
            == spans_from(
            q,
            spans_from(q, start, i, plat)[j].0,
            spans_from(q, start, i, plat)[j].0,
            plat,
        ),
    decreases q.len() - i,
{
    let res = spans_from(q, start, i, plat);
    if i >= q.len() {
        lemma_spans_skip(q, start, i, plat);
        assert(res.subrange(j, res.len() as int) =~= res);
    } else if is_sep(q[i], plat) {
        let r = spans_from(q, i + 1, i + 1, plat);
        if is_real(q, start, i) {
            if j == 0 {
                lemma_spans_skip(q, start, i, plat);
                assert(res.subrange(j, res.len() as int) =~= res);
            } else {
                lemma_spans_suffix(q, i + 1, i + 1, j - 1, plat);
                assert(res.subrange(j, res.len() as int) =~= r.subrange(j - 1, r.len() as int));
                assert(res[j] == r[j - 1]);
            }
        } else {
            lemma_spans_suffix(q, i + 1, i + 1, j, plat);
        }
    } else {
        lemma_spans_suffix(q, start, i + 1, j, plat);
    }
}

/// Every span ends at a separator or at the end of the text.
pub proof fn lemma_spans_end(q: Seq<char>, start: int, i: int, k: int, plat: Platform)
    requires
        0 <= start <= i <= q.len(),
        0 <= k < spans_from(q, start, i, plat).len(),
    ensures
        spans_from(q, start, i, plat)[k].1 == q.len() || is_sep(
            q[spans_from(q, start, i, plat)[k].1],
            plat,
        ),
    decreases q.len() - i,
{
    if i >= q.len() {
    } else if is_sep(q[i], plat) {
        if is_real(q, start, i) {
            if k > 0 {
                lemma_spans_end(q, i + 1, i + 1, k - 1, plat);
            }
        } else {
            lemma_spans_end(q, i + 1, i + 1, k, plat);
        }
    } else {
        lemma_spans_end(q, start, i + 1, k, plat);
    }
}


/// `r` starts with a name and ends with one: its first component begins
/// at its first character and its last component ends at its last.
pub open spec fn names_throughout(r: Seq<char>, plat: Platform) -> bool {
    let st = spans_from(r, 0, 0, plat);
    st.len() > 0 && st[0].0 == 0 && st.last().1 == r.len()
}

/// The components of a text that has neither a root nor a leading `.`.
pub open spec fn tail_components(t: Seq<char>, plat: Platform) -> Seq<Seq<char>> {
    spans_from(t, 0, 0, plat).map_values(|x: (int, int)| t.subrange(x.0, x.1))
}

/// The components of `h`, a separator and `t` are those of `h`, then those
/// of `t`.
pub proof fn lemma_components_append(h: Seq<char>, c: char, t: Seq<char>, plat: Platform)
    requires
        h.len() > prefix_len(h, plat) || root_prefix_len(h, plat) > 0,
        is_sep(c, plat),
        has_unc(h + seq![c], plat) ==> root_prefix_len(h, plat) > 0,
    ensures
        components(h + seq![c] + t, plat) == components(h, plat) + tail_components(t, plat),
        head(h + seq![c] + t, plat) == head(h, plat),
        body_spans(h + seq![c] + t, plat) == body_spans(h, plat) + shift_spans(
            spans_from(t, 0, 0, plat),
            (h.len() + 1) as int,
        ),
{
    let s = h + seq![c] + t;
    let m = h.len() as int;
    lemma_prefix_facts(h, plat);
    assert(s.subrange(0, m) =~= h);
    assert(s.subrange(m + 1, s.len() as int) =~= t);
    assert(s[0] == h[0]);
    if h.len() >= 2 {
        assert(s[1] == h[1]);
    } else {
        assert(s[1] == c);
    }
    assert(has_drive(s, plat) == has_drive(h, plat));
    assert(root_prefix_len(s, plat) == root_prefix_len(h, plat)) by {
        if has_unc(h + seq![c], plat) {
            assert(has_unc(h, plat));
            assert(h.len() >= 4);
            assert(s[2] == h[2] && s[3] == h[3]);
            lemma_next_sep_cut(s, m, 2, plat);
            lemma_next_sep_cut(s, m, 4, plat);
            lemma_next_sep_bounds(h, 2, plat);
            let a = next_sep(h, 2, plat);
            if a < h.len() {
                lemma_next_sep_cut(s, m, a + 1, plat);
            }
        } else {
            assert(!has_unc(s, plat));
            assert(!has_unc(h, plat));
        }
    }
    let o = prefix_len(h, plat);
    assert(prefix_len(s, plat) == o);
    assert(prefix_head(s, plat) == prefix_head(h, plat)) by {
        if root_prefix_len(h, plat) > 0 && !has_drive(h, plat) {
            assert(s.subrange(0, o) =~= h.subrange(0, o));
        }
    }
    if h.len() == o {
        assert(root_prefix_len(h, plat) > 0);
        assert(s[o] == c);
        assert(head(s, plat) == head(h, plat));
        assert(body_start(s, plat) == o + 1);
        assert(body_start(h, plat) == o);
        assert(body_spans(h, plat) =~= Seq::<(int, int)>::empty());
        lemma_spans_shift(s, o + 1, 0, 0, plat);
        lemma_spans_from_wf(t, 0, 0, plat);
        let st = spans_from(t, 0, 0, plat);
        let sh = shift_spans(st, o + 1);
        assert(body_spans(s, plat) == sh);
        assert(Seq::<(int, int)>::empty() + sh =~= sh);
        let lhs = sh.map_values(|x: (int, int)| s.subrange(x.0, x.1));
        assert forall|k: int| 0 <= k < lhs.len() implies lhs[k] == tail_components(t, plat)[k] by {
            assert(s.subrange(st[k].0 + o + 1, st[k].1 + o + 1) =~= t.subrange(st[k].0, st[k].1));
        }
        assert(lhs =~= tail_components(t, plat));
        assert(components(h, plat) =~= head(h, plat));
        assert(components(s, plat) =~= head(h, plat) + lhs);
        return;
    }
    assert(s[o] == h[o]);
    if h.len() >= o + 2 {
        assert(s[o + 1] == h[o + 1]);
    } else {
        assert(s[o + 1] == c);
    }
    assert(head(s, plat) == head(h, plat));
    assert(body_start(s, plat) == body_start(h, plat));
    let bs = body_start(h, plat);
    lemma_spans_split(s, m, bs, bs, plat);
    lemma_spans_shift(s, m + 1, 0, 0, plat);
    lemma_body_spans_wf(h, plat);
    lemma_spans_from_wf(t, 0, 0, plat);
    let sh = body_spans(h, plat);
    let st = spans_from(t, 0, 0, plat);
    let all = sh + shift_spans(st, m + 1);
    assert(body_spans(s, plat) == all);
    let lhs = all.map_values(|x: (int, int)| s.subrange(x.0, x.1));
    let rhs = sh.map_values(|x: (int, int)| h.subrange(x.0, x.1)) + st.map_values(
        |x: (int, int)| t.subrange(x.0, x.1),
    );
    assert forall|k: int| 0 <= k < lhs.len() implies lhs[k] == rhs[k] by {
        if k < sh.len() {
            assert(s.subrange(sh[k].0, sh[k].1) =~= h.subrange(sh[k].0, sh[k].1));
        } else {
            let x = st[k - sh.len()];
            assert(all[k] == (x.0 + m + 1, x.1 + m + 1));
            assert(s.subrange(x.0 + m + 1, x.1 + m + 1) =~= t.subrange(x.0, x.1));
        }
    }
    assert(lhs =~= rhs);
    assert(components(s, plat) =~= head(h, plat) + rhs);
    assert(components(h, plat) + tail_components(t, plat) =~= head(h, plat) + rhs);
}

/// The components of a separator followed by `t`, after nothing or after
/// a bare drive: that drive, the root, then those of `t`.
pub proof fn lemma_components_after_root(pre: Seq<char>, c: char, t: Seq<char>, plat: Platform)
    requires
        is_sep(c, plat),
        pre.len() == 0 || (has_drive(pre, plat) && pre.len() == 2),
        t.len() > 0 ==> !is_sep(t[0], plat),
    ensures
        components(pre + seq![c] + t, plat) == components(pre + seq![c], plat) + tail_components(
            t,
            plat,
        ),
        head(pre + seq![c] + t, plat) == head(pre + seq![c], plat),
        body_spans(pre + seq![c], plat) == Seq::<(int, int)>::empty(),
        body_spans(pre + seq![c] + t, plat) == shift_spans(spans_from(t, 0, 0, plat), (pre.len() + 1) as int),
{
    let o = pre.len() as int;
    let s = pre + seq![c] + t;
    let q = pre + seq![c];
    assert(s[o] == c);
    assert(q[o] == c);
    if o == 2 {
        assert(s[0] == pre[0] && s[1] == pre[1]);
        assert(q[0] == pre[0] && q[1] == pre[1]);
    } else {
        assert(s[0] == c && q[0] == c);
        if t.len() > 0 {
            assert(s[1] == t[0]);
        }
    }
    assert(root_prefix_len(s, plat) == 0);
    assert(root_prefix_len(q, plat) == 0);
    assert(has_drive(s, plat) == (o == 2));
    assert(has_drive(q, plat) == (o == 2));
    assert(prefix_head(s, plat) == prefix_head(q, plat));
    assert(head(s, plat) == head(q, plat));
    assert(body_start(s, plat) == o + 1);
    assert(body_start(q, plat) == o + 1);
    assert(s.subrange(o + 1, s.len() as int) =~= t);
    lemma_spans_shift(s, o + 1, 0, 0, plat);
    lemma_spans_from_wf(t, 0, 0, plat);
    let st = spans_from(t, 0, 0, plat);
    let sh = shift_spans(st, o + 1);
    assert(body_spans(s, plat) == sh);
    assert(body_spans(q, plat) =~= seq![]);
    let lhs = sh.map_values(|x: (int, int)| s.subrange(x.0, x.1));
    assert forall|k: int| 0 <= k < lhs.len() implies lhs[k] == tail_components(t, plat)[k] by {
        assert(s.subrange(st[k].0 + o + 1, st[k].1 + o + 1) =~= t.subrange(st[k].0, st[k].1));
    }
    assert(lhs =~= tail_components(t, plat));
    assert(components(q, plat) =~= head(q, plat));
    assert(components(s, plat) =~= head(q, plat) + lhs);
}

/// A whole `\\server\share` or `\\.\name` prefix ends before a
/// separator at the end of the path, so dropping that separator keeps it.
pub proof fn lemma_unc_drop_sep(h: Seq<char>, plat: Platform)
    requires
        root_prefix_len(h, plat) > 0,
        whole_prefix(h, plat),
        is_sep(h.last(), plat),
    ensures
        root_prefix_len(h.drop_last(), plat) == root_prefix_len(h, plat),
{
    let x = h.drop_last();
    let n = x.len() as int;
    lemma_prefix_facts(h, plat);
    assert(h.subrange(0, n) =~= x);
    assert(x[0] == h[0] && x[1] == h[1] && x[2] == h[2] && x[3] == h[3]);
    if device_len(h, plat) > 0 {
        assert(device_len(h, plat) > 4);
        lemma_next_sep_bounds(h, 4, plat);
        let e = next_sep(h, 4, plat);
        assert(e <= n) by {
            if e > n {
                lemma_next_sep_stops(h, 4, n, plat);
            }
        }
        lemma_next_sep_cut(h, n, 4, plat);
        lemma_next_sep_cut(h, n, 2, plat);
        lemma_next_sep_bounds(h, 2, plat);
        let a = next_sep(h, 2, plat);
        if a < h.len() && a + 1 <= n {
            lemma_next_sep_cut(h, n, a + 1, plat);
        }
    } else {
        lemma_next_sep_bounds(h, 2, plat);
        let a = next_sep(h, 2, plat);
        assert(a <= n) by {
            if a > n {
                lemma_next_sep_stops(h, 2, n, plat);
            }
        }
        lemma_next_sep_cut(h, n, 2, plat);
        assert(a < n) by {
            if a == n {
                assert(next_sep(h, a + 1, plat) == h.len());
            }
        }
        lemma_next_sep_bounds(h, a + 1, plat);
        lemma_next_sep_cut(h, n, a + 1, plat);
        lemma_next_sep_cut(h, n, 4, plat);
    }
}

/// `next_sep` stops at any separator from `i` on.
pub proof fn lemma_next_sep_stops(p: Seq<char>, i: int, j: int, plat: Platform)
    requires
        0 <= i <= j < p.len(),
        is_sep(p[j], plat),
    ensures
        next_sep(p, i, plat) <= j,
    decreases j - i,
{
    if !is_sep(p[i], plat) {
        lemma_next_sep_stops(p, i + 1, j, plat);
    }
}

/// The components of a bare drive followed by `t` (that starts with a name):
/// the drive, then those of `t`.
pub proof fn lemma_components_after_drive(d: Seq<char>, t: Seq<char>, plat: Platform)
    requires
        has_drive(d, plat) && d.len() == 2,
        t.len() > 0 ==> !is_sep(t[0], plat),
        !cur_dir_start(t, plat),
    ensures
        components(d + t, plat) == components(d, plat) + tail_components(t, plat),
        head(d + t, plat) == head(d, plat),
        body_spans(d, plat) == Seq::<(int, int)>::empty(),
        body_spans(d + t, plat) == shift_spans(spans_from(t, 0, 0, plat), 2),
{
    let s = d + t;
    assert(s[0] == d[0] && s[1] == d[1]);
    assert(has_drive(s, plat));
    lemma_prefix_facts(s, plat);
    lemma_prefix_facts(d, plat);
    if t.len() > 0 {
        assert(s[2] == t[0]);
    }
    if t.len() > 1 {
        assert(s[3] == t[1]);
    }
    assert(!has_root(s, plat) && !has_cur_dir(s, plat));
    assert(!has_root(d, plat) && !has_cur_dir(d, plat));
    assert(prefix_head(s, plat) == prefix_head(d, plat));
    assert(head(s, plat) == head(d, plat));
    assert(body_start(s, plat) == 2);
    assert(body_start(d, plat) == 2);
    assert(s.subrange(2, s.len() as int) =~= t);
    lemma_spans_shift(s, 2, 0, 0, plat);
    lemma_spans_from_wf(t, 0, 0, plat);
    let st = spans_from(t, 0, 0, plat);
    let sh = shift_spans(st, 2);
    assert(body_spans(s, plat) == sh);
    assert(body_spans(d, plat) =~= Seq::<(int, int)>::empty());
    let lhs = sh.map_values(|x: (int, int)| s.subrange(x.0, x.1));
    assert forall|k: int| 0 <= k < lhs.len() implies lhs[k] == tail_components(t, plat)[k] by {
        assert(s.subrange(st[k].0 + 2, st[k].1 + 2) =~= t.subrange(st[k].0, st[k].1));
    }
    assert(lhs =~= tail_components(t, plat));
    assert(components(d, plat) =~= head(d, plat));
    assert(components(s, plat) =~= head(d, plat) + lhs);
}

/// Joining `t` onto `h` gives the components of `h`, then those of `t`,
/// when `t` neither starts with a separator nor replaces the base, and
/// `h` is not a bare drive.
pub proof fn lemma_components_join(h: Seq<char>, t: Seq<char>, plat: Platform)
    requires
        h.len() > 0,
        t.len() > 0 ==> !is_sep(t[0], plat),
        !replaces_base(t, plat),
        has_drive(h, plat) && h.len() == 2 ==> !cur_dir_start(t, plat),
        whole_prefix(h, plat),
    ensures
        components(join_spec(h, t, plat), plat) == components(h, plat) + tail_components(t, plat),
{
    lemma_prefix_facts(h, plat);
    if has_drive(h, plat) && h.len() == 2 {
        lemma_components_after_drive(h, t, plat);
        assert(join_spec(h, t, plat) == h + t);
    } else if !is_sep(h.last(), plat) {
        assert((h + seq![main_sep(plat)])[0] == h[0]);
        assert(h.len() >= 2 ==> (h + seq![main_sep(plat)])[1] == h[1]);
        lemma_components_append(h, main_sep(plat), t, plat);
        assert(join_spec(h, t, plat) == h + seq![main_sep(plat)] + t);
    } else {
        assert(join_spec(h, t, plat) == h + t);
        let x = h.drop_last();
        let c = h.last();
        if x.len() == 0 || (has_drive(x, plat) && x.len() == 2) {
            assert(h =~= x + seq![c]);
            lemma_components_after_root(x, c, t, plat);
            assert(h + t =~= x + seq![c] + t);
        } else {
            assert(x.len() >= 2 ==> x[0] == h[0] && x[1] == h[1]);
            if has_unc(h, plat) {
                lemma_unc_drop_sep(h, plat);
            }
            lemma_components_append(x, c, t, plat);
            lemma_components_append(x, c, seq![], plat);
            assert(x + seq![c] + t =~= h + t);
            assert(x + seq![c] + seq![] =~= h);
            assert(tail_components(seq![], plat) =~= seq![]);
            assert(components(h, plat) =~= components(x, plat));
        }
    }
}


/// Joining `t` onto `h` (as in `lemma_components_join`) puts `t` at the
/// end, keeps the leading components of `h`, and gives the spans of `h`
/// followed by those of `t`, moved to where `t` starts.
pub proof fn lemma_join_spans(h: Seq<char>, t: Seq<char>, plat: Platform)
    requires
        h.len() > 0,
        t.len() > 0 ==> !is_sep(t[0], plat),
        !replaces_base(t, plat),
        has_drive(h, plat) && h.len() == 2 ==> !cur_dir_start(t, plat),
        whole_prefix(h, plat),
    ensures
        ({
            let p = join_spec(h, t, plat);
            let m = p.len() - t.len();
            &&& 0 <= m <= p.len()
            &&& p.subrange(m, p.len() as int) == t
            &&& head(p, plat) == head(h, plat)
            &&& body_spans(p, plat) == body_spans(h, plat) + shift_spans(
                spans_from(t, 0, 0, plat),
                m,
            )
        }),
{
    let p = join_spec(h, t, plat);
    lemma_prefix_facts(h, plat);
    if has_drive(h, plat) && h.len() == 2 {
        lemma_components_after_drive(h, t, plat);
        assert(p == h + t);
        assert(p.subrange(2, p.len() as int) =~= t);
        assert(body_spans(h, plat) + shift_spans(spans_from(t, 0, 0, plat), 2)
            =~= shift_spans(spans_from(t, 0, 0, plat), 2));
    } else if !is_sep(h.last(), plat) {
        assert((h + seq![main_sep(plat)])[0] == h[0]);
        assert(h.len() >= 2 ==> (h + seq![main_sep(plat)])[1] == h[1]);
        lemma_components_append(h, main_sep(plat), t, plat);
        assert(p == h + seq![main_sep(plat)] + t);
        assert(p.subrange((h.len() + 1) as int, p.len() as int) =~= t);
    } else {
        assert(p == h + t);
        assert(p.subrange(h.len() as int, p.len() as int) =~= t);
        let x = h.drop_last();
        let c = h.last();
        assert(h =~= x + seq![c]);
        assert(h + t =~= x + seq![c] + t);
        if x.len() == 0 || (has_drive(x, plat) && x.len() == 2) {
            lemma_components_after_root(x, c, t, plat);
            assert(body_spans(h, plat) + shift_spans(spans_from(t, 0, 0, plat), h.len() as int)
                =~= shift_spans(spans_from(t, 0, 0, plat), h.len() as int));
        } else {
            assert(x.len() >= 2 ==> x[0] == h[0] && x[1] == h[1]);
            if has_unc(h, plat) {
                lemma_unc_drop_sep(h, plat);
            }
            lemma_components_append(x, c, t, plat);
            lemma_components_append(x, c, seq![], plat);
            assert(x + seq![c] + seq![] =~= h);
            assert(spans_from(seq![], 0, 0, plat) =~= Seq::<(int, int)>::empty());
            assert(shift_spans(Seq::<(int, int)>::empty(), (x.len() + 1) as int) =~= Seq::<(int, int)>::empty());
            assert(body_spans(x, plat) + Seq::<(int, int)>::empty() =~= body_spans(x, plat));
        }
    }
}

/// On Windows both slashes separate, so turning `\` into `/` keeps the
/// spans.
pub proof fn lemma_spans_forward_slashes(s: Seq<char>, start: int, i: int)
    requires
        0 <= start <= i <= s.len(),
    ensures
        spans_from(forward_slashes(s), start, i, Platform::Windows) == spans_from(
            s,
            start,
            i,
            Platform::Windows,
        ),
    decreases s.len() - i,
{
    let f = forward_slashes(s);
    if start < s.len() {
        assert(f[start] == '.' <==> s[start] == '.');
    }
    if i < s.len() {
        assert(is_sep(f[i], Platform::Windows) == is_sep(s[i], Platform::Windows));
        if is_sep(s[i], Platform::Windows) {
            lemma_spans_forward_slashes(s, i + 1, i + 1);
        } else {
            lemma_spans_forward_slashes(s, start, i + 1);
        }
    }
}

/// On Windows, turning `\` into `/` keeps the components of a text
/// without a root or leading `.`.
pub proof fn lemma_tail_components_forward_slashes(s: Seq<char>)
    ensures
        tail_components(forward_slashes(s), Platform::Windows) == tail_components(
            s,
            Platform::Windows,
        ),
{
    let w = Platform::Windows;
    let f = forward_slashes(s);
    lemma_spans_forward_slashes(s, 0, 0);
    lemma_spans_from_wf(s, 0, 0, w);
    let st = spans_from(s, 0, 0, w);
    assert forall|k: int| 0 <= k < st.len() implies f.subrange(st[k].0, st[k].1) == s.subrange(
        st[k].0,
        st[k].1,
    ) by {
        assert forall|m: int| st[k].0 <= m < st[k].1 implies f[m] == s[m] by {
            assert(!is_sep(s[m], w));
        }
        assert(f.subrange(st[k].0, st[k].1) =~= s.subrange(st[k].0, st[k].1));
    }
    assert(tail_components(f, w) =~= tail_components(s, w));
}

/// The components of `p` from its `j`-th body component on are the
/// components of the text from the start of that component to the end of
/// the last one.
#[verifier::rlimit(40)]
pub proof fn lemma_body_suffix(p: Seq<char>, j: int, plat: Platform)
    requires
        0 <= j < body_spans(p, plat).len(),
    ensures
        ({
            let sp = body_spans(p, plat);
            let a = sp[j].0;
            let b = sp.last().1;
            &&& 0 <= a < b <= p.len()
            &&& sp.subrange(j, sp.len() as int).map_values(|x: (int, int)| p.subrange(x.0, x.1))
                == tail_components(p.subrange(a, b), plat)
        }),
{
    let sp = body_spans(p, plat);
    let bs = body_start(p, plat);
    lemma_body_spans_wf(p, plat);
    let a = sp[j].0;
    let last = sp.len() - 1;
    let b = sp[last].1;
    assert(a < b) by {
        if j < last {
            lemma_spans_ordered(sp, bs, p.len() as int, j, last);
        }
    }
    let q = p.subrange(0, b);
    let r = p.subrange(a, b);
    lemma_trailing_spans(p, plat);
    lemma_spans_suffix(q, bs, bs, j, plat);
    lemma_spans_shift(q, a, 0, 0, plat);
    assert(q.subrange(a, q.len() as int) =~= r);
    let st = spans_from(r, 0, 0, plat);
    lemma_spans_from_wf(r, 0, 0, plat);
    let suf = sp.subrange(j, sp.len() as int);
    assert(suf == shift_spans(st, a));
    let lhs = suf.map_values(|x: (int, int)| p.subrange(x.0, x.1));
    let tail = tail_components(r, plat);
    assert(lhs.len() == tail.len());
    assert forall|t: int| 0 <= t < tail.len() implies lhs[t] == tail[t] by {
        assert(suf[t] == (st[t].0 + a, st[t].1 + a));
        assert(p.subrange(st[t].0 + a, st[t].1 + a) =~= r.subrange(st[t].0, st[t].1));
    }
    assert(lhs =~= tail);
}

/// Nothing after the end of the last body component is a component.
pub proof fn lemma_trailing_spans(p: Seq<char>, plat: Platform)
    requires
        body_spans(p, plat).len() > 0,
    ensures
        body_start(p, plat) <= body_spans(p, plat).last().1,
        spans_from(
            p.subrange(0, body_spans(p, plat).last().1),
            body_start(p, plat),
            body_start(p, plat),
            plat,
        ) == body_spans(p, plat),
{
    let sp = body_spans(p, plat);
    let bs = body_start(p, plat);
    lemma_body_spans_wf(p, plat);
    let last = sp.len() - 1;
    let b = sp[last].1;
    let q = p.subrange(0, b);
    assert(bs <= sp[last].0 < b <= p.len());
    if b == p.len() {
        assert(q =~= p);
    } else {
        lemma_spans_end(p, bs, bs, last, plat);
        lemma_spans_split(p, b, bs, bs, plat);
        let x = spans_from(p, b + 1, b + 1, plat);
        lemma_spans_from_wf(p, b + 1, b + 1, plat);
        if x.len() > 0 {
            let y = spans_from(q, bs, bs, plat);
            assert(sp == y + x);
            assert(sp[last] == x[x.len() - 1]);
            assert(false);
        }
        assert(sp =~= spans_from(q, bs, bs, plat));
    }
}

/// A segment that starts at `start`, is not a separator there and is not
/// a `.` alone gives a component.
pub proof fn lemma_first_span_real(p: Seq<char>, start: int, i: int, plat: Platform)
    requires
        0 <= start < i <= p.len(),
        forall|m: int| start <= m < i ==> !is_sep(#[trigger] p[m], plat),
        !(p[start] == '.' && (p.len() == start + 1 || is_sep(p[start + 1], plat))),
    ensures
        spans_from(p, start, i, plat).len() > 0,
    decreases p.len() - i,
{
    if i >= p.len() {
    } else if is_sep(p[i], plat) {
    } else {
        lemma_first_span_real(p, start, i + 1, plat);
    }
}

/// `t` starts with a `.` component: a `.` alone or followed by a separator.
pub open spec fn cur_dir_start(t: Seq<char>, plat: Platform) -> bool {
    t.len() > 0 && t[0] == '.' && (t.len() == 1 || is_sep(t[1], plat))
}

/// When `h` begins `p` and is not a bare drive, its components cover the
/// leading components of `p` (its prefix and root or `.`).
pub proof fn lemma_base_covers_head(p: Seq<char>, h: Seq<char>, plat: Platform)
    requires
        starts_with_spec(p, h, plat),
        components(h, plat).len() > 0,
        !(has_drive(h, plat) && h.len() == 2),
    ensures
        head(p, plat).len() <= components(h, plat).len(),
{
    let cp = components(p, plat);
    let cb = components(h, plat);
    let k = cb.len() as int;
    let hp = head(p, plat).len() as int;
    if k < hp {
        assert(cp.subrange(0, k) == cb);
        lemma_components_index(p, plat, 0);
        lemma_components_index(h, plat, 0);
        lemma_prefix_facts(p, plat);
        lemma_prefix_facts(h, plat);
        assert(cb[0] == cp.subrange(0, k)[0]);
        assert(cb[0] == cp[0]);
        assert(prefix_head(p, plat).len() == 1);
        assert(prefix_like(cp[0], plat));
        if prefix_head(h, plat).len() == 0 {
            lemma_not_prefix_component(h, plat, 0);
        }
        assert(prefix_head(h, plat).len() == 1);
        assert(!has_root(h, plat));
        assert(has_drive(h, plat));
        assert(!has_root(h, plat) && !has_cur_dir(h, plat));
        assert(body_spans(h, plat).len() == 0);
        assert(h.len() > 2);
        assert(!is_sep(h[2], plat));
        lemma_first_span_real(h, 2, 3, plat);
        assert(spans_from(h, 2, 2, plat) == spans_from(h, 2, 3, plat));
    }
}

/// When `h` begins `p`, the components of `p` are those of `h`, then those
/// of the rest that `strip_prefix_spec` gives; that rest starts and ends
/// with something other than a separator, and holds only characters of `p`.
pub proof fn lemma_rest_components(p: Seq<char>, h: Seq<char>, plat: Platform)
    requires
        starts_with_spec(p, h, plat),
        components(h, plat).len() > 0,
        head(p, plat).len() <= components(h, plat).len(),
    ensures
        strip_prefix_spec(p, h, plat) is Some,
        components(p, plat) == components(h, plat) + tail_components(
            strip_prefix_spec(p, h, plat)->0,
            plat,
        ),
        ({
            let r = strip_prefix_spec(p, h, plat)->0;
            &&& r.len() > 0 ==> !is_sep(r[0], plat) && !is_sep(r.last(), plat)
            &&& !cur_dir_start(r, plat)
            &&& (forall|i: int| 0 <= i < p.len() ==> #[trigger] p[i] != '\\') ==> (forall|i: int|
                0 <= i < r.len() ==> #[trigger] r[i] != '\\')
        }),
{
    let cp = components(p, plat);
    let cb = components(h, plat);
    let k = cb.len() as int;
    let hp = head(p, plat).len() as int;
    let sp = body_spans(p, plat);
    let r = strip_prefix_spec(p, h, plat)->0;
    lemma_body_spans_wf(p, plat);
    assert(cp.len() == hp + sp.len());
    assert(cp.subrange(0, k) == cb);
    if k == cp.len() {
        assert(r =~= seq![]);
        assert(spans_from(r, 0, 0, plat) =~= seq![]);
        assert(tail_components(r, plat) =~= seq![]);
        assert(cp =~= cb + tail_components(r, plat));
    } else {
        let j = k - hp;
        assert(0 <= j < sp.len());
        let a = sp[j].0;
        let last = sp.len() - 1;
        let b = sp[last].1;
        assert(r == p.subrange(a, b));
        lemma_body_suffix(p, j, plat);
        let tail = tail_components(r, plat);
        let suf = sp.subrange(j, sp.len() as int).map_values(
            |x: (int, int)| p.subrange(x.0, x.1),
        );
        assert(suf == tail);
        assert forall|t: int| 0 <= t < cp.len() implies cp[t] == (cb + tail)[t] by {
            lemma_components_index(p, plat, t);
            if t < k {
                assert(cp[t] == cp.subrange(0, k)[t]);
            } else {
                assert(suf[t - k] == p.subrange(sp[t - hp].0, sp[t - hp].1));
            }
        }
        assert(cp =~= cb + tail);
        assert(r[0] == p[a]);
        assert(r.last() == p[b - 1]);
        assert(!is_sep(p[a], plat));
        assert(sp[last].0 <= b - 1 < sp[last].1);
        assert(!is_sep(p[b - 1], plat));
        assert(is_real(p, sp[j].0, sp[j].1));
        assert(sp[j].1 <= b) by {
            if j < last {
                lemma_spans_ordered(sp, body_start(p, plat), p.len() as int, j, last);
            }
        }
        if r.len() >= 2 {
            assert(r[1] == p[a + 1]);
            if sp[j].1 > a + 1 {
                assert(!is_sep(p[a + 1], plat));
            }
        }
        if forall|i: int| 0 <= i < p.len() ==> #[trigger] p[i] != '\\' {
            assert forall|i: int| 0 <= i < r.len() implies #[trigger] r[i] != '\\' by {
                assert(r[i] == p[a + i]);
            }
        }
    }
}

/// With a bare drive `h` as the home directory, a path on that drive with
/// a root or a leading `.` after the drive, collapsed (`collapse_home`)
/// and expanded again (`expand_tilde`), has its components back, unless it
/// is the drive's root alone or the part after the drive, with `/` for
/// `\`, would itself start with a prefix.
pub proof fn lemma_drive_rooted_round_trip(p: Seq<char>, h: Seq<char>, plat: Platform)
    requires
        starts_with_spec(p, h, plat),
        has_drive(h, plat) && h.len() == 2,
        head(p, plat).len() == 2,
        !replaces_base(forward_slashes(strip_prefix_spec(p, h, plat)->0), plat),
        components(p, plat) != components(h, plat) + seq![seq!['/']],
    ensures
        components(
            expand_tilde_spec(collapse_home_spec(p, Some(h), plat), Some(h), plat),
            plat,
        ) == components(p, plat),
{
    let w = Platform::Windows;
    assert(plat == w);
    let cp = components(p, plat);
    let cb = components(h, plat);
    lemma_prefix_facts(p, plat);
    lemma_prefix_facts(h, plat);
    lemma_body_spans_wf(p, plat);
    assert(!has_root(h, plat) && !has_cur_dir(h, plat));
    assert(body_spans(h, plat) =~= Seq::<(int, int)>::empty());
    assert(cb.len() == 1);
    assert(cp.subrange(0, 1) == cb);
    lemma_components_index(p, plat, 0);
    lemma_components_index(h, plat, 0);
    assert(cp[0] == cb[0]) by {
        assert(cp.subrange(0, 1)[0] == cp[0]);
    }
    assert(has_drive(p, plat)) by {
        if prefix_head(p, plat).len() == 0 {
            lemma_not_prefix_component(p, plat, 0);
            assert(prefix_like(cb[0], plat));
        } else if !has_drive(p, plat) {
            assert(cp[0][0] == '\\');
            assert(is_ascii_alpha(cb[0][0]));
        }
    }
    assert(to_upper(p[0]) == to_upper(h[0])) by {
        assert(cp[0][0] == cb[0][0]);
    }
    let sp = body_spans(p, plat);
    let e = body_end(p, plat);
    assert(body_start(p, plat) == 3);
    assert(cp.len() == 2 + sp.len());
    let r = p.subrange(2, e);
    assert(strip_prefix_spec(p, h, plat) == Some(r));
    if has_root(p, plat) && sp.len() == 0 {
        assert(cp =~= cb + seq![seq!['/']]);
    }
    assert(sp.len() > 0 || has_cur_dir(p, plat));
    assert(3 <= e <= p.len()) by {
        if sp.len() > 0 {
            assert(sp.last().0 >= 3);
        }
    }
    let f = forward_slashes(r);
    assert(!is_sep(p[e - 1], plat)) by {
        if sp.len() > 0 {
            let l = sp.len() - 1;
            assert(sp[l].0 <= e - 1 < sp[l].1);
        } else {
            assert(p[2] == '.');
        }
    }
    assert(trim_end_char(f, '/') == f) by {
        assert(f.last() == if r.last() == '\\' { '/' } else { r.last() });
        assert(r.last() == p[e - 1]);
    }
    let portable = seq!['~', '/'] + f;
    assert(collapse_home_spec(p, Some(h), plat) == portable);
    assert(portable.skip(2) =~= f);
    assert(portable != seq!['~']) by {
        assert(portable.len() >= 3);
    }
    assert(f[0] == if p[2] == '\\' { '/' } else { p[2] });
    let q = h + f;
    assert(expand_tilde_spec(portable, Some(h), plat) == q) by {
        assert(h.subrange(0, 2) =~= h);
    }
    assert(forall|i: int| 2 <= i < e ==> #[trigger] q[i] == if p[i] == '\\' { '/' } else { p[i] })
        by {
        assert forall|i: int| 2 <= i < e implies #[trigger] q[i] == if p[i] == '\\' {
            '/'
        } else {
            p[i]
        } by {
            assert(q[i] == f[i - 2]);
            assert(r[i - 2] == p[i]);
        }
    }
    assert(q.len() == e);
    assert(q[0] == h[0] && q[1] == h[1]);
    assert(has_drive(q, plat));
    lemma_prefix_facts(q, plat);
    assert(prefix_head(q, plat) == prefix_head(p, plat));
    assert(is_sep(q[2], plat) == is_sep(p[2], plat));
    if e > 3 {
        assert(is_sep(q[3], plat) == is_sep(p[3], plat));
    }
    if has_cur_dir(p, plat) && e > 3 {
        assert(is_sep(p[3], plat));
    }
    assert(head(q, plat) == head(p, plat));
    assert(body_start(q, plat) == 3);
    assert(q.subrange(2, e) =~= f);
    lemma_spans_shift(q, 2, 1, 1, plat);
    lemma_spans_forward_slashes(r, 1, 1);
    assert(body_spans(q, plat) == shift_spans(spans_from(r, 1, 1, plat), 2));
    if sp.len() > 0 {
        lemma_trailing_spans(p, plat);
        let pe = p.subrange(0, e);
        assert(pe.subrange(2, e) =~= r);
        lemma_spans_shift(pe, 2, 1, 1, plat);
        assert(sp == shift_spans(spans_from(r, 1, 1, plat), 2));
    } else {
        assert(r =~= seq!['.']);
        assert(spans_from(r, 1, 1, plat) =~= Seq::<(int, int)>::empty());
        assert(sp =~= shift_spans(spans_from(r, 1, 1, plat), 2));
    }
    assert(body_spans(q, plat) == sp);
    let lq = sp.map_values(|x: (int, int)| q.subrange(x.0, x.1));
    let lp = sp.map_values(|x: (int, int)| p.subrange(x.0, x.1));
    assert forall|k: int| 0 <= k < lp.len() implies lq[k] == lp[k] by {
        assert(3 <= sp[k].0 && sp[k].1 <= e) by {
            if k < sp.len() - 1 {
                lemma_spans_ordered(sp, 3, p.len() as int, k, sp.len() - 1);
            }
        }
        assert forall|i: int| sp[k].0 <= i < sp[k].1 implies q[i] == p[i] by {
            assert(!is_sep(p[i], plat));
        }
        assert(q.subrange(sp[k].0, sp[k].1) =~= p.subrange(sp[k].0, sp[k].1));
    }
    assert(lq =~= lp);
}

} // verus!
