//! Properties of the library that span several calls.

use vstd::prelude::*;
use crate::config::{
    DotRc, default_raw_target, dotrc_reads, entry_source, lists_entries, os_key_spec, single_source,
};
use crate::toml_table::char_less;
use crate::text::{
    is_white_space, last_segment, lemma_trim_idempotent, lemma_trim_untouched,
    trim_end_matches_spec, trim_end_spec, trim_spec, trim_start_spec,
};
use crate::commands::{entry_name_spec, git_suffix, repo_name_spec};
use crate::paths::{
    Platform, body_spans, collapse_home_spec, components, expand_tilde_spec, forward_slashes,
    has_drive, head, is_sep, join_spec, lemma_components_join, lemma_join_spans,
    cur_dir_start, is_real, lemma_base_covers_head, lemma_drive_rooted_round_trip, lemma_rest_components, lemma_spans_from_wf, lemma_tail_components_forward_slashes,
    names_throughout, replaces_base, shift_spans, spans_from, starts_with_spec, strip_prefix_spec,
    tail_components, trim_end_char, whole_prefix, body_start, file_name_spec, lemma_prefix_facts,
    lemma_spans_shift, lemma_spans_split, prefix_len,
};
use crate::toml_table::TableView;

verus! {

/// Adding an entry (`DotEntries::add_entry`) makes it tracked, and reading
/// it back on the same platform gives the source that was added; every
/// other entry reads as before.
pub proof fn law_add_entry_reads_back(
    before: TableView,
    name: Seq<char>,
    source: Seq<char>,
    plat: Platform,
    other: Seq<char>,
    key: Seq<char>,
)
    ensures
        ({
            let after = before.insert(name, single_source(os_key_spec(plat), source));
            &&& after.dom().contains(name)
            &&& entry_source(after, name, os_key_spec(plat)) == Some(source)
            &&& other != name ==> entry_source(after, other, key) == entry_source(before, other, key)
        }),
{
    let after = before.insert(name, single_source(os_key_spec(plat), source));
    assert(after[name] == single_source(os_key_spec(plat), source));
}

/// Removing an entry (`DotEntries::remove_entry`) untracks it and leaves
/// every other entry as it was.
pub proof fn law_remove_entry_untracks(before: TableView, name: Seq<char>, other: Seq<char>, key: Seq<char>)
    ensures
        !before.remove(name).dom().contains(name),
        entry_source(before.remove(name), name, key) is None,
        other != name ==> entry_source(before.remove(name), other, key) == entry_source(
            before,
            other,
            key,
        ),
{
}

/// Adding an entry that was not tracked and then removing it gives back
/// the entries as they were.
pub proof fn law_add_then_remove_restores(
    before: TableView,
    name: Seq<char>,
    source: Seq<char>,
    plat: Platform,
)
    requires
        !before.dom().contains(name),
    ensures
        before.insert(name, single_source(os_key_spec(plat), source)).remove(name) == before,
{
    assert(before.insert(name, single_source(os_key_spec(plat), source)).remove(name) =~= before);
}


/// A path under the home directory that is stored in its portable form
/// (`collapse_home`) and expanded again (`expand_tilde`) with the same home
/// directory names the same place: it has the same components. This holds
/// when the home directory has at least one component, any
/// `\\server\share` or `\\.\name` prefix of it is whole (see
/// `whole_prefix`), and the part under it (with `/` for `\`) does not start
/// with a prefix of its own; when on Unix that part holds no `\` (which the
/// portable form turns into `/`); and when the home directory is a bare
/// drive such as `C:`, unless the path is that drive's root and nothing
/// more.
pub proof fn law_portable_path_round_trip(p: Seq<char>, h: Seq<char>, plat: Platform)
    requires
        starts_with_spec(p, h, plat),
        components(h, plat).len() > 0,
        plat == Platform::Unix ==> forall|i: int|
            0 <= i < strip_prefix_spec(p, h, plat)->0.len() ==> #[trigger] strip_prefix_spec(
                p,
                h,
                plat,
            )->0[i] != '\\',
        !replaces_base(forward_slashes(strip_prefix_spec(p, h, plat)->0), plat),
        !(has_drive(h, plat) && h.len() == 2 && components(p, plat) == components(h, plat)
            + seq![seq!['/']]),
        whole_prefix(h, plat),
    ensures
        components(
            expand_tilde_spec(collapse_home_spec(p, Some(h), plat), Some(h), plat),
            plat,
        ) == components(p, plat),
{
    if !(has_drive(h, plat) && h.len() == 2) {
        lemma_base_covers_head(p, h, plat);
    }
    if head(p, plat).len() > components(h, plat).len() {
        assert(has_drive(h, plat) && h.len() == 2);
        assert(components(h, plat).len() == 1) by {
            assert(body_spans(h, plat) =~= Seq::<(int, int)>::empty());
        }
        assert(head(p, plat).len() == 2) by {
            assert(head(p, plat).len() <= 2);
        }
        lemma_drive_rooted_round_trip(p, h, plat);
        return;
    }
    lemma_rest_components(p, h, plat);
    let r = strip_prefix_spec(p, h, plat)->0;
    let f = forward_slashes(r);
    let t = trim_end_char(f, '/');
    assert(t == f) by {
        if r.len() > 0 {
            assert(f.last() == if r.last() == '\\' { '/' } else { r.last() });
            if plat == Platform::Unix {
                assert(r[r.len() - 1] != '\\');
            }
            assert(f.last() != '/');
        }
    }
    let portable = seq!['~', '/'] + t;
    assert(collapse_home_spec(p, Some(h), plat) == portable);
    assert(portable.skip(2) =~= t);
    assert(portable != seq!['~']) by {
        assert(portable.len() >= 2);
    }
    assert(expand_tilde_spec(portable, Some(h), plat) == join_spec(h, t, plat));
    assert(h.len() > 0) by {
        if h.len() == 0 {
            assert(components(h, plat) =~= seq![]);
        }
    }
    if t.len() > 0 {
        assert(f[0] == if r[0] == '\\' { '/' } else { r[0] });
        if plat == Platform::Unix {
            assert(r[0] != '\\');
        }
        assert(!is_sep(t[0], plat));
        if t.len() >= 2 {
            assert(f[1] == if r[1] == '\\' { '/' } else { r[1] });
            if plat == Platform::Unix {
                assert(r[1] != '\\');
            }
        }
    }
    assert(!cur_dir_start(t, plat));
    lemma_components_join(h, t, plat);
    if plat == Platform::Windows {
        lemma_tail_components_forward_slashes(r);
    } else {
        assert(f =~= r);
    }
    assert(tail_components(t, plat) == tail_components(r, plat));
}


/// A portable path `~/r`, as the entries file stores it, expanded with a
/// home directory (`expand_tilde`) and collapsed again with the same home
/// directory (`collapse_home`) is `~/r` again. This holds when `r` starts
/// and ends with a name, holds no `\`, and is not a path with a drive of
/// its own; and when the home directory has at least one component and any
/// `\\server\share` or `\\.\name` prefix of it is whole (see
/// `whole_prefix`).
pub proof fn law_expand_then_collapse(r: Seq<char>, h: Seq<char>, plat: Platform)
    requires
        names_throughout(r, plat),
        forall|i: int| 0 <= i < r.len() ==> #[trigger] r[i] != '\\',
        !has_drive(r, plat),
        components(h, plat).len() > 0,
        whole_prefix(h, plat),
    ensures
        collapse_home_spec(expand_tilde_spec(seq!['~', '/'] + r, Some(h), plat), Some(h), plat)
            == seq!['~', '/'] + r,
{
    let path = seq!['~', '/'] + r;
    let st = spans_from(r, 0, 0, plat);
    lemma_spans_from_wf(r, 0, 0, plat);
    assert(path.len() >= 3);
    assert(path != seq!['~']);
    assert(path[0] == '~' && path[1] == '/');
    assert(path.skip(2) =~= r);
    let p = join_spec(h, r, plat);
    assert(expand_tilde_spec(path, Some(h), plat) == p);
    assert(h.len() > 0) by {
        if h.len() == 0 {
            assert(components(h, plat) =~= seq![]);
        }
    }
    assert(!is_sep(r[0], plat)) by {
        assert(st[0].0 <= 0 < st[0].1);
    }
    assert(r[0] != '\\');
    assert(!replaces_base(r, plat));
    assert(!cur_dir_start(r, plat)) by {
        assert(is_real(r, st[0].0, st[0].1));
        if r.len() >= 2 && st[0].1 >= 2 {
            assert(!is_sep(r[1], plat));
        }
        if r.len() >= 2 && st[0].1 < 2 {
            assert(st.len() == 1 ==> st.last().1 == st[0].1);
            assert(st.len() > 1 ==> st[0].1 < st[1].0);
        }
    }
    lemma_components_join(h, r, plat);
    lemma_join_spans(h, r, plat);
    let cp = components(p, plat);
    let cb = components(h, plat);
    assert(cp.subrange(0, cb.len() as int) =~= cb);
    assert(starts_with_spec(p, h, plat));
    let m = p.len() - r.len();
    let sh = body_spans(h, plat);
    let sp = body_spans(p, plat);
    assert(sp == sh + shift_spans(st, m));
    assert(cb.len() == head(h, plat).len() + sh.len());
    assert(cp.len() == cb.len() + st.len());
    let k = cb.len() as int;
    let hp = head(p, plat).len() as int;
    assert(k - hp == sh.len());
    assert(sp[k - hp] == (st[0].0 + m, st[0].1 + m));
    assert(sp.last() == (st.last().0 + m, st.last().1 + m));
    assert(strip_prefix_spec(p, h, plat) == Some(p.subrange(m, p.len() as int)));
    assert(forward_slashes(r) =~= r);
    assert(r.last() != '/') by {
        let l = st.len() - 1;
        assert(st[l].0 <= r.len() - 1 < st[l].1);
    }
    assert(trim_end_char(r, '/') == r);
}

/// An entry tracked by `add` (`track_entry`: the portable form of its
/// source, stored under the platform's key) reads back, through
/// `get_entries` with the same home directory, as a path with the same
/// components as the source: `apply` puts the files back where they came
/// from. The conditions are those of `law_portable_path_round_trip`.
pub proof fn law_tracked_entry_applies_back(
    before: TableView,
    name: Seq<char>,
    source: Seq<char>,
    h: Seq<char>,
    plat: Platform,
)
    requires
        starts_with_spec(source, h, plat),
        components(h, plat).len() > 0,
        plat == Platform::Unix ==> forall|i: int|
            0 <= i < strip_prefix_spec(source, h, plat)->0.len() ==> #[trigger] strip_prefix_spec(
                source,
                h,
                plat,
            )->0[i] != '\\',
        !replaces_base(forward_slashes(strip_prefix_spec(source, h, plat)->0), plat),
        !(has_drive(h, plat) && h.len() == 2 && components(source, plat) == components(h, plat)
            + seq![seq!['/']]),
        whole_prefix(h, plat),
    ensures
        ({
            let stored = collapse_home_spec(source, Some(h), plat);
            let after = before.insert(name, single_source(os_key_spec(plat), stored));
            &&& entry_source(after, name, os_key_spec(plat)) == Some(stored)
            &&& components(expand_tilde_spec(stored, Some(h), plat), plat) == components(
                source,
                plat,
            )
        }),
{
    let stored = collapse_home_spec(source, Some(h), plat);
    law_add_entry_reads_back(before, name, stored, plat, name, os_key_spec(plat));
    law_portable_path_round_trip(source, h, plat);
}


/// One entries file serves both systems: an entry that records a source
/// under each system's key reads, on each system, as that system's own
/// source, since the two keys differ.
pub proof fn law_platform_sources_side_by_side(
    v: TableView,
    name: Seq<char>,
    unix_source: Seq<char>,
    win_source: Seq<char>,
)
    requires
        v.dom().contains(name),
        v[name] matches Some(t) && t.dom().contains(os_key_spec(Platform::Unix)) && t.dom().contains(
            os_key_spec(Platform::Windows),
        ) && t[os_key_spec(Platform::Unix)] == Some(unix_source) && t[os_key_spec(
            Platform::Windows,
        )] == Some(win_source),
    ensures
        os_key_spec(Platform::Unix) != os_key_spec(Platform::Windows),
        entry_source(v, name, os_key_spec(Platform::Unix)) == Some(unix_source),
        entry_source(v, name, os_key_spec(Platform::Windows)) == Some(win_source),
{
    assert(os_key_spec(Platform::Unix).len() != os_key_spec(Platform::Windows).len());
}


/// No name comes before itself.
pub proof fn lemma_char_less_irreflexive(a: Seq<char>)
    ensures
        !char_less(a, a),
    decreases a.len(),
{
    if a.len() > 0 {
        lemma_char_less_irreflexive(a.drop_first());
    }
}

/// Listing the entries (`get_entries`) after adding one (`add_entry`)
/// shows the new entry exactly once, with its source expanded, and every
/// other `(name, path)` pair exactly when it was listed before.
pub proof fn law_add_entry_listed(
    v: TableView,
    name: Seq<char>,
    source: Seq<char>,
    home: Option<Seq<char>>,
    plat: Platform,
    before: Seq<(Seq<char>, Seq<char>)>,
    after: Seq<(Seq<char>, Seq<char>)>,
)
    requires
        lists_entries(before, v, os_key_spec(plat), home, plat),
        lists_entries(
            after,
            v.insert(name, single_source(os_key_spec(plat), source)),
            os_key_spec(plat),
            home,
            plat,
        ),
    ensures
        exists|i: int|
            0 <= i < after.len() && #[trigger] after[i] == (name, expand_tilde_spec(source, home, plat)),
        forall|i: int, j: int|
            0 <= i < after.len() && 0 <= j < after.len() && #[trigger] after[i].0 == name
                && #[trigger] after[j].0 == name ==> i == j,
        forall|p: (Seq<char>, Seq<char>)|
            p.0 != name ==> ((exists|i: int| 0 <= i < after.len() && #[trigger] after[i] == p)
                <==> (exists|j: int| 0 <= j < before.len() && #[trigger] before[j] == p)),
{
    let k = os_key_spec(plat);
    let w = v.insert(name, single_source(k, source));
    law_add_entry_reads_back(v, name, source, plat, name, k);
    assert(entry_source(w, name, k) is Some);
    let i0 = choose|i: int| 0 <= i < after.len() && #[trigger] after[i].0 == name;
    assert(after[i0] == (name, expand_tilde_spec(source, home, plat)));
    assert forall|i: int, j: int|
        0 <= i < after.len() && 0 <= j < after.len() && #[trigger] after[i].0 == name
            && #[trigger] after[j].0 == name implies i == j by {
        lemma_char_less_irreflexive(name);
        if i < j {
            assert(char_less(after[i].0, after[j].0));
        } else if j < i {
            assert(char_less(after[j].0, after[i].0));
        }
    }
    assert forall|p: (Seq<char>, Seq<char>)| p.0 != name implies ((exists|i: int|
        0 <= i < after.len() && #[trigger] after[i] == p) <==> (exists|j: int|
        0 <= j < before.len() && #[trigger] before[j] == p)) by {
        law_add_entry_reads_back(v, name, source, plat, p.0, k);
        if exists|i: int| 0 <= i < after.len() && #[trigger] after[i] == p {
            let i = choose|i: int| 0 <= i < after.len() && #[trigger] after[i] == p;
            assert(entry_source(w, after[i].0, k) is Some);
            assert(entry_source(v, p.0, k) is Some);
            let j = choose|j: int| 0 <= j < before.len() && #[trigger] before[j].0 == p.0;
            assert(entry_source(v, before[j].0, k) is Some);
            assert(before[j] == p);
        }
        if exists|j: int| 0 <= j < before.len() && #[trigger] before[j] == p {
            let j = choose|j: int| 0 <= j < before.len() && #[trigger] before[j] == p;
            assert(entry_source(v, before[j].0, k) is Some);
            assert(entry_source(w, p.0, k) is Some);
            let i = choose|i: int| 0 <= i < after.len() && #[trigger] after[i].0 == p.0;
            assert(entry_source(w, after[i].0, k) is Some);
            assert(after[i] == p);
        }
    }
}


/// Writing a loaded `~/.dotrc` back (`DotRc::contents`, the folder as
/// read) and loading that text again (`DotRc::load`) gives the same folder,
/// both as written and expanded: the text written is already trimmed.
pub proof fn law_dotrc_reload_after_load(
    contents: Seq<char>,
    home: Option<Seq<char>>,
    plat: Platform,
    raw: Seq<char>,
    target: Seq<char>,
)
    requires
        dotrc_reads(contents, home, plat, raw, target),
    ensures
        dotrc_reads(raw, home, plat, raw, target),
{
    lemma_trim_idempotent(contents);
}

/// The `~/.dotrc` that `DotRc::for_target` writes for a folder that does
/// not start with white space loads back (`DotRc::load`) as that folder
/// with its `/`, expanded as `for_target` expands it.
pub proof fn law_dotrc_for_target_reloads(
    folder: Seq<char>,
    home: Option<Seq<char>>,
    plat: Platform,
)
    requires
        folder.len() > 0 ==> !is_white_space(folder[0]),
    ensures
        dotrc_reads(
            folder + seq!['/'],
            home,
            plat,
            folder + seq!['/'],
            expand_tilde_spec(folder + seq!['/'], home, plat),
        ),
{
    let raw = folder + seq!['/'];
    assert(raw.last() == '/');
    if folder.len() > 0 {
        assert(raw[0] == folder[0]);
    }
    lemma_trim_untouched(raw);
}

/// Saving a `~/.dotrc` (writing `DotRc::contents`, the folder as written)
/// that was loaded from some text, or made by `DotRc::new_default`, and
/// loading the saved text again (`DotRc::load`) with the same home
/// directory gives the same folder, as written and expanded.
pub proof fn law_dotrc_save_then_load(
    d: DotRc,
    contents: Seq<char>,
    home: Option<Seq<char>>,
    plat: Platform,
)
    requires
        dotrc_reads(contents, home, plat, d.raw@, d.target@) || (d.raw@ == default_raw_target()
            && d.target@ == expand_tilde_spec(default_raw_target(), home, plat)),
    ensures
        dotrc_reads(d.raw@, home, plat, d.raw@, d.target@),
{
    if dotrc_reads(contents, home, plat, d.raw@, d.target@) {
        law_dotrc_reload_after_load(contents, home, plat, d.raw@, d.target@);
    } else {
        law_dotrc_default_reloads(home, plat);
    }
}

/// The default `~/.dotrc` (`DotRc::new_default`) loads back as `~/.dot/`.
pub proof fn law_dotrc_default_reloads(home: Option<Seq<char>>, plat: Platform)
    ensures
        dotrc_reads(
            default_raw_target(),
            home,
            plat,
            default_raw_target(),
            expand_tilde_spec(default_raw_target(), home, plat),
        ),
{
    let raw = default_raw_target();
    assert(raw[0] == '~' && raw.last() == '/');
    lemma_trim_untouched(raw);
}

/// A name with no separator in it, neither `.` nor `..`: a component that
/// `Path::file_name` reports.
pub open spec fn plain_name(n: Seq<char>, plat: Platform) -> bool {
    &&& n.len() > 0
    &&& forall|i: int| 0 <= i < n.len() ==> !is_sep(#[trigger] n[i], plat)
    &&& n != seq!['.']
    &&& n != seq!['.', '.']
}

/// The segment scan over a name without separators finds the whole name.
proof fn lemma_name_spans(n: Seq<char>, i: int, plat: Platform)
    requires
        plain_name(n, plat),
        0 <= i <= n.len(),
    ensures
        spans_from(n, 0, i, plat) == seq![(0int, n.len() as int)],
    decreases n.len() - i,
{
    if i < n.len() {
        assert(!is_sep(n[i], plat));
        lemma_name_spans(n, i + 1, plat);
    } else {
        assert(is_real(n, 0, n.len() as int)) by {
            if n.len() == 1 {
                assert(n =~= seq![n[0]]);
            }
        }
    }
}

/// The last component of a path that ends in a separator and a name is
/// that name, exactly: `file_name` gives it, and `add` without `--name`
/// (`entry_name`) names the entry after it, whether or not it begins with
/// a dot (`.gitconfig`). The separator and name must lie after the path's
/// prefix, if it has one.
pub proof fn law_file_name_is_last_name(p: Seq<char>, c: char, n: Seq<char>, plat: Platform)
    requires
        is_sep(c, plat),
        plain_name(n, plat),
        prefix_len(p + seq![c] + n, plat) <= p.len(),
    ensures
        file_name_spec(p + seq![c] + n, plat) == Some(n),
        entry_name_spec(None, p + seq![c] + n, plat) == Some(n),
{
    let s = p + seq![c] + n;
    let m = p.len() as int;
    lemma_prefix_facts(s, plat);
    assert(s[m] == c);
    assert(s.subrange(m + 1, s.len() as int) =~= n);
    lemma_spans_shift(s, m + 1, 0, 0, plat);
    lemma_name_spans(n, 0, plat);
    let x = spans_from(s, m + 1, m + 1, plat);
    assert(x == shift_spans(seq![(0int, n.len() as int)], m + 1));
    assert(x =~= seq![(m + 1, s.len() as int)]);
    let bs = body_start(s, plat);
    assert(bs <= m + 1);
    if bs <= m {
        lemma_spans_split(s, m, bs, bs, plat);
        assert(body_spans(s, plat).last() == x.last());
    } else {
        assert(body_spans(s, plat) == x);
    }
    assert(body_spans(s, plat).last() == (m + 1, s.len() as int));
    assert(s.subrange(m + 1, s.len() as int) == n);
}

/// A separator after the last name changes nothing: `file_name` (and so
/// the entry name of `add ~/.config/nvim/`) is still that name.
pub proof fn law_file_name_ignores_trailing_separator(
    p: Seq<char>,
    c: char,
    n: Seq<char>,
    d: char,
    plat: Platform,
)
    requires
        is_sep(c, plat),
        is_sep(d, plat),
        plain_name(n, plat),
        prefix_len(p + seq![c] + n + seq![d], plat) <= p.len(),
    ensures
        file_name_spec(p + seq![c] + n + seq![d], plat) == Some(n),
        entry_name_spec(None, p + seq![c] + n + seq![d], plat) == Some(n),
{
    let s = p + seq![c] + n;
    let s2 = s + seq![d];
    let m = p.len() as int;
    let m2 = s.len() as int;
    lemma_prefix_facts(s2, plat);
    let bs = body_start(s2, plat);
    assert(bs <= m + 1);
    assert(s2[m2] == d);
    assert(s2.subrange(0, m2) =~= s);
    lemma_spans_split(s2, m2, bs, bs, plat);
    assert(spans_from(s2, m2 + 1, m2 + 1, plat) =~= Seq::<(int, int)>::empty());
    assert(body_spans(s2, plat) =~= spans_from(s, bs, bs, plat));
    assert(s[m] == c);
    assert(s.subrange(m + 1, s.len() as int) =~= n);
    lemma_spans_shift(s, m + 1, 0, 0, plat);
    lemma_name_spans(n, 0, plat);
    let x = spans_from(s, m + 1, m + 1, plat);
    assert(x == shift_spans(seq![(0int, n.len() as int)], m + 1));
    assert(x =~= seq![(m + 1, m2)]);
    if bs <= m {
        lemma_spans_split(s, m, bs, bs, plat);
    }
    assert(body_spans(s2, plat).last() == (m + 1, m2));
    assert(s2.subrange(m + 1, m2) =~= n);
}

/// The characters `char::is_whitespace` accepts, Unicode's `White_Space`:
/// tab to carriage return, space, next line, no-break space, ogham space
/// mark, en quad to hair space, line and paragraph separators, narrow
/// no-break space, medium mathematical space and ideographic space.
pub open spec fn unicode_white_space(c: char) -> bool {
    ||| c == '\t' || c == '\n' || c == '\u{b}' || c == '\u{c}' || c == '\r' || c == ' '
    ||| c == '\u{85}' || c == '\u{a0}' || c == '\u{1680}'
    ||| c == '\u{2000}' || c == '\u{2001}' || c == '\u{2002}' || c == '\u{2003}'
    ||| c == '\u{2004}' || c == '\u{2005}' || c == '\u{2006}' || c == '\u{2007}'
    ||| c == '\u{2008}' || c == '\u{2009}' || c == '\u{200a}'
    ||| c == '\u{2028}' || c == '\u{2029}' || c == '\u{202f}' || c == '\u{205f}'
    ||| c == '\u{3000}'
}

/// White space at the end goes as it would at the start.
proof fn lemma_trim_drops_last(s: Seq<char>, c: char)
    requires
        is_white_space(c),
    ensures
        trim_spec(s + seq![c]) == trim_spec(s),
    decreases s.len(),
{
    let x = s + seq![c];
    if s.len() == 0 {
        assert(x =~= seq![c]);
        assert(x.drop_first() =~= Seq::<char>::empty());
        assert(trim_start_spec(x) == trim_start_spec(Seq::<char>::empty()));
    } else if is_white_space(s[0]) {
        assert(x[0] == s[0]);
        assert(x.drop_first() =~= s.drop_first() + seq![c]);
        lemma_trim_drops_last(s.drop_first(), c);
    } else {
        assert(x[0] == s[0]);
        assert(trim_start_spec(x) == x);
        assert(trim_start_spec(s) == s);
        assert(x.drop_last() =~= s);
        assert(trim_end_spec(x) == trim_end_spec(s));
    }
}

/// Trimming (`trim`, which reads `~/.dotrc` and `DOTCONF`) removes every
/// character that `char::is_whitespace` accepts, carriage return included,
/// from either end of any text, and keeps every other character there: a
/// single such character is its own trim.
pub proof fn law_trim_white_space(s: Seq<char>, c: char)
    ensures
        unicode_white_space(c) ==> trim_spec(seq![c] + s) == trim_spec(s) && trim_spec(s + seq![c])
            == trim_spec(s),
        !unicode_white_space(c) ==> trim_spec(seq![c]) == seq![c],
{
    if unicode_white_space(c) {
        assert(is_white_space(c));
        let x = seq![c] + s;
        assert(x[0] == c);
        assert(x.drop_first() =~= s);
        lemma_trim_drops_last(s, c);
    } else {
        assert(!is_white_space(c));
        lemma_trim_untouched(seq![c]);
    }
}

/// A clone URL whose last segment is `n`, maybe with `.git` after it and a
/// `/` at the end, is cloned into a folder named `n`, every character kept
/// (`kickstart.nvim`), when `n` holds no `/` and does not itself end in
/// `.git`.
pub proof fn law_repo_name_is_last_segment(u: Seq<char>, n: Seq<char>)
    requires
        n.len() > 0,
        forall|i: int| 0 <= i < n.len() ==> #[trigger] n[i] != '/',
        !(n.len() >= 4 && n.subrange(n.len() - 4, n.len() as int) == git_suffix()),
    ensures
        repo_name_spec(u + seq!['/'] + n + git_suffix()) == n,
        repo_name_spec(u + seq!['/'] + n) == n,
        repo_name_spec(u + seq!['/'] + n + git_suffix() + seq!['/']) == n,
        repo_name_spec(u + seq!['/'] + n + seq!['/']) == n,
{
    let g = git_suffix();
    let a = u + seq!['/'] + n;
    let b = a + g;
    lemma_segment_after_slash(u, n);
    lemma_segment_after_slash(u, n + g);
    assert(u + seq!['/'] + (n + g) =~= b);
    assert(a.last() == n.last());
    assert(b.last() == 't');
    assert(trim_end_char(a, '/') == a);
    assert(trim_end_char(b, '/') == b);
    assert((a + seq!['/']).drop_last() =~= a);
    assert((b + seq!['/']).drop_last() =~= b);
    assert(trim_end_char(a + seq!['/'], '/') == trim_end_char(a, '/'));
    assert(trim_end_char(b + seq!['/'], '/') == trim_end_char(b, '/'));
    let ng = n + g;
    assert(ng.subrange(ng.len() - 4, ng.len() as int) =~= g);
    assert(ng.subrange(0, ng.len() - 4) =~= n);
    assert(trim_end_matches_spec(ng, g) == trim_end_matches_spec(n, g));
    assert(trim_end_matches_spec(n, g) == n);
}

/// The segment after the last `/` of `u + "/" + n`, for `n` without `/`,
/// is `n`.
proof fn lemma_segment_after_slash(u: Seq<char>, n: Seq<char>)
    requires
        forall|i: int| 0 <= i < n.len() ==> #[trigger] n[i] != '/',
    ensures
        last_segment(u + seq!['/'] + n) == n,
    decreases n.len(),
{
    let s = u + seq!['/'] + n;
    if n.len() == 0 {
        assert(s.last() == '/');
        assert(n =~= Seq::<char>::empty());
    } else {
        assert(s.last() == n.last());
        assert(s.drop_last() =~= u + seq!['/'] + n.drop_last());
        lemma_segment_after_slash(u, n.drop_last());
        assert(n.drop_last().push(n.last()) =~= n);
    }
}

/// A path that starts with `~\` expands like the same path with `~/`, on
/// every platform: the rest joined onto the home directory.
pub proof fn law_tilde_backslash_expands(r: Seq<char>, h: Seq<char>, plat: Platform)
    ensures
        expand_tilde_spec(seq!['~', '\\'] + r, Some(h), plat) == join_spec(h, r, plat),
        expand_tilde_spec(seq!['~', '/'] + r, Some(h), plat) == join_spec(h, r, plat),
{
    let a = seq!['~', '\\'] + r;
    let b = seq!['~', '/'] + r;
    assert(a.len() >= 2 && a[0] == '~' && a[1] == '\\');
    assert(b.len() >= 2 && b[0] == '~' && b[1] == '/');
    assert(a != seq!['~']);
    assert(b != seq!['~']);
    assert(a.skip(2) =~= r);
    assert(b.skip(2) =~= r);
}

/// Trimming a character off the end of `s` keeps a prefix of `s` that
/// does not end in it, and removes only copies of it.
proof fn lemma_trim_end_char_shape(s: Seq<char>, c: char)
    ensures
        trim_end_char(s, c).len() <= s.len(),
        s.subrange(0, trim_end_char(s, c).len() as int) == trim_end_char(s, c),
        forall|i: int| trim_end_char(s, c).len() <= i < s.len() ==> #[trigger] s[i] == c,
        trim_end_char(s, c).len() > 0 ==> trim_end_char(s, c).last() != c,
    decreases s.len(),
{
    if s.len() > 0 && s.last() == c {
        lemma_trim_end_char_shape(s.drop_last(), c);
        let k = trim_end_char(s, c).len() as int;
        assert(s.drop_last().subrange(0, k) =~= s.subrange(0, k));
        assert forall|i: int| k <= i < s.len() implies #[trigger] s[i] == c by {
            if i < s.len() - 1 {
                assert(s.drop_last()[i] == s[i]);
            }
        }
    } else {
        assert(s.subrange(0, s.len() as int) =~= s);
    }
}

/// A path that is not under the home directory (or with no home
/// directory) is stored (`collapse_home`) as itself, each `\` written as
/// `/`, with only the slashes at its end left off: the stored form is the
/// start of the path so written, every character kept in place, a drive
/// included, and what is left off is slashes.
pub proof fn law_collapse_outside_home(p: Seq<char>, home: Option<Seq<char>>, plat: Platform)
    requires
        home matches Some(h) ==> strip_prefix_spec(p, h, plat) is None,
    ensures
        ({
            let q = collapse_home_spec(p, home, plat);
            &&& q.len() <= p.len()
            &&& forall|i: int| 0 <= i < q.len() ==> #[trigger] q[i] == if p[i] == '\\' {
                '/'
            } else {
                p[i]
            }
            &&& forall|i: int| q.len() <= i < p.len() ==> #[trigger] p[i] == '/' || p[i] == '\\'
            &&& q.len() > 0 ==> q.last() != '/' && q.last() != '\\'
        }),
{
    let f = forward_slashes(p);
    let q = collapse_home_spec(p, home, plat);
    assert(q == trim_end_char(f, '/'));
    lemma_trim_end_char_shape(f, '/');
    assert forall|i: int| 0 <= i < q.len() implies #[trigger] q[i] == if p[i] == '\\' {
        '/'
    } else {
        p[i]
    } by {
        assert(q[i] == f.subrange(0, q.len() as int)[i]);
        assert(f[i] == if p[i] == '\\' { '/' } else { p[i] });
    }
    assert forall|i: int| q.len() <= i < p.len() implies #[trigger] p[i] == '/' || p[i] == '\\' by {
        assert(f[i] == '/');
        assert(f[i] == if p[i] == '\\' { '/' } else { p[i] });
    }
    if q.len() > 0 {
        assert(q.last() == f[q.len() - 1]);
        assert(f[q.len() - 1] == if p[q.len() - 1] == '\\' { '/' } else { p[q.len() - 1] });
    }
}

} // verus!
