//! The decisions that the commands take between their reads and writes:
//! where a repository is cloned to, what an entry is called, which
//! entries `apply` works on, and what happens to each of them.

use vstd::prelude::*;
use crate::paths::{
    Platform, expand_tilde, expand_tilde_spec, file_name, file_name_spec, join_path, join_spec,
};
use crate::text::{
    last_segment, last_segment_of, trim_end_matches, trim_end_matches_spec,
};
use crate::paths::{collapse_home, collapse_home_spec, trim_end_char};
use crate::config::{DotEntries, entry_table, os_key_spec, single_source};

verus! {

/// `.git`, the suffix that a repository's name loses.
pub open spec fn git_suffix() -> Seq<char> {
    seq!['.', 'g', 'i', 't']
}

/// The folder name that cloning `url` uses: the URL without slashes at
/// its end, after its last `/`, without `.git` at its end (repeatedly).
pub open spec fn repo_name_spec(url: Seq<char>) -> Seq<char> {
    trim_end_matches_spec(last_segment(trim_end_char(url, '/')), git_suffix())
}

/// `url` without the slashes at its end.
fn trim_end_slash(s: &str) -> (res: String)
    ensures
        res@ == trim_end_char(s@, '/'),
{
    let mut e = s.unicode_len();
    assert(s@.subrange(0, e as int) =~= s@);
    while e > 0 && s.get_char(e - 1) == '/'
        invariant
            e <= s@.len(),
            trim_end_char(s@, '/') == trim_end_char(s@.subrange(0, e as int), '/'),
        decreases e,
    {
        assert(s@.subrange(0, e as int).drop_last() =~= s@.subrange(0, e - 1));
        e = e - 1;
    }
    String::from_str(s.substring_char(0, e))
}

/// The folder name that cloning `url` uses (see `repo_name_spec`).
pub fn repo_name(url: &str) -> (name: String)
    ensures
        name@ == repo_name_spec(url@),
{
    let trimmed = trim_end_slash(url);
    let last = last_segment_of(trimmed.as_str());
    proof {
        reveal_strlit(".git");
    }
    assert(".git"@ =~= git_suffix());
    trim_end_matches(last.as_str(), ".git")
}

/// Where `init <url>` clones to: the given path with `~` expanded, or
/// else the repository's name inside the current directory.
pub open spec fn resolve_dest_spec(
    url: Seq<char>,
    path: Option<Seq<char>>,
    cwd: Option<Seq<char>>,
    home: Option<Seq<char>>,
    plat: Platform,
) -> Seq<char> {
    match path {
        Some(p) => expand_tilde_spec(p, home, plat),
        None => join_spec(cwd->0, repo_name_spec(url), plat),
    }
}

/// Where `init <url>` clones to. The current directory is needed only
/// when no path is given.
pub fn resolve_dest(
    url: &str,
    path: Option<&str>,
    cwd: Option<&str>,
    home: Option<&str>,
    platform: Platform,
) -> (dest: String)
    requires
        path is None ==> cwd is Some,
    ensures
        dest@ == resolve_dest_spec(
            url@,
            path.deep_view(),
            cwd.deep_view(),
            home.deep_view(),
            platform,
        ),
{
    match path {
        Some(p) => expand_tilde(p, home, platform),
        None => {
            let name = repo_name(url);
            join_path(cwd.unwrap(), name.as_str(), platform)
        },
    }
}

/// What `init` sets up.
pub enum InitPlan {
    /// A local folder, created if missing, with `git init` run in it.
    Local { dest: String },
    /// A clone of `url` into `dest`, which must not exist yet.
    Clone { url: String, dest: String },
}

/// What `init` sets up: with a URL, a clone into `resolve_dest`; without
/// one, the given path (`~` expanded) or else the current directory.
pub fn init(
    url: Option<&str>,
    path: Option<&str>,
    cwd: Option<&str>,
    home: Option<&str>,
    platform: Platform,
) -> (plan: InitPlan)
    requires
        path is None ==> cwd is Some,
    ensures
        match plan {
            InitPlan::Local { dest } => url is None && dest@ == match path {
                Some(p) => expand_tilde_spec(p@, home.deep_view(), platform),
                None => cwd->0@,
            },
            InitPlan::Clone { url: u, dest } => url is Some && u@ == url->0@ && dest@
                == resolve_dest_spec(
                url->0@,
                path.deep_view(),
                cwd.deep_view(),
                home.deep_view(),
                platform,
            ),
        },
{
    match url {
        Some(u) => InitPlan::Clone {
            url: String::from_str(u),
            dest: resolve_dest(u, path, cwd, home, platform),
        },
        None => InitPlan::Local {
            dest: match path {
                Some(p) => expand_tilde(p, home, platform),
                None => String::from_str(cwd.unwrap()),
            },
        },
    }
}

/// What `sync` does with an entry: copy it into the dotfiles folder when
/// its source exists, else skip it.
pub fn sync_action(source_exists: bool) -> (copy: bool)
    ensures
        copy == source_exists,
{
    source_exists
}

/// The name an added entry gets: the given name, or else the last
/// component of the source path.
pub open spec fn entry_name_spec(name: Option<Seq<char>>, source: Seq<char>, plat: Platform) -> Option<
    Seq<char>,
> {
    match name {
        Some(n) => Some(n),
        None => file_name_spec(source, plat),
    }
}

/// The name an added entry gets; `None` when no name is given and the
/// source path does not end in one.
pub fn entry_name(name: Option<&str>, source: &str, platform: Platform) -> (res: Option<String>)
    ensures
        res.deep_view() == entry_name_spec(name.deep_view(), source@, platform),
{
    match name {
        Some(n) => {
            let r = String::from_str(n);
            assert(Some(r).deep_view() == Some(r@));
            Some(r)
        },
        None => file_name(source, platform),
    }
}

/// Whether copying a folder takes along a child of this name: everything
/// but `.git`.
pub fn copies_child(name: &str) -> (b: bool)
    ensures
        b == (name@ != git_suffix()),
{
    if name.unicode_len() == 4 && name.get_char(0) == '.' && name.get_char(1) == 'g'
        && name.get_char(2) == 'i' && name.get_char(3) == 't' {
        assert(name@ =~= git_suffix());
        false
    } else {
        proof {
            if name@ == git_suffix() {
                assert(name@[1] == 'g');
            }
        }
        true
    }
}


/// Tracks `name` in `entries` with the portable form of `source` as its
/// source on `platform`, unless an entry of that name is tracked already;
/// the result tells whether it was added.
pub fn track_entry(
    entries: &mut DotEntries,
    name: &str,
    source: &str,
    home: Option<&str>,
    platform: Platform,
) -> (added: bool)
    ensures
        added == !old(entries)@.dom().contains(name@),
        added ==> final(entries)@ == old(entries)@.insert(
            name@,
            single_source(
                os_key_spec(platform),
                collapse_home_spec(source@, home.deep_view(), platform),
            ),
        ),
        added ==> final(entries).table() == old(entries).table().insert(
            name@,
            entry_table(
                os_key_spec(platform),
                collapse_home_spec(source@, home.deep_view(), platform),
            ),
        ),
        added ==> final(entries).members() == old(entries).members().insert(name@, None),
        !added ==> final(entries).table() == old(entries).table(),
        final(entries).path_view() == old(entries).path_view(),
{
    if entries.is_tracked(name) {
        return false;
    }
    let portable = collapse_home(source, home, platform);
    entries.add_entry(name, portable.as_str(), platform);
    true
}

/// An entry as `(name, path)`.
pub type Item = (Seq<char>, Seq<char>);

/// The entries by name, as collecting them into a map makes it: a later
/// entry of the same name wins.
pub open spec fn items_map(s: Seq<Item>) -> Map<Seq<char>, Seq<char>>
    decreases s.len(),
{
    if s.len() == 0 {
        Map::empty()
    } else {
        items_map(s.drop_last()).insert(s.last().0, s.last().1)
    }
}

/// The entries that `names` pick, in the order of `names`, as
/// `(name, path)`; names without an entry are passed over.
pub open spec fn named_selection(m: Map<Seq<char>, Seq<char>>, names: Seq<Seq<char>>) -> Seq<Item>
    decreases names.len(),
{
    if names.len() == 0 {
        seq![]
    } else {
        let r = named_selection(m, names.drop_last());
        if m.dom().contains(names.last()) {
            r.push((names.last(), m[names.last()]))
        } else {
            r
        }
    }
}

/// The names, in order, that pick no entry.
pub open spec fn missing_names(m: Map<Seq<char>, Seq<char>>, names: Seq<Seq<char>>) -> Seq<
    Seq<char>,
>
    decreases names.len(),
{
    if names.len() == 0 {
        seq![]
    } else {
        let r = missing_names(m, names.drop_last());
        if m.dom().contains(names.last()) {
            r
        } else {
            r.push(names.last())
        }
    }
}

proof fn lemma_items_map_last(s: Seq<Item>, n: Seq<char>, j: int)
    requires
        0 <= j < s.len(),
        s[j].0 == n,
        forall|t: int| j < t < s.len() ==> #[trigger] s[t].0 != n,
    ensures
        items_map(s).dom().contains(n),
        items_map(s)[n] == s[j].1,
    decreases s.len(),
{
    if j == s.len() - 1 {
    } else {
        assert(s.last().0 != n);
        lemma_items_map_last(s.drop_last(), n, j);
    }
}

proof fn lemma_items_map_absent(s: Seq<Item>, n: Seq<char>)
    requires
        forall|t: int| 0 <= t < s.len() ==> #[trigger] s[t].0 != n,
    ensures
        !items_map(s).dom().contains(n),
    decreases s.len(),
{
    if s.len() > 0 {
        assert(s.last().0 != n);
        lemma_items_map_absent(s.drop_last(), n);
    }
}

/// The index of the last entry named `name`.
fn find_last(items: &Vec<(String, String)>, name: &String) -> (r: Option<usize>)
    ensures
        match r {
            Some(j) => j < items@.len() && items.deep_view()[j as int].0 == name@
                && items_map(items.deep_view()).dom().contains(name@) && items_map(
                items.deep_view(),
            )[name@] == items.deep_view()[j as int].1,
            None => !items_map(items.deep_view()).dom().contains(name@),
        },
{
    let ghost s = items.deep_view();
    let mut j = items.len();
    while j > 0
        invariant
            j <= items@.len(),
            s == items.deep_view(),
            s.len() == items@.len(),
            forall|t: int| j <= t < s.len() ==> #[trigger] s[t].0 != name@,
        decreases j,
    {
        assert(s[j - 1].0 == items@[j - 1].0@);
        if items[j - 1].0 == *name {
            proof {
                lemma_items_map_last(s, name@, j - 1);
            }
            return Some(j - 1);
        }
        j = j - 1;
    }
    proof {
        lemma_items_map_absent(s, name@);
    }
    None
}

/// The entries that `names` pick, in the order of `names`, and the names
/// that pick none, in order.
pub fn select_by_names(items: &Vec<(String, String)>, names: &Vec<String>) -> (res: (
    Vec<(String, String)>,
    Vec<String>,
))
    ensures
        res.0.deep_view() == named_selection(items_map(items.deep_view()), names.deep_view()),
        res.1.deep_view() == missing_names(items_map(items.deep_view()), names.deep_view()),
{
    let ghost m = items_map(items.deep_view());
    let ghost ns = names.deep_view();
    let mut selected: Vec<(String, String)> = Vec::new();
    let mut missing: Vec<String> = Vec::new();
    let mut i: usize = 0;
    assert(ns.take(0) =~= seq![]);
    while i < names.len()
        invariant
            i <= names@.len(),
            m == items_map(items.deep_view()),
            ns == names.deep_view(),
            ns.len() == names@.len(),
            selected.deep_view() == named_selection(m, ns.take(i as int)),
            missing.deep_view() == missing_names(m, ns.take(i as int)),
        decreases names.len() - i,
    {
        let name = &names[i];
        assert(ns[i as int] == name@);
        assert(ns.take(i + 1).drop_last() =~= ns.take(i as int));
        assert(ns.take(i + 1).last() == name@);
        let ghost sel_before = selected.deep_view();
        let ghost mis_before = missing.deep_view();
        match find_last(items, name) {
            Some(j) => {
                selected.push((name.clone(), items[j].1.clone()));
                assert(selected.deep_view() =~= sel_before.push((name@, m[name@])));
            },
            None => {
                missing.push(name.clone());
                assert(missing.deep_view() =~= mis_before.push(name@));
            },
        }
        i = i + 1;
    }
    assert(ns.take(names@.len() as int) =~= ns);
    (selected, missing)
}

/// Which entries `apply` works on, before any question is asked.
pub enum ApplySelection {
    /// There are no entries at all: nothing to apply.
    NoEntries,
    /// The entries that the given names pick, and the names that pick none.
    Named { selected: Vec<(String, String)>, missing: Vec<String> },
    /// Every entry (`--all`).
    All(Vec<(String, String)>),
    /// No names and no `--all`: the user picks from these entries.
    Pick(Vec<(String, String)>),
}

/// Which entries `apply` works on: none when there are no entries; else
/// the named ones when names are given, else all of them with `--all`,
/// else those the user will pick.
pub fn apply_selection(items: Vec<(String, String)>, names: &Vec<String>, all: bool) -> (res:
    ApplySelection)
    ensures
        res is NoEntries <==> items@.len() == 0,
        match res {
            ApplySelection::NoEntries => true,
            ApplySelection::Named { selected, missing } => names@.len() > 0
                && selected.deep_view() == named_selection(
                items_map(items.deep_view()),
                names.deep_view(),
            ) && missing.deep_view() == missing_names(
                items_map(items.deep_view()),
                names.deep_view(),
            ),
            ApplySelection::All(v) => names@.len() == 0 && all && v.deep_view()
                == items.deep_view(),
            ApplySelection::Pick(v) => names@.len() == 0 && !all && v.deep_view()
                == items.deep_view(),
        },
{
    if items.len() == 0 {
        ApplySelection::NoEntries
    } else if names.len() > 0 {
        let (selected, missing) = select_by_names(&items, names);
        ApplySelection::Named { selected, missing }
    } else if all {
        ApplySelection::All(items)
    } else {
        ApplySelection::Pick(items)
    }
}

/// The label the picker shows for an entry: `name -> path`.
pub open spec fn label_spec(item: Item) -> Seq<char> {
    item.0 + seq![' ', '-', '>', ' '] + item.1
}

/// The picker's choices: one label per entry, then `All`.
pub open spec fn picker_labels_spec(items: Seq<Item>) -> Seq<Seq<char>> {
    items.map_values(|it: Item| label_spec(it)).push(seq!['A', 'l', 'l'])
}

/// The picker's choices: one label per entry, then `All`.
pub fn picker_labels(items: &Vec<(String, String)>) -> (labels: Vec<String>)
    ensures
        labels.deep_view() == picker_labels_spec(items.deep_view()),
{
    let ghost s = items.deep_view();
    let mut labels: Vec<String> = Vec::new();
    let mut i: usize = 0;
    while i < items.len()
        invariant
            i <= items@.len(),
            s == items.deep_view(),
            s.len() == items@.len(),
            labels@.len() == i,
            labels.deep_view() == s.take(i as int).map_values(|it: Item| label_spec(it)),
        decreases items.len() - i,
    {
        let mut label = items[i].0.clone();
        proof {
            reveal_strlit(" -> ");
        }
        label.append(" -> ");
        label.append(items[i].1.as_str());
        let ghost before = labels.deep_view();
        let ghost lv = label@;
        labels.push(label);
        assert(labels@[i as int]@ == lv);
        assert(items.deep_view()[i as int] == items@[i as int].deep_view());
        assert(s[i as int] == (items@[i as int].0@, items@[i as int].1@));
        assert(" -> "@ =~= seq![' ', '-', '>', ' ']);
        assert(labels.deep_view() =~= before.push(label_spec(s[i as int])));
        assert(labels.deep_view() =~= s.take(i + 1).map_values(|it: Item| label_spec(it)));
        i = i + 1;
    }
    proof {
        reveal_strlit("All");
    }
    let ghost before = labels.deep_view();
    labels.push(String::from_str("All"));
    assert("All"@ =~= seq!['A', 'l', 'l']);
    assert(s.take(items@.len() as int) =~= s);
    assert(labels.deep_view() =~= before.push(seq!['A', 'l', 'l']));
    labels
}

/// What came of the picker.
pub enum PickOutcome {
    /// The user cancelled.
    Cancelled,
    /// The user confirmed without choosing anything.
    NothingSelected,
    /// The entries chosen.
    Selected(Vec<(String, String)>),
}

/// The entries that the picker's answer names: `None` when cancelled;
/// every entry when `All` (the index after the last entry) is among the
/// chosen; else the chosen entries, in the order given.
pub fn picker_selection(items: Vec<(String, String)>, chosen: Option<Vec<usize>>) -> (res:
    PickOutcome)
    requires
        chosen matches Some(c) ==> (c@.contains(items@.len() as usize) || forall|k: int|
            0 <= k < c@.len() ==> #[trigger] c@[k] < items@.len()),
    ensures
        match res {
            PickOutcome::Cancelled => chosen is None,
            PickOutcome::NothingSelected => chosen matches Some(c) && c@.len() == 0,
            PickOutcome::Selected(v) => chosen matches Some(c) && c@.len() > 0 && if c@.contains(
                items@.len() as usize,
            ) {
                v.deep_view() == items.deep_view()
            } else {
                v.deep_view() == c@.map_values(|k: usize| items.deep_view()[k as int])
            },
        },
{
    let c = match chosen {
        None => return PickOutcome::Cancelled,
        Some(c) => c,
    };
    if c.len() == 0 {
        return PickOutcome::NothingSelected;
    }
    let all_idx = items.len();
    let mut k: usize = 0;
    while k < c.len()
        invariant
            k <= c@.len(),
            chosen == Some(c),
            c@.len() > 0,
            all_idx == items@.len(),
            forall|t: int| 0 <= t < k ==> c@[t] != all_idx,
        decreases c.len() - k,
    {
        if c[k] == all_idx {
            assert(c@.contains(all_idx));
            return PickOutcome::Selected(items);
        }
        k = k + 1;
    }
    assert(!c@.contains(all_idx));
    let ghost s = items.deep_view();
    let mut v: Vec<(String, String)> = Vec::new();
    let mut k: usize = 0;
    while k < c.len()
        invariant
            k <= c@.len(),
            chosen == Some(c),
            !c@.contains(items@.len() as usize),
            s == items.deep_view(),
            s.len() == items@.len(),
            forall|t: int| 0 <= t < c@.len() ==> #[trigger] c@[t] < items@.len(),
            v.deep_view() == c@.take(k as int).map_values(|i: usize| s[i as int]),
        decreases c.len() - k,
    {
        let i = c[k];
        let ghost before = v.deep_view();
        v.push((items[i].0.clone(), items[i].1.clone()));
        assert(items.deep_view()[i as int] == items@[i as int].deep_view());
        assert(s[i as int] == (items@[i as int].0@, items@[i as int].1@));
        assert(v.deep_view() =~= before.push(s[i as int]));
        assert(v.deep_view() =~= c@.take(k + 1).map_values(|i: usize| s[i as int]));
        k = k + 1;
    }
    assert(c@.take(c@.len() as int) =~= c@);
    PickOutcome::Selected(v)
}

/// What `apply` does next with an entry.
#[derive(PartialEq, Eq, Debug, Clone, Copy)]
pub enum ApplyAction {
    /// The copy in the dotfiles folder is missing: skip the entry.
    SkipMissingSource,
    /// Compare the copy with the target before overwriting it.
    CheckLocalChanges,
    /// The target has changes of its own: skip the entry.
    SkipLocalChanges,
    /// Copy the entry onto its target.
    Copy,
}

/// What `apply` does next with an entry, given whether its copy in the
/// dotfiles folder exists, whether `--force` was given, and the outcome
/// of the comparison once there is one: without a copy the entry is
/// skipped; with `--force` it is copied; else it is compared first and
/// copied only when the target has no changes of its own.
pub fn next_apply_action(source_exists: bool, force: bool, local_changes: Option<bool>) -> (a:
    ApplyAction)
    ensures
        a == if !source_exists {
            ApplyAction::SkipMissingSource
        } else if force {
            ApplyAction::Copy
        } else {
            match local_changes {
                None => ApplyAction::CheckLocalChanges,
                Some(true) => ApplyAction::SkipLocalChanges,
                Some(false) => ApplyAction::Copy,
            }
        },
{
    if !source_exists {
        ApplyAction::SkipMissingSource
    } else if force {
        ApplyAction::Copy
    } else {
        match local_changes {
            None => ApplyAction::CheckLocalChanges,
            Some(true) => ApplyAction::SkipLocalChanges,
            Some(false) => ApplyAction::Copy,
        }
    }
}

/// Whether the copy and the target are compared at all: only when both
/// exist (otherwise there are no local changes).
pub fn needs_comparison(tracked_exists: bool, dest_exists: bool) -> (b: bool)
    ensures
        b == (tracked_exists && dest_exists),
{
    tracked_exists && dest_exists
}

/// Whether the target has local changes, from how `git diff --no-index
/// --quiet` ended: `None` when it was not run or could not start,
/// `Some(None)` when it ended without an exit code. Only exit code 1
/// ("the files differ") counts as a change.
pub fn has_local_changes(diff_outcome: Option<Option<i32>>) -> (b: bool)
    ensures
        b == (diff_outcome == Some(Some(1i32))),
{
    match diff_outcome {
        Some(Some(code)) => code == 1,
        _ => false,
    }
}

/// What `diff` does with an entry.
#[derive(PartialEq, Eq, Debug, Clone, Copy)]
pub enum DiffAction {
    /// The entry has no copy in the dotfiles folder yet.
    SkipNotSynced,
    /// The entry's source location does not exist.
    SkipMissingSource,
    /// Show the differences.
    Compare,
}

/// What `diff` does with an entry: the copy is checked first, then the
/// source.
pub fn diff_action(tracked_exists: bool, source_exists: bool) -> (a: DiffAction)
    ensures
        a == if !tracked_exists {
            DiffAction::SkipNotSynced
        } else if !source_exists {
            DiffAction::SkipMissingSource
        } else {
            DiffAction::Compare
        },
{
    if !tracked_exists {
        DiffAction::SkipNotSynced
    } else if !source_exists {
        DiffAction::SkipMissingSource
    } else {
        DiffAction::Compare
    }
}

/// Whether `git diff` ended as expected: with success or with exit code 1
/// (differences found); anything else is reported.
pub fn diff_ended_normally(success: bool, code: Option<i32>) -> (b: bool)
    ensures
        b == (success || code == Some(1i32)),
{
    success || match code {
        Some(c) => c == 1,
        None => false,
    }
}

/// The marker in front of a choice of the picker: `>` for the active one,
/// `◉` for a checked one and `○` for an unchecked one.
pub fn select_marker(checked: bool, active: bool) -> (m: &'static str)
    ensures
        m@ == if checked {
            if active {
                "> ◉"@
            } else {
                "  ◉"@
            }
        } else {
            if active {
                "> ○"@
            } else {
                "  ○"@
            }
        },
{
    match (checked, active) {
        (true, true) => "> ◉",
        (true, false) => "  ◉",
        (false, true) => "> ○",
        (false, false) => "  ○",
    }
}

} // verus!
