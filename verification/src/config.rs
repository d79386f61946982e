//! The two configuration files: `~/.dotrc`, which names the dotfiles
//! folder, and `<folder>/entries.toml`, which maps entry names to the
//! places their files come from, per operating system.

use vstd::prelude::*;
use crate::paths::{
    Platform, expand_tilde, expand_tilde_spec, join_path, join_spec,
};
use crate::text::{trim, trim_spec};
use crate::toml_table::{
    Item, Lookup, Members, TableView, TomlData, TomlTable, char_less, lemma_projections_empty,
    lemma_projections_insert, lemma_projections_remove, members_of, new_table, parse_table,
    parsed_document, table_contains, table_data, table_insert, table_keys, table_lookup,
    table_remove, table_text, table_to_string, table_view, view_of,
};

verus! {

/// The name of the file in the home directory that names the dotfiles folder.
pub const DOTRC_FILENAME: &'static str = ".dotrc";

/// The name of the entries file inside the dotfiles folder.
pub const ENTRIES_FILENAME: &'static str = "entries.toml";

pub open spec fn dotrc_name() -> Seq<char> {
    seq!['.', 'd', 'o', 't', 'r', 'c']
}

pub open spec fn entries_name() -> Seq<char> {
    seq!['e', 'n', 't', 'r', 'i', 'e', 's', '.', 't', 'o', 'm', 'l']
}

/// `~/.dot/`, the folder used when nothing else names one (with the slash
/// that `~/.dotrc` gets by default).
pub open spec fn default_raw_target() -> Seq<char> {
    seq!['~', '/', '.', 'd', 'o', 't', '/']
}

/// `~/.dot`, the folder used when neither `DOTCONF` nor `~/.dotrc` names one.
pub open spec fn fallback_target() -> Seq<char> {
    seq!['~', '/', '.', 'd', 'o', 't']
}

/// The key under which an entry keeps its source path on `plat`.
pub open spec fn os_key_spec(plat: Platform) -> Seq<char> {
    match plat {
        Platform::Unix => seq!['u', 'n', 'i', 'x'],
        Platform::Windows => seq!['w', 'i', 'n'],
    }
}

/// The key under which an entry keeps its source path on `platform`:
/// `unix` or `win`.
pub fn os_key(platform: Platform) -> (k: &'static str)
    ensures
        k@ == os_key_spec(platform),
{
    match platform {
        Platform::Unix => {
            proof {
                reveal_strlit("unix");
            }
            "unix"
        },
        Platform::Windows => {
            proof {
                reveal_strlit("win");
            }
            "win"
        },
    }
}

/// The environment variables that locate the home directory.
pub struct HomeVars {
    pub home: Option<String>,
    pub userprofile: Option<String>,
    pub homedrive: Option<String>,
    pub homepath: Option<String>,
}

/// The home directory: `HOME` on Unix; on Windows `USERPROFILE`, or else
/// `HOMEDRIVE` followed by `HOMEPATH` when both are set.
pub open spec fn home_dir_spec(vars: HomeVars, plat: Platform) -> Option<Seq<char>> {
    match plat {
        Platform::Unix => vars.home.deep_view(),
        Platform::Windows => match vars.userprofile {
            Some(u) => Some(u@),
            None => match (vars.homedrive, vars.homepath) {
                (Some(d), Some(p)) => Some(d@ + p@),
                _ => None,
            },
        },
    }
}

/// The home directory, from the variables that locate it.
pub fn home_dir(vars: &HomeVars, platform: Platform) -> (res: Option<String>)
    ensures
        res.deep_view() == home_dir_spec(*vars, platform),
{
    match platform {
        Platform::Unix => match &vars.home {
            Some(h) => Some(h.clone()),
            None => None,
        },
        Platform::Windows => match &vars.userprofile {
            Some(u) => Some(u.clone()),
            None => match (&vars.homedrive, &vars.homepath) {
                (Some(d), Some(p)) => {
                    let mut s = d.clone();
                    s.append(p.as_str());
                    Some(s)
                },
                _ => None,
            },
        },
    }
}

/// `~/.dotrc` with the home directory put in.
pub open spec fn dotrc_path_spec(home: Option<Seq<char>>, plat: Platform) -> Seq<char> {
    expand_tilde_spec(seq!['~', '/'] + dotrc_name(), home, plat)
}

/// The path of `~/.dotrc`.
pub fn dotrc_path(home: Option<&str>, platform: Platform) -> (res: String)
    ensures
        res@ == dotrc_path_spec(home.deep_view(), platform),
{
    proof {
        reveal_strlit("~/");
        reveal_strlit(".dotrc");
    }
    let mut p = String::from_str("~/");
    p.append(DOTRC_FILENAME);
    assert(p@ =~= seq!['~', '/'] + dotrc_name());
    expand_tilde(p.as_str(), home, platform)
}

/// Why `~/.dotrc` could not be used.
#[derive(Debug)]
pub enum DotRcError {
    /// The file holds nothing but white space.
    Empty,
}

impl DotRcError {
    /// The message that reports the error.
    pub fn message(&self) -> (m: String)
        ensures
            m@ == "~/.dotrc is empty — expected a target path"@,
    {
        String::from_str("~/.dotrc is empty — expected a target path")
    }
}

/// `contents`, read as `~/.dotrc`, names the folder `raw` (as written,
/// `~` unexpanded), which is `target` with `~` expanded.
pub open spec fn dotrc_reads(
    contents: Seq<char>,
    home: Option<Seq<char>>,
    plat: Platform,
    raw: Seq<char>,
    target: Seq<char>,
) -> bool {
    &&& trim_spec(contents).len() > 0
    &&& raw == trim_spec(contents)
    &&& target == expand_tilde_spec(raw, home, plat)
}

/// The contents of `~/.dotrc`: a single line naming the dotfiles folder.
pub struct DotRc {
    /// Where the file lives.
    pub path: String,
    /// The folder it names, with `~` expanded.
    pub target: String,
    /// The folder as the file writes it, `~` unexpanded.
    pub raw: String,
}

impl DotRc {
    /// Reads `~/.dotrc` from the text it holds: the trimmed text names the
    /// folder, and empty text is an error.
    pub fn load(path: &str, contents: &str, home: Option<&str>, platform: Platform) -> (res: Result<
        DotRc,
        DotRcError,
    >)
        ensures
            match res {
                Ok(rc) => {
                    &&& rc.path@ == path@
                    &&& dotrc_reads(contents@, home.deep_view(), platform, rc.raw@, rc.target@)
                },
                Err(e) => trim_spec(contents@).len() == 0 && e == DotRcError::Empty,
            },
    {
        let raw = trim(contents);
        if raw.unicode_len() == 0 {
            return Err(DotRcError::Empty);
        }
        let target = expand_tilde(raw.as_str(), home, platform);
        Ok(DotRc { path: String::from_str(path), target, raw })
    }

    /// The default `~/.dotrc`, naming `~/.dot/`.
    pub fn new_default(path: &str, home: Option<&str>, platform: Platform) -> (rc: DotRc)
        ensures
            rc.path@ == path@,
            rc.raw@ == default_raw_target(),
            rc.target@ == expand_tilde_spec(default_raw_target(), home.deep_view(), platform),
    {
        proof {
            reveal_strlit("~/.dot/");
        }
        let raw = String::from_str("~/.dot/");
        let target = expand_tilde(raw.as_str(), home, platform);
        DotRc { path: String::from_str(path), target, raw }
    }

    /// The `~/.dotrc` that names `folder`: the folder with a `/` after it.
    pub fn for_target(path: &str, folder: &str, home: Option<&str>, platform: Platform) -> (rc:
        DotRc)
        ensures
            rc.path@ == path@,
            rc.raw@ == folder@ + seq!['/'],
            rc.target@ == expand_tilde_spec(folder@ + seq!['/'], home.deep_view(), platform),
    {
        proof {
            reveal_strlit("/");
        }
        let mut raw = String::from_str(folder);
        raw.append("/");
        let target = expand_tilde(raw.as_str(), home, platform);
        DotRc { path: String::from_str(path), target, raw }
    }

    /// The text that saving the file writes: the folder as given.
    pub fn contents(&self) -> (s: &str)
        ensures
            s@ == self.raw@,
    {
        self.raw.as_str()
    }

    /// The path of the entries file inside the folder.
    pub fn entries_path(&self, platform: Platform) -> (p: String)
        ensures
            p@ == join_spec(self.target@, entries_name(), platform),
    {
        proof {
            reveal_strlit("entries.toml");
        }
        join_path(self.target.as_str(), ENTRIES_FILENAME, platform)
    }
}

/// The dotfiles folder: `DOTCONF` when it is set (trimmed, `~` expanded);
/// else the folder that `~/.dotrc` names, when the file could be read and
/// is not empty; else `~/.dot`.
pub open spec fn resolve_target_spec(
    dotconf: Option<Seq<char>>,
    dotrc: Option<Seq<char>>,
    home: Option<Seq<char>>,
    plat: Platform,
) -> Seq<char> {
    match dotconf {
        Some(v) => expand_tilde_spec(trim_spec(v), home, plat),
        None => match dotrc {
            Some(c) if trim_spec(c).len() > 0 => expand_tilde_spec(trim_spec(c), home, plat),
            _ => expand_tilde_spec(fallback_target(), home, plat),
        },
    }
}

/// The dotfiles folder, from the value of `DOTCONF` and the text of
/// `~/.dotrc` (each `None` when absent or unreadable).
pub fn resolve_target(
    dotconf: Option<&str>,
    dotrc: Option<&str>,
    home: Option<&str>,
    platform: Platform,
) -> (res: String)
    ensures
        res@ == resolve_target_spec(
            dotconf.deep_view(),
            dotrc.deep_view(),
            home.deep_view(),
            platform,
        ),
{
    if let Some(v) = dotconf {
        let t = trim(v);
        return expand_tilde(t.as_str(), home, platform);
    }
    if let Some(c) = dotrc {
        proof {
            reveal_strlit("~/.dotrc");
        }
        if let Ok(rc) = DotRc::load("~/.dotrc", c, home, platform) {
            return rc.target;
        }
    }
    proof {
        reveal_strlit("~/.dot");
    }
    expand_tilde("~/.dot", home, platform)
}


/// Why the entries file could not be read or written.
#[derive(Debug)]
pub enum EntriesError {
    /// The file is not a TOML document.
    Parse(toml::de::Error),
    /// The table could not be written as TOML.
    Serialize(toml::ser::Error),
}

/// The text of the entries file: its contents, or nothing when the file
/// does not exist.
pub open spec fn document_text(contents: Option<Seq<char>>) -> Seq<char> {
    match contents {
        Some(c) => c,
        None => seq![],
    }
}

/// The source path that entry `name` records under `key`, if it is a
/// table holding a string there.
pub open spec fn entry_source(v: TableView, name: Seq<char>, key: Seq<char>) -> Option<Seq<char>> {
    if v.dom().contains(name) {
        match v[name] {
            Some(t) => if t.dom().contains(key) {
                t[key]
            } else {
                None
            },
            None => None,
        }
    } else {
        None
    }
}

/// `list` is what `get_entries` gives for entries `v`: in strictly
/// ascending order of names, every entry with a source under `key`, once,
/// with that source expanded.
pub open spec fn lists_entries(
    list: Seq<(Seq<char>, Seq<char>)>,
    v: TableView,
    key: Seq<char>,
    home: Option<Seq<char>>,
    plat: Platform,
) -> bool {
    &&& forall|i: int, j: int|
        0 <= i < j < list.len() ==> char_less(#[trigger] list[i].0, #[trigger] list[j].0)
    &&& forall|i: int|
        0 <= i < list.len() ==> #[trigger] entry_source(v, list[i].0, key) is Some && list[i].1
            == expand_tilde_spec(entry_source(v, list[i].0, key)->0, home, plat)
    &&& forall|name: Seq<char>| #[trigger]
        entry_source(v, name, key) is Some ==> exists|i: int|
            0 <= i < list.len() && #[trigger] list[i].0 == name
}

/// The table with a single string, `key = source`.
pub open spec fn single_source(key: Seq<char>, source: Seq<char>) -> Option<Members> {
    Some(Members::empty().insert(key, Some(source)))
}

/// The value an added entry holds: the table `{ key = source }`.
pub open spec fn entry_table(key: Seq<char>, source: Seq<char>) -> TomlData {
    TomlData::Table(TomlTable::empty().insert(key, TomlData::Str(source)))
}

/// `<target>/entries.toml`: the tracked entries, by name. Each entry is a
/// table that maps an operating system's key (`unix`, `win`) to the place
/// the entry's files come from on that system.
pub struct DotEntries {
    path: String,
    data: toml::map::Map<String, toml::Value>,
}

impl View for DotEntries {
    type V = TableView;

    /// Every entry, with the members of its value when that is a table.
    open spec fn view(&self) -> TableView {
        view_of(self.table())
    }
}

impl DotEntries {
    /// Where the file lives.
    pub closed spec fn path_view(&self) -> Seq<char> {
        self.path@
    }

    /// Where the file lives.
    pub fn path(&self) -> (p: &str)
        ensures
            p@ == self.path_view(),
    {
        self.path.as_str()
    }

    /// Everything the file holds: every key with its whole value.
    pub closed spec fn table(&self) -> TomlTable {
        table_data(self.data)
    }

    /// Every key of the file, with the string it holds, or `None` when it
    /// holds another kind of value.
    pub open spec fn members(&self) -> Members {
        members_of(self.table())
    }

    /// Reads the entries from the file's text (`None` when the file does
    /// not exist, which reads as an empty file).
    pub fn load(path: &str, contents: Option<&str>) -> (res: Result<DotEntries, EntriesError>)
        ensures
            res is Ok <==> parsed_document(document_text(contents.deep_view())) is Some,
            res matches Ok(e) ==> e.path_view() == path@ && parsed_document(
                document_text(contents.deep_view()),
            ) == Some(e.table()),
            res matches Err(e) ==> e is Parse,
            contents is None ==> res is Ok,
            res matches Ok(e) ==> (contents is None ==> e.table() == TomlTable::empty() && e@
                == TableView::empty() && e.members() == Members::empty()),
    {
        proof {
            lemma_projections_empty();
        }
        let text = match contents {
            Some(c) => c,
            None => {
                proof {
                    reveal_strlit("");
                }
                assert(""@ =~= seq![]);
                ""
            },
        };
        assert(text@ == document_text(contents.deep_view()));
        match parse_table(text) {
            Ok(data) => Ok(DotEntries { path: String::from_str(path), data }),
            Err(e) => Err(EntriesError::Parse(e)),
        }
    }

    /// The TOML text of the whole table, every value it holds included, or
    /// `None` where it cannot be written as TOML.
    pub closed spec fn saved_text(&self) -> Option<Seq<char>> {
        table_text(self.data)
    }

    /// The text that saving writes to the file: the whole table as TOML,
    /// with every value it holds, read or not.
    pub fn save(&self) -> (res: Result<String, EntriesError>)
        ensures
            match res {
                Ok(s) => self.saved_text() == Some(s@),
                Err(e) => e is Serialize && self.saved_text() is None,
            },
    {
        match table_to_string(&self.data) {
            Ok(s) => Ok(s),
            Err(e) => Err(EntriesError::Serialize(e)),
        }
    }

    /// Whether an entry is named `name`.
    pub fn is_tracked(&self, name: &str) -> (b: bool)
        ensures
            b == self.table().dom().contains(name@),
            b == self@.dom().contains(name@),
    {
        table_contains(&self.data, name)
    }

    /// Removes an entry; the result tells whether it was tracked.
    pub fn remove_entry(&mut self, name: &str) -> (b: bool)
        ensures
            b == old(self).table().dom().contains(name@),
            final(self).table() == old(self).table().remove(name@),
            final(self).path_view() == old(self).path_view(),
            b == old(self)@.dom().contains(name@),
            final(self)@ == old(self)@.remove(name@),
            final(self).members() == old(self).members().remove(name@),
    {
        proof {
            lemma_projections_remove(self.table(), name@);
        }
        table_remove(&mut self.data, name)
    }

    /// Tracks `name`, with `source_path` as its source on `platform`; an
    /// entry of that name is replaced.
    pub fn add_entry(&mut self, name: &str, source_path: &str, platform: Platform)
        ensures
            final(self).table() == old(self).table().insert(
                name@,
                entry_table(os_key_spec(platform), source_path@),
            ),
            final(self).path_view() == old(self).path_view(),
            final(self)@ == old(self)@.insert(
                name@,
                single_source(os_key_spec(platform), source_path@),
            ),
            final(self).members() == old(self).members().insert(name@, None),
    {
        let mut entry = new_table();
        table_insert(
            &mut entry,
            String::from_str(os_key(platform)),
            Item::Text(String::from_str(source_path)),
        );
        let ghost inner = table_data(entry);
        table_insert(&mut self.data, String::from_str(name), Item::Table(entry));
        proof {
            let k = os_key_spec(platform);
            assert(inner == TomlTable::empty().insert(k, TomlData::Str(source_path@)));
            lemma_projections_insert(old(self).table(), name@, TomlData::Table(inner));
            lemma_projections_insert(TomlTable::empty(), k, TomlData::Str(source_path@));
            lemma_projections_empty();
            assert(members_of(inner) == Members::empty().insert(k, Some(source_path@)));
        }
    }

    /// Every entry with a source path on `platform`, as `(name, path with
    /// ~ expanded)`, in ascending order of names. Entries that are not
    /// tables, or lack a string under the platform's key, are left out.
    pub fn get_entries(&self, home: Option<&str>, platform: Platform) -> (res: Vec<(String, String)>)
        ensures
            forall|i: int, j: int|
                0 <= i < j < res@.len() ==> char_less(#[trigger] res@[i].0@, #[trigger] res@[j].0@),
            forall|i: int|
                0 <= i < res@.len() ==> #[trigger] entry_source(
                    self@,
                    res@[i].0@,
                    os_key_spec(platform),
                ) is Some && res@[i].1@ == expand_tilde_spec(
                    entry_source(self@, res@[i].0@, os_key_spec(platform))->0,
                    home.deep_view(),
                    platform,
                ),
            forall|name: Seq<char>| #[trigger]
                entry_source(self@, name, os_key_spec(platform)) is Some ==> exists|i: int|
                    0 <= i < res@.len() && #[trigger] res@[i].0@ == name,
            lists_entries(res.deep_view(), self@, os_key_spec(platform), home.deep_view(), platform),
    {
        let keys = table_keys(&self.data);
        let key = os_key(platform);
        let ghost v = self@;
        let ghost k = os_key_spec(platform);
        let mut res: Vec<(String, String)> = Vec::new();
        let ghost mut idx: Seq<int> = seq![];
        let mut i: usize = 0;
        while i < keys.len()
            invariant
                v == self@,
                v == table_view(self.data),
                k == os_key_spec(platform),
                key@ == k,
                i <= keys@.len(),
                idx.len() == res@.len(),
                forall|a: int| 0 <= a < keys@.len() ==> v.dom().contains(#[trigger] keys@[a]@),
                forall|a: int, b: int|
                    0 <= a < b < keys@.len() ==> char_less(#[trigger] keys@[a]@, #[trigger] keys@[b]@),
                forall|r: int|
                    0 <= r < res@.len() ==> 0 <= #[trigger] idx[r] < i && res@[r].0@ == keys@[idx[r]]@,
                forall|r1: int, r2: int| 0 <= r1 < r2 < res@.len() ==> #[trigger] idx[r1] < #[trigger] idx[r2],
                forall|r: int|
                    0 <= r < res@.len() ==> #[trigger] entry_source(v, res@[r].0@, k) is Some
                        && res@[r].1@ == expand_tilde_spec(
                        entry_source(v, res@[r].0@, k)->0,
                        home.deep_view(),
                        platform,
                    ),
                forall|a: int|
                    0 <= a < i ==> #[trigger] entry_source(v, keys@[a]@, k) is Some ==> exists|r: int|
                        0 <= r < res@.len() && res@[r].0@ == keys@[a]@,
            decreases keys.len() - i,
        {
            let name = &keys[i];
            let ghost before = res@;
            let ghost idx_before = idx;
            match table_lookup(&self.data, name.as_str()) {
                Lookup::Table(inner) => {
                    match table_lookup(inner, key) {
                        Lookup::Text(src) => {
                            let path = expand_tilde(src, home, platform);
                            res.push((name.clone(), path));
                            proof {
                                idx = idx.push(i as int);
                                assert(res@[res@.len() - 1].0@ == keys@[i as int]@);
                            }
                        },
                        _ => {},
                    }
                },
                _ => {},
            }
            proof {
                assert forall|r: int| 0 <= r < before.len() implies res@[r] == before[r] by {}
                assert forall|r: int| 0 <= r < before.len() implies idx[r] == idx_before[r] by {}
                assert forall|a: int|
                    0 <= a < i + 1 && #[trigger] entry_source(v, keys@[a]@, k) is Some implies exists|r: int|
                        0 <= r < res@.len() && res@[r].0@ == keys@[a]@ by {
                    if a == i {
                        assert(res@[res@.len() - 1].0@ == keys@[a]@);
                    } else {
                        let r = choose|r: int| 0 <= r < before.len() && before[r].0@ == keys@[a]@;
                        assert(res@[r] == before[r]);
                    }
                }
            }
            i = i + 1;
        }
        proof {
            assert forall|name: Seq<char>| #[trigger]
                entry_source(v, name, k) is Some implies exists|r: int|
                    0 <= r < res@.len() && #[trigger] res@[r].0@ == name by {
                let a = choose|a: int| 0 <= a < keys@.len() && #[trigger] keys@[a]@ == name;
                assert(entry_source(v, keys@[a]@, k) is Some);
            }
            assert forall|r1: int, r2: int| 0 <= r1 < r2 < res@.len() implies char_less(
                #[trigger] res@[r1].0@,
                #[trigger] res@[r2].0@,
            ) by {
                assert(idx[r1] < idx[r2]);
                assert(char_less(keys@[idx[r1]]@, keys@[idx[r2]]@));
            }
            let d = res.deep_view();
            assert forall|i: int| 0 <= i < d.len() implies #[trigger] d[i] == (
                res@[i].0@,
                res@[i].1@,
            ) by {}
            assert forall|name: Seq<char>| #[trigger]
                entry_source(v, name, k) is Some implies exists|i: int|
                    0 <= i < d.len() && #[trigger] d[i].0 == name by {
                let r = choose|r: int| 0 <= r < res@.len() && #[trigger] res@[r].0@ == name;
                assert(d[r] == (res@[r].0@, res@[r].1@));
                assert(d[r].0 == name);
            }
            assert forall|i: int, j: int| 0 <= i < j < d.len() implies char_less(
                #[trigger] d[i].0,
                #[trigger] d[j].0,
            ) by {
                assert(d[i] == (res@[i].0@, res@[i].1@));
                assert(d[j] == (res@[j].0@, res@[j].1@));
            }
        }
        res
    }
}

} // verus!
