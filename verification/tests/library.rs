use dot_rs::commands::{
    apply_selection, copies_child, diff_action, diff_ended_normally, entry_name,
    has_local_changes, init, needs_comparison, next_apply_action, picker_labels,
    picker_selection, repo_name, resolve_dest, select_by_names, select_marker, sync_action,
    track_entry,
    ApplyAction, ApplySelection, DiffAction, InitPlan, PickOutcome,
};
use dot_rs::config::{
    dotrc_path, home_dir, os_key, resolve_target, DotEntries, DotRc, DotRcError, EntriesError,
    HomeVars, DOTRC_FILENAME, ENTRIES_FILENAME,
};
use dot_rs::paths::{collapse_home, expand_tilde, file_name, join_path, strip_prefix, Platform};
use dot_rs::text::{last_segment_of, trim, trim_end_matches};

const U: Platform = Platform::Unix;
const W: Platform = Platform::Windows;

fn s(x: &str) -> String {
    x.to_string()
}

fn items(pairs: &[(&str, &str)]) -> Vec<(String, String)> {
    pairs.iter().map(|(a, b)| (s(a), s(b))).collect()
}

#[test]
fn join_inserts_one_separator() {
    assert_eq!(join_path("/home/u", "x", U), "/home/u/x");
    assert_eq!(join_path("/home/u/", "x", U), "/home/u/x");
    assert_eq!(join_path("", "x", U), "x");
    assert_eq!(join_path("/home/u", "", U), "/home/u/");
    assert_eq!(join_path("/home/u", "/etc", U), "/etc");
    assert_eq!(join_path("C:\\Users\\me", "x", W), "C:\\Users\\me\\x");
    assert_eq!(join_path("C:\\Users\\me", "D:\\y", W), "D:\\y");
    assert_eq!(join_path("C:\\Users\\me", "\\y", W), "C:\\y");
    assert_eq!(join_path("C:", "x", W), "C:x");
}

#[test]
fn join_matches_std_on_this_platform() {
    let cases = [("/home/u", "x"), ("/a/", "b/c"), ("", "q"), ("/a", ""), ("/a", "/b"), ("a", "./b")];
    for (b, r) in cases {
        let std_join = std::path::Path::new(b).join(r);
        assert_eq!(join_path(b, r, U), std_join.to_str().unwrap());
    }
}

#[test]
fn expand_tilde_cases() {
    let h = Some("/home/u");
    assert_eq!(expand_tilde("~", h, U), "/home/u");
    assert_eq!(expand_tilde("~", None, U), "~");
    assert_eq!(expand_tilde("~/.config/nvim", h, U), "/home/u/.config/nvim");
    assert_eq!(expand_tilde("~\\AppData", h, U), "/home/u/AppData");
    assert_eq!(expand_tilde("~/x", None, U), "~/x");
    assert_eq!(expand_tilde("/etc/x", h, U), "/etc/x");
    assert_eq!(expand_tilde("~user/x", h, U), "~user/x");
    assert_eq!(expand_tilde("~/", h, U), "/home/u/");
    assert_eq!(
        expand_tilde("~/AppData/Local/nvim", Some("C:\\Users\\me"), W),
        "C:\\Users\\me\\AppData/Local/nvim"
    );
}

#[test]
fn collapse_home_cases() {
    let h = Some("/home/u");
    assert_eq!(collapse_home("/home/u/.config/nvim", h, U), "~/.config/nvim");
    assert_eq!(collapse_home("/home/u/.config/nvim/", h, U), "~/.config/nvim");
    assert_eq!(collapse_home("/home/u//a//b/", h, U), "~/a//b");
    assert_eq!(collapse_home("/home/u", h, U), "~/");
    assert_eq!(collapse_home("/home/user2/x", h, U), "/home/user2/x");
    assert_eq!(collapse_home("/etc/x/", h, U), "/etc/x");
    assert_eq!(collapse_home("/etc/x", None, U), "/etc/x");
    assert_eq!(collapse_home("a\\b\\", None, U), "a/b");
    assert_eq!(
        collapse_home("C:\\Users\\me\\AppData\\Local\\nvim", Some("C:\\Users\\me"), W),
        "~/AppData/Local/nvim"
    );
}

#[test]
fn strip_prefix_matches_std() {
    let cases = [
        ("/test/haha/foo.txt", "/"),
        ("/test/haha/foo.txt", "/test"),
        ("/test/haha/foo.txt", "/test/"),
        ("/test/haha/foo.txt", "/test/haha/foo.txt"),
        ("/test/haha/foo.txt", "/test/haha/foo.txt/"),
        ("/test/haha/foo.txt", "test"),
        ("/test/haha/foo.txt", "/haha"),
        ("/home/u//a/./b//", "/home/u"),
        ("/home/u/x/.", "/home//u/."),
        ("./a/b/", ""),
        ("./a/b/", "."),
        ("/", ""),
        ("a/b", ""),
        ("/a", "a"),
        ("a/../b", "a/.."),
        ("", ""),
        ("/etc/foo.rs", "/etc/foo"),
    ];
    for (p, b) in cases {
        let std_res = std::path::Path::new(p)
            .strip_prefix(b)
            .ok()
            .map(|r| r.to_str().unwrap().to_string());
        assert_eq!(strip_prefix(p, b, U), std_res, "{} {}", p, b);
    }
}

#[test]
fn file_name_matches_std() {
    let cases = ["/usr/bin/", "tmp/foo.txt", "foo.txt/.", "foo.txt/.//", "foo.txt/..", "/", "", ".", "..", "a/b"];
    for p in cases {
        let std_res = std::path::Path::new(p).file_name().map(|n| n.to_str().unwrap().to_string());
        assert_eq!(file_name(p, U), std_res, "{}", p);
    }
}

#[test]
fn trim_matches_std() {
    for x in ["  a b \n", "", "   ", "\u{3000}x\u{a0}", "x"] {
        assert_eq!(trim(x), x.trim());
    }
    assert_eq!(trim_end_matches("repo.git.git", ".git"), "repo");
    assert_eq!(trim_end_matches("repo", ""), "repo");
    assert_eq!(last_segment_of("a/b/c"), "c");
    assert_eq!(last_segment_of("abc"), "abc");
    assert_eq!(last_segment_of("abc/"), "");
}

#[test]
fn repo_names() {
    assert_eq!(repo_name("https://github.com/user/dotfiles.git"), "dotfiles");
    assert_eq!(repo_name("https://github.com/user/dotfiles/"), "dotfiles");
    assert_eq!(repo_name("git@host:me/conf.git//"), "conf");
    assert_eq!(repo_name("plain"), "plain");
    assert_eq!(repo_name("https://h/x.git.git"), "x");
}

#[test]
fn resolve_dest_and_init() {
    assert_eq!(resolve_dest("https://h/u/dots.git", None, Some("/work"), None, U), "/work/dots");
    assert_eq!(resolve_dest("https://h/u/dots.git", Some("~/d"), None, Some("/home/u"), U), "/home/u/d");
    match init(Some("https://h/u/dots.git"), None, Some("/cwd"), None, U) {
        InitPlan::Clone { url, dest } => {
            assert_eq!(url, "https://h/u/dots.git");
            assert_eq!(dest, "/cwd/dots");
        }
        InitPlan::Local { .. } => panic!("expected a clone"),
    }
    match init(None, None, Some("/cwd"), None, U) {
        InitPlan::Local { dest } => assert_eq!(dest, "/cwd"),
        InitPlan::Clone { .. } => panic!("expected local"),
    }
    match init(None, Some("~/x"), None, Some("/h"), U) {
        InitPlan::Local { dest } => assert_eq!(dest, "/h/x"),
        InitPlan::Clone { .. } => panic!("expected local"),
    }
    assert!(sync_action(true));
    assert!(!sync_action(false));
}

#[test]
fn dotrc_for_initialised_folder() {
    let rc = DotRc::for_target("/home/u/.dotrc", "/home/u/dots", Some("/home/u"), U);
    assert_eq!(rc.contents(), "/home/u/dots/");
    assert_eq!(rc.target, "/home/u/dots/");
    let back = DotRc::load("/home/u/.dotrc", rc.contents(), Some("/home/u"), U).ok().unwrap();
    assert_eq!(back.target, rc.target);
}

#[test]
fn home_and_dotrc() {
    let vars = HomeVars { home: Some(s("/home/u")), userprofile: None, homedrive: Some(s("C:")), homepath: Some(s("\\Users\\me")) };
    assert_eq!(home_dir(&vars, U), Some(s("/home/u")));
    assert_eq!(home_dir(&vars, W), Some(s("C:\\Users\\me")));
    let none = HomeVars { home: None, userprofile: None, homedrive: Some(s("C:")), homepath: None };
    assert_eq!(home_dir(&none, U), None);
    assert_eq!(home_dir(&none, W), None);
    assert_eq!(dotrc_path(Some("/home/u"), U), "/home/u/.dotrc");
    assert_eq!(DOTRC_FILENAME, ".dotrc");
    assert_eq!(ENTRIES_FILENAME, "entries.toml");
    assert_eq!(os_key(U), "unix");
    assert_eq!(os_key(W), "win");
}

#[test]
fn resolve_target_priority() {
    let h = Some("/home/u");
    assert_eq!(resolve_target(Some("  ~/dots \n"), Some("/other"), h, U), "/home/u/dots");
    assert_eq!(resolve_target(None, Some("~/mine/\n"), h, U), "/home/u/mine/");
    assert_eq!(resolve_target(None, Some("   "), h, U), "/home/u/.dot");
    assert_eq!(resolve_target(None, None, h, U), "/home/u/.dot");
}

#[test]
fn dotrc_load_and_default() {
    let rc = DotRc::load("/home/u/.dotrc", " ~/d \n", Some("/home/u"), U).ok().unwrap();
    assert_eq!(rc.target, "/home/u/d");
    assert_eq!(rc.contents(), "~/d");
    assert_eq!(rc.entries_path(U), "/home/u/d/entries.toml");
    match DotRc::load("/home/u/.dotrc", "\n", Some("/home/u"), U) {
        Err(e) => {
            assert!(matches!(e, DotRcError::Empty));
            assert_eq!(e.message(), "~/.dotrc is empty — expected a target path");
        }
        Ok(_) => panic!("empty file accepted"),
    }
    let d = DotRc::new_default("/home/u/.dotrc", Some("/home/u"), U);
    assert_eq!(d.contents(), "~/.dot/");
    assert_eq!(d.target, "/home/u/.dot/");
    assert_eq!(d.entries_path(U), "/home/u/.dot/entries.toml");
}

#[test]
fn entries_round_trip() {
    let mut e = DotEntries::load("/t/entries.toml", None).ok().unwrap();
    assert_eq!(e.get_entries(Some("/home/u"), U), Vec::<(String, String)>::new());
    assert!(!e.is_tracked("nvim"));
    e.add_entry("nvim", "~/.config/nvim", U);
    e.add_entry("git", "~/.gitconfig", W);
    assert!(e.is_tracked("nvim"));
    assert_eq!(e.get_entries(Some("/home/u"), U), items(&[("nvim", "/home/u/.config/nvim")]));
    let text = e.save().ok().unwrap();
    let back = DotEntries::load("/t/entries.toml", Some(&text)).ok().unwrap();
    assert_eq!(back.get_entries(Some("/home/u"), U), items(&[("nvim", "/home/u/.config/nvim")]));
    assert_eq!(back.get_entries(Some("C:\\u"), W), items(&[("git", "C:\\u\\.gitconfig")]));
    assert!(e.remove_entry("nvim"));
    assert!(!e.remove_entry("nvim"));
    assert!(!e.is_tracked("nvim"));
}

#[test]
fn entries_from_readme_example() {
    let text = "plain = \"x\"\n\n[nvim]\nwin = \"~/AppData/Local/nvim\"\nunix = \"~/.config/nvim\"\n\n[zed]\nunix = \"/etc/zed\"\n\n[odd]\nunix = 3\n";
    let e = DotEntries::load("/t/entries.toml", Some(text)).ok().unwrap();
    assert_eq!(
        e.get_entries(Some("/home/u"), U),
        items(&[("nvim", "/home/u/.config/nvim"), ("zed", "/etc/zed")])
    );
    assert_eq!(e.get_entries(Some("C:\\u"), W), items(&[("nvim", "C:\\u\\AppData/Local/nvim")]));
    assert!(e.is_tracked("plain"));
    assert!(e.is_tracked("odd"));
}

#[test]
fn entries_parse_error() {
    match DotEntries::load("/t/entries.toml", Some("[broken")) {
        Err(EntriesError::Parse(_)) => {}
        _ => panic!("expected a parse error"),
    }
    assert!(DotEntries::load("/t/entries.toml", Some("")).is_ok());
}

#[test]
fn track_entry_adds_once() {
    let mut e = DotEntries::load("/t/entries.toml", None).ok().unwrap();
    assert!(track_entry(&mut e, "nvim", "/home/u/.config/nvim/", Some("/home/u"), U));
    assert!(!track_entry(&mut e, "nvim", "/elsewhere", Some("/home/u"), U));
    assert_eq!(e.get_entries(Some("/home/u"), U), items(&[("nvim", "/home/u/.config/nvim")]));
    assert_eq!(e.get_entries(Some("/home/other"), U), items(&[("nvim", "/home/other/.config/nvim")]));
}

#[test]
fn entry_names() {
    assert_eq!(entry_name(Some("n"), "/a/b", U), Some(s("n")));
    assert_eq!(entry_name(None, "/home/u/.config/nvim/", U), Some(s("nvim")));
    assert_eq!(entry_name(None, "/", U), None);
    assert_eq!(entry_name(None, "a/..", U), None);
    assert!(!copies_child(".git"));
    assert!(copies_child(".gitignore"));
    assert!(copies_child("init.lua"));
}

#[test]
fn selections() {
    let all = items(&[("a", "/x/a"), ("b", "/x/b"), ("c", "/x/c")]);
    let names = vec![s("c"), s("zz"), s("a"), s("c")];
    let (sel, missing) = select_by_names(&all, &names);
    assert_eq!(sel, items(&[("c", "/x/c"), ("a", "/x/a"), ("c", "/x/c")]));
    assert_eq!(missing, vec![s("zz")]);
    let dup = items(&[("a", "/1"), ("a", "/2")]);
    assert_eq!(select_by_names(&dup, &vec![s("a")]).0, items(&[("a", "/2")]));
    match apply_selection(all.clone(), &vec![], true) {
        ApplySelection::All(v) => assert_eq!(v, all),
        _ => panic!("expected all"),
    }
    match apply_selection(all.clone(), &vec![], false) {
        ApplySelection::Pick(v) => assert_eq!(v, all),
        _ => panic!("expected the picker"),
    }
    match apply_selection(all.clone(), &vec![s("b")], true) {
        ApplySelection::Named { selected, missing } => {
            assert_eq!(selected, items(&[("b", "/x/b")]));
            assert!(missing.is_empty());
        }
        _ => panic!("expected names"),
    }
    assert_eq!(picker_labels(&all), vec![s("a -> /x/a"), s("b -> /x/b"), s("c -> /x/c"), s("All")]);
}

#[test]
fn picker_outcomes() {
    let all = items(&[("a", "/x/a"), ("b", "/x/b")]);
    assert!(matches!(picker_selection(all.clone(), None), PickOutcome::Cancelled));
    assert!(matches!(picker_selection(all.clone(), Some(vec![])), PickOutcome::NothingSelected));
    match picker_selection(all.clone(), Some(vec![1, 2])) {
        PickOutcome::Selected(v) => assert_eq!(v, all),
        _ => panic!(),
    }
    match picker_selection(all.clone(), Some(vec![1, 0])) {
        PickOutcome::Selected(v) => assert_eq!(v, items(&[("b", "/x/b"), ("a", "/x/a")])),
        _ => panic!(),
    }
}

#[test]
fn apply_and_diff_decisions() {
    assert_eq!(next_apply_action(false, true, None), ApplyAction::SkipMissingSource);
    assert_eq!(next_apply_action(true, true, None), ApplyAction::Copy);
    assert_eq!(next_apply_action(true, false, None), ApplyAction::CheckLocalChanges);
    assert_eq!(next_apply_action(true, false, Some(true)), ApplyAction::SkipLocalChanges);
    assert_eq!(next_apply_action(true, false, Some(false)), ApplyAction::Copy);
    assert!(needs_comparison(true, true));
    assert!(!needs_comparison(true, false));
    assert!(has_local_changes(Some(Some(1))));
    assert!(!has_local_changes(Some(Some(0))));
    assert!(!has_local_changes(Some(Some(2))));
    assert!(!has_local_changes(Some(None)));
    assert!(!has_local_changes(None));
    assert_eq!(diff_action(false, false), DiffAction::SkipNotSynced);
    assert_eq!(diff_action(true, false), DiffAction::SkipMissingSource);
    assert_eq!(diff_action(true, true), DiffAction::Compare);
    assert!(diff_ended_normally(true, Some(0)));
    assert!(diff_ended_normally(false, Some(1)));
    assert!(!diff_ended_normally(false, Some(2)));
    assert!(!diff_ended_normally(false, None));
}

#[test]
fn picker_markers() {
    assert_eq!(select_marker(true, true), "> ◉");
    assert_eq!(select_marker(true, false), "  ◉");
    assert_eq!(select_marker(false, true), "> ○");
    assert_eq!(select_marker(false, false), "  ○");
}

#[test]
fn portable_path_round_trip() {
    let h = Some("/home/u");
    for p in ["/home/u/.config/nvim", "/home/u/a//b/", "/home/u", "/home/u/./x/."] {
        let back = expand_tilde(&collapse_home(p, h, U), h, U);
        let a: Vec<_> = std::path::Path::new(p).components().collect();
        let b: Vec<_> = std::path::Path::new(&back).components().collect();
        assert_eq!(a, b, "{}", p);
    }
}

#[test]
fn entries_come_in_name_order() {
    let mut e = DotEntries::load("/t/entries.toml", None).ok().unwrap();
    e.add_entry("zed", "/z", U);
    e.add_entry("alpha", "/a", U);
    e.add_entry("Mid", "/m", U);
    e.add_entry("alpha", "/a2", U);
    assert_eq!(e.get_entries(None, U), items(&[("Mid", "/m"), ("alpha", "/a2"), ("zed", "/z")]));
}

#[test]
fn add_then_remove_restores_entries() {
    let text = "[keep]\nunix = \"/k\"\n";
    let mut e = DotEntries::load("/t/entries.toml", Some(text)).ok().unwrap();
    let before = e.get_entries(None, U);
    e.add_entry("new", "/n", U);
    assert!(e.remove_entry("new"));
    assert_eq!(e.get_entries(None, U), before);
}

#[test]
fn windows_drive_is_a_prefix_component() {
    assert_eq!(file_name("C:", W), None);
    assert_eq!(file_name("C:\\", W), None);
    assert_eq!(file_name("C:foo", W), Some(s("foo")));
    assert_eq!(file_name("C:\\Users\\me\\x.txt", W), Some(s("x.txt")));
    assert_eq!(strip_prefix("C:\\Users\\me\\x", "C:\\Users\\me", W), Some(s("x")));
    assert_eq!(strip_prefix("C:\\Users\\me\\x", "c:\\Users\\me", W), Some(s("x")));
    assert_eq!(strip_prefix("D:\\Users\\me\\x", "C:\\Users\\me", W), None);
    assert_eq!(strip_prefix("C:\\x\\y", "C:", W), Some(s("\\x\\y")));
    assert_eq!(strip_prefix("C:\\x", "C:\\", W), Some(s("x")));
    assert_eq!(strip_prefix("C:foo\\bar", "C:foo", W), Some(s("bar")));
    assert_eq!(strip_prefix("C:foo", "C:\\", W), None);
    assert_eq!(strip_prefix("C:\\x", "\\x", W), None);
    assert_eq!(strip_prefix("\\x\\y", "C:\\x", W), None);
    assert_eq!(strip_prefix("C:", "C:", W), Some(s("")));
    assert_eq!(strip_prefix("C:\\x", "", W), Some(s("C:\\x")));
}

#[test]
fn expanded_portable_path_collapses_back() {
    for r in ["~/.config/nvim", "~/a//b", "~/.gitconfig"] {
        let full = expand_tilde(r, Some("/home/u"), U);
        assert_eq!(collapse_home(&full, Some("/home/u"), U), r);
    }
    let full = expand_tilde("~/AppData/Local/nvim", Some("C:\\Users\\me"), W);
    assert_eq!(full, "C:\\Users\\me\\AppData/Local/nvim");
    assert_eq!(collapse_home(&full, Some("C:\\Users\\me"), W), "~/AppData/Local/nvim");
    let full = expand_tilde("~/x", Some("C:\\"), W);
    assert_eq!(full, "C:\\x");
    assert_eq!(collapse_home(&full, Some("C:\\"), W), "~/x");
}

#[test]
fn dotrc_reloads_to_same_folder() {
    let rc = DotRc::load("/home/u/.dotrc", "  ~/dots\n", Some("/home/u"), U).ok().unwrap();
    let back = DotRc::load("/home/u/.dotrc", rc.contents(), Some("/home/u"), U).ok().unwrap();
    assert_eq!(back.raw, rc.raw);
    assert_eq!(back.target, rc.target);
    assert_eq!(back.target, "/home/u/dots");
    let d = DotRc::new_default("/home/u/.dotrc", Some("/home/u"), U);
    let back = DotRc::load("/home/u/.dotrc", d.contents(), Some("/home/u"), U).ok().unwrap();
    assert_eq!(back.target, d.target);
}

#[test]
fn windows_share_is_a_prefix_component() {
    assert_eq!(file_name("\\\\server\\share", W), None);
    assert_eq!(file_name("\\\\server\\share\\", W), None);
    assert_eq!(file_name("\\\\server\\share\\x", W), Some(s("x")));
    assert_eq!(file_name("\\\\server", W), Some(s("server")));
    assert_eq!(strip_prefix("\\\\srv\\sh\\a\\b", "\\\\srv\\sh", W), Some(s("a\\b")));
    assert_eq!(strip_prefix("\\\\srv\\sh\\a\\b", "\\\\srv\\sh\\", W), Some(s("a\\b")));
    assert_eq!(strip_prefix("\\\\srv\\sh\\a", "\\\\srv\\other", W), None);
    assert_eq!(strip_prefix("\\\\srv\\sh\\a", "\\\\srv", W), None);
    assert_eq!(strip_prefix("\\\\srv\\sh\\a", "\\a", W), None);
    assert_eq!(strip_prefix("\\\\srv\\sh", "\\\\srv\\sh", W), Some(s("")));
    let full = expand_tilde("~/x", Some("\\\\srv\\sh\\u"), W);
    assert_eq!(full, "\\\\srv\\sh\\u\\x");
    assert_eq!(collapse_home(&full, Some("\\\\srv\\sh\\u"), W), "~/x");
    let full = expand_tilde("~/x/y", Some("\\\\srv\\sh"), W);
    assert_eq!(full, "\\\\srv\\sh\\x/y");
    assert_eq!(collapse_home(&full, Some("\\\\srv\\sh"), W), "~/x/y");
}

#[test]
fn apply_with_no_entries() {
    let none: Vec<(String, String)> = Vec::new();
    for (names, all) in [(vec![], false), (vec![], true), (vec![s("a")], false)] {
        assert!(matches!(apply_selection(none.clone(), &names, all), ApplySelection::NoEntries));
    }
}

#[test]
fn entries_keep_other_values() {
    let text = "count = 5\nflags = [true, 1.5]\n\n[nvim]\nunix = \"~/.config/nvim\"\nlevel = 2\n\n[old]\nunix = \"~/old\"\n";
    let mut e = DotEntries::load("/t/entries.toml", Some(text)).ok().unwrap();
    assert_eq!(e.path(), "/t/entries.toml");
    e.add_entry("git", "~/.gitconfig", U);
    assert!(e.remove_entry("old"));
    let saved = e.save().ok().unwrap();
    let back = DotEntries::load(e.path(), Some(&saved)).ok().unwrap();
    let direct: toml::Table = toml::from_str(&saved).unwrap();
    assert_eq!(direct.get("count"), Some(&toml::Value::Integer(5)));
    assert_eq!(
        direct.get("flags"),
        Some(&toml::Value::Array(vec![toml::Value::Boolean(true), toml::Value::Float(1.5)]))
    );
    let nvim = direct.get("nvim").unwrap().as_table().unwrap();
    assert_eq!(nvim.get("level"), Some(&toml::Value::Integer(2)));
    let git = direct.get("git").unwrap().as_table().unwrap();
    assert_eq!(git.len(), 1);
    assert_eq!(git.get("unix"), Some(&toml::Value::String(s("~/.gitconfig"))));
    assert!(direct.get("old").is_none());
    assert_eq!(
        back.get_entries(Some("/home/u"), U),
        items(&[("git", "/home/u/.gitconfig"), ("nvim", "/home/u/.config/nvim")])
    );
}

#[test]
fn windows_other_prefixes() {
    assert_eq!(file_name("//srv/sh", W), None);
    assert_eq!(strip_prefix("//srv/sh/a", "\\\\srv\\sh", W), Some(s("a")));
    assert_eq!(strip_prefix("\\\\srv/sh\\a\\b", "//srv\\sh/a", W), Some(s("b")));
    assert_eq!(file_name("\\\\.\\COM1", W), None);
    assert_eq!(file_name("\\\\.\\pipe\\x", W), Some(s("x")));
    assert_eq!(strip_prefix("\\\\.\\pipe\\x", "\\\\.\\pipe", W), Some(s("x")));
    assert_eq!(strip_prefix("\\\\.\\pipe\\x", "\\\\srv\\pipe", W), None);
    assert_eq!(join_path("\\\\srv\\sh\\a", "\\x", W), "\\\\srv\\sh\\x");
    assert_eq!(join_path("C:\\a", "\\\\?\\D:\\x", W), "\\\\?\\D:\\x");
    assert_eq!(join_path("C:\\a", "//srv/sh/x", W), "//srv/sh/x");
    assert_eq!(join_path("C:\\a", "\\\\x", W), "C:\\\\x");
    assert_eq!(join_path("\\\\.\\pipe", "x", W), "\\\\.\\pipe\\x");
}

#[test]
fn bare_drive_home_round_trips() {
    let c = collapse_home("C:\\x\\y", Some("C:"), W);
    assert_eq!(c, "~//x/y");
    assert_eq!(expand_tilde(&c, Some("C:"), W), "C:/x/y");
    let c = collapse_home("c:x\\y", Some("C:"), W);
    assert_eq!(c, "~/x/y");
    assert_eq!(expand_tilde(&c, Some("C:"), W), "C:x/y");
    let c = collapse_home("C:.\\x", Some("C:"), W);
    assert_eq!(c, "~/./x");
    assert_eq!(expand_tilde(&c, Some("C:"), W), "C:./x");
    assert_eq!(collapse_home(&expand_tilde("~/x", Some("C:"), W), Some("C:"), W), "~/x");
    let full = expand_tilde("~/x", Some("/a\\b"), U);
    assert_eq!(full, "/a\\b/x");
    assert_eq!(collapse_home(&full, Some("/a\\b"), U), "~/x");
    assert_eq!(expand_tilde(&collapse_home("/a\\b/x", Some("/a\\b"), U), Some("/a\\b"), U), "/a\\b/x");
}
