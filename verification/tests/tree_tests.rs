use creeper_cli::alter::alter_tree;
use creeper_cli::mapping::{can_map_tree, map_tree, try_map_tree};
use creeper_cli::scan::get_tree;
use creeper_cli::sync::{poll_tree, refresh_tree};
use creeper_cli::tree::{forest_contains, same_tree, FileTree};
use creeper_cli::trim::{is_watched_extension, trim_tree, try_trim_tree};

fn file(path: &str, content: &str) -> FileTree {
    FileTree::File(path.to_string(), content.to_string())
}

fn dir(path: &str, files: Vec<FileTree>) -> FileTree {
    FileTree::Directory(path.to_string(), files)
}

fn contents(t: &FileTree) -> String {
    match t {
        FileTree::File(_, c) => c.clone(),
        FileTree::Directory(_, _) => panic!("not a file"),
    }
}

fn sample() -> Vec<FileTree> {
    vec![
        file("/w/game/a.luau", "print(1)"),
        dir("/w/game/Server", vec![file("/w/game/Server/s.server.luau", "s")]),
        file("/w/game/notes.txt", "n"),
    ]
}

#[test]
fn tree_equality_and_clone() {
    let a = sample();
    let b = a.clone();
    assert!(same_tree(&a[1], &b[1]));
    assert!(!same_tree(&a[0], &a[2]));
    assert!(forest_contains(&a, &file("/w/game/notes.txt", "n")));
    assert!(!forest_contains(&a, &file("/w/game/notes.txt", "m")));
}

#[test]
fn watched_extensions() {
    for e in ["luau", "lua", "json", "toml"] {
        assert!(is_watched_extension(e));
    }
    assert!(!is_watched_extension("txt"));
    assert!(!is_watched_extension("Lua"));
}

#[test]
fn trim_unchanged_tree_reports_nothing() {
    let mut t = sample();
    let mut old = sample();
    let r = trim_tree(&mut t, &mut old);
    assert!(r.is_empty());
    assert!(same_tree(&dir("x", old.clone()), &dir("x", sample())));
}

#[test]
fn trim_against_nothing_reports_everything() {
    let mut t = sample();
    let mut old = vec![];
    let r = trim_tree(&mut t, &mut old);
    assert_eq!(r.len(), 3);
    assert!(same_tree(&dir("x", r), &dir("x", sample())));
}

#[test]
fn trim_reports_changed_and_new_files() {
    let mut t = vec![
        file("/w/game/a.luau", "print(2)"),
        dir("/w/game/Server", vec![file("/w/game/Server/s.server.luau", "s")]),
        file("/w/game/notes.txt", "n"),
        file("/w/game/new.lua", "x"),
    ];
    let mut old = sample();
    let r = trim_tree(&mut t, &mut old);
    assert_eq!(r.len(), 2);
    assert!(same_tree(&r[0], &file("/w/game/a.luau", "print(2)")));
    assert!(same_tree(&r[1], &file("/w/game/new.lua", "x")));
}

#[test]
fn trim_reports_whole_directory_with_changed_entry_and_updates_previous() {
    let mut t = vec![dir(
        "/w/game/Server",
        vec![file("/w/game/Server/s.server.luau", "s"), file("/w/game/Server/t.lua", "2")],
    )];
    let mut old = vec![dir(
        "/w/game/Server",
        vec![file("/w/game/Server/s.server.luau", "s"), file("/w/game/Server/t.lua", "1")],
    )];
    let r = trim_tree(&mut t, &mut old);
    // The changed directory is not equal to its old entry, so it is reported whole.
    assert_eq!(r.len(), 1);
    assert!(same_tree(&r[0], &t[0]));
    // The previous tree is left alone because the fresh directory is not found in it.
    assert!(same_tree(&old[0], &dir(
        "/w/game/Server",
        vec![file("/w/game/Server/s.server.luau", "s"), file("/w/game/Server/t.lua", "1")],
    )));
}

#[test]
fn trim_replaces_previous_counterpart_with_trimmed_directory() {
    let mut t = vec![dir("/g/A", vec![file("/g/A/a.lua", "1")])];
    let mut old = vec![
        dir("/g/B", vec![file("/g/A/a.lua", "2")]),
        dir("/g/A", vec![file("/g/A/a.lua", "1")]),
    ];
    let r = trim_tree(&mut t, &mut old);
    assert_eq!(r.len(), 1);
    assert!(same_tree(&r[0], &t[0]));
    assert!(same_tree(&old[0], &dir("/g/A", vec![file("/g/A/a.lua", "1")])));
    assert!(same_tree(&old[1], &dir("/g/A", vec![file("/g/A/a.lua", "1")])));
}

#[test]
fn trim_skips_unwatched_files_with_changed_contents() {
    let mut t = vec![file("/g/n.txt", "new"), file("/g/n.txt", "old")];
    let mut old = vec![file("/g/n.txt", "old"), file("/g/n.txt", "new")];
    let r = trim_tree(&mut t, &mut old);
    assert!(r.is_empty());
}

#[test]
fn try_trim_refuses_a_file_past_the_previous_tree() {
    let t = vec![file("/w/game/b.lua", "b"), file("/w/game/a.lua", "a")];
    let old = vec![file("/w/game/a.lua", "a")];
    assert!(try_trim_tree(&t, &old).is_none());
    let reordered = vec![file("/w/game/a.lua", "a"), file("/w/game/b.lua", "b")];
    let r = try_trim_tree(&reordered, &old).unwrap();
    assert_eq!(r.len(), 1);
    assert!(same_tree(&r[0], &file("/w/game/b.lua", "b")));
}

#[test]
fn try_trim_refuses_a_compared_file_without_extension() {
    let t = vec![file("/w/game/README", "r")];
    assert!(try_trim_tree(&t, &t.clone()).is_none());
}

#[test]
fn map_tree_renders_files_and_directories() {
    let tree = vec![
        file("/w/game/a.luau", "print(1)"),
        file("/w/game/settings.toml", "{\"port\":1}"),
        dir("/w/game/Server", vec![file("/w/game/Server/s.lua", "s")]),
    ];
    let text = map_tree(tree, "game");
    assert_eq!(
        text,
        "{\n  \"a.luau\": \"print(1)\",\n  \"game/Server\": \"{\\n  \\\"s.lua\\\": \\\"s\\\"\\n}\",\n  \"settings.toml.json\": \"{\\\"port\\\":1}\"\n}"
    );
}

#[test]
fn map_tree_of_nothing_is_empty_object() {
    assert_eq!(map_tree(vec![], "game"), "{}");
}

#[test]
fn map_tree_later_entry_with_same_key_wins() {
    let tree = vec![file("/w/game/x/a.lua", "first"), file("/w/game/y/a.lua", "second")];
    assert_eq!(map_tree(tree, "game"), "{\n  \"a.lua\": \"second\"\n}");
}

#[test]
fn try_map_tree_refuses_what_cannot_be_rendered() {
    assert!(try_map_tree(vec![dir("/w/src/Server", vec![])], "game").is_none());
    assert!(try_map_tree(vec![file("/w/game/Makefile", "m")], "game").is_none());
    assert!(!can_map_tree(&vec![file("/w/game/Makefile", "m")], "game"));
    assert!(can_map_tree(&sample(), "game"));
    assert_eq!(try_map_tree(vec![], "game"), Some("{}".to_string()));
}

#[test]
fn alter_tree_records_contents_for_matching_file() {
    let mut t = sample();
    let replaced = alter_tree(&mut t, "/w/game/Server/s.server.luau".to_string(), "new".to_string());
    assert_eq!(replaced, vec!["s".to_string()]);
    match &t[1] {
        FileTree::Directory(_, files) => assert_eq!(contents(&files[0]), "new"),
        FileTree::File(_, _) => panic!("expected a directory"),
    }
    assert_eq!(contents(&t[0]), "print(1)");
}

#[test]
fn alter_tree_stops_at_first_match_on_a_level() {
    let mut t = vec![file("p.lua", "1"), file("p.lua", "2")];
    assert_eq!(alter_tree(&mut t, "p.lua".to_string(), "x".to_string()), vec!["1".to_string()]);
    assert_eq!(contents(&t[0]), "x");
    assert_eq!(contents(&t[1]), "2");
}

#[test]
fn alter_tree_with_absent_path_changes_nothing() {
    let mut t = sample();
    assert!(alter_tree(&mut t, "/w/game/none.lua".to_string(), "x".to_string()).is_empty());
    assert!(same_tree(&dir("x", t), &dir("x", sample())));
}

#[test]
fn get_tree_converts_toml_and_drops_files_without_extension() {
    let listing = vec![
        file("/w/game/config.toml", "port = 8080\nroot = \"game\"\n"),
        file("/w/game/broken.toml", "= nope"),
        file("/w/game/README", "readme"),
        dir("/w/game/Shared", vec![file("/w/game/Shared/m.lua", "return 1"), file("/w/game/Shared/bad.toml", "[")]),
    ];
    let scan = get_tree(&listing);
    assert_eq!(scan.tree.len(), 2);
    assert!(same_tree(&scan.tree[0], &file("/w/game/config.toml", "{\"port\":8080,\"root\":\"game\"}")));
    assert!(same_tree(&scan.tree[1], &dir("/w/game/Shared", vec![file("/w/game/Shared/m.lua", "return 1")])));
    assert_eq!(scan.unparsable, vec!["/w/game/broken.toml".to_string(), "/w/game/Shared/bad.toml".to_string()]);
}

#[test]
fn refresh_answers_changes_then_nothing() {
    let mut previous: Vec<FileTree> = vec![];
    let first = refresh_tree(&mut previous, sample(), "game");
    assert_eq!(first, map_tree(sample(), "game"));
    let second = refresh_tree(&mut previous, sample(), "game");
    assert_eq!(second, "{}");
    let mut changed = sample();
    changed[0] = file("/w/game/a.luau", "print(3)");
    let third = refresh_tree(&mut previous, changed, "game");
    assert_eq!(third, "{\n  \"a.luau\": \"print(3)\"\n}");
}

#[test]
fn poll_refuses_but_remembers_the_fresh_tree() {
    let mut previous = vec![file("/w/game/a.lua", "a")];
    let current = vec![file("/w/game/new.lua", "b"), file("/w/game/a.lua", "a")];
    assert!(poll_tree(&mut previous, current.clone(), "game").is_none());
    assert_eq!(previous.len(), 2);
    assert!(same_tree(&dir("x", previous.clone()), &dir("x", current.clone())));
    assert_eq!(poll_tree(&mut previous, current, "game"), Some("{}".to_string()));
}

#[test]
fn served_tree_polled_twice_answers_nothing_the_second_time() {
    let listing = vec![
        file("/w/game/a.luau", "print(1)"),
        file("/w/game/LICENSE", "text"),
        dir("/w/game/Conf", vec![file("/w/game/Conf/c.toml", "x = 1")]),
    ];
    let served = get_tree(&listing).tree;
    let mut previous: Vec<FileTree> = vec![];
    assert!(poll_tree(&mut previous, served.clone(), "game").is_some());
    assert_eq!(poll_tree(&mut previous, served, "game"), Some("{}".to_string()));
}

#[test]
fn alter_tree_reports_replacements_in_walk_order() {
    let mut t = vec![dir("d", vec![file("p.lua", "inner")]), file("p.lua", "top"), file("p.lua", "later")];
    let replaced = alter_tree(&mut t, "p.lua".to_string(), "x".to_string());
    assert_eq!(replaced, vec!["inner".to_string(), "top".to_string()]);
    assert_eq!(contents(&t[2]), "later");
}
