use creeper_cli::text::{can_trim, join_texts, ends_with, find_text, has_text, remove_char, same_text, strip_outer, suffix_from};

#[test]
fn find_text_gives_first_occurrence_in_characters() {
    assert_eq!(find_text("/home/game/x/game/y", "game"), Some(6));
    assert_eq!(find_text("é/game", "game"), Some(2));
    assert_eq!(find_text("abc", "game"), None);
    assert_eq!(find_text("abc", ""), Some(0));
    assert_eq!(find_text("", "a"), None);
}

#[test]
fn has_text_and_ends_with() {
    assert!(has_text("creeper_cli-x86_64-pc-windows-msvc.zip", "windows-msvc"));
    assert!(!has_text("creeper", "creeperz"));
    assert!(ends_with("tool.exe", ".exe"));
    assert!(!ends_with("tool.exe.txt", ".exe"));
    assert!(!ends_with("exe", ".exe"));
}

#[test]
fn same_text_compares_characters() {
    assert!(same_text("luau", "luau"));
    assert!(!same_text("lua", "luau"));
    assert!(!same_text("Lua", "lua"));
}

#[test]
fn suffix_and_join() {
    assert_eq!(suffix_from("/cwd/game/Server", 5), "game/Server");
    assert_eq!(suffix_from("abc", 3), "");
    assert_eq!(join_texts("ab", "cd"), "abcd");
}

#[test]
fn strip_outer_drops_the_quotes() {
    assert!(can_trim("\"hello\""));
    assert_eq!(strip_outer("\"hello\""), "hello");
    assert_eq!(strip_outer("\"\""), "");
    assert!(!can_trim("1"));
    assert!(!can_trim(""));
    assert!(!can_trim("é\""));
    assert!(can_trim("12"));
    assert_eq!(strip_outer("12"), "");
}

#[test]
fn remove_char_drops_every_quote() {
    assert_eq!(remove_char("\"Studio\"", '"'), "Studio");
    assert_eq!(remove_char("a\"b\"c", '"'), "abc");
    assert_eq!(remove_char("plain", '"'), "plain");
}
