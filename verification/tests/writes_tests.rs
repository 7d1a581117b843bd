use creeper_cli::writes::{
    choose_script_path, decode_contents, resolve_script_path, initialize, script_extension, write_file_plan, write_project,
    write_sourcemap, write_target, InitStep, StrPath,
};

#[test]
fn decode_contents_resolves_escapes() {
    assert_eq!(decode_contents("a\\nb\\t\\\"c\\\"".to_string()), "a\nb\t\"c\"");
    assert_eq!(decode_contents("plain text".to_string()), "plain text");
    assert_eq!(decode_contents("\\u0041".to_string()), "A");
}

#[test]
fn decode_contents_keeps_text_with_unknown_escape() {
    assert_eq!(decode_contents("bad \\q escape".to_string()), "bad \\q escape");
}

#[test]
fn script_extension_by_type() {
    assert_eq!(script_extension("server"), "server.lua");
    assert_eq!(script_extension("client"), "client.lua");
    assert_eq!(script_extension("json"), "json");
    assert_eq!(script_extension("toml"), "toml");
    assert_eq!(script_extension("module"), "lua");
}

#[test]
fn write_target_joins_root_path_and_extension() {
    assert_eq!(write_target("game", "ServerScriptService/main", "server"), "game/ServerScriptService/main.server.lua");
    let plan = write_file_plan("game", "Shared/util".to_string(), "x\\ny".to_string(), "".to_string());
    assert_eq!(plan.path, "game/Shared/util.lua");
    assert_eq!(plan.contents, "x\ny");
}

#[test]
fn choose_script_path_prefers_luau() {
    let t = "game/a.lua".to_string();
    assert_eq!(choose_script_path(t.clone(), "lua", true, true), "game/a.luau");
    assert_eq!(choose_script_path(t.clone(), "lua", false, false), "game/a.luau");
    assert_eq!(choose_script_path(t.clone(), "lua", false, true), "game/a.lua");
    assert_eq!(choose_script_path("game/a.json".to_string(), "json", false, false), "game/a.json");
}

#[test]
fn sourcemap_and_project_files() {
    let w = write_sourcemap("\"name\": \"Game\"".to_string());
    assert_eq!(w.path, "sourcemap.json");
    assert_eq!(w.contents, "{\"name\": \"Game\"}");
    let p = write_project("MyGame".to_string());
    assert_eq!(p.path, "default.project.json");
    assert_eq!(
        p.contents,
        "{\n    \"name\": \"MyGame\",\n    \"tree\": {\n        \"$className\": \"DataModel\"\n    }\n}"
    );
}

#[test]
fn initialize_lists_the_setup_steps() {
    let steps = initialize();
    assert_eq!(steps.len(), 5);
    match &steps[0] {
        InitStep::CreateFile(w) => {
            assert_eq!(w.path, "creeper.toml");
            assert!(w.contents.starts_with("\n# Your root/src directory.\nroot = \"game\"\n"));
            assert!(w.contents.ends_with("two_way_descendants = true\n"));
        },
        InitStep::BuildDir(_) => panic!("expected a file"),
    }
    let dirs: Vec<String> = steps[1..4]
        .iter()
        .map(|s| match s {
            InitStep::BuildDir(d) => d.clone(),
            InitStep::CreateFile(_) => panic!("expected a directory"),
        })
        .collect();
    assert_eq!(dirs, vec![
        "game/ServerScriptService/server",
        "game/StarterPlayerScripts/client",
        "game/ReplicatedStorage/shared",
    ]);
    match &steps[4] {
        InitStep::CreateFile(w) => {
            assert_eq!(w.path, "game/ServerScriptService/server/hello.server.luau");
            assert_eq!(w.contents, "print(\"Hello from CreeperCLI! (server)\")");
        },
        InitStep::BuildDir(_) => panic!("expected a file"),
    }
}

#[test]
fn str_path_bytes_and_path() {
    let s = "héllo".to_string();
    assert_eq!(s.get_bytes(), "héllo".as_bytes());
    assert_eq!(s.get_path(), "héllo");
    let r: &str = "a/b";
    assert_eq!(r.get_bytes(), b"a/b");
    assert_eq!(r.get_path(), "a/b");
}

#[test]
fn default_settings_parse() {
    let steps = initialize();
    if let InitStep::CreateFile(w) = &steps[0] {
        let c = creeper_cli::settings::server_config(&creeper_cli::settings::get_settings(&w.contents));
        assert_eq!(c.port, 8080);
        assert_eq!(c.root, "game");
    }
}

#[test]
fn resolve_script_path_reads_the_extension() {
    assert_eq!(resolve_script_path("game/a.lua".to_string(), false, false), Some("game/a.luau".to_string()));
    assert_eq!(resolve_script_path("game/a.lua".to_string(), false, true), Some("game/a.lua".to_string()));
    assert_eq!(resolve_script_path("game/a.server.lua".to_string(), true, true), Some("game/a.server.luau".to_string()));
    assert_eq!(resolve_script_path("game/a.toml".to_string(), false, false), Some("game/a.toml".to_string()));
    assert_eq!(resolve_script_path("game/x/.lua".to_string(), false, false), None);
}

#[test]
fn contents_without_backslash_are_written_as_sent() {
    let plan = write_file_plan("game", "a".to_string(), "print(\"é\")\n".to_string(), "client".to_string());
    assert_eq!(plan.contents, "print(\"é\")\n");
    assert_eq!(plan.path, "game/a.client.lua");
}
