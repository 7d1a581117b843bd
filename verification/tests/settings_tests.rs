use creeper_cli::settings::{apply_setting, get_settings, server_config, toml_to_json, ServerConfig, SettingEntry};

#[test]
fn get_settings_reads_entries_and_json() {
    let s = get_settings("root = \"src\"\nport = 3000\nflag = true\n").unwrap();
    assert_eq!(s.json, "{\"flag\":true,\"port\":3000,\"root\":\"src\"}");
    let names: Vec<&str> = s.entries.iter().map(|e| e.name.as_str()).collect();
    assert_eq!(names, vec!["flag", "port", "root"]);
    assert_eq!(s.entries[1].integer, Some(3000));
    assert_eq!(s.entries[2].text.as_deref(), Some("src"));
    assert_eq!(s.entries[0].integer, None);
    assert_eq!(s.entries[0].text, None);
}

#[test]
fn get_settings_rejects_what_is_not_toml() {
    assert!(get_settings("port = ").is_err());
    assert!(toml_to_json("[unclosed").is_none());
    assert_eq!(toml_to_json("").as_deref(), Some("{}"));
}

#[test]
fn server_config_defaults() {
    let c = server_config(&Err(()));
    assert_eq!(c.port, 8080);
    assert_eq!(c.root, "game");
    let c = server_config(&get_settings(""));
    assert_eq!(c.port, 8080);
    assert_eq!(c.root, "game");
}

#[test]
fn server_config_reads_port_and_root_in_any_case() {
    let c = server_config(&get_settings("PORT = 9000\nRoot = \"place\"\n"));
    assert_eq!(c.port, 9000);
    assert_eq!(c.root, "place");
}

#[test]
fn server_config_falls_back_for_wrong_types_and_cuts_port() {
    let c = server_config(&get_settings("port = \"x\"\nroot = 5\n"));
    assert_eq!(c.port, 8080);
    assert_eq!(c.root, "game");
    let c = server_config(&get_settings("port = 70000\n"));
    assert_eq!(c.port, 70000u32 as u16);
    assert_eq!(c.port, 4464);
    let c = server_config(&get_settings("port = -1\n"));
    assert_eq!(c.port, 65535);
}

#[test]
fn server_config_later_entry_wins() {
    // Keys are visited in the table's (sorted) order: `PORT` before `port`.
    let c = server_config(&get_settings("port = 1\nPORT = 2\n"));
    assert_eq!(c.port, 1);
}

#[test]
fn apply_setting_by_lowered_name() {
    let base = ServerConfig { port: 1, root: "r".to_string() };
    let e = SettingEntry { name: "Port".to_string(), integer: Some(42), text: None };
    let c = apply_setting(base, "port", &e);
    assert_eq!((c.port, c.root.as_str()), (42, "r"));
    let c = apply_setting(c, "other", &e);
    assert_eq!((c.port, c.root.as_str()), (42, "r"));
    let t = SettingEntry { name: "root".to_string(), integer: None, text: None };
    let c = apply_setting(c, "root", &t);
    assert_eq!(c.root, "game");
}
