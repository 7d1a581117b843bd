use creeper_cli::post::{decode_post, parse_post, post_is_decodable, PostAction, PostRequest};

fn args(a: &str, b: &str, c: &str) -> Vec<String> {
    vec![a.to_string(), b.to_string(), c.to_string()]
}

#[test]
fn decode_init_names_client_without_quotes() {
    let a = args("\"Roblox Studio\"", "null", "null");
    assert!(post_is_decodable("__INIT__", &a));
    match decode_post("__INIT__", &a) {
        PostAction::Init { client } => assert_eq!(client, "Roblox Studio"),
        _ => panic!("expected init"),
    }
}

#[test]
fn decode_settings_and_other() {
    let a = args("null", "null", "null");
    assert!(matches!(decode_post("__SETTINGS__", &a), PostAction::Settings));
    assert!(matches!(decode_post("__HELLO__", &a), PostAction::Other));
}

#[test]
fn decode_file_unquotes_its_three_texts() {
    let a = args("\"Server/main\"", "\"print(\\\"hi\\\")\"", "\"server\"");
    assert!(post_is_decodable("__FILE__", &a));
    match decode_post("__FILE__", &a) {
        PostAction::File { path, contents, file_type } => {
            assert_eq!(path, "Server/main");
            assert_eq!(contents, "print(\\\"hi\\\")");
            assert_eq!(file_type, "server");
        },
        _ => panic!("expected file"),
    }
}

#[test]
fn decode_sourcemap_unquotes_two_texts() {
    let a = args("\"a\"", "\"b\"", "null");
    match decode_post("__SOURCEMAP__", &a) {
        PostAction::Sourcemap { data, extra } => {
            assert_eq!(data, "a");
            assert_eq!(extra, "b");
        },
        _ => panic!("expected sourcemap"),
    }
}

#[test]
fn undecodable_requests() {
    assert!(!post_is_decodable("__FILE__", &args("1", "\"x\"", "\"y\"")));
    assert!(!post_is_decodable("__SOURCEMAP__", &args("\"x\"", "7", "null")));
    assert!(post_is_decodable("__INIT__", &args("7", "7", "7")));
    assert!(!post_is_decodable("__INIT__", &vec!["\"x\"".to_string()]));
}

#[test]
fn parse_post_reads_json_bodies() {
    let body = r#"{"data": ["__FILE__", "Server/main", "print(\"hi\")\n", "server"]}"#;
    match parse_post(body) {
        PostRequest::Decoded(PostAction::File { path, contents, file_type }) => {
            assert_eq!(path, "Server/main");
            assert_eq!(contents, "print(\\\"hi\\\")\\n");
            assert_eq!(file_type, "server");
        },
        _ => panic!("expected a file request"),
    }
    match parse_post(r#"{"data": ["__INIT__", "Studio"]}"#) {
        PostRequest::Decoded(PostAction::Init { client }) => assert_eq!(client, "Studio"),
        _ => panic!("expected init"),
    }
    assert!(matches!(parse_post(r#"{"data": ["__SETTINGS__"]}"#), PostRequest::Decoded(PostAction::Settings)));
}

#[test]
fn parse_post_failures() {
    assert!(matches!(parse_post("not json"), PostRequest::NotJson));
    assert!(matches!(parse_post(r#"{"data": [1, 2]}"#), PostRequest::NoKind));
    assert!(matches!(parse_post(r#"{"other": 1}"#), PostRequest::NoKind));
    assert!(matches!(parse_post(r#"{"data": ["__FILE__", 5, "x", "y"]}"#), PostRequest::Undecodable));
    assert!(matches!(parse_post(r#"{"data": ["__FILE__", "a"]}"#), PostRequest::Decoded(PostAction::File { .. })));
}

#[test]
fn script_request_with_strings_decodes_to_their_escaped_texts() {
    let body = serde_json::to_string(&serde_json::Value::Array(vec![])).unwrap();
    assert_eq!(body, "[]");
    let contents = "line 1\n\t\"quoted\" \\ back";
    let mut data = vec![serde_json::Value::String("__FILE__".to_string())];
    for t in ["Shared/x", contents, "module"] {
        data.push(serde_json::Value::String(t.to_string()));
    }
    let mut object = serde_json::Map::new();
    object.insert("data".to_string(), serde_json::Value::Array(data));
    let body = serde_json::Value::Object(object).to_string();
    match parse_post(&body) {
        PostRequest::Decoded(PostAction::File { path, contents: sent, file_type }) => {
            assert_eq!(path, "Shared/x");
            assert_eq!(file_type, "module");
            assert_eq!(creeper_cli::writes::decode_contents(sent), contents);
        },
        _ => panic!("expected a file request"),
    }
}
