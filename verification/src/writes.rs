//! What the project writes to disk: synced scripts, the sourcemap, the project file and
//! the starter layout.
use vstd::prelude::*;
use vstd::utf8::encode_utf8;
use crate::paths::{extension_of, path_extension};
use crate::text::{join_texts, same_text};

verus! {

/// A file to create (or overwrite) with the given text.
pub struct FileWrite {
    pub path: String,
    pub contents: String,
}

/// Text that stands for a path and can be written out as bytes.
pub trait StrPath {
    spec fn path_text(&self) -> Seq<char>;

    /// The text, as the path it names.
    fn get_path(&self) -> (p: String)
        ensures
            p@ == self.path_text(),
    ;

    /// The UTF-8 bytes of the text.
    fn get_bytes(&self) -> (b: &[u8])
        ensures
            b@ == encode_utf8(self.path_text()),
    ;
}

impl StrPath for String {
    open spec fn path_text(&self) -> Seq<char> {
        self@
    }

    fn get_path(&self) -> (p: String) {
        self.clone()
    }

    fn get_bytes(&self) -> (b: &[u8]) {
        self.as_str().as_bytes()
    }
}

impl<'a> StrPath for &'a str {
    open spec fn path_text(&self) -> Seq<char> {
        (*self)@
    }

    fn get_path(&self) -> (p: String) {
        String::from_str(*self)
    }

    fn get_bytes(&self) -> (b: &[u8]) {
        (*self).as_bytes()
    }
}

/// `unescape::unescape`: backslash escapes written out in the text turned into the
/// characters they stand for; `None` for an escape it does not know.
pub uninterp spec fn unescaped(s: Seq<char>) -> Option<Seq<char>>;

/// Calls `unescape::unescape`. Its result is named by `unescaped`; its source shows
/// besides that text without a backslash comes back unchanged.
#[verifier::external_body]
fn unescape_text(s: &str) -> (r: Option<String>)
    ensures
        match r {
            Some(u) => unescaped(s@) == Some(u@) && (!s@.contains('\\') ==> u@ == s@),
            None => unescaped(s@) is None && s@.contains('\\'),
        },
{
    unescape::unescape(s)
}

/// The contents to write: the text with its escapes resolved, or as it came where
/// that fails.
pub open spec fn decoded_contents(s: Seq<char>) -> Seq<char> {
    match unescaped(s) {
        Some(u) => u,
        None => s,
    }
}

/// Resolves the escapes in received contents, keeping them as they are where that fails.
pub fn decode_contents(contents: String) -> (r: String)
    ensures
        r@ == decoded_contents(contents@),
        !contents@.contains('\\') ==> r@ == contents@,
{
    match unescape_text(contents.as_str()) {
        Some(u) => u,
        None => contents,
    }
}

/// The extension a script of the given kind is saved with.
pub open spec fn script_extension_spec(file_type: Seq<char>) -> Seq<char> {
    if file_type == "server"@ {
        "server.lua"@
    } else if file_type == "client"@ {
        "client.lua"@
    } else if file_type == "json"@ {
        "json"@
    } else if file_type == "toml"@ {
        "toml"@
    } else {
        "lua"@
    }
}

/// The extension a script of the given kind is saved with: `server.lua`, `client.lua`,
/// `json`, `toml`, and `lua` for anything else.
pub fn script_extension(file_type: &str) -> (r: &'static str)
    ensures
        r@ == script_extension_spec(file_type@),
{
    if same_text(file_type, "server") {
        "server.lua"
    } else if same_text(file_type, "client") {
        "client.lua"
    } else if same_text(file_type, "json") {
        "json"
    } else if same_text(file_type, "toml") {
        "toml"
    } else {
        "lua"
    }
}

/// `{root}/{path}.{extension}`.
pub open spec fn write_target_spec(root: Seq<char>, path: Seq<char>, file_type: Seq<char>) -> Seq<char> {
    root + "/"@ + path + "."@ + script_extension_spec(file_type)
}

/// Where a received script is first meant to go: `{root}/{path}.{extension}`.
pub fn write_target(root: &str, path: &str, file_type: &str) -> (r: String)
    ensures
        r@ == write_target_spec(root@, path@, file_type@),
{
    let mut r = join_texts(root, "/");
    r.append(path);
    r.append(".");
    r.append(script_extension(file_type));
    r
}

/// The first half of writing a received script: where it goes before the `.luau`
/// choice, and the contents with escapes resolved.
pub fn write_file_plan(root: &str, path: String, contents: String, file_type: String) -> (r: FileWrite)
    ensures
        r.path@ == write_target_spec(root@, path@, file_type@),
        r.contents@ == decoded_contents(contents@),
        !contents@.contains('\\') ==> r.contents@ == contents@,
{
    let contents = decode_contents(contents);
    let target = write_target(root, path.as_str(), file_type.as_str());
    FileWrite { path: target, contents }
}

/// A `lua` script goes to the `.luau` file instead where that one exists, or where the
/// `.lua` file does not: the path gets a final `u`.
pub open spec fn script_path_spec(target: Seq<char>, extension: Seq<char>, luau_exists: bool, target_exists: bool) -> Seq<char> {
    if extension == "lua"@ && (luau_exists || !target_exists) {
        target.push('u')
    } else {
        target
    }
}

/// Where a received `lua` script goes: to the `.luau` file whenever that one exists
/// (whether or not the `.lua` file does); to the `.luau` file when neither exists, so new
/// scripts are Luau; and to the `.lua` file only when it exists alone. A script of any
/// other extension goes to its target unchanged.
pub proof fn lemma_script_path_choice(target: Seq<char>, extension: Seq<char>, luau_exists: bool, target_exists: bool)
    ensures
        extension == "lua"@ && luau_exists ==> script_path_spec(target, extension, luau_exists, target_exists)
            == target.push('u'),
        extension == "lua"@ && !luau_exists && !target_exists ==> script_path_spec(
            target,
            extension,
            luau_exists,
            target_exists,
        ) == target.push('u'),
        extension == "lua"@ && !luau_exists && target_exists ==> script_path_spec(
            target,
            extension,
            luau_exists,
            target_exists,
        ) == target,
        extension != "lua"@ ==> script_path_spec(target, extension, luau_exists, target_exists) == target,
{
}

/// The path a script is written to, given the extension of its first target (which
/// ends with `.` and that extension), whether the target with a final `u` exists, and
/// whether the target itself exists.
pub fn choose_script_path(target: String, extension: &str, luau_exists: bool, target_exists: bool) -> (r: String)
    ensures
        r@ == script_path_spec(target@, extension@, luau_exists, target_exists),
{
    if same_text(extension, "lua") && (luau_exists || !target_exists) {
        let mut t = target;
        t.push('u');
        t
    } else {
        target
    }
}

/// The path a script is written to, from its first target and whether the target with
/// a final `u` and the target itself exist; `None` where the target has no extension.
pub fn resolve_script_path(target: String, luau_exists: bool, target_exists: bool) -> (r: Option<String>)
    ensures
        match extension_of(target@) {
            None => r is None,
            Some(e) => r matches Some(p) && p@ == script_path_spec(target@, e, luau_exists, target_exists),
        },
{
    match path_extension(target.as_str()) {
        Some(e) => Some(choose_script_path(target, e.as_str(), luau_exists, target_exists)),
        None => None,
    }
}

/// The sourcemap file's name.
pub const SOURCEMAP_FILE: &'static str = "sourcemap.json";

/// The project file's name.
pub const PROJECT_FILE: &'static str = "default.project.json";

/// The project file before the game's name.
pub const PROJECT_HEAD: &'static str = "{\n    \"name\": \"";

/// The project file after the game's name.
pub const PROJECT_TAIL: &'static str = "\",\n    \"tree\": {\n        \"$className\": \"DataModel\"\n    }\n}";

/// The sourcemap to write: the received members wrapped in braces, into `sourcemap.json`.
pub fn write_sourcemap(data: String) -> (r: FileWrite)
    ensures
        r.path@ == SOURCEMAP_FILE@,
        r.contents@ == "{"@ + data@ + "}"@,
{
    let mut contents = join_texts("{", data.as_str());
    contents.append("}");
    FileWrite { path: String::from_str(SOURCEMAP_FILE), contents }
}

/// The project file to write for a game: its name and a `DataModel` tree, into
/// `default.project.json`.
pub fn write_project(game_name: String) -> (r: FileWrite)
    ensures
        r.path@ == PROJECT_FILE@,
        r.contents@ == PROJECT_HEAD@ + game_name@ + PROJECT_TAIL@,
{
    let mut contents = join_texts(PROJECT_HEAD, game_name.as_str());
    contents.append(PROJECT_TAIL);
    FileWrite { path: String::from_str(PROJECT_FILE), contents }
}

/// One step of setting up a new project.
pub enum InitStep {
    CreateFile(FileWrite),
    BuildDir(String),
}

/// The value of a setup step: a file with its contents, or a directory (with no contents).
pub open spec fn step_view(s: InitStep) -> (bool, Seq<char>, Seq<char>) {
    match s {
        InitStep::CreateFile(w) => (true, w.path@, w.contents@),
        InitStep::BuildDir(d) => (false, d@, seq![]),
    }
}

pub const SETTINGS_FILE: &'static str = "creeper.toml";

/// The settings a new project starts with.
pub const DEFAULT_SETTINGS: &'static str = "\n# Your root/src directory.\nroot = \"game\"\n# The port to host the sever at.\nport = 8080\n# Enable two_way_sync on the following (array)\ntwo_way_sync = [\n    \"ServerStorage\",\n    \"ServerScriptService\"\n]\n# Should include descendants when syncing back?\ntwo_way_descendants = true\n";

pub const SERVER_DIR: &'static str = "game/ServerScriptService/server";

pub const CLIENT_DIR: &'static str = "game/StarterPlayerScripts/client";

pub const SHARED_DIR: &'static str = "game/ReplicatedStorage/shared";

pub const HELLO_FILE: &'static str = "game/ServerScriptService/server/hello.server.luau";

pub const HELLO_SCRIPT: &'static str = "print(\"Hello from CreeperCLI! (server)\")";

/// The steps that set up a new project, in order: `creeper.toml` with the default
/// settings; the server, client and shared script directories; a greeting server script.
pub open spec fn init_steps() -> Seq<(bool, Seq<char>, Seq<char>)> {
    seq![
        (true, SETTINGS_FILE@, DEFAULT_SETTINGS@),
        (false, SERVER_DIR@, seq![]),
        (false, CLIENT_DIR@, seq![]),
        (false, SHARED_DIR@, seq![]),
        (true, HELLO_FILE@, HELLO_SCRIPT@),
    ]
}

/// The steps that set up a new project (see `init_steps`).
pub fn initialize() -> (r: Vec<InitStep>)
    ensures
        Seq::new(r@.len(), |i: int| step_view(r@[i])) == init_steps(),
{
    let mut steps: Vec<InitStep> = Vec::new();
    steps.push(
        InitStep::CreateFile(
            FileWrite {
                path: String::from_str(SETTINGS_FILE),
                contents: String::from_str(DEFAULT_SETTINGS),
            },
        ),
    );
    steps.push(InitStep::BuildDir(String::from_str(SERVER_DIR)));
    steps.push(InitStep::BuildDir(String::from_str(CLIENT_DIR)));
    steps.push(InitStep::BuildDir(String::from_str(SHARED_DIR)));
    steps.push(
        InitStep::CreateFile(
            FileWrite { path: String::from_str(HELLO_FILE), contents: String::from_str(HELLO_SCRIPT) },
        ),
    );
    assert(Seq::new(steps@.len(), |i: int| step_view(steps@[i])) =~= init_steps());
    steps
}

} // verus!
