//! The `creeper.toml` settings: reading them, and the server configuration they give.
use vstd::prelude::*;
use crate::text::same_text;

verus! {

/// One top-level setting: its name, and its value where that is an integer or a string.
pub struct SettingEntry {
    pub name: String,
    pub integer: Option<i64>,
    pub text: Option<String>,
}

/// The value of a setting: name, integer value, string value.
pub open spec fn entry_view(e: SettingEntry) -> (Seq<char>, Option<i64>, Option<Seq<char>>) {
    (
        e.name@,
        e.integer,
        match e.text {
            Some(t) => Some(t@),
            None => None,
        },
    )
}

/// The values of a sequence of settings.
pub open spec fn entries_view(v: Seq<SettingEntry>) -> Seq<(Seq<char>, Option<i64>, Option<Seq<char>>)> {
    Seq::new(v.len(), |i: int| entry_view(v[i]))
}

/// What `text.parse::<toml::Table>()` gives, if it parses: its top-level entries in the
/// table's iteration order (name; integer value; string value).
pub uninterp spec fn toml_table_entries(text: Seq<char>) -> Option<Seq<(Seq<char>, Option<i64>, Option<Seq<char>>)>>;

/// The compact JSON text that `serde_json::to_value(&table)` and `to_string` render for
/// the table that `text` parses to (meaningful where it parses).
pub uninterp spec fn toml_table_json(text: Seq<char>) -> Seq<char>;

/// The parsed table as values: its entries and its JSON text.
pub open spec fn toml_document(text: Seq<char>) -> Option<(Seq<(Seq<char>, Option<i64>, Option<Seq<char>>)>, Seq<char>)> {
    match toml_table_entries(text) {
        Some(e) => Some((e, toml_table_json(text))),
        None => None,
    }
}

/// Parses a TOML document with `toml::Table`'s `FromStr` and renders the table as JSON
/// with `serde_json::to_value` (what `json!` does) and `to_string`. The parse is named by
/// `toml_table_entries`, the rendering by `toml_table_json`. A TOML table always converts
/// to a JSON value.
#[verifier::external_body]
fn parse_toml(text: &str) -> (r: Option<(Vec<SettingEntry>, String)>)
    ensures
        match toml_table_entries(text@) {
            None => r is None,
            Some(e) => r matches Some(p) && entries_view(p.0@) == e && p.1@ == toml_table_json(text@),
        },
{
    let table = match text.parse::<toml::Table>() {
        Ok(table) => table,
        Err(_) => return None,
    };
    let json = serde_json::to_value(&table).unwrap().to_string();
    let entries = table.into_iter().map(|(name, value)| match value {
        toml::Value::Integer(i) => SettingEntry { name, integer: Some(i), text: None },
        toml::Value::String(s) => SettingEntry { name, integer: None, text: Some(s) },
        _ => SettingEntry { name, integer: None, text: None },
    }).collect();
    Some((entries, json))
}

/// The JSON text of a TOML document, if it parses.
pub fn toml_to_json(text: &str) -> (r: Option<String>)
    ensures
        match toml_document(text@) {
            None => r is None,
            Some(d) => r matches Some(j) && j@ == d.1,
        },
{
    match parse_toml(text) {
        Some(p) => Some(p.1),
        None => None,
    }
}

/// Parsed settings: the top-level entries and the whole table as JSON text.
pub struct Settings {
    pub entries: Vec<SettingEntry>,
    pub json: String,
}

/// Reads the settings from the text of `creeper.toml`; `Err` when it is not a TOML table.
pub fn get_settings(text: &str) -> (r: Result<Settings, ()>)
    ensures
        match toml_document(text@) {
            None => r is Err,
            Some(d) => r matches Ok(s) && entries_view(s.entries@) == d.0 && s.json@ == d.1,
        },
{
    match parse_toml(text) {
        Some(p) => Ok(Settings { entries: p.0, json: p.1 }),
        None => Err(()),
    }
}

/// Lower case as `str::to_lowercase` gives it (Unicode's Lowercase mapping).
pub uninterp spec fn lowercase_of(s: Seq<char>) -> Seq<char>;

/// `str::to_lowercase`; its result is named by `lowercase_of`.
#[verifier::external_body]
fn to_lowercase(s: &str) -> (r: String)
    ensures
        r@ == lowercase_of(s@),
{
    s.to_lowercase()
}

/// Where the server listens and which directory it serves.
pub struct ServerConfig {
    pub port: u16,
    pub root: String,
}

pub open spec fn port_name() -> Seq<char> {
    seq!['p', 'o', 'r', 't']
}

pub open spec fn root_name() -> Seq<char> {
    seq!['r', 'o', 'o', 't']
}

pub open spec fn default_root() -> Seq<char> {
    seq!['g', 'a', 'm', 'e']
}

/// The configuration before any setting: port 8080, root directory `game`.
pub open spec fn default_config() -> (u16, Seq<char>) {
    (8080u16, default_root())
}

/// One setting applied to a configuration, given the setting's lower-cased name:
/// `port` takes the integer value cut to 16 bits (8080 when the value is not an
/// integer); `root` takes the string value (`game` when it is not a string);
/// other names change nothing.
pub open spec fn apply_setting_spec(
    cfg: (u16, Seq<char>),
    lowered: Seq<char>,
    e: (Seq<char>, Option<i64>, Option<Seq<char>>),
) -> (u16, Seq<char>) {
    if lowered == port_name() {
        (
            match e.1 {
                Some(i) => i as u16,
                None => 8080u16,
            },
            cfg.1,
        )
    } else if lowered == root_name() {
        (
            cfg.0,
            match e.2 {
                Some(s) => s,
                None => default_root(),
            },
        )
    } else {
        cfg
    }
}

/// The configuration after applying `entries` in order.
pub open spec fn config_after(entries: Seq<(Seq<char>, Option<i64>, Option<Seq<char>>)>) -> (u16, Seq<char>)
    decreases entries.len(),
{
    if entries.len() == 0 {
        default_config()
    } else {
        let e = entries.last();
        apply_setting_spec(config_after(entries.drop_last()), lowercase_of(e.0), e)
    }
}

/// The configuration given by the settings, or the defaults where there are none.
pub open spec fn server_config_spec(settings: Option<Seq<(Seq<char>, Option<i64>, Option<Seq<char>>)>>) -> (u16, Seq<char>) {
    match settings {
        Some(entries) => config_after(entries),
        None => default_config(),
    }
}

pub open spec fn config_view(c: ServerConfig) -> (u16, Seq<char>) {
    (c.port, c.root@)
}

/// Applies one setting, whose name has already been lower-cased, to a configuration.
pub fn apply_setting(config: ServerConfig, lowered_name: &str, entry: &SettingEntry) -> (r: ServerConfig)
    ensures
        config_view(r) == apply_setting_spec(config_view(config), lowered_name@, entry_view(*entry)),
{
    proof {
        reveal_strlit("port");
        reveal_strlit("root");
        reveal_strlit("game");
        assert("port"@ =~= port_name());
        assert("root"@ =~= root_name());
        assert("game"@ =~= default_root());
    }
    if same_text(lowered_name, "port") {
        let port: u16 = match entry.integer {
            Some(i) => i as u16,
            None => 8080,
        };
        ServerConfig { port, root: config.root }
    } else if same_text(lowered_name, "root") {
        let root = match &entry.text {
            Some(s) => s.clone(),
            None => String::from_str("game"),
        };
        ServerConfig { port: config.port, root }
    } else {
        config
    }
}

/// The port and root directory the server starts with: 8080 and `game`, changed by the
/// `port` and `root` settings (names compared in lower case, later entries winning).
pub fn server_config(settings: &Result<Settings, ()>) -> (r: ServerConfig)
    ensures
        config_view(r) == server_config_spec(
            match settings {
                Ok(s) => Some(entries_view(s.entries@)),
                Err(_) => None,
            },
        ),
{
    proof {
        reveal_strlit("game");
        assert("game"@ =~= default_root());
    }
    let mut config = ServerConfig { port: 8080, root: String::from_str("game") };
    match settings {
        Ok(s) => {
            let ghost ev = entries_view(s.entries@);
            let mut i: usize = 0;
            while i < s.entries.len()
                invariant
                    ev == entries_view(s.entries@),
                    i <= s.entries.len(),
                    config_view(config) == config_after(ev.subrange(0, i as int)),
                decreases s.entries.len() - i,
            {
                let lowered = to_lowercase(s.entries[i].name.as_str());
                proof {
                    assert(ev.subrange(0, i + 1).drop_last() =~= ev.subrange(0, i as int));
                    assert(ev.subrange(0, i + 1).last() == entry_view(s.entries@[i as int]));
                }
                config = apply_setting(config, lowered.as_str(), &s.entries[i]);
                i = i + 1;
            }
            assert(ev.subrange(0, s.entries.len() as int) =~= ev);
        },
        Err(_) => {},
    }
    config
}

/// The last setting whose name is `port` in lower case decides the port: its integer value
/// cut to 16 bits, or 8080 when the value is not an integer; it leaves the root as the
/// earlier settings made it.
pub proof fn lemma_last_port_setting(entries: Seq<(Seq<char>, Option<i64>, Option<Seq<char>>)>)
    requires
        entries.len() > 0,
        lowercase_of(entries.last().0) == seq!['p', 'o', 'r', 't'],
    ensures
        config_after(entries).0 == match entries.last().1 {
            Some(i) => i as u16,
            None => 8080u16,
        },
        config_after(entries).1 == config_after(entries.drop_last()).1,
{
}

/// The last setting whose name is `root` in lower case decides the root directory: its
/// string value, or `game` when the value is not a string; it leaves the port as the
/// earlier settings made it.
pub proof fn lemma_last_root_setting(entries: Seq<(Seq<char>, Option<i64>, Option<Seq<char>>)>)
    requires
        entries.len() > 0,
        lowercase_of(entries.last().0) == seq!['r', 'o', 'o', 't'],
    ensures
        config_after(entries).1 == match entries.last().2 {
            Some(s) => s,
            None => seq!['g', 'a', 'm', 'e'],
        },
        config_after(entries).0 == config_after(entries.drop_last()).0,
{
}

/// Settings with neither a `port` nor a `root` name (in lower case) leave the server on
/// port 8080 serving `game`.
pub proof fn lemma_other_settings_change_nothing(entries: Seq<(Seq<char>, Option<i64>, Option<Seq<char>>)>)
    requires
        forall|k: int| 0 <= k < entries.len() ==> #[trigger] lowercase_of(entries[k].0) != seq!['p', 'o', 'r', 't']
            && lowercase_of(entries[k].0) != seq!['r', 'o', 'o', 't'],
    ensures
        config_after(entries) == (8080u16, seq!['g', 'a', 'm', 'e']),
    decreases entries.len(),
{
    if entries.len() > 0 {
        assert forall|k: int| 0 <= k < entries.drop_last().len() implies #[trigger] lowercase_of(
            entries.drop_last()[k].0,
        ) != seq!['p', 'o', 'r', 't'] && lowercase_of(entries.drop_last()[k].0) != seq!['r', 'o', 'o', 't'] by {
            assert(entries.drop_last()[k] == entries[k]);
        }
        lemma_other_settings_change_nothing(entries.drop_last());
        assert(lowercase_of(entries[entries.len() - 1].0) != seq!['p', 'o', 'r', 't']);
    }
}

} // verus!
