//! Decoding the requests the game client posts.
use vstd::prelude::*;
use crate::json::{items_view, json_member_array, json_member_items, json_string_text, opt_text};
use crate::text::{can_trim, remove_char, same_text, strip_outer, trims_cleanly, without_char};

verus! {

/// What a posted request asks for.
pub enum PostAction {
    /// A client connected; its name is given. Answer with the whole tree.
    Init { client: String },
    /// Answer with the settings as JSON.
    Settings,
    /// Write a script received from the client.
    File { path: String, contents: String, file_type: String },
    /// Write the sourcemap from the received text (the request carries two texts).
    Sourcemap { data: String, extra: String },
    /// Nothing to do.
    Other,
}

pub open spec fn init_kind() -> Seq<char> {
    "__INIT__"@
}

pub open spec fn settings_kind() -> Seq<char> {
    "__SETTINGS__"@
}

pub open spec fn file_kind() -> Seq<char> {
    "__FILE__"@
}

pub open spec fn sourcemap_kind() -> Seq<char> {
    "__SOURCEMAP__"@
}

/// The request can be decoded: `args` holds the JSON texts of `data[1]`, `data[2]` and
/// `data[3]`, and those that the request kind unquotes lose their first and last
/// character by a byte slice.
pub open spec fn post_decodable(kind: Seq<char>, args: Seq<Seq<char>>) -> bool {
    &&& args.len() >= 3
    &&& kind == file_kind() ==> trims_cleanly(args[0]) && trims_cleanly(args[1]) && trims_cleanly(args[2])
    &&& kind == sourcemap_kind() ==> trims_cleanly(args[0]) && trims_cleanly(args[1])
}

pub open spec fn args_view(args: Seq<String>) -> Seq<Seq<char>> {
    Seq::new(args.len(), |i: int| args[i]@)
}

/// A JSON string's text without its quotes.
pub open spec fn unquoted(s: Seq<char>) -> Seq<char> {
    s.subrange(1, s.len() - 1)
}

/// The decoded request: `__INIT__` names the client by `data[1]`'s text with its `"`
/// removed; `__SETTINGS__`; `__FILE__` gives path, contents and file type unquoted from
/// `data[1..4]`; `__SOURCEMAP__` gives `data[1]` and `data[2]` unquoted; anything else
/// asks for nothing.
pub open spec fn decode_post_spec(kind: Seq<char>, args: Seq<Seq<char>>) -> (int, Seq<Seq<char>>) {
    if kind == init_kind() {
        (0, seq![without_char(args[0], '"')])
    } else if kind == settings_kind() {
        (1, seq![])
    } else if kind == file_kind() {
        (2, seq![unquoted(args[0]), unquoted(args[1]), unquoted(args[2])])
    } else if kind == sourcemap_kind() {
        (3, seq![unquoted(args[0]), unquoted(args[1])])
    } else {
        (4, seq![])
    }
}

/// The value of a decoded request: its kind's number and its texts.
pub open spec fn action_view(a: PostAction) -> (int, Seq<Seq<char>>) {
    match a {
        PostAction::Init { client } => (0, seq![client@]),
        PostAction::Settings => (1, seq![]),
        PostAction::File { path, contents, file_type } => (2, seq![path@, contents@, file_type@]),
        PostAction::Sourcemap { data, extra } => (3, seq![data@, extra@]),
        PostAction::Other => (4, seq![]),
    }
}

/// Whether a request of this kind with these argument texts can be decoded.
pub fn post_is_decodable(kind: &str, args: &Vec<String>) -> (r: bool)
    ensures
        r == post_decodable(kind@, args_view(args@)),
{
    if args.len() < 3 {
        return false;
    }
    let ghost a = args_view(args@);
    if same_text(kind, "__FILE__") {
        can_trim(args[0].as_str()) && can_trim(args[1].as_str()) && can_trim(args[2].as_str())
    } else if same_text(kind, "__SOURCEMAP__") {
        proof {
            assert(kind@ != file_kind());
        }
        can_trim(args[0].as_str()) && can_trim(args[1].as_str())
    } else {
        true
    }
}

/// Decodes a posted request from its kind (`data[0]`) and the JSON texts of
/// `data[1]`, `data[2]` and `data[3]` (see `decode_post_spec`).
pub fn decode_post(kind: &str, args: &Vec<String>) -> (r: PostAction)
    requires
        post_decodable(kind@, args_view(args@)),
    ensures
        action_view(r) == decode_post_spec(kind@, args_view(args@)),
{
    let ghost a = args_view(args@);
    assert(a[0] == args@[0]@ && a[1] == args@[1]@ && a[2] == args@[2]@);
    if same_text(kind, "__INIT__") {
        PostAction::Init { client: remove_char(args[0].as_str(), '"') }
    } else if same_text(kind, "__SETTINGS__") {
        PostAction::Settings
    } else if same_text(kind, "__FILE__") {
        PostAction::File {
            path: strip_outer(args[0].as_str()),
            contents: strip_outer(args[1].as_str()),
            file_type: strip_outer(args[2].as_str()),
        }
    } else if same_text(kind, "__SOURCEMAP__") {
        PostAction::Sourcemap {
            data: strip_outer(args[0].as_str()),
            extra: strip_outer(args[1].as_str()),
        }
    } else {
        PostAction::Other
    }
}

/// A JSON string's text: the characters between quotes (escapes already in place).
pub open spec fn quoted(s: Seq<char>) -> Seq<char> {
    seq!['"'] + s + seq!['"']
}

/// A script request whose arguments are quoted texts decodes to those texts.
pub proof fn lemma_file_request_unquotes(path: Seq<char>, contents: Seq<char>, file_type: Seq<char>)
    ensures
        decode_post_spec(file_kind(), seq![quoted(path), quoted(contents), quoted(file_type)]) == (
            2int,
            seq![path, contents, file_type],
        ),
{
    reveal_strlit("__INIT__");
    reveal_strlit("__SETTINGS__");
    reveal_strlit("__FILE__");
    assert(quoted(path).subrange(1, quoted(path).len() - 1) =~= path);
    assert(quoted(contents).subrange(1, quoted(contents).len() - 1) =~= contents);
    assert(quoted(file_type).subrange(1, quoted(file_type).len() - 1) =~= file_type);
    assert(file_kind()[2] != init_kind()[2]);
    assert(file_kind()[2] != settings_kind()[2]);
}

/// The items of a member, as values.
pub open spec fn data_view(d: Option<Vec<(Option<String>, String)>>) -> Option<Seq<(Option<Seq<char>>, Seq<char>)>> {
    match d {
        Some(v) => Some(items_view(v@)),
        None => None,
    }
}

/// The JSON text of a missing item.
pub open spec fn null_text() -> Seq<char> {
    "null"@
}

/// The JSON text of item `i`, `null` where the array is shorter.
pub open spec fn item_text(items: Seq<(Option<Seq<char>>, Seq<char>)>, i: int) -> Seq<char> {
    if 0 <= i < items.len() {
        items[i].1
    } else {
        null_text()
    }
}

/// The request's kind: the `data` array's first item, where it is a string.
pub open spec fn request_kind(data: Option<Seq<(Option<Seq<char>>, Seq<char>)>>) -> Option<Seq<char>> {
    match data {
        Some(items) => if items.len() > 0 {
            items[0].0
        } else {
            None
        },
        None => None,
    }
}

/// The request's argument texts: those of `data[1]`, `data[2]` and `data[3]`.
pub open spec fn request_args(data: Option<Seq<(Option<Seq<char>>, Seq<char>)>>) -> Seq<Seq<char>> {
    match data {
        Some(items) => seq![item_text(items, 1), item_text(items, 2), item_text(items, 3)],
        None => seq![null_text(), null_text(), null_text()],
    }
}

fn item_text_at(items: &Option<Vec<(Option<String>, String)>>, i: usize) -> (r: String)
    ensures
        r@ == request_args_at(data_view(*items), i as int),
{
    match items {
        Some(v) => {
            if i < v.len() {
                v[i].1.clone()
            } else {
                String::from_str("null")
            }
        },
        None => String::from_str("null"),
    }
}

/// The JSON text of item `i` of the `data` array, `null` where it is missing.
pub open spec fn request_args_at(data: Option<Seq<(Option<Seq<char>>, Seq<char>)>>, i: int) -> Seq<char> {
    match data {
        Some(items) => item_text(items, i),
        None => null_text(),
    }
}

/// A request body read: not JSON; no string kind in `data[0]`; arguments that cannot be
/// unquoted; or the decoded request.
pub enum PostRequest {
    NotJson,
    NoKind,
    Undecodable,
    Decoded(PostAction),
}

/// Reads and decodes a request body: its `data` array gives the kind (`data[0]`) and the
/// argument texts (`data[1..4]`, `null` where missing), decoded by `decode_post_spec`.
pub fn parse_post(body: &str) -> (r: PostRequest)
    ensures
        match json_member_items(body@, "data"@) {
            None => r is NotJson,
            Some(data) => match request_kind(data) {
                None => r is NoKind,
                Some(kind) => if post_decodable(kind, request_args(data)) {
                    r matches PostRequest::Decoded(a) && action_view(a) == decode_post_spec(
                        kind,
                        request_args(data),
                    )
                } else {
                    r is Undecodable
                },
            },
        },
        json_member_items(body@, "data"@) matches Some(data) ==> request_args(data).len() == 3,
        json_member_items(body@, "data"@) matches Some(Some(items)) ==> (
            items.len() >= 4 && items[0].0 == Some(file_kind()) && items[1].0 is Some
                && items[2].0 is Some && items[3].0 is Some
            ==> (r matches PostRequest::Decoded(a) && action_view(a) == (
                2int,
                seq![unquoted(items[1].1), unquoted(items[2].1), unquoted(items[3].1)],
            ))),
{
    proof {
        reveal_strlit("null");
        reveal_strlit("__INIT__");
        reveal_strlit("__SETTINGS__");
        reveal_strlit("__FILE__");
        assert(file_kind()[2] != init_kind()[2]);
        assert(file_kind()[2] != settings_kind()[2]);
    }
    let data = match json_member_array(body, "data") {
        None => return PostRequest::NotJson,
        Some(data) => data,
    };
    let ghost dv = data_view(data);
    let kind: Option<String> = match &data {
        Some(v) => {
            if v.len() > 0 {
                v[0].0.clone()
            } else {
                None
            }
        },
        None => None,
    };
    let args = vec![item_text_at(&data, 1), item_text_at(&data, 2), item_text_at(&data, 3)];
    proof {
        assert(args_view(args@) =~= request_args(dv));
        assert(opt_text(kind) == request_kind(dv));
    }
    match kind {
        None => PostRequest::NoKind,
        Some(k) => {
            if post_is_decodable(k.as_str(), &args) {
                PostRequest::Decoded(decode_post(k.as_str(), &args))
            } else {
                PostRequest::Undecodable
            }
        },
    }
}

} // verus!
