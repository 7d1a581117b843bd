//! Reading members of JSON texts.
use vstd::prelude::*;

verus! {

/// A JSON string's text: at least its two quotes, one first and one last.
pub open spec fn json_string_text(t: Seq<char>) -> bool {
    t.len() >= 2 && t[0] == '"' && t[t.len() - 1] == '"'
}

/// What `serde_json::from_str::<serde_json::Value>` makes of a text, if it is JSON: for
/// the member `key` of the top-level object, when that member is an array, its items,
/// each as its string value (where it is a JSON string) and its JSON text (`to_string`).
pub uninterp spec fn json_member_items(text: Seq<char>, key: Seq<char>) -> Option<Option<Seq<(Option<Seq<char>>, Seq<char>)>>>;

pub open spec fn opt_text(o: Option<String>) -> Option<Seq<char>> {
    match o {
        Some(s) => Some(s@),
        None => None,
    }
}

pub open spec fn items_view(v: Seq<(Option<String>, String)>) -> Seq<(Option<Seq<char>>, Seq<char>)> {
    Seq::new(v.len(), |i: int| (opt_text(v[i].0), v[i].1@))
}

/// Parses a text with `serde_json` and reads the items of one member of its top-level
/// object. The result is named by `json_member_items`: `None` when the text is not JSON,
/// `Some(None)` when there is no such member or it is not an array. What serde_json's
/// writer shows besides: a string item's JSON text begins and ends with a quote.
#[verifier::external_body]
pub(crate) fn json_member_array(text: &str, key: &str) -> (r: Option<Option<Vec<(Option<String>, String)>>>)
    ensures
        match json_member_items(text@, key@) {
            None => r is None,
            Some(None) => r matches Some(m) && m is None,
            Some(Some(items)) => r matches Some(m) && m matches Some(v) && items_view(v@) == items
                && forall|i: int| 0 <= i < items.len() && #[trigger] items[i].0 is Some
                    ==> json_string_text(items[i].1),
        },
{
    let value: serde_json::Value = serde_json::from_str(text).ok()?;
    let items = value.get(key).and_then(|member| member.as_array());
    Some(items.map(|items| items.iter().map(|item| (item.as_str().map(|s| s.to_string()), item.to_string())).collect()))
}

/// What `serde_json::from_str::<serde_json::Value>` makes of a text, if it is JSON: for
/// the member `key` of the top-level object, when that member is an array, for each of
/// its items the string values of the item's members named `fields`, in that order
/// (`None` where the item has no such member or it is not a string).
pub uninterp spec fn json_member_field_strings(text: Seq<char>, key: Seq<char>, fields: Seq<Seq<char>>) -> Option<Option<Seq<Seq<Option<Seq<char>>>>>>;

pub open spec fn texts_of(v: Seq<String>) -> Seq<Seq<char>> {
    Seq::new(v.len(), |i: int| v[i]@)
}

pub open spec fn opt_texts_of(v: Seq<Option<String>>) -> Seq<Option<Seq<char>>> {
    Seq::new(v.len(), |i: int| opt_text(v[i]))
}

pub open spec fn rows_view(v: Seq<Vec<Option<String>>>) -> Seq<Seq<Option<Seq<char>>>> {
    Seq::new(v.len(), |i: int| opt_texts_of(v[i]@))
}

/// Parses a text with `serde_json` and reads, for each item of one member of its
/// top-level object, the string members named `fields`. The result is named by
/// `json_member_field_strings`; each item gives one value per field.
#[verifier::external_body]
pub(crate) fn json_member_fields(text: &str, key: &str, fields: &Vec<String>) -> (r: Option<Option<Vec<Vec<Option<String>>>>>)
    ensures
        match json_member_field_strings(text@, key@, texts_of(fields@)) {
            None => r is None,
            Some(None) => r matches Some(m) && m is None,
            Some(Some(rows)) => r matches Some(m) && m matches Some(v) && rows_view(v@) == rows
                && forall|i: int| 0 <= i < rows.len() ==> #[trigger] rows[i].len() == fields@.len(),
        },
{
    let value: serde_json::Value = serde_json::from_str(text).ok()?;
    let items = value.get(key).and_then(|member| member.as_array());
    Some(items.map(|items| items.iter().map(|item| fields.iter().map(|field| item.get(field.as_str()).and_then(|v| v.as_str()).map(|s| s.to_string())).collect()).collect()))
}

} // verus!
