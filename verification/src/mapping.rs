//! Rendering a project tree as the JSON object the game client reads.
use vstd::prelude::*;
use crate::paths::{extension_of, file_name_of, path_extension, path_file_name};
use crate::text::{occurs_at, join_texts, contains_text, find_text, first_occurrence, has_text, lemma_first_occurrence, same_text, suffix_from};
use crate::tree::{forest, lemma_forest, FileTree, Node};

verus! {

/// The keys and values of a sequence of text pairs.
pub open spec fn pairs_view(v: Seq<(String, String)>) -> Seq<(Seq<char>, Seq<char>)> {
    Seq::new(v.len(), |i: int| (v[i].0@, v[i].1@))
}

/// The text `serde_json::to_string_pretty` gives for the JSON object whose members are
/// `entries`, each value a JSON string (the object keeps its members sorted by key, so
/// the text lists them in key order).
pub uninterp spec fn pretty_object_text(entries: Seq<(Seq<char>, Seq<char>)>) -> Seq<char>;

/// Renders the object with these members (each value a JSON string) by
/// `serde_json::to_string_pretty`. The result is named by `pretty_object_text`;
/// what the crate's source shows and is stated besides: an object without members
/// is written `{}`. Serialising a `Value` whose keys are strings cannot fail.
#[verifier::external_body]
fn pretty_json_object(entries: Vec<(String, String)>) -> (text: String)
    ensures
        text@ == pretty_object_text(pairs_view(entries@)),
        entries@.len() == 0 ==> text@ == seq!['{', '}'],
{
    let object: serde_json::Map<String, serde_json::Value> = entries
        .into_iter()
        .map(|(key, value)| (key, serde_json::Value::String(value)))
        .collect();
    serde_json::to_string_pretty(&serde_json::Value::Object(object)).unwrap()
}

/// Index of the first member of `m` with key `k`, at or after `from`.
pub open spec fn key_index_from(m: Seq<(Seq<char>, Seq<char>)>, k: Seq<char>, from: int) -> Option<int>
    decreases m.len() - from,
{
    if from < 0 || from >= m.len() {
        None
    } else if m[from].0 == k {
        Some(from)
    } else {
        key_index_from(m, k, from + 1)
    }
}

/// Map insertion as `HashMap::insert` does it: the value of an
/// existing key is replaced in place, a new key is added at the end.
pub open spec fn object_insert(m: Seq<(Seq<char>, Seq<char>)>, k: Seq<char>, v: Seq<char>) -> Seq<(Seq<char>, Seq<char>)> {
    match key_index_from(m, k, 0) {
        Some(j) => m.update(j, (k, v)),
        None => m.push((k, v)),
    }
}

/// The JSON key of a file: its file name, with `.json` added for `toml` and `json` files.
pub open spec fn file_key(path: Seq<char>) -> Seq<char> {
    let name = file_name_of(path).unwrap();
    let ext = extension_of(path).unwrap();
    if ext == seq!['t', 'o', 'm', 'l'] || ext == seq!['j', 's', 'o', 'n'] {
        name + seq!['.', 'j', 's', 'o', 'n']
    } else {
        name
    }
}

/// The JSON key of a directory: its path from the first place where the root name occurs.
pub open spec fn dir_key(path: Seq<char>, root: Seq<char>) -> Seq<char> {
    path.subrange(first_occurrence(path, root).unwrap(), path.len() as int)
}

/// The member that one entry contributes: a file's contents, or a directory's own object text.
pub open spec fn entry_of(n: Node, root: Seq<char>) -> (Seq<char>, Seq<char>)
    decreases n, 0int,
{
    match n {
        Node::File(path, content) => (file_key(path), content),
        Node::Dir(path, files) => (dir_key(path, root), map_text(files, root)),
    }
}

/// The members of the object for `tree`, inserted entry by entry.
pub open spec fn map_entries(tree: Seq<Node>, root: Seq<char>) -> Seq<(Seq<char>, Seq<char>)>
    decreases tree, 1int,
{
    if tree.len() == 0 {
        seq![]
    } else {
        let e = entry_of(tree.last(), root);
        object_insert(map_entries(tree.drop_last(), root), e.0, e.1)
    }
}

/// The JSON text for `tree`.
pub open spec fn map_text(tree: Seq<Node>, root: Seq<char>) -> Seq<char>
    decreases tree, 2int,
{
    pretty_object_text(map_entries(tree, root))
}

/// Every file (at any depth) has a file name and an extension, and every directory's
/// path holds the root name.
pub open spec fn mappable(tree: Seq<Node>, root: Seq<char>) -> bool
    decreases tree, 1int,
{
    if tree.len() == 0 {
        true
    } else {
        mappable(tree.drop_last(), root) && node_mappable(tree.last(), root)
    }
}

/// The entry and everything below it can be rendered.
pub open spec fn node_mappable(n: Node, root: Seq<char>) -> bool
    decreases n, 0int,
{
    match n {
        Node::File(path, _) => file_name_of(path) is Some && extension_of(path) is Some,
        Node::Dir(path, files) => contains_text(path, root) && mappable(files, root),
    }
}

proof fn lemma_mappable_index(tree: Seq<Node>, root: Seq<char>, i: int)
    requires
        mappable(tree, root),
        0 <= i < tree.len(),
    ensures
        node_mappable(tree[i], root),
    decreases tree.len(),
{
    if i < tree.len() - 1 {
        assert(tree.drop_last()[i] == tree[i]);
        lemma_mappable_index(tree.drop_last(), root, i);
    }
}

proof fn lemma_mappable_prefix(tree: Seq<Node>, root: Seq<char>, i: int)
    requires
        0 <= i < tree.len(),
        mappable(tree.subrange(0, i), root),
        node_mappable(tree[i], root),
    ensures
        mappable(tree.subrange(0, i + 1), root),
{
    assert(tree.subrange(0, i + 1).drop_last() =~= tree.subrange(0, i));
}

proof fn lemma_not_mappable_prefix(tree: Seq<Node>, root: Seq<char>, i: int)
    requires
        0 <= i < tree.len(),
        !node_mappable(tree[i], root),
    ensures
        !mappable(tree, root),
{
    if mappable(tree, root) {
        lemma_mappable_index(tree, root, i);
    }
}

/// Whether `tree` can be rendered with the root name `root` (see `mappable`).
pub fn can_map_tree(tree: &Vec<FileTree>, root: &str) -> (r: bool)
    ensures
        r == mappable(forest(tree@), root@),
    decreases tree@,
{
    proof {
        lemma_forest(tree@);
    }
    let ghost t = forest(tree@);
    let mut i: usize = 0;
    while i < tree.len()
        invariant
            t == forest(tree@),
            t.len() == tree@.len(),
            forall|j: int| 0 <= j < tree@.len() ==> #[trigger] t[j] == tree@[j].node(),
            i <= tree.len(),
            mappable(t.subrange(0, i as int), root@),
        decreases tree.len() - i,
    {
        let ok = match &tree[i] {
            FileTree::File(path, _) => {
                path_file_name(path.as_str()).is_some() && path_extension(path.as_str()).is_some()
            },
            FileTree::Directory(path, files) => {
                proof {
                    assert(decreases_to!(tree@ => tree@[i as int]));
                }
                has_text(path.as_str(), root) && can_map_tree(files, root)
            },
        };
        if !ok {
            proof {
                lemma_not_mappable_prefix(t, root@, i as int);
            }
            return false;
        }
        proof {
            lemma_mappable_prefix(t, root@, i as int);
        }
        i = i + 1;
    }
    assert(t.subrange(0, t.len() as int) =~= t);
    true
}

fn insert_member(m: &mut Vec<(String, String)>, k: String, v: String)
    ensures
        pairs_view(final(m)@) == object_insert(pairs_view(old(m)@), k@, v@),
{
    let ghost pm = pairs_view(m@);
    let mut j: usize = 0;
    while j < m.len()
        invariant
            pm == pairs_view(m@),
            pm == pairs_view(old(m)@),
            j <= m.len(),
            key_index_from(pm, k@, 0) == key_index_from(pm, k@, j as int),
        decreases m.len() - j,
    {
        if m[j].0.eq(&k) {
            proof {
                assert(pm[j as int].0 == k@);
            }
            m.set(j, (k, v));
            proof {
                assert(pairs_view(m@) =~= pm.update(j as int, (k@, v@)));
            }
            return;
        }
        proof {
            assert(pm[j as int].0 != k@);
        }
        j = j + 1;
    }
    m.push((k, v));
    proof {
        assert(pairs_view(m@) =~= pm.push((k@, v@)));
    }
}

fn map_forest(tree: &Vec<FileTree>, root: &str) -> (r: String)
    requires
        mappable(forest(tree@), root@),
    ensures
        r@ == map_text(forest(tree@), root@),
        tree@.len() == 0 ==> r@ == seq!['{', '}'],
    decreases tree@,
{
    proof {
        lemma_forest(tree@);
    }
    let ghost t = forest(tree@);
    let mut members: Vec<(String, String)> = Vec::new();
    let mut i: usize = 0;
    while i < tree.len()
        invariant
            t == forest(tree@),
            t.len() == tree@.len(),
            forall|j: int| 0 <= j < tree@.len() ==> #[trigger] t[j] == tree@[j].node(),
            mappable(t, root@),
            i <= tree.len(),
            pairs_view(members@) == map_entries(t.subrange(0, i as int), root@),
        decreases tree.len() - i,
    {
        proof {
            lemma_mappable_index(t, root@, i as int);
        }
        let (key, value) = match &tree[i] {
            FileTree::File(path, content) => {
                let name = path_file_name(path.as_str()).unwrap();
                let ext = path_extension(path.as_str()).unwrap();
                let key = if same_text(ext.as_str(), "toml") || same_text(ext.as_str(), "json") {
                    join_texts(name.as_str(), ".json")
                } else {
                    name
                };
                proof {
                    reveal_strlit("toml");
                    reveal_strlit("json");
                    reveal_strlit(".json");
                    assert("toml"@ =~= seq!['t', 'o', 'm', 'l']);
                    assert("json"@ =~= seq!['j', 's', 'o', 'n']);
                    assert(".json"@ =~= seq!['.', 'j', 's', 'o', 'n']);
                }
                (key, content.clone())
            },
            FileTree::Directory(path, files) => {
                proof {
                    lemma_first_occurrence(path@, root@);
                    assert(decreases_to!(tree@ => tree@[i as int]));
                }
                let at = find_text(path.as_str(), root).unwrap();
                let key = suffix_from(path.as_str(), at);
                let value = map_forest(files, root);
                (key, value)
            },
        };
        proof {
            assert(t.subrange(0, i + 1).drop_last() =~= t.subrange(0, i as int));
            assert(t.subrange(0, i + 1).last() == t[i as int]);
            assert(entry_of(t[i as int], root@) == (key@, value@));
            assert(map_entries(t.subrange(0, i + 1), root@) == object_insert(
                map_entries(t.subrange(0, i as int), root@),
                key@,
                value@,
            ));
        }
        insert_member(&mut members, key, value);
        i = i + 1;
    }
    assert(t.subrange(0, t.len() as int) =~= t);
    pretty_json_object(members)
}

/// The JSON text of `tree`: an object with one member per entry (files by file name,
/// `toml` and `json` files with `.json` added, holding their contents; directories by
/// their path from the root name on, holding their own object's text).
pub fn map_tree(tree: Vec<FileTree>, root: &str) -> (r: String)
    requires
        mappable(forest(tree@), root@),
    ensures
        r@ == map_text(forest(tree@), root@),
        tree@.len() == 0 ==> r@ == seq!['{', '}'],
{
    map_forest(&tree, root)
}

/// The JSON text of `tree`, or `None` where a file lacks a file name or an extension
/// or a directory's path does not hold the root name.
pub fn try_map_tree(tree: Vec<FileTree>, root: &str) -> (r: Option<String>)
    ensures
        r is Some <==> mappable(forest(tree@), root@),
        r matches Some(text) ==> text@ == map_text(forest(tree@), root@),
{
    if can_map_tree(&tree, root) {
        Some(map_tree(tree, root))
    } else {
        None
    }
}

/// The key under which an entry is rendered.
pub open spec fn key_of(n: Node, root: Seq<char>) -> Seq<char> {
    match n {
        Node::File(path, _) => file_key(path),
        Node::Dir(path, _) => dir_key(path, root),
    }
}

proof fn lemma_key_index_found(m: Seq<(Seq<char>, Seq<char>)>, k: Seq<char>, from: int)
    requires
        0 <= from,
    ensures
        match key_index_from(m, k, from) {
            Some(j) => from <= j < m.len() && m[j].0 == k,
            None => forall|j: int| from <= j < m.len() ==> m[j].0 != k,
        },
    decreases m.len() - from,
{
    if from < m.len() && m[from].0 != k {
        lemma_key_index_found(m, k, from + 1);
    }
}

proof fn lemma_insert_holds_member(m: Seq<(Seq<char>, Seq<char>)>, k: Seq<char>, v: Seq<char>)
    ensures
        object_insert(m, k, v).contains((k, v)),
{
    lemma_key_index_found(m, k, 0);
    match key_index_from(m, k, 0) {
        Some(j) => assert(object_insert(m, k, v)[j] == (k, v)),
        None => assert(object_insert(m, k, v)[m.len() as int] == (k, v)),
    }
}

proof fn lemma_insert_keeps_member(
    m: Seq<(Seq<char>, Seq<char>)>,
    member: (Seq<char>, Seq<char>),
    k: Seq<char>,
    v: Seq<char>,
)
    requires
        m.contains(member),
        member.0 != k,
    ensures
        object_insert(m, k, v).contains(member),
{
    lemma_key_index_found(m, k, 0);
    let j = choose|j: int| 0 <= j < m.len() && m[j] == member;
    assert(object_insert(m, k, v)[j] == member);
}

/// A directory's member holds the rendering of the directory's own entries (for a
/// directory with no entries, the rendering of the object of no entries), under the
/// directory's key, unless a later entry has the same key.
pub proof fn lemma_directory_member(tree: Seq<Node>, root: Seq<char>, i: int)
    requires
        0 <= i < tree.len(),
        tree[i] is Dir,
        forall|j: int| i < j < tree.len() ==> #[trigger] key_of(tree[j], root) != key_of(tree[i], root),
    ensures
        match tree[i] {
            Node::Dir(path, files) => map_entries(tree, root).contains(
                (dir_key(path, root), map_text(files, root)),
            ),
            Node::File(_, _) => true,
        },
    decreases tree.len(),
{
    let e = entry_of(tree.last(), root);
    assert(e.0 == key_of(tree.last(), root));
    match tree[i] {
        Node::Dir(path, files) => {
            assert(entry_of(tree[i], root) == (dir_key(path, root), map_text(files, root)));
            if i == tree.len() - 1 {
                lemma_insert_holds_member(map_entries(tree.drop_last(), root), e.0, e.1);
            } else {
                assert(tree.drop_last()[i] == tree[i]);
                assert forall|j: int| i < j < tree.drop_last().len() implies #[trigger] key_of(
                    tree.drop_last()[j],
                    root,
                ) != key_of(tree.drop_last()[i], root) by {
                    assert(tree.drop_last()[j] == tree[j]);
                }
                lemma_directory_member(tree.drop_last(), root, i);
                assert(key_of(tree[tree.len() - 1], root) != key_of(tree[i], root));
                lemma_insert_keeps_member(
                    map_entries(tree.drop_last(), root),
                    (dir_key(path, root), map_text(files, root)),
                    e.0,
                    e.1,
                );
            }
        },
        Node::File(_, _) => {},
    }
}

/// The key a file is rendered under: its file name, with `.json` added when its extension
/// is `toml` or `json`.
pub proof fn lemma_file_key(path: Seq<char>, name: Seq<char>, ext: Seq<char>)
    requires
        file_name_of(path) == Some(name),
        extension_of(path) == Some(ext),
    ensures
        (ext == "toml"@ || ext == "json"@) ==> file_key(path) == name + ".json"@,
        !(ext == "toml"@ || ext == "json"@) ==> file_key(path) == name,
{
    reveal_strlit("toml");
    reveal_strlit("json");
    reveal_strlit(".json");
    assert("toml"@ =~= seq!['t', 'o', 'm', 'l']);
    assert("json"@ =~= seq!['j', 's', 'o', 'n']);
    assert(".json"@ =~= seq!['.', 'j', 's', 'o', 'n']);
}

/// The key a directory is rendered under is its path from the first place where the root
/// name occurs: the path ends with it, it starts with the root name, and the root name
/// occurs nowhere earlier in the path.
pub proof fn lemma_dir_key(path: Seq<char>, root: Seq<char>)
    requires
        contains_text(path, root),
    ensures
        ({
            let k = dir_key(path, root);
            let j = path.len() - k.len();
            &&& 0 <= j <= path.len()
            &&& path == path.subrange(0, j) + k
            &&& root.len() <= k.len() && k.subrange(0, root.len() as int) == root
            &&& forall|m: int| 0 <= m < j ==> !occurs_at(path, root, m)
        }),
{
    lemma_first_occurrence(path, root);
    let j = first_occurrence(path, root).unwrap();
    let k = dir_key(path, root);
    assert(path =~= path.subrange(0, j) + k);
    assert(k.subrange(0, root.len() as int) =~= path.subrange(j, j + root.len()));
}

/// A file's member holds the file's contents under the file's key, unless a later entry
/// has the same key.
pub proof fn lemma_file_member(tree: Seq<Node>, root: Seq<char>, i: int)
    requires
        0 <= i < tree.len(),
        tree[i] is File,
        forall|j: int| i < j < tree.len() ==> #[trigger] key_of(tree[j], root) != key_of(tree[i], root),
    ensures
        match tree[i] {
            Node::File(path, content) => map_entries(tree, root).contains((file_key(path), content)),
            Node::Dir(_, _) => true,
        },
    decreases tree.len(),
{
    let e = entry_of(tree.last(), root);
    assert(e.0 == key_of(tree.last(), root));
    match tree[i] {
        Node::File(path, content) => {
            assert(entry_of(tree[i], root) == (file_key(path), content));
            if i == tree.len() - 1 {
                lemma_insert_holds_member(map_entries(tree.drop_last(), root), e.0, e.1);
            } else {
                assert(tree.drop_last()[i] == tree[i]);
                assert forall|j: int| i < j < tree.drop_last().len() implies #[trigger] key_of(
                    tree.drop_last()[j],
                    root,
                ) != key_of(tree.drop_last()[i], root) by {
                    assert(tree.drop_last()[j] == tree[j]);
                }
                lemma_file_member(tree.drop_last(), root, i);
                assert(key_of(tree[tree.len() - 1], root) != key_of(tree[i], root));
                lemma_insert_keeps_member(map_entries(tree.drop_last(), root), (file_key(path), content), e.0, e.1);
            }
        },
        Node::Dir(_, _) => {},
    }
}

} // verus!
