//! Turning a directory listing into the project tree that is served.
use vstd::prelude::*;
use crate::paths::{extension_of, path_extension};
use crate::settings::{toml_document, toml_to_json};
use crate::text::same_text;
use crate::trim::{extensions_present, lemma_extensions_index, node_extensions_present};
use crate::tree::{copy_tree, forest, lemma_forest, lemma_forest_push, FileTree, Node};

verus! {

pub open spec fn toml_ext() -> Seq<char> {
    seq!['t', 'o', 'm', 'l']
}

/// What one listed entry becomes in the served tree: a directory with its entries
/// scanned; a file without an extension is left out; a `toml` file is served as the JSON
/// of its table, and left out when it does not parse; any other file as it is.
pub open spec fn scan_node(n: Node) -> Seq<Node>
    decreases n, 0int,
{
    match n {
        Node::Dir(path, children) => seq![Node::Dir(path, scan_nodes(children))],
        Node::File(path, content) => match extension_of(path) {
            None => seq![],
            Some(e) => if e == toml_ext() {
                match toml_document(content) {
                    Some(d) => seq![Node::File(path, d.1)],
                    None => seq![],
                }
            } else {
                seq![Node::File(path, content)]
            },
        },
    }
}

/// The served tree for a listing, entry by entry.
pub open spec fn scan_nodes(listing: Seq<Node>) -> Seq<Node>
    decreases listing, 1int,
{
    if listing.len() == 0 {
        seq![]
    } else {
        scan_nodes(listing.drop_last()) + scan_node(listing.last())
    }
}

/// The paths of the `toml` files that do not parse, for one entry, depth first.
pub open spec fn node_rejects(n: Node) -> Seq<Seq<char>>
    decreases n, 0int,
{
    match n {
        Node::Dir(_, children) => rejects(children),
        Node::File(path, content) => match extension_of(path) {
            Some(e) => if e == toml_ext() && toml_document(content) is None {
                seq![path]
            } else {
                seq![]
            },
            None => seq![],
        },
    }
}

/// The paths of the `toml` files of a listing that do not parse, depth first in listing order.
pub open spec fn rejects(listing: Seq<Node>) -> Seq<Seq<char>>
    decreases listing, 1int,
{
    if listing.len() == 0 {
        seq![]
    } else {
        rejects(listing.drop_last()) + node_rejects(listing.last())
    }
}

/// The served tree, and the paths of `toml` files that were left out because they do
/// not parse (to be reported to the user).
pub struct TreeScan {
    pub tree: Vec<FileTree>,
    pub unparsable: Vec<String>,
}

pub open spec fn texts_view(v: Seq<String>) -> Seq<Seq<char>> {
    Seq::new(v.len(), |i: int| v[i]@)
}

/// Builds the served tree from a listing of the project directory, in which every file
/// holds the text read from it (see `scan_node`).
pub fn get_tree(listing: &Vec<FileTree>) -> (r: TreeScan)
    ensures
        forest(r.tree@) == scan_nodes(forest(listing@)),
        texts_view(r.unparsable@) == rejects(forest(listing@)),
    decreases listing@,
{
    proof {
        lemma_forest(listing@);
        reveal_strlit("toml");
        assert("toml"@ =~= toml_ext());
    }
    let ghost l = forest(listing@);
    let mut tree: Vec<FileTree> = Vec::new();
    let mut unparsable: Vec<String> = Vec::new();
    let mut i: usize = 0;
    while i < listing.len()
        invariant
            l == forest(listing@),
            l.len() == listing@.len(),
            forall|j: int| 0 <= j < listing@.len() ==> #[trigger] l[j] == listing@[j].node(),
            "toml"@ == toml_ext(),
            i <= listing.len(),
            forest(tree@) == scan_nodes(l.subrange(0, i as int)),
            texts_view(unparsable@) == rejects(l.subrange(0, i as int)),
        decreases listing.len() - i,
    {
        let ghost tree_before = forest(tree@);
        let ghost rej_before = texts_view(unparsable@);
        match &listing[i] {
            FileTree::Directory(path, children) => {
                proof {
                    assert(decreases_to!(listing@ => listing@[i as int]));
                }
                let inner = get_tree(children);
                let e = FileTree::Directory(path.clone(), inner.tree);
                proof {
                    lemma_forest_push(tree@, e);
                }
                tree.push(e);
                let mut k: usize = 0;
                let ghost before_inner = unparsable@;
                while k < inner.unparsable.len()
                    invariant
                        k <= inner.unparsable.len(),
                        before_inner.len() + k == unparsable@.len(),
                        texts_view(unparsable@) == texts_view(before_inner) + texts_view(
                            inner.unparsable@,
                        ).subrange(0, k as int),
                    decreases inner.unparsable.len() - k,
                {
                    let ghost prev = unparsable@;
                    unparsable.push(inner.unparsable[k].clone());
                    proof {
                        assert(texts_view(unparsable@) =~= texts_view(prev).push(
                            inner.unparsable@[k as int]@,
                        ));
                        assert(texts_view(unparsable@) =~= texts_view(before_inner) + texts_view(
                            inner.unparsable@,
                        ).subrange(0, k + 1));
                    }
                    k = k + 1;
                }
                proof {
                    assert(texts_view(inner.unparsable@).subrange(0, k as int) =~= texts_view(
                        inner.unparsable@,
                    ));
                    assert(scan_node(l[i as int]) == seq![e.node()]);
                    assert(node_rejects(l[i as int]) == texts_view(inner.unparsable@));
                }
            },
            FileTree::File(path, content) => {
                match path_extension(path.as_str()) {
                    None => {
                        proof {
                            assert(scan_node(l[i as int]) =~= Seq::<Node>::empty());
                            assert(node_rejects(l[i as int]) =~= Seq::<Seq<char>>::empty());
                        }
                    },
                    Some(e) => {
                        if same_text(e.as_str(), "toml") {
                            match toml_to_json(content.as_str()) {
                                Some(json) => {
                                    let f = FileTree::File(path.clone(), json);
                                    proof {
                                        lemma_forest_push(tree@, f);
                                        assert(scan_node(l[i as int]) == seq![f.node()]);
                                        assert(node_rejects(l[i as int]) =~= Seq::<Seq<char>>::empty());
                                    }
                                    tree.push(f);
                                },
                                None => {
                                    let p = path.clone();
                                    proof {
                                        assert(scan_node(l[i as int]) =~= Seq::<Node>::empty());
                                        assert(node_rejects(l[i as int]) == seq![p@]);
                                    }
                                    unparsable.push(p);
                                },
                            }
                        } else {
                            let f = copy_tree(&listing[i]);
                            proof {
                                lemma_forest_push(tree@, f);
                                assert(scan_node(l[i as int]) == seq![f.node()]);
                                assert(node_rejects(l[i as int]) =~= Seq::<Seq<char>>::empty());
                            }
                            tree.push(f);
                        }
                    },
                }
            },
        }
        proof {
            assert(l.subrange(0, i + 1).drop_last() =~= l.subrange(0, i as int));
            assert(l.subrange(0, i + 1).last() == l[i as int]);
            assert(scan_nodes(l.subrange(0, i + 1)) == tree_before + scan_node(l[i as int]));
            assert(rejects(l.subrange(0, i + 1)) == rej_before + node_rejects(l[i as int]));
            assert(forest(tree@) =~= tree_before + scan_node(l[i as int]));
            assert(texts_view(unparsable@) =~= rej_before + node_rejects(l[i as int]));
        }
        i = i + 1;
    }
    proof {
        assert(l.subrange(0, l.len() as int) =~= l);
    }
    TreeScan { tree, unparsable }
}

proof fn lemma_extensions_present_concat(a: Seq<Node>, b: Seq<Node>)
    requires
        extensions_present(a),
        extensions_present(b),
    ensures
        extensions_present(a + b),
    decreases b.len(),
{
    if b.len() > 0 {
        lemma_extensions_present_concat(a, b.drop_last());
        assert((a + b).drop_last() =~= a + b.drop_last());
        assert((a + b).last() == b.last());
    }
}

proof fn lemma_scan_node_extensions(n: Node)
    ensures
        extensions_present(scan_node(n)),
    decreases n, 0int,
{
    match n {
        Node::Dir(path, children) => {
            lemma_scan_extensions(children);
            let s = seq![Node::Dir(path, scan_nodes(children))];
            assert(s.drop_last() =~= Seq::<Node>::empty());
            assert(node_extensions_present(Node::Dir(path, scan_nodes(children))));
            assert(extensions_present(Seq::<Node>::empty()));
            assert(s.last() == Node::Dir(path, scan_nodes(children)));
            assert(extensions_present(s));
            assert(scan_node(n) == s);
            assert(extensions_present(scan_node(n)));
        },
        Node::File(path, content) => {
            let s = scan_node(n);
            assert(extensions_present(Seq::<Node>::empty()));
            if s.len() == 1 {
                assert(extension_of(path) is Some);
                assert(s.drop_last() =~= Seq::<Node>::empty());
                assert(s.last().path() == path && s.last() is File);
                assert(node_extensions_present(s.last()));
                assert(extensions_present(s));
            } else {
                assert(s =~= Seq::<Node>::empty());
            }
        },
    }
}

/// Every file of a served tree, at any depth, has an extension.
pub proof fn lemma_scan_extensions(listing: Seq<Node>)
    ensures
        extensions_present(scan_nodes(listing)),
    decreases listing, 1int,
{
    if listing.len() > 0 {
        lemma_scan_extensions(listing.drop_last());
        lemma_scan_node_extensions(listing.last());
        lemma_extensions_present_concat(scan_nodes(listing.drop_last()), scan_node(listing.last()));
    }
}

proof fn lemma_rejects_are_toml_node(n: Node)
    ensures
        forall|k: int|
            0 <= k < node_rejects(n).len() ==> extension_of(#[trigger] node_rejects(n)[k]) == Some(toml_ext()),
    decreases n, 0int,
{
    match n {
        Node::Dir(_, children) => lemma_rejects_are_toml(children),
        Node::File(_, _) => {},
    }
}

/// Every path reported as unparsable is that of a file with the extension `toml`: no
/// other file is ever parsed as TOML.
pub proof fn lemma_rejects_are_toml(listing: Seq<Node>)
    ensures
        forall|k: int|
            0 <= k < rejects(listing).len() ==> extension_of(#[trigger] rejects(listing)[k]) == Some(toml_ext()),
    decreases listing, 1int,
{
    if listing.len() > 0 {
        lemma_rejects_are_toml(listing.drop_last());
        lemma_rejects_are_toml_node(listing.last());
        let a = rejects(listing.drop_last());
        let b = node_rejects(listing.last());
        assert(rejects(listing) == a + b);
        assert forall|k: int| 0 <= k < rejects(listing).len() implies extension_of(
            #[trigger] rejects(listing)[k],
        ) == Some(toml_ext()) by {
            if k < a.len() {
                assert(rejects(listing)[k] == a[k]);
            } else {
                assert(rejects(listing)[k] == b[k - a.len()]);
            }
        }
    }
}

proof fn lemma_scan_prefix_kept(listing: Seq<Node>, i: int, n: int)
    requires
        0 <= i < n <= listing.len(),
        listing[i] is File,
        extension_of(listing[i].path()) is Some,
        extension_of(listing[i].path()) != Some(toml_ext()),
    ensures
        scan_nodes(listing.subrange(0, n)).contains(listing[i]),
    decreases n,
{
    let l = listing.subrange(0, n);
    assert(l.drop_last() =~= listing.subrange(0, n - 1));
    assert(l.last() == listing[n - 1]);
    if i == n - 1 {
        match listing[i] {
            Node::File(path, content) => {
                assert(scan_node(listing[i]) == seq![Node::File(path, content)]);
            },
            Node::Dir(_, _) => {},
        }
        assert(scan_nodes(l) == scan_nodes(l.drop_last()) + scan_node(l.last()));
        assert(scan_nodes(l)[scan_nodes(l.drop_last()).len() as int] == listing[i]);
    } else {
        lemma_scan_prefix_kept(listing, i, n - 1);
        let a = scan_nodes(l.drop_last());
        assert(scan_nodes(l) == a + scan_node(l.last()));
        let k = choose|k: int| 0 <= k < a.len() && a[k] == listing[i];
        assert(scan_nodes(l)[k] == listing[i]);
    }
}

/// A listed file with an extension other than `toml` is served exactly as listed (same
/// path, same contents), and its path is never reported as unparsable.
pub proof fn lemma_scan_keeps_plain_files(listing: Seq<Node>, i: int)
    requires
        0 <= i < listing.len(),
        listing[i] is File,
        extension_of(listing[i].path()) is Some,
        extension_of(listing[i].path()) != Some(toml_ext()),
    ensures
        scan_nodes(listing).contains(listing[i]),
        !rejects(listing).contains(listing[i].path()),
{
    lemma_scan_prefix_kept(listing, i, listing.len() as int);
    assert(listing.subrange(0, listing.len() as int) =~= listing);
    lemma_rejects_are_toml(listing);
}

proof fn lemma_scan_includes(listing: Seq<Node>, i: int, n: int)
    requires
        0 <= i < n <= listing.len(),
    ensures
        forall|e: Node| scan_node(listing[i]).contains(e) ==> #[trigger] scan_nodes(listing.subrange(0, n)).contains(e),
        forall|p: Seq<char>| node_rejects(listing[i]).contains(p) ==> #[trigger] rejects(listing.subrange(0, n)).contains(p),
    decreases n,
{
    let l = listing.subrange(0, n);
    assert(l.drop_last() =~= listing.subrange(0, n - 1));
    assert(l.last() == listing[n - 1]);
    let a = scan_nodes(l.drop_last());
    let b = scan_node(l.last());
    let ra = rejects(l.drop_last());
    let rb = node_rejects(l.last());
    assert(scan_nodes(l) == a + b);
    assert(rejects(l) == ra + rb);
    if i < n - 1 {
        lemma_scan_includes(listing, i, n - 1);
    }
    assert forall|e: Node| scan_node(listing[i]).contains(e) implies #[trigger] scan_nodes(l).contains(e) by {
        if i == n - 1 {
            let k = choose|k: int| 0 <= k < b.len() && b[k] == e;
            assert(scan_nodes(l)[a.len() + k] == e);
        } else {
            assert(scan_nodes(listing.subrange(0, n - 1)).contains(e));
            let k = choose|k: int| 0 <= k < a.len() && a[k] == e;
            assert(scan_nodes(l)[k] == e);
        }
    }
    assert forall|p: Seq<char>| node_rejects(listing[i]).contains(p) implies #[trigger] rejects(l).contains(p) by {
        if i == n - 1 {
            let k = choose|k: int| 0 <= k < rb.len() && rb[k] == p;
            assert(rejects(l)[ra.len() + k] == p);
        } else {
            assert(rejects(listing.subrange(0, n - 1)).contains(p));
            let k = choose|k: int| 0 <= k < ra.len() && ra[k] == p;
            assert(rejects(l)[k] == p);
        }
    }
}

/// A listed `toml` file is served as the JSON of its table where it parses, and is
/// reported as unparsable where it does not.
pub proof fn lemma_scan_toml_files(listing: Seq<Node>, i: int)
    requires
        0 <= i < listing.len(),
        listing[i] is File,
        extension_of(listing[i].path()) == Some(toml_ext()),
    ensures
        match listing[i] {
            Node::File(path, content) => match toml_document(content) {
                Some(d) => scan_nodes(listing).contains(Node::File(path, d.1)),
                None => rejects(listing).contains(path),
            },
            Node::Dir(_, _) => true,
        },
{
    lemma_scan_includes(listing, i, listing.len() as int);
    assert(listing.subrange(0, listing.len() as int) =~= listing);
    match listing[i] {
        Node::File(path, content) => match toml_document(content) {
            Some(d) => {
                assert(scan_node(listing[i]) == seq![Node::File(path, d.1)]);
                assert(scan_node(listing[i])[0] == Node::File(path, d.1));
            },
            None => {
                assert(node_rejects(listing[i]) == seq![path]);
                assert(node_rejects(listing[i])[0] == path);
            },
        },
        Node::Dir(_, _) => {},
    }
}

/// A listed file without an extension is not served.
pub proof fn lemma_scan_drops_files_without_extension(listing: Seq<Node>)
    ensures
        forall|k: int| 0 <= k < scan_nodes(listing).len() && #[trigger] scan_nodes(listing)[k] is File
            ==> extension_of(scan_nodes(listing)[k].path()) is Some,
{
    lemma_scan_extensions(listing);
    let t = scan_nodes(listing);
    assert forall|k: int| 0 <= k < t.len() && #[trigger] t[k] is File implies extension_of(t[k].path()) is Some by {
        lemma_extensions_index(t, k);
    }
}

} // verus!
