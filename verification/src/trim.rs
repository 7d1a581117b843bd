//! Reducing a freshly read project tree to what changed since the previous read.
use vstd::prelude::*;
use crate::paths::{extension_of, path_extension};
use crate::text::same_text;
use crate::tree::{
    copy_forest, copy_tree, forest, forest_contains, lemma_forest, lemma_forest_push,
    lemma_forest_update, FileTree, Node,
};

verus! {

/// The extensions whose files are compared by contents: `luau`, `lua`, `json`, `toml`.
pub open spec fn watched_extension(e: Seq<char>) -> bool {
    ||| e == seq!['l', 'u', 'a', 'u']
    ||| e == seq!['l', 'u', 'a']
    ||| e == seq!['j', 's', 'o', 'n']
    ||| e == seq!['t', 'o', 'm', 'l']
}

/// A file at `path` has one of the watched extensions.
pub open spec fn watched_file(path: Seq<char>) -> bool {
    match extension_of(path) {
        Some(e) => watched_extension(e),
        None => false,
    }
}

/// One step of the trimming walk over entry `x` of `tree`, from the previous tree
/// as it stands (`old`) and the entries kept so far (`out`); gives the new state of both.
/// An entry is kept unless an equal entry is in `old` and: it is a file whose
/// counterpart at the same index in `old` is a file, and it is unwatched or its contents
/// are unchanged; or it is a directory past the end of `old`; or it is a directory whose
/// counterpart at the same index is a directory and trimming their entries leaves nothing.
/// When that trimming leaves something, the counterpart in `old` is replaced by the
/// directory with the trimmed entries.
pub open spec fn trim_step(tree: Seq<Node>, x: int, old: Seq<Node>, out: Seq<Node>) -> (Seq<Node>, Seq<Node>)
    decreases tree, 0int,
{
    if 0 <= x < tree.len() {
        let t = tree[x];
        if old.contains(t) {
            match t {
                Node::File(path, c1) => {
                    if x < old.len() {
                        match old[x] {
                            Node::File(_, c2) => {
                                if !watched_file(path) || c1 == c2 {
                                    (old, out)
                                } else {
                                    (old, out.push(t))
                                }
                            },
                            Node::Dir(_, _) => (old, out.push(t)),
                        }
                    } else {
                        (old, out.push(t))
                    }
                },
                Node::Dir(path, f1) => {
                    if x >= old.len() {
                        (old, out)
                    } else {
                        match old[x] {
                            Node::Dir(_, f2) => {
                                let trimmed = trim_nodes(f1, f2);
                                if trimmed.len() == 0 {
                                    (old, out)
                                } else {
                                    (old.update(x, Node::Dir(path, trimmed)), out.push(t))
                                }
                            },
                            Node::File(_, _) => (old, out.push(t)),
                        }
                    }
                },
            }
        } else {
            (old, out.push(t))
        }
    } else {
        (old, out)
    }
}

/// The state of the trimming walk after its first `n` steps: (previous tree, kept entries).
pub open spec fn trim_run(tree: Seq<Node>, old: Seq<Node>, n: nat) -> (Seq<Node>, Seq<Node>)
    decreases tree, n,
{
    if n == 0 {
        (old, seq![])
    } else {
        let prev = trim_run(tree, old, (n - 1) as nat);
        trim_step(tree, n - 1, prev.0, prev.1)
    }
}

/// The entries of `tree` that the walk keeps against the previous tree `old`.
pub open spec fn trim_nodes(tree: Seq<Node>, old: Seq<Node>) -> Seq<Node>
    decreases tree, tree.len() + 1,
{
    trim_run(tree, old, tree.len()).1
}

/// The previous tree as the walk leaves it.
pub open spec fn trimmed_old(tree: Seq<Node>, old: Seq<Node>) -> Seq<Node> {
    trim_run(tree, old, tree.len()).0
}

/// Step `x` of the walk completes: a file found in `old` has a counterpart at its index,
/// and where that counterpart is a file, the file's path has an extension.
pub open spec fn trim_step_ok(tree: Seq<Node>, x: int, old: Seq<Node>) -> bool
    decreases tree, 0int,
{
    if 0 <= x < tree.len() {
        let t = tree[x];
        if old.contains(t) {
            match t {
                Node::File(path, _) => x < old.len() && (old[x] is File ==> extension_of(path) is Some),
                Node::Dir(_, f1) => x >= old.len() || match old[x] {
                    Node::Dir(_, f2) => trimmable(f1, f2),
                    Node::File(_, _) => true,
                },
            }
        } else {
            true
        }
    } else {
        true
    }
}

/// The first `n` steps of the walk complete.
pub open spec fn trim_run_ok(tree: Seq<Node>, old: Seq<Node>, n: nat) -> bool
    decreases tree, n,
{
    if n == 0 {
        true
    } else {
        trim_run_ok(tree, old, (n - 1) as nat) && trim_step_ok(
            tree,
            n - 1,
            trim_run(tree, old, (n - 1) as nat).0,
        )
    }
}

/// The whole walk of `tree` against `old` completes (no indexing past the end of
/// `old`, no missing extension).
pub open spec fn trimmable(tree: Seq<Node>, old: Seq<Node>) -> bool
    decreases tree, tree.len() + 1,
{
    trim_run_ok(tree, old, tree.len())
}

proof fn lemma_run_ok_prefix(tree: Seq<Node>, old: Seq<Node>, n: nat, m: nat)
    requires
        trim_run_ok(tree, old, n),
        m <= n,
    ensures
        trim_run_ok(tree, old, m),
    decreases n - m,
{
    if m < n {
        lemma_run_ok_prefix(tree, old, (n - 1) as nat, m);
    }
}

/// Whether `e` is one of the watched extensions.
pub fn is_watched_extension(e: &str) -> (r: bool)
    ensures
        r == watched_extension(e@),
{
    proof {
        reveal_strlit("luau");
        reveal_strlit("lua");
        reveal_strlit("json");
        reveal_strlit("toml");
        assert("luau"@ =~= seq!['l', 'u', 'a', 'u']);
        assert("lua"@ =~= seq!['l', 'u', 'a']);
        assert("json"@ =~= seq!['j', 's', 'o', 'n']);
        assert("toml"@ =~= seq!['t', 'o', 'm', 'l']);
    }
    same_text(e, "luau") || same_text(e, "lua") || same_text(e, "json") || same_text(e, "toml")
}

proof fn lemma_run_fails_after(tree: Seq<Node>, old: Seq<Node>, x: nat)
    requires
        x < tree.len(),
        !trim_step_ok(tree, x as int, trim_run(tree, old, x).0),
    ensures
        !trimmable(tree, old),
{
    if trimmable(tree, old) {
        lemma_run_ok_prefix(tree, old, tree.len(), x + 1);
    }
}

/// The trimming walk; `None` exactly where the walk cannot complete.
fn trim_walk(tree: &Vec<FileTree>, old_tree: &mut Vec<FileTree>) -> (r: Option<Vec<FileTree>>)
    ensures
        r is Some <==> trimmable(forest(tree@), forest(old(old_tree)@)),
        r matches Some(v) ==> {
            &&& forest(v@) == trim_nodes(forest(tree@), forest(old(old_tree)@))
            &&& forest(final(old_tree)@) == trimmed_old(forest(tree@), forest(old(old_tree)@))
        },
    decreases tree@,
{
    let ghost t_nodes = forest(tree@);
    let ghost o_nodes = forest(old_tree@);
    proof {
        lemma_forest(tree@);
    }
    let mut new_tree: Vec<FileTree> = Vec::new();
    let n = tree.len();
    let mut x: usize = 0;
    while x < n
        invariant
            n == tree@.len(),
            t_nodes == forest(tree@),
            t_nodes.len() == n,
            forall|j: int| 0 <= j < n ==> #[trigger] t_nodes[j] == tree@[j].node(),
            x <= n,
            o_nodes == forest(old(old_tree)@),
            trim_run_ok(t_nodes, o_nodes, x as nat),
            forest(old_tree@) == trim_run(t_nodes, o_nodes, x as nat).0,
            forest(new_tree@) == trim_run(t_nodes, o_nodes, x as nat).1,
        decreases n - x,
    {
        proof {
            lemma_forest(old_tree@);
        }
        let ghost cur_old = forest(old_tree@);
        let ghost cur_new = forest(new_tree@);
        let t = &tree[x];
        let mut keep = true;
        if forest_contains(old_tree, t) {
            match t {
                FileTree::File(path, c1) => {
                    if x >= old_tree.len() {
                        proof {
                            lemma_run_fails_after(t_nodes, o_nodes, x as nat);
                        }
                        return None;
                    }
                    match &old_tree[x] {
                        FileTree::File(_, c2) => {
                            match path_extension(path.as_str()) {
                                Some(e) => {
                                    keep = is_watched_extension(e.as_str()) && !c1.eq(c2);
                                },
                                None => {
                                    proof {
                                        lemma_run_fails_after(t_nodes, o_nodes, x as nat);
                                    }
                                    return None;
                                },
                            }
                        },
                        FileTree::Directory(_, _) => {},
                    }
                },
                FileTree::Directory(path, f1) => {
                    if x >= old_tree.len() {
                        keep = false;
                    } else {
                        let counterpart = match &old_tree[x] {
                            FileTree::Directory(_, f2) => Some(copy_forest(f2)),
                            FileTree::File(_, _) => None,
                        };
                        match counterpart {
                            Some(f2) => {
                                let mut f2 = f2;
                                proof {
                                    assert(decreases_to!(tree@ => tree@[x as int]));
                                }
                                match trim_walk(f1, &mut f2) {
                                    Some(trimmed) => {
                                        if trimmed.len() >= 1 {
                                            let replaced = FileTree::Directory(path.clone(), trimmed);
                                            proof {
                                                lemma_forest_update(old_tree@, x as int, replaced);
                                            }
                                            old_tree.set(x, replaced);
                                        } else {
                                            keep = false;
                                        }
                                    },
                                    None => {
                                        proof {
                                            lemma_run_fails_after(t_nodes, o_nodes, x as nat);
                                        }
                                        return None;
                                    },
                                }
                            },
                            None => {},
                        }
                    }
                },
            }
        }
        if keep {
            let c = copy_tree(t);
            proof {
                lemma_forest_push(new_tree@, c);
            }
            new_tree.push(c);
        }
        proof {
            assert(trim_step_ok(t_nodes, x as int, cur_old));
            assert(trim_run(t_nodes, o_nodes, (x + 1) as nat) == trim_step(
                t_nodes,
                x as int,
                cur_old,
                cur_new,
            ));
        }
        x = x + 1;
    }
    Some(new_tree)
}

/// Keeps the entries of the freshly read `tree` that differ from the previous read
/// `old_tree` (see `trim_step`); `tree` is left as it was and `old_tree` is updated as
/// the walk updates it.
pub fn trim_tree(tree: &mut Vec<FileTree>, old_tree: &mut Vec<FileTree>) -> (r: Vec<FileTree>)
    requires
        trimmable(forest(old(tree)@), forest(old(old_tree)@)),
    ensures
        final(tree)@ == old(tree)@,
        forest(r@) == trim_nodes(forest(old(tree)@), forest(old(old_tree)@)),
        forest(final(old_tree)@) == trimmed_old(forest(old(tree)@), forest(old(old_tree)@)),
{
    match trim_walk(tree, old_tree) {
        Some(v) => v,
        None => {
            assert(false);
            Vec::new()
        },
    }
}

/// The entries of `tree` that differ from the previous read `old_tree`, or `None` where
/// the walk cannot complete (a file found in the previous tree with no counterpart at
/// its index, or a compared file without an extension).
pub fn try_trim_tree(tree: &Vec<FileTree>, old_tree: &Vec<FileTree>) -> (r: Option<Vec<FileTree>>)
    ensures
        r is Some <==> trimmable(forest(tree@), forest(old_tree@)),
        r matches Some(v) ==> forest(v@) == trim_nodes(forest(tree@), forest(old_tree@)),
{
    let mut previous = copy_forest(old_tree);
    trim_walk(tree, &mut previous)
}

/// Every file at any depth of `t` has a path with an extension.
pub open spec fn extensions_present(t: Seq<Node>) -> bool
    decreases t, 1int,
{
    if t.len() == 0 {
        true
    } else {
        extensions_present(t.drop_last()) && node_extensions_present(t.last())
    }
}

/// Every file in this node (itself, or at any depth below it) has a path with an extension.
pub open spec fn node_extensions_present(n: Node) -> bool
    decreases n, 0int,
{
    match n {
        Node::File(path, _) => extension_of(path) is Some,
        Node::Dir(_, files) => extensions_present(files),
    }
}

pub proof fn lemma_extensions_index(t: Seq<Node>, i: int)
    requires
        extensions_present(t),
        0 <= i < t.len(),
    ensures
        node_extensions_present(t[i]),
{
    lemma_extensions_present_index(t, i);
}

proof fn lemma_extensions_present_index(t: Seq<Node>, i: int)
    requires
        extensions_present(t),
        0 <= i < t.len(),
    ensures
        node_extensions_present(t[i]),
    decreases t.len(),
{
    if i < t.len() - 1 {
        assert(t.drop_last()[i] == t[i]);
        lemma_extensions_present_index(t.drop_last(), i);
    }
}

proof fn lemma_trim_same_run(t: Seq<Node>, n: nat)
    requires
        extensions_present(t),
        n <= t.len(),
    ensures
        trim_run(t, t, n) == (t, Seq::<Node>::empty()),
        trim_run_ok(t, t, n),
    decreases t, n,
{
    if n > 0 {
        lemma_trim_same_run(t, (n - 1) as nat);
        let x = n - 1;
        lemma_extensions_present_index(t, x);
        assert(t.contains(t[x]));
        match t[x] {
            Node::File(_, _) => {},
            Node::Dir(_, f) => {
                assert(decreases_to!(t => t[x]));
                lemma_trim_unchanged(f);
            },
        }
        assert(trim_step(t, x, t, Seq::<Node>::empty()) == (t, Seq::<Node>::empty()));
        assert(trim_step_ok(t, x, t));
        assert(trim_run(t, t, n) == trim_step(t, x, t, Seq::<Node>::empty()));
    }
}

/// Reading an unchanged tree again reports nothing, and leaves the previous tree as it was.
pub proof fn lemma_trim_unchanged(t: Seq<Node>)
    requires
        extensions_present(t),
    ensures
        trimmable(t, t),
        trim_nodes(t, t) == Seq::<Node>::empty(),
        trimmed_old(t, t) == t,
    decreases t, t.len() + 1,
{
    lemma_trim_same_run(t, t.len());
}

proof fn lemma_trim_fresh_run(t: Seq<Node>, n: nat)
    requires
        n <= t.len(),
    ensures
        trim_run(t, Seq::<Node>::empty(), n) == (Seq::<Node>::empty(), t.subrange(0, n as int)),
        trim_run_ok(t, Seq::<Node>::empty(), n),
    decreases n,
{
    if n > 0 {
        lemma_trim_fresh_run(t, (n - 1) as nat);
        let e = Seq::<Node>::empty();
        assert(!e.contains(t[n - 1]));
        assert(trim_step(t, n - 1, e, t.subrange(0, n - 1)) == (e, t.subrange(0, n - 1).push(t[n - 1])));
        assert(trim_step_ok(t, n - 1, e));
        assert(t.subrange(0, n - 1).push(t[n - 1]) =~= t.subrange(0, n as int));
    }
}

/// Against an empty previous tree, every entry of the fresh tree is reported.
pub proof fn lemma_trim_against_nothing(t: Seq<Node>)
    ensures
        trimmable(t, Seq::<Node>::empty()),
        trim_nodes(t, Seq::<Node>::empty()) == t,
        trimmed_old(t, Seq::<Node>::empty()) == Seq::<Node>::empty(),
{
    lemma_trim_fresh_run(t, t.len());
    assert(t.subrange(0, t.len() as int) =~= t);
}

proof fn lemma_step_shape(t: Seq<Node>, x: int, o: Seq<Node>, out: Seq<Node>)
    requires
        0 <= x < t.len(),
    ensures
        trim_step(t, x, o, out).0.len() == o.len(),
        forall|k: int|
            0 <= k < o.len() ==> #[trigger] trim_step(t, x, o, out).0[k] == o[k] || trim_step(
                t,
                x,
                o,
                out,
            ).0[k] is Dir,
        trim_step(t, x, o, out).1 == out || trim_step(t, x, o, out).1 == out.push(t[x]),
{
}

proof fn lemma_trim_run_shape(t: Seq<Node>, o: Seq<Node>, n: nat)
    requires
        n <= t.len(),
    ensures
        trim_run(t, o, n).0.len() == o.len(),
        forall|k: int|
            0 <= k < o.len() ==> #[trigger] trim_run(t, o, n).0[k] == o[k] || trim_run(
                t,
                o,
                n,
            ).0[k] is Dir,
        trim_run(t, o, n).1.len() <= n,
        forall|k: int|
            0 <= k < trim_run(t, o, n).1.len() ==> exists|j: int|
                0 <= j < n && #[trigger] trim_run(t, o, n).1[k] == t[j],
    decreases n,
{
    if n > 0 {
        lemma_trim_run_shape(t, o, (n - 1) as nat);
        let prev = trim_run(t, o, (n - 1) as nat);
        let cur = trim_run(t, o, n);
        lemma_step_shape(t, n - 1, prev.0, prev.1);
        assert forall|k: int| 0 <= k < cur.1.len() implies exists|j: int|
            0 <= j < n && #[trigger] cur.1[k] == t[j] by {
            if k < prev.1.len() {
                let j = choose|j: int| 0 <= j < n - 1 && #[trigger] prev.1[k] == t[j];
                assert(cur.1[k] == t[j]);
            } else {
                assert(0 <= n - 1 < n);
            }
        }
    }
}

proof fn lemma_trim_run_grows(t: Seq<Node>, o: Seq<Node>, n: nat, m: nat)
    requires
        n <= m <= t.len(),
    ensures
        trim_run(t, o, m).1.len() >= trim_run(t, o, n).1.len(),
        forall|k: int|
            0 <= k < trim_run(t, o, n).1.len() ==> #[trigger] trim_run(t, o, m).1[k] == trim_run(
                t,
                o,
                n,
            ).1[k],
    decreases m - n,
{
    if n < m {
        lemma_trim_run_grows(t, o, n, (m - 1) as nat);
        let prev = trim_run(t, o, (m - 1) as nat);
        lemma_step_shape(t, m - 1, prev.0, prev.1);
    }
}

/// Only entries of the fresh tree are reported, in no greater number than the tree has.
pub proof fn lemma_trim_reports_fresh_entries(t: Seq<Node>, o: Seq<Node>)
    ensures
        trim_nodes(t, o).len() <= t.len(),
        forall|k: int| 0 <= k < trim_nodes(t, o).len() ==> t.contains(#[trigger] trim_nodes(t, o)[k]),
{
    lemma_trim_run_shape(t, o, t.len());
    assert forall|k: int| 0 <= k < trim_nodes(t, o).len() implies t.contains(
        #[trigger] trim_nodes(t, o)[k],
    ) by {
        let j = choose|j: int| 0 <= j < t.len() && #[trigger] trim_nodes(t, o)[k] == t[j];
        assert(t[j] == trim_nodes(t, o)[k]);
    }
}

/// A file of the fresh tree that the previous tree does not hold (a new file, or a file
/// whose contents changed) is always reported.
pub proof fn lemma_trim_reports_new_files(t: Seq<Node>, o: Seq<Node>, x: int)
    requires
        0 <= x < t.len(),
        t[x] is File,
        !o.contains(t[x]),
    ensures
        trim_nodes(t, o).contains(t[x]),
{
    lemma_trim_run_shape(t, o, x as nat);
    let prev = trim_run(t, o, x as nat);
    if prev.0.contains(t[x]) {
        let k = choose|k: int| 0 <= k < prev.0.len() && prev.0[k] == t[x];
        assert(prev.0[k] == o[k] || prev.0[k] is Dir);
        assert(o.contains(t[x]));
    }
    let next = trim_run(t, o, (x + 1) as nat);
    assert(!prev.0.contains(t[x]));
    assert(trim_step(t, x, prev.0, prev.1) == (prev.0, prev.1.push(t[x])));
    assert(next.1 == prev.1.push(t[x]));
    assert(next.1[next.1.len() - 1] == t[x]);
    lemma_trim_run_grows(t, o, (x + 1) as nat, t.len());
    assert(trim_nodes(t, o)[next.1.len() - 1] == t[x]);
}

proof fn lemma_step_paths(t: Seq<Node>, x: int, o: Seq<Node>, out: Seq<Node>)
    requires
        0 <= x < t.len(),
    ensures
        forall|k: int|
            0 <= k < o.len() ==> #[trigger] trim_step(t, x, o, out).0[k] == o[k] || (k == x
                && trim_step(t, x, o, out).0[k] is Dir && trim_step(t, x, o, out).0[k].path()
                == t[x].path()),
{
}

proof fn lemma_trim_run_paths(t: Seq<Node>, o: Seq<Node>, n: nat)
    requires
        n <= t.len(),
    ensures
        trim_run(t, o, n).0.len() == o.len(),
        forall|k: int|
            0 <= k < o.len() ==> #[trigger] trim_run(t, o, n).0[k] == o[k] || (k < n
                && trim_run(t, o, n).0[k].path() == t[k].path()),
    decreases n,
{
    if n > 0 {
        lemma_trim_run_paths(t, o, (n - 1) as nat);
        let prev = trim_run(t, o, (n - 1) as nat);
        lemma_step_shape(t, n - 1, prev.0, prev.1);
        lemma_step_paths(t, n - 1, prev.0, prev.1);
        let cur = trim_run(t, o, n);
        assert forall|k: int| 0 <= k < o.len() implies #[trigger] cur.0[k] == o[k] || (k < n
            && cur.0[k].path() == t[k].path()) by {
            if cur.0[k] != prev.0[k] {
                assert(k == n - 1);
            }
        }
    }
}

/// Every entry of the fresh tree that the previous tree does not hold (a new or changed
/// file, or a new or changed directory) is reported, wherever it stands and however long
/// the previous tree is; the entries of the fresh tree are taken to have distinct paths,
/// as the entries of one directory do.
pub proof fn lemma_trim_reports_new_entries(t: Seq<Node>, o: Seq<Node>, x: int)
    requires
        0 <= x < t.len(),
        forall|k: int| 0 <= k < t.len() && k != x ==> #[trigger] t[k].path() != t[x].path(),
        !o.contains(t[x]),
    ensures
        trim_nodes(t, o).contains(t[x]),
{
    lemma_trim_run_paths(t, o, x as nat);
    let prev = trim_run(t, o, x as nat);
    if prev.0.contains(t[x]) {
        let k = choose|k: int| 0 <= k < prev.0.len() && prev.0[k] == t[x];
        if prev.0[k] != o[k] {
            assert(prev.0[k].path() == t[k].path());
            assert(k != x);
        }
        assert(o.contains(t[x]));
    }
    let next = trim_run(t, o, (x + 1) as nat);
    assert(trim_step(t, x, prev.0, prev.1) == (prev.0, prev.1.push(t[x])));
    assert(next.1 == prev.1.push(t[x]));
    lemma_trim_run_grows(t, o, (x + 1) as nat, t.len());
    assert(trim_nodes(t, o)[next.1.len() - 1] == t[x]);
}

} // verus!
