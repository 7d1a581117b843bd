//! Replacing the contents recorded for a file in a project tree.
use vstd::prelude::*;
use crate::json::texts_of;
use crate::tree::{copy_tree, forest, lemma_forest, lemma_forest_push, FileTree, Node};

verus! {

/// The walk from entry `i` on: files are compared with `path`; the first one at this
/// level that matches gets `contents` and ends the walk at this level (later entries stay
/// as they are); directories met before it are walked the same way.
pub open spec fn alter_from(s: Seq<Node>, i: int, path: Seq<char>, contents: Seq<char>) -> Seq<Node>
    decreases s, s.len() - i,
{
    if i < 0 || i >= s.len() {
        seq![]
    } else {
        match s[i] {
            Node::File(q, _) => {
                if q == path {
                    seq![Node::File(q, contents)] + s.subrange(i + 1, s.len() as int)
                } else {
                    seq![s[i]] + alter_from(s, i + 1, path, contents)
                }
            },
            Node::Dir(q, children) => seq![Node::Dir(q, alter_nodes(children, path, contents))]
                + alter_from(s, i + 1, path, contents),
        }
    }
}

/// `s` after the walk that records `contents` for the file at `path`.
pub open spec fn alter_nodes(s: Seq<Node>, path: Seq<char>, contents: Seq<char>) -> Seq<Node>
    decreases s, s.len() + 1,
{
    alter_from(s, 0, path, contents)
}

/// The contents that the walk of `alter_from` replaces from entry `i` on, in the order it
/// replaces them.
pub open spec fn replaced_from(s: Seq<Node>, i: int, path: Seq<char>) -> Seq<Seq<char>>
    decreases s, s.len() - i,
{
    if i < 0 || i >= s.len() {
        seq![]
    } else {
        match s[i] {
            Node::File(q, old) => {
                if q == path {
                    seq![old]
                } else {
                    replaced_from(s, i + 1, path)
                }
            },
            Node::Dir(_, children) => replaced_nodes(children, path) + replaced_from(s, i + 1, path),
        }
    }
}

/// The contents that recording new contents for `path` replaces, in walk order.
pub open spec fn replaced_nodes(s: Seq<Node>, path: Seq<char>) -> Seq<Seq<char>>
    decreases s, s.len() + 1,
{
    replaced_from(s, 0, path)
}

fn altered(x: &Vec<FileTree>, path: &String, contents: &String) -> (r: (Vec<FileTree>, Vec<String>))
    ensures
        forest(r.0@) == alter_nodes(forest(x@), path@, contents@),
        texts_of(r.1@) == replaced_nodes(forest(x@), path@),
    decreases x@,
{
    proof {
        lemma_forest(x@);
    }
    let ghost t = forest(x@);
    let ghost goal = alter_nodes(t, path@, contents@);
    let ghost replaced_goal = replaced_nodes(t, path@);
    let n = x.len();
    let mut out: Vec<FileTree> = Vec::new();
    let mut replaced: Vec<String> = Vec::new();
    let mut i: usize = 0;
    while i < n
        invariant
            n == x@.len(),
            t == forest(x@),
            t.len() == n,
            forall|j: int| 0 <= j < n ==> #[trigger] t[j] == x@[j].node(),
            goal == alter_nodes(t, path@, contents@),
            i <= n,
            forest(out@) + alter_from(t, i as int, path@, contents@) == goal,
            replaced_goal == replaced_nodes(t, path@),
            texts_of(replaced@) + replaced_from(t, i as int, path@) == replaced_goal,
        decreases n - i,
    {
        let ghost before = forest(out@);
        let ghost before_replaced = texts_of(replaced@);
        match &x[i] {
            FileTree::File(q, old_contents) => {
                if q.eq(path) {
                    replaced.push(old_contents.clone());
                    proof {
                        assert(replaced_from(t, i as int, path@) == seq![old_contents@]);
                        assert(texts_of(replaced@) =~= before_replaced.push(old_contents@));
                        assert(texts_of(replaced@) =~= replaced_goal);
                    }
                    let e = FileTree::File(q.clone(), contents.clone());
                    proof {
                        lemma_forest_push(out@, e);
                        assert(alter_from(t, i as int, path@, contents@) == seq![e.node()]
                            + t.subrange(i + 1, n as int));
                        assert(forest(out@).push(e.node()) + t.subrange(i + 1, n as int) =~= goal);
                    }
                    out.push(e);
                    let mut k: usize = i + 1;
                    while k < n
                        invariant
                            n == x@.len(),
                            t.len() == n,
                            forall|j: int| 0 <= j < n ==> #[trigger] t[j] == x@[j].node(),
                            i < k <= n,
                            forest(out@) + t.subrange(k as int, n as int) == goal,
                        decreases n - k,
                    {
                        let c = copy_tree(&x[k]);
                        proof {
                            lemma_forest_push(out@, c);
                            assert(forest(out@).push(c.node()) + t.subrange(k + 1, n as int)
                                =~= forest(out@) + t.subrange(k as int, n as int));
                        }
                        out.push(c);
                        k = k + 1;
                    }
                    proof {
                        assert(forest(out@) =~= goal);
                    }
                    return (out, replaced);
                } else {
                    let c = copy_tree(&x[i]);
                    proof {
                        assert(replaced_from(t, i as int, path@) == replaced_from(t, i + 1, path@));
                        lemma_forest_push(out@, c);
                        assert(alter_from(t, i as int, path@, contents@) == seq![t[i as int]]
                            + alter_from(t, i + 1, path@, contents@));
                        assert(forest(out@).push(c.node()) + alter_from(t, i + 1, path@, contents@)
                            =~= before + alter_from(t, i as int, path@, contents@));
                    }
                    out.push(c);
                }
            },
            FileTree::Directory(q, children) => {
                proof {
                    assert(decreases_to!(x@ => x@[i as int]));
                }
                let (inner, inner_replaced) = altered(children, path, contents);
                let mut k: usize = 0;
                while k < inner_replaced.len()
                    invariant
                        k <= inner_replaced.len(),
                        texts_of(replaced@) == before_replaced + texts_of(inner_replaced@).subrange(0, k as int),
                    decreases inner_replaced.len() - k,
                {
                    let ghost prev = texts_of(replaced@);
                    replaced.push(inner_replaced[k].clone());
                    proof {
                        assert(texts_of(replaced@) =~= prev.push(inner_replaced@[k as int]@));
                        assert(texts_of(replaced@) =~= before_replaced + texts_of(inner_replaced@).subrange(0, k + 1));
                    }
                    k = k + 1;
                }
                proof {
                    assert(texts_of(inner_replaced@).subrange(0, k as int) =~= texts_of(inner_replaced@));
                    assert(replaced_from(t, i as int, path@) == replaced_nodes(forest(children@), path@)
                        + replaced_from(t, i + 1, path@));
                    assert(texts_of(replaced@) + replaced_from(t, i + 1, path@) =~= before_replaced
                        + replaced_from(t, i as int, path@));
                }
                let e = FileTree::Directory(q.clone(), inner);
                proof {
                    lemma_forest_push(out@, e);
                    assert(alter_from(t, i as int, path@, contents@) == seq![e.node()]
                        + alter_from(t, i + 1, path@, contents@));
                    assert(forest(out@).push(e.node()) + alter_from(t, i + 1, path@, contents@)
                        =~= before + alter_from(t, i as int, path@, contents@));
                }
                out.push(e);
            },
        }
        i = i + 1;
    }
    proof {
        assert(forest(out@) =~= goal);
        assert(texts_of(replaced@) =~= replaced_goal);
    }
    (out, replaced)
}

/// Records `contents` for the file at `new_path`: at each level the first matching file
/// gets the contents and the rest of that level is left alone; directories before it are
/// searched the same way (see `alter_from`). Gives the contents it replaced, in walk order.
pub fn alter_tree(x: &mut Vec<FileTree>, new_path: String, contents: String) -> (r: Vec<String>)
    ensures
        forest(final(x)@) == alter_nodes(forest(old(x)@), new_path@, contents@),
        texts_of(r@) == replaced_nodes(forest(old(x)@), new_path@),
{
    let (tree, replaced) = altered(x, &new_path, &contents);
    *x = tree;
    replaced
}

/// No file at any depth of `s` has the path `path`.
pub open spec fn lacks_file(s: Seq<Node>, path: Seq<char>) -> bool
    decreases s, 1int,
{
    if s.len() == 0 {
        true
    } else {
        lacks_file(s.drop_last(), path) && node_lacks_file(s.last(), path)
    }
}

/// Neither this entry nor anything below it is a file with the path `path`.
pub open spec fn node_lacks_file(n: Node, path: Seq<char>) -> bool
    decreases n, 0int,
{
    match n {
        Node::File(q, _) => q != path,
        Node::Dir(_, children) => lacks_file(children, path),
    }
}

proof fn lemma_lacks_file_index(s: Seq<Node>, path: Seq<char>, i: int)
    requires
        lacks_file(s, path),
        0 <= i < s.len(),
    ensures
        node_lacks_file(s[i], path),
    decreases s.len(),
{
    if i < s.len() - 1 {
        assert(s.drop_last()[i] == s[i]);
        lemma_lacks_file_index(s.drop_last(), path, i);
    }
}

proof fn lemma_alter_from_absent(s: Seq<Node>, i: int, path: Seq<char>, contents: Seq<char>)
    requires
        lacks_file(s, path),
        0 <= i <= s.len(),
    ensures
        alter_from(s, i, path, contents) == s.subrange(i, s.len() as int),
    decreases s, s.len() - i,
{
    if i < s.len() {
        lemma_lacks_file_index(s, path, i);
        lemma_alter_from_absent(s, i + 1, path, contents);
        match s[i] {
            Node::File(_, _) => {},
            Node::Dir(_, children) => {
                assert(decreases_to!(s => s[i]));
                lemma_alter_absent(children, path, contents);
            },
        }
        assert(seq![s[i]] + s.subrange(i + 1, s.len() as int) =~= s.subrange(i, s.len() as int));
    } else {
        assert(s.subrange(i, s.len() as int) =~= Seq::<Node>::empty());
    }
}

/// Recording contents for a path that no file of the tree has leaves the tree as it was.
pub proof fn lemma_alter_absent(s: Seq<Node>, path: Seq<char>, contents: Seq<char>)
    requires
        lacks_file(s, path),
    ensures
        alter_nodes(s, path, contents) == s,
    decreases s, s.len() + 1,
{
    lemma_alter_from_absent(s, 0, path, contents);
    assert(s.subrange(0, s.len() as int) =~= s);
}

proof fn lemma_alter_from_len(s: Seq<Node>, i: int, path: Seq<char>, contents: Seq<char>)
    requires
        0 <= i <= s.len(),
    ensures
        alter_from(s, i, path, contents).len() == s.len() - i,
    decreases s.len() - i,
{
    if i < s.len() {
        lemma_alter_from_len(s, i + 1, path, contents);
    }
}

proof fn lemma_alter_from_hit(s: Seq<Node>, i: int, k: int, path: Seq<char>, contents: Seq<char>)
    requires
        0 <= i <= k < s.len(),
        s[k] is File,
        s[k].path() == path,
        forall|j: int| i <= j < k ==> !(#[trigger] s[j] is File && s[j].path() == path),
    ensures
        alter_from(s, i, path, contents)[k - i] == Node::File(path, contents),
    decreases k - i,
{
    if i < k {
        lemma_alter_from_hit(s, i + 1, k, path, contents);
        lemma_alter_from_len(s, i + 1, path, contents);
    }
}

/// At the top level, the first file with the path gets the recorded contents.
pub proof fn lemma_alter_first_match(s: Seq<Node>, k: int, path: Seq<char>, contents: Seq<char>)
    requires
        0 <= k < s.len(),
        s[k] is File,
        s[k].path() == path,
        forall|j: int| 0 <= j < k ==> !(#[trigger] s[j] is File && s[j].path() == path),
    ensures
        alter_nodes(s, path, contents).len() == s.len(),
        alter_nodes(s, path, contents)[k] == Node::File(path, contents),
{
    lemma_alter_from_len(s, 0, path, contents);
    lemma_alter_from_hit(s, 0, k, path, contents);
}

/// The files of one entry, depth first: the entry itself if it is a file, or the files
/// of the directory's entries.
pub open spec fn node_files(n: Node) -> Seq<(Seq<char>, Seq<char>)>
    decreases n, 0int,
{
    match n {
        Node::File(q, c) => seq![(q, c)],
        Node::Dir(_, children) => files_from(children, 0),
    }
}

/// The files (path and contents) of the entries from `i` on, at any depth, depth first.
pub open spec fn files_from(s: Seq<Node>, i: int) -> Seq<(Seq<char>, Seq<char>)>
    decreases s, s.len() - i,
{
    if i < 0 || i >= s.len() {
        seq![]
    } else {
        node_files(s[i]) + files_from(s, i + 1)
    }
}

/// The files of a tree at any depth, depth first.
pub open spec fn files_of(s: Seq<Node>) -> Seq<(Seq<char>, Seq<char>)> {
    files_from(s, 0)
}

/// How many of the files have the path `path`.
pub open spec fn count_path(l: Seq<(Seq<char>, Seq<char>)>, path: Seq<char>) -> nat
    decreases l.len(),
{
    if l.len() == 0 {
        0
    } else {
        count_path(l.drop_last(), path) + if l.last().0 == path {
            1nat
        } else {
            0nat
        }
    }
}

proof fn lemma_count_concat(a: Seq<(Seq<char>, Seq<char>)>, b: Seq<(Seq<char>, Seq<char>)>, path: Seq<char>)
    ensures
        count_path(a + b, path) == count_path(a, path) + count_path(b, path),
    decreases b.len(),
{
    if b.len() == 0 {
        assert(a + b =~= a);
    } else {
        assert((a + b).drop_last() =~= a + b.drop_last());
        assert((a + b).last() == b.last());
        lemma_count_concat(a, b.drop_last(), path);
    }
}

proof fn lemma_count_zero(l: Seq<(Seq<char>, Seq<char>)>, path: Seq<char>, c: Seq<char>)
    requires
        count_path(l, path) == 0,
    ensures
        !l.contains((path, c)),
    decreases l.len(),
{
    if l.len() > 0 {
        lemma_count_zero(l.drop_last(), path, c);
        if l.contains((path, c)) {
            let k = choose|k: int| 0 <= k < l.len() && l[k] == (path, c);
            if k < l.len() - 1 {
                assert(l.drop_last()[k] == (path, c));
            }
        }
    }
}

proof fn lemma_files_shift(u: Seq<Node>, v: Seq<Node>, d: int, j: int)
    requires
        0 <= d <= u.len(),
        v == u.subrange(d, u.len() as int),
        0 <= j,
    ensures
        files_from(v, j) == files_from(u, d + j),
    decreases v.len() - j,
{
    if j < v.len() {
        lemma_files_shift(u, v, d, j + 1);
        assert(v[j] == u[d + j]);
    }
}

proof fn lemma_alter_from_count_zero(s: Seq<Node>, i: int, path: Seq<char>, contents: Seq<char>)
    requires
        0 <= i <= s.len(),
        count_path(files_from(s, i), path) == 0,
    ensures
        alter_from(s, i, path, contents) == s.subrange(i, s.len() as int),
        replaced_from(s, i, path) == Seq::<Seq<char>>::empty(),
    decreases s, s.len() - i,
{
    if i < s.len() {
        lemma_count_concat(node_files(s[i]), files_from(s, i + 1), path);
        lemma_alter_from_count_zero(s, i + 1, path, contents);
        match s[i] {
            Node::File(q, o) => {
                assert(node_files(s[i]) == seq![(q, o)]);
                assert(count_path(seq![(q, o)], path) == if q == path { 1nat } else { 0nat }) by {
                    assert(seq![(q, o)].drop_last() =~= Seq::<(Seq<char>, Seq<char>)>::empty());
                    assert(count_path(Seq::<(Seq<char>, Seq<char>)>::empty(), path) == 0);
                }
                assert(q != path);
                assert(alter_from(s, i, path, contents) == seq![s[i]] + alter_from(s, i + 1, path, contents));
                assert(replaced_from(s, i, path) == replaced_from(s, i + 1, path));
            },
            Node::Dir(q, children) => {
                assert(decreases_to!(s => s[i]));
                lemma_alter_from_count_zero(children, 0, path, contents);
                assert(children.subrange(0, children.len() as int) =~= children);
                assert(alter_nodes(children, path, contents) == children);
                assert(alter_from(s, i, path, contents) == seq![Node::Dir(q, children)] + alter_from(s, i + 1, path, contents));
                assert(replaced_nodes(children, path) + replaced_from(s, i + 1, path) =~= Seq::<Seq<char>>::empty());
            },
        }
        assert(seq![s[i]] + s.subrange(i + 1, s.len() as int) =~= s.subrange(i, s.len() as int));
    } else {
        assert(s.subrange(i, s.len() as int) =~= Seq::<Node>::empty());
    }
}

proof fn lemma_alter_from_unique(s: Seq<Node>, i: int, path: Seq<char>, old: Seq<char>, contents: Seq<char>)
    requires
        0 <= i,
        count_path(files_from(s, i), path) == 1,
        files_from(s, i).contains((path, old)),
    ensures
        files_of(alter_from(s, i, path, contents)).contains((path, contents)),
        replaced_from(s, i, path) == seq![old],
    decreases s, s.len() - i,
{
    assert(i < s.len());
    let r = alter_from(s, i, path, contents);
    let a = node_files(s[i]);
    let b = files_from(s, i + 1);
    lemma_count_concat(a, b, path);
    assert(files_from(s, i) == a + b);
    assert(files_from(r, 0) == node_files(r[0]) + files_from(r, 1));
    match s[i] {
        Node::File(q, o) => {
            assert(a == seq![(q, o)]);
            assert(count_path(a, path) == if q == path { 1nat } else { 0nat }) by {
                assert(a.drop_last() =~= Seq::<(Seq<char>, Seq<char>)>::empty());
                assert(count_path(Seq::<(Seq<char>, Seq<char>)>::empty(), path) == 0);
            }
            let k = choose|k: int| 0 <= k < (a + b).len() && (a + b)[k] == (path, old);
            if q == path {
                lemma_count_zero(b, path, old);
                if k >= 1 {
                    assert(b[k - 1] == (path, old));
                }
                assert(o == old);
                assert(r[0] == Node::File(path, contents));
                assert(files_from(r, 0)[0] == (path, contents));
            } else {
                assert(k >= 1);
                assert(b[k - 1] == (path, old));
                lemma_alter_from_unique(s, i + 1, path, old, contents);
                let rest = alter_from(s, i + 1, path, contents);
                assert(r == seq![s[i]] + rest);
                assert(r.subrange(1, r.len() as int) =~= rest);
                lemma_files_shift(r, rest, 1, 0);
                let m = choose|m: int| 0 <= m < files_from(rest, 0).len() && files_from(rest, 0)[m] == (path, contents);
                assert(files_from(r, 0)[node_files(r[0]).len() + m] == (path, contents));
            }
        },
        Node::Dir(q, children) => {
            assert(decreases_to!(s => s[i]));
            let rest = alter_from(s, i + 1, path, contents);
            let k = choose|k: int| 0 <= k < (a + b).len() && (a + b)[k] == (path, old);
            if count_path(a, path) == 1 {
                lemma_count_zero(b, path, old);
                if k >= a.len() {
                    assert(b[k - a.len()] == (path, old));
                }
                assert(a[k] == (path, old));
                lemma_alter_from_unique(children, 0, path, old, contents);
                if i + 1 <= s.len() {
                    lemma_alter_from_count_zero(s, i + 1, path, contents);
                }
                assert(r[0] == Node::Dir(q, alter_nodes(children, path, contents)));
                assert(node_files(r[0]) == files_of(alter_nodes(children, path, contents)));
                let m = choose|m: int| 0 <= m < node_files(r[0]).len() && node_files(r[0])[m] == (path, contents);
                assert(files_from(r, 0)[m] == (path, contents));
                assert(replaced_from(s, i, path) == replaced_nodes(children, path) + replaced_from(s, i + 1, path));
                assert(replaced_from(s, i, path) =~= seq![old]);
            } else {
                lemma_count_zero(a, path, old);
                if k < a.len() {
                    assert(a[k] == (path, old));
                }
                assert(b[k - a.len()] == (path, old));
                lemma_alter_from_count_zero(children, 0, path, contents);
                assert(children.subrange(0, children.len() as int) =~= children);
                lemma_alter_from_unique(s, i + 1, path, old, contents);
                assert(r == seq![s[i]] + rest);
                assert(r.subrange(1, r.len() as int) =~= rest);
                lemma_files_shift(r, rest, 1, 0);
                let m = choose|m: int| 0 <= m < files_from(rest, 0).len() && files_from(rest, 0)[m] == (path, contents);
                assert(files_from(r, 0)[node_files(r[0]).len() + m] == (path, contents));
                assert(replaced_from(s, i, path) == replaced_nodes(children, path) + replaced_from(s, i + 1, path));
                assert(replaced_from(s, i, path) =~= seq![old]);
            }
        },
    }
}

/// When exactly one file of the tree, at any depth, has the path, recording contents for
/// that path gives that file the new contents and reports its old contents, whatever the
/// directories above it hold.
pub proof fn lemma_alter_unique_file(s: Seq<Node>, path: Seq<char>, old: Seq<char>, contents: Seq<char>)
    requires
        count_path(files_of(s), path) == 1,
        files_of(s).contains((path, old)),
    ensures
        files_of(alter_nodes(s, path, contents)).contains((path, contents)),
        replaced_nodes(s, path) == seq![old],
{
    lemma_alter_from_unique(s, 0, path, old, contents);
}

} // verus!
