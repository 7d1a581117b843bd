//! The project tree: files with their contents and directories with their entries.
use vstd::prelude::*;

verus! {

/// A file with its path and contents, or a directory with its path and entries.
pub enum FileTree {
    File(String, String),
    Directory(String, Vec<FileTree>),
}

/// The mathematical value of a `FileTree`: paths and contents as character sequences.
pub enum Node {
    File(Seq<char>, Seq<char>),
    Dir(Seq<char>, Seq<Node>),
}

impl Node {
    pub open spec fn path(self) -> Seq<char> {
        match self {
            Node::File(p, _) => p,
            Node::Dir(p, _) => p,
        }
    }
}

impl FileTree {
    /// The value of this tree.
    pub open spec fn node(self) -> Node
        decreases self, 0int,
    {
        match self {
            FileTree::File(p, c) => Node::File(p@, c@),
            FileTree::Directory(p, files) => Node::Dir(p@, forest(files@)),
        }
    }
}

/// The values of a sequence of trees, entry by entry.
pub open spec fn forest(v: Seq<FileTree>) -> Seq<Node>
    decreases v, 1int,
{
    if v.len() == 0 {
        seq![]
    } else {
        forest(v.drop_last()).push(v.last().node())
    }
}

impl View for FileTree {
    type V = Node;

    open spec fn view(&self) -> Node {
        self.node()
    }
}

/// `forest` keeps the length and maps each entry to its value.
pub proof fn lemma_forest(v: Seq<FileTree>)
    ensures
        forest(v).len() == v.len(),
        forall|i: int| 0 <= i < v.len() ==> #[trigger] forest(v)[i] == v[i].node(),
    decreases v.len(),
{
    if v.len() > 0 {
        lemma_forest(v.drop_last());
    }
}

/// The forest of a sequence extended by one tree is extended by that tree's value.
pub proof fn lemma_forest_push(v: Seq<FileTree>, t: FileTree)
    ensures
        forest(v.push(t)) == forest(v).push(t.node()),
{
    assert(v.push(t).drop_last() =~= v);
}

/// Replacing one tree in a sequence replaces its value in the forest.
pub proof fn lemma_forest_update(v: Seq<FileTree>, i: int, t: FileTree)
    requires
        0 <= i < v.len(),
    ensures
        forest(v.update(i, t)) == forest(v).update(i, t.node()),
{
    lemma_forest(v);
    lemma_forest(v.update(i, t));
    assert(forest(v.update(i, t)) =~= forest(v).update(i, t.node()));
}

/// Two sequences of trees with the same values entry by entry have the same forest.
pub proof fn lemma_forest_ext(a: Seq<FileTree>, b: Seq<FileTree>)
    requires
        a.len() == b.len(),
        forall|i: int| 0 <= i < a.len() ==> #[trigger] a[i].node() == b[i].node(),
    ensures
        forest(a) == forest(b),
{
    lemma_forest(a);
    lemma_forest(b);
    assert(forest(a) =~= forest(b));
}

/// A copy of a sequence of trees with the same value.
pub fn copy_forest(v: &Vec<FileTree>) -> (r: Vec<FileTree>)
    ensures
        forest(r@) == forest(v@),
    decreases v@, 0int,
{
    let mut r: Vec<FileTree> = Vec::new();
    let mut i: usize = 0;
    while i < v.len()
        invariant
            i <= v.len(),
            r@.len() == i,
            forall|j: int| 0 <= j < i ==> #[trigger] r@[j].node() == v@[j].node(),
        decreases v.len() - i,
    {
        let t = copy_tree(&v[i]);
        r.push(t);
        i = i + 1;
    }
    proof {
        lemma_forest_ext(r@, v@);
    }
    r
}

/// A copy of a tree with the same value.
pub fn copy_tree(t: &FileTree) -> (r: FileTree)
    ensures
        r.node() == t.node(),
    decreases t, 0int,
{
    match t {
        FileTree::File(p, c) => FileTree::File(p.clone(), c.clone()),
        FileTree::Directory(p, files) => FileTree::Directory(p.clone(), copy_forest(files)),
    }
}

impl Clone for FileTree {
    fn clone(&self) -> (r: Self)
        ensures
            r.node() == self.node(),
    {
        copy_tree(self)
    }
}

/// Whether two trees have the same value: same kind, same path, and the same contents
/// or the same entries.
pub fn same_tree(a: &FileTree, b: &FileTree) -> (r: bool)
    ensures
        r == (a.node() == b.node()),
    decreases a, 0int,
{
    match (a, b) {
        (FileTree::File(p1, c1), FileTree::File(p2, c2)) => {
            let r = p1.eq(p2) && c1.eq(c2);
            r
        },
        (FileTree::Directory(p1, f1), FileTree::Directory(p2, f2)) => {
            if !p1.eq(p2) {
                return false;
            }
            same_forest(f1, f2)
        },
        (FileTree::File(_, _), FileTree::Directory(_, _)) => false,
        (FileTree::Directory(_, _), FileTree::File(_, _)) => false,
    }
}

/// Whether two sequences of trees have the same value.
pub fn same_forest(a: &Vec<FileTree>, b: &Vec<FileTree>) -> (r: bool)
    ensures
        r == (forest(a@) == forest(b@)),
    decreases a@, 1int,
{
    proof {
        lemma_forest(a@);
        lemma_forest(b@);
    }
    if a.len() != b.len() {
        return false;
    }
    let mut i: usize = 0;
    while i < a.len()
        invariant
            a.len() == b.len(),
            i <= a.len(),
            forest(a@).len() == a@.len(),
            forest(b@).len() == b@.len(),
            forall|j: int| 0 <= j < i ==> #[trigger] forest(a@)[j] == forest(b@)[j],
            forall|j: int| 0 <= j < a@.len() ==> #[trigger] forest(a@)[j] == a@[j].node(),
            forall|j: int| 0 <= j < b@.len() ==> #[trigger] forest(b@)[j] == b@[j].node(),
        decreases a.len() - i,
    {
        if !same_tree(&a[i], &b[i]) {
            assert(forest(a@)[i as int] != forest(b@)[i as int]);
            return false;
        }
        i = i + 1;
    }
    assert(forest(a@) =~= forest(b@));
    true
}

/// Whether a tree with the value of `t` is among the entries of `v`.
pub fn forest_contains(v: &Vec<FileTree>, t: &FileTree) -> (r: bool)
    ensures
        r == forest(v@).contains(t.node()),
{
    proof {
        lemma_forest(v@);
    }
    let mut i: usize = 0;
    while i < v.len()
        invariant
            i <= v.len(),
            forest(v@).len() == v@.len(),
            forall|j: int| 0 <= j < v@.len() ==> #[trigger] forest(v@)[j] == v@[j].node(),
            forall|j: int| 0 <= j < i ==> forest(v@)[j] != t.node(),
        decreases v.len() - i,
    {
        if same_tree(&v[i], t) {
            assert(forest(v@)[i as int] == t.node());
            return true;
        }
        i = i + 1;
    }
    false
}

} // verus!
