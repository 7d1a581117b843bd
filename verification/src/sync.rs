//! Serving the tree to a polling client: what changed since its last poll.
use vstd::prelude::*;
use crate::mapping::{can_map_tree, map_text, map_tree, mappable};
use crate::scan::{lemma_scan_extensions, scan_nodes};
use crate::tree::{copy_forest, forest, FileTree, Node};
use crate::trim::{
    extensions_present, lemma_trim_against_nothing, lemma_trim_unchanged, trim_nodes, trim_tree,
    trimmable, try_trim_tree,
};

verus! {

/// The answer to a poll: the JSON text of what `current` changed against `previous`.
pub open spec fn poll_response(previous: Seq<Node>, current: Seq<Node>, root: Seq<char>) -> Seq<char> {
    map_text(trim_nodes(current, previous), root)
}

/// A poll can be answered: the trimming walk completes and its result can be rendered.
pub open spec fn pollable(previous: Seq<Node>, current: Seq<Node>, root: Seq<char>) -> bool {
    trimmable(current, previous) && mappable(trim_nodes(current, previous), root)
}

/// Answers a poll with the freshly read tree `current`: remembers it as the tree last
/// served, and answers with the JSON text of its entries that changed since the tree
/// remembered before (`{}` when nothing changed).
pub fn refresh_tree(previous: &mut Vec<FileTree>, current: Vec<FileTree>, root: &str) -> (r: String)
    requires
        pollable(forest(old(previous)@), forest(current@), root@),
    ensures
        forest(final(previous)@) == forest(current@),
        r@ == poll_response(forest(old(previous)@), forest(current@), root@),
        trim_nodes(forest(current@), forest(old(previous)@)).len() == 0 ==> r@ == seq!['{', '}'],
{
    let mut tree = current;
    let mut old_tree = copy_forest(previous);
    *previous = copy_forest(&tree);
    let changed = trim_tree(&mut tree, &mut old_tree);
    proof {
        crate::tree::lemma_forest(changed@);
    }
    map_tree(changed, root)
}

/// Answers a poll as `refresh_tree` does, or gives `None` where the poll cannot be
/// answered (see `pollable`); either way the fresh tree is remembered for the next poll.
pub fn poll_tree(previous: &mut Vec<FileTree>, current: Vec<FileTree>, root: &str) -> (r: Option<String>)
    ensures
        forest(final(previous)@) == forest(current@),
        r is Some <==> pollable(forest(old(previous)@), forest(current@), root@),
        r matches Some(text) ==> text@ == poll_response(forest(old(previous)@), forest(current@), root@),
{
    let answerable = match try_trim_tree(&current, previous) {
        Some(changed) => can_map_tree(&changed, root),
        None => false,
    };
    if answerable {
        Some(refresh_tree(previous, current, root))
    } else {
        *previous = current;
        None
    }
}

/// The first poll, against nothing remembered, answers with the whole tree.
pub proof fn lemma_first_poll_sends_everything(current: Seq<Node>, root: Seq<char>)
    ensures
        trimmable(current, Seq::<Node>::empty()),
        poll_response(Seq::<Node>::empty(), current, root) == map_text(current, root),
{
    lemma_trim_against_nothing(current);
}

/// Polling again with an unchanged tree answers with the object of no entries.
pub proof fn lemma_unchanged_poll_sends_nothing(current: Seq<Node>, root: Seq<char>)
    requires
        extensions_present(current),
    ensures
        pollable(current, current, root),
        poll_response(current, current, root) == map_text(Seq::<Node>::empty(), root),
{
    lemma_trim_unchanged(current);
}

/// A served tree (built from any listing) polled again unchanged can always be answered,
/// and the answer is the object of no entries.
pub proof fn lemma_repeated_poll_of_served_tree(listing: Seq<Node>, root: Seq<char>)
    ensures
        pollable(scan_nodes(listing), scan_nodes(listing), root),
        poll_response(scan_nodes(listing), scan_nodes(listing), root) == map_text(
            Seq::<Node>::empty(),
            root,
        ),
{
    lemma_scan_extensions(listing);
    lemma_unchanged_poll_sends_nothing(scan_nodes(listing), root);
}

} // verus!
