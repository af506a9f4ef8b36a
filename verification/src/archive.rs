//! The tree of an archive.
use vstd::prelude::*;

use crate::bytes;
use crate::entry::Entry;
use crate::fstree::FsTreeNode;
use crate::path;
use crate::tree::Tree;

verus! {

/// The tree with some entries inserted, each at the path that is its name.
pub open spec fn with_entries(tree: Tree<Entry>, entries: Seq<Entry>) -> Tree<Entry>
    decreases entries.len(),
{
    if entries.len() == 0 {
        tree
    } else {
        with_entries(tree, entries.drop_last()).inserted(
            entries.last(),
            bytes::text(entries.last().name@),
        )
    }
}

/// A root directory without contents.
pub open spec fn empty_root() -> Tree<Entry> {
    Tree::empty_dir(Seq::empty(), true)
}

/// The tree of an archive: all entries inserted, and sorted.
pub open spec fn archive_tree(entries: Seq<Entry>) -> Tree<Entry> {
    with_entries(empty_root(), entries).sorted()
}

impl FsTreeNode<Entry> {
    /// Puts an entry at the path that is its name.
    pub fn insert(&mut self, entry: Entry)
        requires
            old(self)@ is Dir,
            path::insertable(bytes::text(entry.name@)),
        ensures
            final(self)@ == old(self)@.inserted(entry, bytes::text(entry.name@)),
    {
        let path = entry.name.clone();
        self.insert_at(entry, path);
    }
}

/// The tree of an archive with these entries.
pub fn tree_of_entries(entries: Vec<Entry>) -> (r: FsTreeNode<Entry>)
    requires
        forall|i: int|
            0 <= i < entries@.len() ==> path::insertable(
                #[trigger] bytes::text(entries@[i].name@),
            ),
    ensures
        r@ == archive_tree(entries@),
{
    let ghost all = entries@;
    let mut tree: FsTreeNode<Entry> = FsTreeNode::root();
    assert(all.take(0) =~= Seq::empty());
    for entry in it: entries
        invariant
            it.seq() == all,
            tree@ == with_entries(empty_root(), all.take(it.index() as int)),
            tree@ is Dir,
            forall|i: int|
                0 <= i < all.len() ==> path::insertable(#[trigger] bytes::text(all[i].name@)),
    {
        proof {
            let k = it.index() as int;
            assert(all.take(k + 1).drop_last() =~= all.take(k));
            assert(all.take(k + 1).last() == entry);
        }
        tree.insert(entry);
    }
    assert(all.take(all.len() as int) =~= all);
    tree.recursive_sort();
    tree
}

} // verus!
