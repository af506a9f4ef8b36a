//! What the tree of an archive leads to.
use vstd::prelude::*;

use crate::archive;
use crate::bytes;
use crate::entry;
use crate::entry::Entry;
use crate::insert_laws;
use crate::reading;
use crate::reading::ListedView;
use crate::tree::Tree;
use crate::tree_laws;

verus! {

/// What is inserted later leaves a file where it was.
proof fn lemma_file_stays(tree: Tree<Entry>, entries: Seq<Entry>, k: int, q: Seq<u8>)
    requires
        0 <= k <= entries.len(),
        archive::with_entries(tree, entries.take(k)).find(q) is Some,
        archive::with_entries(tree, entries.take(k)).find(q)->0 is File,
    ensures
        archive::with_entries(tree, entries).find(q) == archive::with_entries(
            tree,
            entries.take(k),
        ).find(q),
    decreases entries.len() - k,
{
    if k == entries.len() {
        assert(entries.take(k) =~= entries);
    } else {
        let next = entries.take(k + 1);
        assert(next.drop_last() =~= entries.take(k));
        tree_laws::law_insert_keeps_found(
            archive::with_entries(tree, entries.take(k)),
            next.last(),
            bytes::text(next.last().name@),
            q,
        );
        lemma_file_stays(tree, entries, k + 1, q);
    }
}

/// In the tree of an archive the name of a file leads to that file, where at its turn nothing
/// stood in its way: no empty name in its path, no file in the place of one of its directories,
/// and nothing of its own name.
pub proof fn law_entry_found(entries: Seq<Entry>, k: int)
    requires
        0 <= k < entries.len(),
        archive::with_entries(archive::empty_root(), entries.take(k)).free_for(
            bytes::text(entries[k].name@),
        ),
        !tree_laws::names_dir(bytes::text(entries[k].name@)),
    ensures
        match archive::archive_tree(entries).find(bytes::text(entries[k].name@)) {
            Some(node) => {
                &&& node is File
                &&& node.name() == tree_laws::last_name(bytes::text(entries[k].name@))
                &&& node.entry() == Some(entries[k])
            },
            None => false,
        },
{
    let p = bytes::text(entries[k].name@);
    let root = archive::empty_root();
    let before = archive::with_entries(root, entries.take(k));
    let next = entries.take(k + 1);
    assert(next.drop_last() =~= entries.take(k));
    assert(next.last() == entries[k]);
    tree_laws::law_find_inserted(before, entries[k], p);
    lemma_file_stays(root, entries, k + 1, p);
    tree_laws::law_sort_keeps_find(archive::with_entries(root, entries), p);
}

pub(crate) proof fn lemma_entries_well_indexed(entries: Seq<Entry>)
    requires
        entries.len() <= usize::MAX,
    ensures
        archive::with_entries(archive::empty_root(), entries).well_indexed(),
        archive::with_entries(archive::empty_root(), entries).at_most(entries.len()),
    decreases entries.len(),
{
    if entries.len() == 0 {
        tree_laws::law_root_well_indexed::<Entry>();
    } else {
        let init = entries.drop_last();
        let t = archive::with_entries(archive::empty_root(), init);
        let p = bytes::text(entries.last().name@);
        lemma_entries_well_indexed(init);
        tree_laws::lemma_at_most_more(t, init.len(), usize::MAX as nat);
        tree_laws::law_insert_keeps_index(t, entries.last(), p);
        tree_laws::law_insert_adds_one(t, entries.last(), p, init.len());
    }
}

/// The tree of an archive is well indexed, and so is whatever a path leads to in it.
pub proof fn law_archive_well_indexed(entries: Seq<Entry>, p: Seq<u8>)
    requires
        entries.len() <= usize::MAX,
    ensures
        archive::archive_tree(entries).well_indexed(),
        archive::archive_tree(entries).find(p) matches Some(node) ==> node.well_indexed(),
{
    let t = archive::with_entries(archive::empty_root(), entries);
    lemma_entries_well_indexed(entries);
    tree_laws::lemma_at_most_more(t, entries.len(), usize::MAX as nat);
    tree_laws::law_sort_keeps_index(t);
    if archive::archive_tree(entries).find(p) is Some {
        tree_laws::law_found_well_indexed(archive::archive_tree(entries), p);
    }
}

proof fn lemma_free_after(entries: Seq<Entry>, p: Seq<u8>)
    requires
        tree_laws::no_empty_name(p),
        forall|j: int|
            0 <= j < entries.len() ==> !tree_laws::stands_in_the_way(
                bytes::text((#[trigger] entries[j]).name@),
                p,
            ),
    ensures
        archive::with_entries(archive::empty_root(), entries).free_for(p),
    decreases entries.len(),
{
    if entries.len() == 0 {
        tree_laws::lemma_empty_free::<Entry>(Seq::empty(), true, p);
    } else {
        let init = entries.drop_last();
        assert forall|j: int| 0 <= j < init.len() implies !tree_laws::stands_in_the_way(
            bytes::text((#[trigger] init[j]).name@),
            p,
        ) by {
            assert(init[j] == entries[j]);
        }
        lemma_free_after(init, p);
        assert(entries.last() == entries[entries.len() - 1]);
        tree_laws::law_stays_free(
            archive::with_entries(archive::empty_root(), init),
            entries.last(),
            bytes::text(entries.last().name@),
            p,
        );
    }
}

/// In the tree of an archive the name of a file leads to that file, where the name is not empty
/// nor one of its parts, and no entry before it stands in its way.
pub proof fn law_file_found(entries: Seq<Entry>, k: int)
    requires
        0 <= k < entries.len(),
        tree_laws::no_empty_name(bytes::text(entries[k].name@)),
        !tree_laws::names_dir(bytes::text(entries[k].name@)),
        forall|j: int|
            0 <= j < k ==> !tree_laws::stands_in_the_way(
                bytes::text((#[trigger] entries[j]).name@),
                bytes::text(entries[k].name@),
            ),
    ensures
        match archive::archive_tree(entries).find(bytes::text(entries[k].name@)) {
            Some(node) => {
                &&& node is File
                &&& node.name() == tree_laws::last_name(bytes::text(entries[k].name@))
                &&& node.entry() == Some(entries[k])
            },
            None => false,
        },
{
    let before = entries.take(k);
    let p = bytes::text(entries[k].name@);
    assert forall|j: int| 0 <= j < before.len() implies !tree_laws::stands_in_the_way(
        bytes::text((#[trigger] before[j]).name@),
        p,
    ) by {
        assert(before[j] == entries[j]);
    }
    lemma_free_after(before, p);
    law_entry_found(entries, k);
}

/// What is inserted later leaves a directory and its entry where they were, unless it is put at
/// the path of that directory.
proof fn lemma_dir_stays(tree: Tree<Entry>, entries: Seq<Entry>, k: int, p: Seq<u8>)
    requires
        0 <= k <= entries.len(),
        tree_laws::no_empty_name(p),
        tree_laws::names_dir(p),
        archive::with_entries(tree, entries.take(k)).find(p) is Some,
        archive::with_entries(tree, entries.take(k)).find(p)->0 is Dir,
        forall|j: int|
            k <= j < entries.len() ==> !insert_laws::same_dir(
                bytes::text((#[trigger] entries[j]).name@),
                p,
            ),
    ensures
        ({
            let before = archive::with_entries(tree, entries.take(k)).find(p)->0;
            match archive::with_entries(tree, entries).find(p) {
                Some(node) => {
                    &&& node is Dir
                    &&& node.name() == before.name()
                    &&& node.entry() == before.entry()
                },
                None => false,
            }
        }),
    decreases entries.len() - k,
{
    if k == entries.len() {
        assert(entries.take(k) =~= entries);
    } else {
        let next = entries.take(k + 1);
        let t = archive::with_entries(tree, entries.take(k));
        let q = bytes::text(next.last().name@);
        assert(next.drop_last() =~= entries.take(k));
        assert(next.last() == entries[k]);
        tree_laws::law_insert_keeps_found(t, next.last(), q, p);
        insert_laws::law_insert_keeps_dir_entry(t, next.last(), q, p);
        lemma_dir_stays(tree, entries, k + 1, p);
    }
}

/// In the tree of an archive the name of a directory leads to that directory, with its entry,
/// where no name in its path is empty, no entry before it stands in its way, and no entry behind
/// it is one for the same directory.
pub proof fn law_dir_found(entries: Seq<Entry>, k: int)
    requires
        0 <= k < entries.len(),
        tree_laws::no_empty_name(bytes::text(entries[k].name@)),
        tree_laws::names_dir(bytes::text(entries[k].name@)),
        forall|j: int|
            0 <= j < k ==> !tree_laws::stands_in_the_way(
                bytes::text((#[trigger] entries[j]).name@),
                bytes::text(entries[k].name@),
            ),
        forall|j: int|
            k < j < entries.len() ==> !insert_laws::same_dir(
                bytes::text((#[trigger] entries[j]).name@),
                bytes::text(entries[k].name@),
            ),
    ensures
        match archive::archive_tree(entries).find(bytes::text(entries[k].name@)) {
            Some(node) => {
                &&& node is Dir
                &&& node.name() == tree_laws::last_name(bytes::text(entries[k].name@))
                &&& node.entry() == Some(entries[k])
            },
            None => false,
        },
{
    let before = entries.take(k);
    let p = bytes::text(entries[k].name@);
    let root = archive::empty_root();
    let next = entries.take(k + 1);
    assert forall|j: int| 0 <= j < before.len() implies !tree_laws::stands_in_the_way(
        bytes::text((#[trigger] before[j]).name@),
        p,
    ) by {
        assert(before[j] == entries[j]);
    }
    lemma_free_after(before, p);
    assert(next.drop_last() =~= before);
    assert(next.last() == entries[k]);
    tree_laws::law_find_inserted(archive::with_entries(root, before), entries[k], p);
    lemma_dir_stays(root, entries, k + 1, p);
    tree_laws::law_sort_keeps_find(archive::with_entries(root, entries), p);
}

/// How many entries are those of files.
pub open spec fn file_entries(entries: Seq<Entry>) -> nat
    decreases entries.len(),
{
    if entries.len() == 0 {
        0
    } else if tree_laws::names_dir(bytes::text(entries.last().name@)) {
        file_entries(entries.drop_last())
    } else {
        file_entries(entries.drop_last()) + 1
    }
}

proof fn lemma_entries_shape(entries: Seq<Entry>)
    ensures
        ({
            let t = archive::with_entries(archive::empty_root(), entries);
            &&& t is Dir
            &&& t->is_root
            &&& t.name() == Seq::<u8>::empty()
            &&& t.entry() is None
            &&& t.dirs_distinct()
            &&& t.no_root_below()
            &&& t.file_count() == file_entries(entries)
        }),
    decreases entries.len(),
{
    if entries.len() == 0 {
        insert_laws::law_root::<Entry>();
        assert(insert_laws::file_counts(Seq::<Tree<Entry>>::empty()) =~= Seq::empty());
    } else {
        let init = entries.drop_last();
        let t = archive::with_entries(archive::empty_root(), init);
        let e = entries.last();
        let p = bytes::text(e.name@);
        lemma_entries_shape(init);
        insert_laws::law_insert_keeps_own(t, e, p);
        insert_laws::law_insert_keeps_dirs_distinct(t, e, p);
        insert_laws::law_insert_marks_no_root(t, e, p);
        insert_laws::law_insert_adds_one_file(t, e, p);
    }
}

/// The tree of an archive is a root without a name and an entry of its own. No directory below
/// it is marked as the root, no two directories in one have the same name, and there are as many
/// files as entries of files.
pub proof fn law_archive_shape(entries: Seq<Entry>)
    ensures
        archive::archive_tree(entries) is Dir,
        archive::archive_tree(entries)->is_root,
        archive::archive_tree(entries).name() == Seq::<u8>::empty(),
        archive::archive_tree(entries).entry() is None,
        archive::archive_tree(entries).no_root_below(),
        archive::archive_tree(entries).dirs_distinct(),
        archive::archive_tree(entries).file_count() == file_entries(entries),
{
    let t = archive::with_entries(archive::empty_root(), entries);
    lemma_entries_shape(entries);
    insert_laws::law_sort_keeps_dirs(t);
    insert_laws::law_sort_keeps_files(t);
}

/// Before it is sorted, the tree of an archive records for each directory the index of a file
/// named `index.html`, where there is one.
pub proof fn law_entries_index_file(entries: Seq<Entry>)
    requires
        entries.len() <= usize::MAX,
    ensures
        archive::with_entries(archive::empty_root(), entries).indexes_file(),
    decreases entries.len(),
{
    if entries.len() == 0 {
        insert_laws::law_root::<Entry>();
    } else {
        let init = entries.drop_last();
        let t = archive::with_entries(archive::empty_root(), init);
        law_entries_index_file(init);
        lemma_entries_well_indexed(init);
        tree_laws::lemma_at_most_more(t, init.len(), usize::MAX as nat);
        insert_laws::law_insert_indexes_file(t, entries.last(), bytes::text(entries.last().name@));
    }
}

/// What an archive lists as a file is found in its tree, under the name that it is listed with,
/// where no part of the name is empty and nothing listed before stands in the way.
pub proof fn law_listed_file_found(listed: Seq<ListedView>, entries: Seq<Entry>, k: int)
    requires
        entry::entry_views(entries) == reading::entries_listed(listed),
        0 <= k < listed.len(),
        tree_laws::no_empty_name(listed[k].name),
        !tree_laws::names_dir(listed[k].name),
        forall|j: int|
            0 <= j < k ==> !tree_laws::stands_in_the_way(
                (#[trigger] listed[j]).name,
                listed[k].name,
            ),
    ensures
        archive::archive_tree(entries).find(listed[k].name) matches Some(node) && {
            &&& node is File
            &&& node.entry() matches Some(e) && e@ == listed[k].entry()
        },
{
    lemma_listed(listed, entries);
    assert forall|j: int| 0 <= j < k implies !tree_laws::stands_in_the_way(
        bytes::text((#[trigger] entries[j]).name@),
        bytes::text(entries[k].name@),
    ) by {
        assert(entries[j]@.name == listed[j].name);
    }
    assert(entries[k]@.name == listed[k].name);
    law_file_found(entries, k);
}

/// What an archive lists as a directory is found in its tree, with the entry that it is listed
/// with, where no part of the name is empty, nothing listed before stands in the way, and nothing
/// listed behind it is the same directory.
pub proof fn law_listed_dir_found(listed: Seq<ListedView>, entries: Seq<Entry>, k: int)
    requires
        entry::entry_views(entries) == reading::entries_listed(listed),
        0 <= k < listed.len(),
        tree_laws::no_empty_name(listed[k].name),
        tree_laws::names_dir(listed[k].name),
        forall|j: int|
            0 <= j < k ==> !tree_laws::stands_in_the_way(
                (#[trigger] listed[j]).name,
                listed[k].name,
            ),
        forall|j: int|
            k < j < listed.len() ==> !insert_laws::same_dir(
                (#[trigger] listed[j]).name,
                listed[k].name,
            ),
    ensures
        archive::archive_tree(entries).find(listed[k].name) matches Some(node) && {
            &&& node is Dir
            &&& node.entry() matches Some(e) && e@ == listed[k].entry()
        },
{
    lemma_listed(listed, entries);
    assert forall|j: int| 0 <= j < k implies !tree_laws::stands_in_the_way(
        bytes::text((#[trigger] entries[j]).name@),
        bytes::text(entries[k].name@),
    ) by {
        assert(entries[j]@.name == listed[j].name);
    }
    assert forall|j: int| k < j < entries.len() implies !insert_laws::same_dir(
        bytes::text((#[trigger] entries[j]).name@),
        bytes::text(entries[k].name@),
    ) by {
        assert(entries[j]@.name == listed[j].name);
    }
    assert(entries[k]@.name == listed[k].name);
    law_dir_found(entries, k);
}

proof fn lemma_listed(listed: Seq<ListedView>, entries: Seq<Entry>)
    requires
        entry::entry_views(entries) == reading::entries_listed(listed),
    ensures
        entries.len() == listed.len(),
        forall|j: int|
            0 <= j < entries.len() ==> (#[trigger] entries[j])@ == listed[j].entry(),
{
    assert(entry::entry_views(entries).len() == entries.len());
    assert(reading::entries_listed(listed).len() == listed.len());
    assert forall|j: int| 0 <= j < entries.len() implies (#[trigger] entries[j])@
        == listed[j].entry() by {
        assert(entry::entry_views(entries)[j] == entries[j]@);
        assert(reading::entries_listed(listed)[j] == listed[j].entry());
    }
}

} // verus!
