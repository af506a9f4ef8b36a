//! Where the files and directories of an archive's tree come from.
use vstd::prelude::*;

use crate::archive;
use crate::archive_laws;
use crate::bytes;
use crate::client;
use crate::entry::Entry;
use crate::insert_laws;
use crate::order;
use crate::path;
use crate::tree;
use crate::tree::Tree;
use crate::tree_laws;

verus! {

/// Whether everything in a tree stems from some entries: each file is one of them and has the last
/// name of its path, each entry of a directory is one of them, and no directory but the top is
/// there that neither holds anything nor has an entry.
pub open spec fn stems_from(t: Tree<Entry>, entries: Seq<Entry>) -> bool
    decreases t,
{
    match t {
        Tree::Dir { children, entry, .. } => {
            &&& entry matches Some(e) ==> entries.contains(e)
            &&& forall|i: int|
                0 <= i < children.len() ==> {
                    &&& stems_from(#[trigger] children[i], entries)
                    &&& has_reason(children[i])
                }
        },
        Tree::File { name, entry } => {
            &&& entries.contains(entry)
            &&& name == tree_laws::last_name(bytes::text(entry.name@))
        },
    }
}

/// Whether a directory holds something or has an entry.
pub open spec fn has_reason(t: Tree<Entry>) -> bool {
    t matches Tree::Dir { children, entry, .. } ==> children.len() > 0 || entry is Some
}

proof fn lemma_inserted_holds(t: Tree<Entry>, e: Entry, p: Seq<u8>)
    requires
        t is Dir,
    ensures
        t.inserted(e, p) is Dir,
        t.inserted(e, p)->children.len() > 0,
{
    path::lemma_separator(p);
    if path::separator(p) is Some {
        tree_laws::lemma_with_dir(t->children, path::split_path(p).0);
    }
}

proof fn lemma_insert_stems(t: Tree<Entry>, e: Entry, p: Seq<u8>, entries: Seq<Entry>)
    requires
        stems_from(t, entries),
        entries.contains(e),
        tree_laws::last_name(p) == tree_laws::last_name(bytes::text(e.name@)),
    ensures
        stems_from(t.inserted(e, p), entries),
    decreases p.len(),
{
    path::lemma_separator(p);
    if let Tree::Dir { children, .. } = t {
        let new = t.inserted(e, p)->children;
        if let Some(sep) = path::separator(p) {
            let (head, tail) = path::split_path(p);
            let kids = tree::with_dir(children, head);
            let at = tree::dir_index(kids, head);
            tree_laws::lemma_with_dir(children, head);
            assert forall|i: int| 0 <= i < kids.len() implies {
                &&& stems_from(#[trigger] kids[i], entries)
                &&& i != at ==> has_reason(kids[i])
            } by {
                if i < children.len() {
                    assert(kids[i] == children[i]);
                } else {
                    assert(i == at && kids[i] is Dir);
                }
            }
            let child = if sep + 1 < p.len() {
                lemma_insert_stems(kids[at], e, tail, entries);
                lemma_inserted_holds(kids[at], e, tail);
                kids[at].inserted(e, tail)
            } else {
                kids[at].with_entry(e)
            };
            assert(stems_from(child, entries) && has_reason(child));
            assert(new == kids.update(at, child));
            assert forall|i: int| 0 <= i < new.len() implies {
                &&& stems_from(#[trigger] new[i], entries)
                &&& has_reason(new[i])
            } by {
                if i != at {
                    assert(new[i] == kids[i]);
                }
            }
        } else {
            assert(new == children.push(Tree::File { name: p, entry: e }));
            assert forall|i: int| 0 <= i < new.len() implies {
                &&& stems_from(#[trigger] new[i], entries)
                &&& has_reason(new[i])
            } by {
                if i < children.len() {
                    assert(new[i] == children[i]);
                }
            }
        }
    }
}

proof fn lemma_more_entries(t: Tree<Entry>, entries: Seq<Entry>, e: Entry)
    requires
        stems_from(t, entries),
    ensures
        stems_from(t, entries.push(e)),
    decreases t,
{
    assert forall|x: Entry| entries.contains(x) implies #[trigger] entries.push(e).contains(x) by {
        let i = choose|i: int| 0 <= i < entries.len() && entries[i] == x;
        assert(entries.push(e)[i] == x);
    }
    if let Tree::Dir { children, .. } = t {
        assert forall|i: int| 0 <= i < children.len() implies {
            &&& stems_from(#[trigger] children[i], entries.push(e))
            &&& has_reason(children[i])
        } by {
            lemma_more_entries(children[i], entries, e);
        }
    }
}

proof fn lemma_sort_stems(t: Tree<Entry>, entries: Seq<Entry>)
    requires
        stems_from(t, entries),
    ensures
        stems_from(t.sorted(), entries),
        has_reason(t) ==> has_reason(t.sorted()),
    decreases t,
{
    if let Tree::Dir { children, .. } = t {
        let each = tree::each_sorted(children);
        let kids = order::name_sorted(each);
        tree_laws::lemma_sorted_members(each);
        order::law_name_sorted(each);
        assert forall|j: int| 0 <= j < kids.len() implies {
            &&& stems_from(#[trigger] kids[j], entries)
            &&& has_reason(kids[j])
        } by {
            assert(each.contains(kids[j]));
            let i = choose|i: int| 0 <= i < each.len() && each[i] == kids[j];
            assert(has_reason(children[i]));
            lemma_sort_stems(children[i], entries);
        }
    }
}

proof fn lemma_entries_stem(entries: Seq<Entry>)
    ensures
        stems_from(archive::with_entries(archive::empty_root(), entries), entries),
    decreases entries.len(),
{
    if entries.len() > 0 {
        let init = entries.drop_last();
        let e = entries.last();
        let t = archive::with_entries(archive::empty_root(), init);
        lemma_entries_stem(init);
        lemma_more_entries(t, init, e);
        assert(init.push(e) =~= entries);
        assert(entries[entries.len() - 1] == e);
        lemma_insert_stems(t, e, bytes::text(e.name@), entries);
    }
}

/// The tree of an archive holds nothing but what its entries put there.
pub proof fn law_nothing_else(entries: Seq<Entry>)
    ensures
        stems_from(archive::archive_tree(entries), entries),
{
    lemma_entries_stem(entries);
    lemma_sort_stems(archive::with_entries(archive::empty_root(), entries), entries);
}

pub(crate) proof fn lemma_found_stems(t: Tree<Entry>, p: Seq<u8>, entries: Seq<Entry>)
    requires
        stems_from(t, entries),
        t.find(p) is Some,
    ensures
        stems_from(t.find(p)->0, entries),
    decreases p.len(),
{
    path::lemma_separator(p);
    if p.len() == 0 || p == seq![0x2fu8] {
    } else {
        let (head, tail) = path::split_path(p);
        if head.len() == 0 {
            lemma_found_stems(t, tail, entries);
        } else if let Tree::Dir { children, .. } = t {
            let at = tree::child_index(children, head);
            tree::lemma_child_index(children, head);
            assert(stems_from(children[at], entries));
            lemma_found_stems(children[at], tail, entries);
        }
    }
}

/// A path that leads to a file in the tree of an archive leads to one of its entries.
pub proof fn law_found_file_listed(entries: Seq<Entry>, p: Seq<u8>)
    requires
        archive::archive_tree(entries).find(p) matches Some(Tree::File { .. }),
    ensures
        archive::archive_tree(entries).find(p) matches Some(Tree::File { name, entry }) && {
            &&& entries.contains(entry)
            &&& name == tree_laws::last_name(bytes::text(entry.name@))
        },
{
    law_nothing_else(entries);
    lemma_found_stems(archive::archive_tree(entries), p, entries);
}

proof fn lemma_slashes<E>(t: Tree<E>, p: Seq<u8>)
    requires
        forall|i: int| 0 <= i < p.len() ==> #[trigger] p[i] == 0x2f,
    ensures
        t.find(p) == Some(t),
    decreases p.len(),
{
    if p.len() > 0 {
        let rest = p.drop_first();
        assert forall|i: int| 0 <= i < rest.len() implies #[trigger] rest[i] == 0x2f by {
            assert(rest[i] == p[i + 1]);
        }
        lemma_slashes(t, rest);
        tree_laws::law_leading_slash(t, rest);
        assert(p =~= seq![0x2fu8] + rest);
    }
}

proof fn lemma_below_no_root<E>(t: Tree<E>, p: Seq<u8>)
    requires
        t.no_root_below(),
        t is Dir ==> !t->is_root,
        t.find(p) is Some,
    ensures
        t.find(p) matches Some(n) && (n is Dir ==> !n->is_root),
    decreases p.len(),
{
    path::lemma_separator(p);
    if p.len() == 0 || p == seq![0x2fu8] {
    } else {
        let (head, tail) = path::split_path(p);
        if head.len() == 0 {
            lemma_below_no_root(t, tail);
        } else if let Tree::Dir { children, .. } = t {
            let at = tree::child_index(children, head);
            tree::lemma_child_index(children, head);
            assert(children[at].no_root_below());
            lemma_below_no_root(children[at], tail);
        }
    }
}

proof fn lemma_name_no_root<E>(t: Tree<E>, p: Seq<u8>, k: int)
    requires
        t.no_root_below(),
        t.find(p) is Some,
        insert_laws::ascii(p),
        0 <= k < p.len(),
        p[k] != 0x2f,
    ensures
        t.find(p) matches Some(n) && (n is Dir ==> !n->is_root),
    decreases p.len(),
{
    path::lemma_separator(p);
    insert_laws::lemma_ascii_separator(p);
    assert(p != seq![0x2fu8]) by {
        if p == seq![0x2fu8] {
            assert(p[0] == 0x2f);
        }
    }
    let (head, tail) = path::split_path(p);
    if head.len() == 0 {
        assert(k > 0);
        assert(tail[k - 1] == p[k]);
        lemma_name_no_root(t, tail, k - 1);
    } else if let Tree::Dir { children, .. } = t {
        let at = tree::child_index(children, head);
        tree::lemma_child_index(children, head);
        assert(children[at].no_root_below());
        lemma_below_no_root(children[at], tail);
    }
}

/// The directory that counts as the root is the one that a path without a name leads to, and no
/// other.
pub proof fn law_root_at_the_top(entries: Seq<Entry>, p: Seq<u8>)
    requires
        insert_laws::ascii(p),
        archive::archive_tree(entries).find(p) matches Some(dir) && dir is Dir,
    ensures
        archive::archive_tree(entries).find(p)->0->is_root <==> forall|i: int|
            0 <= i < p.len() ==> #[trigger] p[i] == 0x2f,
{
    let t = archive::archive_tree(entries);
    archive_laws::law_archive_shape(entries);
    if forall|i: int| 0 <= i < p.len() ==> #[trigger] p[i] == 0x2f {
        lemma_slashes(t, p);
    } else {
        let k = choose|k: int| 0 <= k < p.len() && #[trigger] p[k] != 0x2f;
        lemma_name_no_root(t, p, k);
    }
}

/// The names that an insertion at a path meets, one after the other.
pub open spec fn route(p: Seq<u8>) -> Seq<Seq<u8>>
    decreases p.len(),
{
    proof {
        path::lemma_separator(p);
    }
    match path::separator(p) {
        Some(sep) => {
            let (head, tail) = path::split_path(p);
            if sep + 1 < p.len() {
                seq![head] + route(tail)
            } else {
                seq![head]
            }
        },
        None => seq![p],
    }
}

/// Whether each entry in a tree, which stands where a trail of names leads, is where its own path
/// leads.
pub open spec fn placed(t: Tree<Entry>, trail: Seq<Seq<u8>>) -> bool
    decreases t,
{
    match t {
        Tree::Dir { children, entry, .. } => {
            &&& entry matches Some(e) ==> route(bytes::text(e.name@)) == trail
            &&& forall|i: int|
                0 <= i < children.len() ==> placed(
                    #[trigger] children[i],
                    trail.push(children[i].name()),
                )
        },
        Tree::File { entry, .. } => route(bytes::text(entry.name@)) == trail,
    }
}

proof fn lemma_insert_placed(t: Tree<Entry>, e: Entry, p: Seq<u8>, trail: Seq<Seq<u8>>)
    requires
        placed(t, trail),
        route(bytes::text(e.name@)) == trail + route(p),
    ensures
        placed(t.inserted(e, p), trail),
    decreases p.len(),
{
    path::lemma_separator(p);
    if let Tree::Dir { children, .. } = t {
        let new = t.inserted(e, p)->children;
        if let Some(sep) = path::separator(p) {
            let (head, tail) = path::split_path(p);
            let kids = tree::with_dir(children, head);
            let at = tree::dir_index(kids, head);
            tree_laws::lemma_with_dir(children, head);
            assert forall|i: int| 0 <= i < kids.len() implies placed(
                #[trigger] kids[i],
                trail.push(kids[i].name()),
            ) by {
                if i < children.len() {
                    assert(kids[i] == children[i]);
                } else {
                    assert(i == at && kids[i] is Dir);
                }
            }
            let below = trail.push(head);
            let child = if sep + 1 < p.len() {
                assert(trail + (seq![head] + route(tail)) =~= below + route(tail));
                lemma_insert_placed(kids[at], e, tail, below);
                lemma_inserted_holds(kids[at], e, tail);
                insert_laws::law_insert_keeps_own(kids[at], e, tail);
                kids[at].inserted(e, tail)
            } else {
                assert(trail + seq![head] =~= below);
                kids[at].with_entry(e)
            };
            assert(placed(child, below) && child.name() == head);
            assert(new == kids.update(at, child));
            assert forall|i: int| 0 <= i < new.len() implies placed(
                #[trigger] new[i],
                trail.push(new[i].name()),
            ) by {
                if i != at {
                    assert(new[i] == kids[i]);
                }
            }
        } else {
            assert(new == children.push(Tree::File { name: p, entry: e }));
            assert(trail + seq![p] =~= trail.push(p));
            assert forall|i: int| 0 <= i < new.len() implies placed(
                #[trigger] new[i],
                trail.push(new[i].name()),
            ) by {
                if i < children.len() {
                    assert(new[i] == children[i]);
                }
            }
        }
    }
}

proof fn lemma_sort_placed(t: Tree<Entry>, trail: Seq<Seq<u8>>)
    requires
        placed(t, trail),
    ensures
        placed(t.sorted(), trail),
    decreases t,
{
    if let Tree::Dir { children, .. } = t {
        let each = tree::each_sorted(children);
        let kids = order::name_sorted(each);
        tree_laws::lemma_sorted_members(each);
        assert forall|j: int| 0 <= j < kids.len() implies placed(
            #[trigger] kids[j],
            trail.push(kids[j].name()),
        ) by {
            assert(each.contains(kids[j]));
            let i = choose|i: int| 0 <= i < each.len() && each[i] == kids[j];
            assert(placed(children[i], trail.push(children[i].name())));
            lemma_sort_placed(children[i], trail.push(children[i].name()));
            assert(kids[j].name() == children[i].name());
        }
    }
}

proof fn lemma_entries_placed(entries: Seq<Entry>)
    ensures
        placed(archive::with_entries(archive::empty_root(), entries), Seq::empty()),
    decreases entries.len(),
{
    if entries.len() > 0 {
        let init = entries.drop_last();
        let e = entries.last();
        let t = archive::with_entries(archive::empty_root(), init);
        let p = bytes::text(e.name@);
        lemma_entries_placed(init);
        assert(Seq::<Seq<u8>>::empty() + route(p) =~= route(p));
        lemma_insert_placed(t, e, p, Seq::empty());
    }
}

/// The names in a path: what stands between its slashes, where anything does.
pub open spec fn names_in(p: Seq<u8>) -> Seq<Seq<u8>>
    decreases p.len(),
{
    proof {
        client::lemma_mark_within(p, 0x2f);
    }
    match client::mark(p, 0x2f) {
        Some(k) => {
            let rest = names_in(p.skip(k + 1));
            if k == 0 {
                rest
            } else {
                seq![p.take(k)] + rest
            }
        },
        None => if p.len() == 0 {
            Seq::empty()
        } else {
            seq![p]
        },
    }
}

proof fn lemma_mark_is_slash(p: Seq<u8>)
    ensures
        client::mark(p, 0x2f) == path::first_slash(p),
    decreases p.len(),
{
    if p.len() > 0 {
        lemma_mark_is_slash(p.drop_first());
    }
}

/// The names of an ASCII path are those that an insertion meets, where none of these is empty.
proof fn lemma_route_names(p: Seq<u8>)
    requires
        insert_laws::ascii(p),
        forall|i: int| 0 <= i < route(p).len() ==> (#[trigger] route(p)[i]).len() > 0,
    ensures
        names_in(p) == route(p),
    decreases p.len(),
{
    path::lemma_separator(p);
    insert_laws::lemma_ascii_separator(p);
    lemma_mark_is_slash(p);
    if let Some(k) = path::separator(p) {
        let (head, tail) = path::split_path(p);
        assert(p.take(k) =~= head);
        assert(p.skip(k + 1) =~= tail);
        assert(route(p)[0] == head);
        if k + 1 < p.len() {
            assert forall|i: int| 0 <= i < route(tail).len() implies (#[trigger] route(
                tail,
            )[i]).len() > 0 by {
                assert(route(p)[i + 1] == route(tail)[i]);
            }
            lemma_route_names(tail);
        } else {
            assert(tail =~= Seq::empty());
            assert(names_in(tail) =~= Seq::empty());
            assert(seq![head] + names_in(tail) =~= seq![head]);
        }
    } else {
        assert(route(p)[0] == p);
    }
}

/// What an ASCII path leads to stands where its names lead.
proof fn lemma_found_placed(t: Tree<Entry>, p: Seq<u8>, trail: Seq<Seq<u8>>)
    requires
        placed(t, trail),
        insert_laws::ascii(p),
        t.find(p) is Some,
    ensures
        placed(t.find(p)->0, trail + names_in(p)),
        forall|i: int| 0 <= i < names_in(p).len() ==> (#[trigger] names_in(p)[i]).len() > 0,
    decreases p.len(),
{
    path::lemma_separator(p);
    insert_laws::lemma_ascii_separator(p);
    lemma_mark_is_slash(p);
    let none = Seq::<Seq<u8>>::empty();
    if p.len() == 0 {
        assert(trail + names_in(p) =~= trail);
    } else if p == seq![0x2fu8] {
        assert(p[0] == 0x2f);
        assert(client::mark(p, 0x2f) == Some(0int));
        assert(p.skip(1) =~= Seq::empty());
        assert(names_in(p.skip(1)) =~= none);
        assert(trail + names_in(p) =~= trail);
    } else {
        let (head, tail) = path::split_path(p);
        if let Some(k) = path::separator(p) {
            assert(p.take(k) =~= head);
            assert(p.skip(k + 1) =~= tail);
        } else {
            assert(names_in(tail) =~= none);
            assert(seq![head] + names_in(tail) =~= seq![head]);
        }
        if head.len() == 0 {
            lemma_found_placed(t, tail, trail);
        } else if let Tree::Dir { children, .. } = t {
            let at = tree::child_index(children, head);
            tree::lemma_child_index(children, head);
            assert(placed(children[at], trail.push(children[at].name())));
            lemma_found_placed(children[at], tail, trail.push(head));
            assert(names_in(p) =~= seq![head] + names_in(tail));
            assert(trail.push(head) + names_in(tail) =~= trail + (seq![head] + names_in(tail)));
        }
    }
}

/// A path leads to the file or directory that has the same names: where it leads to one that has
/// an entry in the archive, the names in the path are those in the name of the entry.
pub proof fn law_found_where_named(entries: Seq<Entry>, p: Seq<u8>)
    requires
        insert_laws::ascii(p),
        forall|k: int|
            0 <= k < entries.len() ==> insert_laws::ascii(
                bytes::text((#[trigger] entries[k]).name@),
            ),
    ensures
        archive::archive_tree(entries).find(p) matches Some(node) ==> match node {
            Tree::File { entry, .. } => names_in(bytes::text(entry.name@)) == names_in(p),
            Tree::Dir { entry: Some(entry), .. } => names_in(bytes::text(entry.name@)) == names_in(
                p,
            ),
            Tree::Dir { entry: None, .. } => true,
        },
{
    let t = archive::archive_tree(entries);
    if let Some(node) = t.find(p) {
        lemma_entries_placed(entries);
        lemma_sort_placed(archive::with_entries(archive::empty_root(), entries), Seq::empty());
        lemma_found_placed(t, p, Seq::empty());
        law_nothing_else(entries);
        lemma_found_stems(t, p, entries);
        assert(Seq::<Seq<u8>>::empty() + names_in(p) =~= names_in(p));
        if let Some(e) = node.entry() {
            assert(entries.contains(e));
            let k = choose|k: int| 0 <= k < entries.len() && entries[k] == e;
            assert(insert_laws::ascii(bytes::text(entries[k].name@)));
            assert(route(bytes::text(e.name@)) == names_in(p));
            lemma_route_names(bytes::text(e.name@));
        }
    }
}

} // verus!
