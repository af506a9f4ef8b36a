//! What insertions and sorting keep of a tree.
use vstd::prelude::*;

use crate::bytes;
use crate::order;
use crate::path;
use crate::tree;
use crate::tree::Tree;

verus! {

/// The first member of a name is the one that a child index picks.
proof fn lemma_first_named<E>(s: Seq<Tree<E>>, name: Seq<u8>)
    ensures
        order::named(s, name).len() > 0 <==> tree::child_index(s, name) < s.len(),
        tree::child_index(s, name) < s.len() ==> order::named(s, name)[0] == s[tree::child_index(
            s,
            name,
        )],
    decreases s.len(),
{
    tree::lemma_child_index(s, name);
    if s.len() > 0 {
        let d = s.drop_last();
        lemma_first_named(d, name);
        tree::lemma_child_index(d, name);
        let at = tree::child_index(d, name);
        assert forall|j: int| 0 <= j < d.len() implies d[j] == s[j] by {}
        if at < d.len() {
            tree::lemma_child_index_is(s, name, at);
        } else if s.last().name() == name {
            tree::lemma_child_index_is(s, name, d.len() as int);
        } else {
            assert forall|j: int| 0 <= j < s.len() implies #[trigger] s[j].name() != name by {
                if j < d.len() {
                    assert(d[j].name() != name);
                }
            }
            tree::lemma_child_index_is(s, name, s.len() as int);
        }
    }
}

/// Sorting a list does not change which member is the first of a name.
pub(crate) proof fn lemma_sorted_child<E>(s: Seq<Tree<E>>, name: Seq<u8>)
    ensures
        ({
            let r = order::name_sorted(s);
            let i = tree::child_index(s, name);
            let j = tree::child_index(r, name);
            &&& i < s.len() <==> j < r.len()
            &&& i < s.len() ==> r[j] == s[i]
        }),
{
    order::law_name_sorted(s);
    lemma_first_named(s, name);
    lemma_first_named(order::name_sorted(s), name);
    assert(order::named(order::name_sorted(s), name) == order::named(s, name));
}

/// Sorting below the members of a list does not change their names.
pub(crate) proof fn lemma_each_sorted_child<E>(s: Seq<Tree<E>>, name: Seq<u8>)
    ensures
        tree::child_index(tree::each_sorted(s), name) == tree::child_index(s, name),
{
    tree::lemma_child_index(s, name);
    let r = tree::each_sorted(s);
    let i = tree::child_index(s, name);
    assert forall|j: int| 0 <= j < s.len() implies #[trigger] r[j].name() == s[j].name() by {}
    tree::lemma_child_index_is(r, name, i);
}

/// Sorting a tree does not change what a path leads to: the same file, or the same directory,
/// sorted.
pub proof fn law_sort_keeps_find<E>(t: Tree<E>, p: Seq<u8>)
    ensures
        t.sorted().find(p) == match t.find(p) {
            Some(n) => Some(n.sorted()),
            None => None,
        },
    decreases p.len(),
{
    path::lemma_separator(p);
    if p.len() == 0 || p == seq![0x2fu8] {
    } else {
        let (head, tail) = path::split_path(p);
        if head.len() == 0 {
            law_sort_keeps_find(t, tail);
        } else if let Tree::Dir { children, .. } = t {
            lemma_sorted_child(tree::each_sorted(children), head);
            lemma_each_sorted_child(children, head);
            let at = tree::child_index(children, head);
            tree::lemma_child_index(children, head);
            order::law_name_sorted(tree::each_sorted(children));
            if at < children.len() {
                law_sort_keeps_find(children[at], tail);
            }
        }
    }
}

/// A search comes to the same parts of a path in the sorted tree.
pub proof fn law_sort_keeps_findable<E>(t: Tree<E>, p: Seq<u8>)
    ensures
        t.sorted().findable(p) == t.findable(p),
    decreases p.len(),
{
    path::lemma_separator(p);
    if p.len() == 0 || p == seq![0x2fu8] {
    } else {
        let (head, tail) = path::split_path(p);
        if head.len() == 0 {
            law_sort_keeps_findable(t, tail);
        } else if let Tree::Dir { children, .. } = t {
            lemma_sorted_child(tree::each_sorted(children), head);
            lemma_each_sorted_child(children, head);
            let at = tree::child_index(children, head);
            tree::lemma_child_index(children, head);
            order::law_name_sorted(tree::each_sorted(children));
            if at < children.len() {
                law_sort_keeps_findable(children[at], tail);
            }
        }
    }
}

pub(crate) proof fn lemma_insert_members<E>(s: Seq<Tree<E>>, x: Tree<E>)
    ensures
        forall|j: int|
            0 <= j < order::insert_by_name(s, x).len() ==> (#[trigger] order::insert_by_name(
                s,
                x,
            )[j] == x || s.contains(order::insert_by_name(s, x)[j])),
    decreases s.len(),
{
    let r = order::insert_by_name(s, x);
    if s.len() == 0 || order::lex_le(s.last().name(), x.name()) {
        assert forall|j: int| 0 <= j < r.len() implies (#[trigger] r[j] == x || s.contains(
            r[j],
        )) by {
            if j < s.len() {
                assert(s[j] == r[j]);
            }
        }
    } else {
        let d = s.drop_last();
        lemma_insert_members(d, x);
        assert forall|j: int| 0 <= j < r.len() implies (#[trigger] r[j] == x || s.contains(
            r[j],
        )) by {
            if j < r.len() - 1 {
                let q = order::insert_by_name(d, x);
                assert(q[j] == r[j]);
                if q[j] != x {
                    let i = choose|i: int| 0 <= i < d.len() && d[i] == q[j];
                    assert(s[i] == r[j]);
                }
            } else {
                assert(s[s.len() - 1] == r[j]);
            }
        }
    }
}

pub(crate) proof fn lemma_sorted_members<E>(s: Seq<Tree<E>>)
    ensures
        forall|j: int|
            0 <= j < order::name_sorted(s).len() ==> s.contains(
                #[trigger] order::name_sorted(s)[j],
            ),
    decreases s.len(),
{
    let r = order::name_sorted(s);
    if s.len() > 0 {
        let d = s.drop_last();
        lemma_sorted_members(d);
        lemma_insert_members(order::name_sorted(d), s.last());
        assert forall|j: int| 0 <= j < r.len() implies s.contains(#[trigger] r[j]) by {
            if r[j] == s.last() {
                assert(s[s.len() - 1] == r[j]);
            } else {
                let k = choose|k: int|
                    0 <= k < order::name_sorted(d).len() && order::name_sorted(d)[k] == r[j];
                assert(d.contains(order::name_sorted(d)[k]));
                let i = choose|i: int| 0 <= i < d.len() && d[i] == r[j];
                assert(s[i] == r[j]);
            }
        }
    }
}

/// Sorting a list that is in name order changes nothing.
proof fn lemma_sort_sorted<E>(s: Seq<Tree<E>>)
    requires
        order::in_name_order(s),
    ensures
        order::name_sorted(s) == s,
{
    order::law_name_sorted(s);
    order::lemma_sorted_unique(order::name_sorted(s), s);
}

/// Sorting a sorted tree changes nothing.
pub proof fn law_sort_idempotent<E>(t: Tree<E>)
    ensures
        t.sorted().sorted() == t.sorted(),
    decreases t,
{
    if let Tree::Dir { children, .. } = t {
        let each = tree::each_sorted(children);
        let kids = order::name_sorted(each);
        order::law_name_sorted(each);
        lemma_sorted_members(each);
        assert forall|j: int| 0 <= j < kids.len() implies #[trigger] tree::each_sorted(kids)[j]
            == kids[j] by {
            assert(tree::each_sorted(kids)[j] == kids[j].sorted());
            assert(each.contains(kids[j]));
            let i = choose|i: int| 0 <= i < each.len() && each[i] == kids[j];
            law_sort_idempotent(children[i]);
        }
        assert(tree::each_sorted(kids) =~= kids);
        lemma_sort_sorted(kids);
    }
}

impl<E> Tree<E> {
    /// Whether, here and below, the children stand in the order of their names.
    pub open spec fn in_order(self) -> bool
        decreases self,
    {
        match self {
            Tree::Dir { children, .. } => {
                &&& order::in_name_order(children)
                &&& forall|i: int| 0 <= i < children.len() ==> (#[trigger] children[i]).in_order()
            },
            Tree::File { .. } => true,
        }
    }

    /// Whether, here and below, no directory has more than so many children.
    pub open spec fn at_most(self, n: nat) -> bool
        decreases self,
    {
        match self {
            Tree::Dir { children, .. } => {
                &&& children.len() <= n
                &&& forall|i: int| 0 <= i < children.len() ==> (#[trigger] children[i]).at_most(n)
            },
            Tree::File { .. } => true,
        }
    }

    /// Whether, here and below, the index recorded for `index.html` is that of a child of this
    /// name, and none is recorded only where no file has it.
    pub open spec fn well_indexed(self) -> bool
        decreases self,
    {
        match self {
            Tree::Dir { children, index_html_index, .. } => {
                &&& match index_html_index {
                    Some(i) => i < children.len() && children[i as int].name() == bytes::text(
                        "index.html"@,
                    ),
                    None => forall|i: int|
                        0 <= i < children.len() && #[trigger] children[i] is File
                            ==> children[i].name() != bytes::text("index.html"@),
                }
                &&& forall|i: int|
                    0 <= i < children.len() ==> (#[trigger] children[i]).well_indexed()
            },
            Tree::File { .. } => true,
        }
    }
}

impl<E> Tree<E> {
    /// Whether, here and below, an index recorded for `index.html` is that of the first child of
    /// this name.
    pub open spec fn indexes_first(self) -> bool
        decreases self,
    {
        match self {
            Tree::Dir { children, index_html_index, .. } => {
                &&& index_html_index matches Some(i) ==> i < children.len() && i
                    == tree::child_index(children, bytes::text("index.html"@))
                &&& forall|i: int|
                    0 <= i < children.len() ==> (#[trigger] children[i]).indexes_first()
            },
            Tree::File { .. } => true,
        }
    }
}

/// In a sorted tree the children of every directory stand in the order of their names.
pub proof fn law_sorted_in_order<E>(t: Tree<E>)
    ensures
        t.sorted().in_order(),
    decreases t,
{
    if let Tree::Dir { children, .. } = t {
        let each = tree::each_sorted(children);
        let kids = order::name_sorted(each);
        order::law_name_sorted(each);
        lemma_sorted_members(each);
        assert forall|j: int| 0 <= j < kids.len() implies (#[trigger] kids[j]).in_order() by {
            assert(each.contains(kids[j]));
            let i = choose|i: int| 0 <= i < each.len() && each[i] == kids[j];
            law_sorted_in_order(children[i]);
        }
    }
}

/// A root without contents is well indexed.
pub proof fn law_root_well_indexed<E>()
    ensures
        Tree::<E>::empty_dir(Seq::empty(), true).well_indexed(),
{
}

/// Sorting keeps a tree well indexed: an index that was recorded stays recorded, as that of the
/// first child named `index.html`, and none is recorded that was not.
pub proof fn law_sort_keeps_index<E>(t: Tree<E>)
    requires
        t.well_indexed(),
        t.at_most(usize::MAX as nat),
    ensures
        t.sorted().well_indexed(),
        t.sorted().indexes_first(),
        t is Dir ==> (t.sorted()->index_html_index is Some <==> t->index_html_index is Some),
    decreases t,
{
    if let Tree::Dir { children, index_html_index, .. } = t {
        let index = bytes::text("index.html"@);
        let each = tree::each_sorted(children);
        let kids = order::name_sorted(each);
        order::law_name_sorted(each);
        lemma_sorted_members(each);
        tree::lemma_child_index(kids, index);
        assert forall|j: int| 0 <= j < kids.len() implies {
            &&& (#[trigger] kids[j]).well_indexed()
            &&& kids[j].indexes_first()
            &&& kids[j] is File && index_html_index is None ==> kids[j].name() != index
        } by {
            assert(each.contains(kids[j]));
            let i = choose|i: int| 0 <= i < each.len() && each[i] == kids[j];
            law_sort_keeps_index(children[i]);
            assert(children[i] is File == kids[j] is File);
        }
        if index_html_index is Some {
            lemma_sorted_child(each, index);
            lemma_each_sorted_child(children, index);
            tree::lemma_child_index(children, index);
            assert(tree::child_index(kids, index) < kids.len());
        }
    }
}

/// What a path leads to has no more children than the tree allows.
proof fn lemma_found_at_most<E>(t: Tree<E>, p: Seq<u8>, n: nat)
    requires
        t.at_most(n),
        t.find(p) is Some,
    ensures
        t.find(p)->0.at_most(n),
    decreases p.len(),
{
    path::lemma_separator(p);
    if p.len() == 0 || p == seq![0x2fu8] {
    } else {
        let (head, tail) = path::split_path(p);
        if head.len() == 0 {
            lemma_found_at_most(t, tail, n);
        } else if let Tree::Dir { children, .. } = t {
            tree::lemma_child_index(children, head);
            lemma_found_at_most(children[tree::child_index(children, head)], tail, n);
        }
    }
}

/// Sorting a tree keeps what is recorded at each path: an index where there was one, now that of
/// the first child named `index.html`, and none where there was none.
pub proof fn law_sort_keeps_index_at<E>(t: Tree<E>, p: Seq<u8>)
    requires
        t.well_indexed(),
        t.at_most(usize::MAX as nat),
        t.find(p) matches Some(n) && n is Dir,
    ensures
        t.sorted().find(p) matches Some(n) && {
            &&& n is Dir
            &&& n->index_html_index is Some <==> t.find(p)->0->index_html_index is Some
            &&& n->index_html_index matches Some(i) ==> i < n->children.len() && i
                == tree::child_index(n->children, bytes::text("index.html"@))
        },
{
    law_sort_keeps_find(t, p);
    law_found_well_indexed(t, p);
    lemma_found_at_most(t, p, usize::MAX as nat);
    law_sort_keeps_index(t.find(p)->0);
}

/// An insertion keeps a tree well indexed.
pub proof fn law_insert_keeps_index<E>(t: Tree<E>, e: E, p: Seq<u8>)
    requires
        t.well_indexed(),
        t.at_most(usize::MAX as nat),
    ensures
        t.inserted(e, p).well_indexed(),
    decreases p.len(),
{
    path::lemma_separator(p);
    if let Tree::Dir { children, index_html_index, .. } = t {
        let index = bytes::text("index.html"@);
        if let Some(sep) = path::separator(p) {
            let (head, tail) = path::split_path(p);
            let kids = tree::with_dir(children, head);
            let at = tree::dir_index(kids, head);
            lemma_with_dir(children, head);
            assert forall|i: int| 0 <= i < kids.len() implies {
                &&& (#[trigger] kids[i]).well_indexed()
                &&& kids[i].at_most(usize::MAX as nat)
            } by {
                if i < children.len() {
                    assert(kids[i] == children[i]);
                }
            }
            let child = t.inserted(e, p)->children[at];
            if sep + 1 < p.len() {
                law_insert_keeps_index(kids[at], e, tail);
                assert(child == kids[at].inserted(e, tail));
            } else {
                assert(child == kids[at].with_entry(e));
            }
            let new = kids.update(at, child);
            assert forall|i: int| 0 <= i < new.len() implies {
                &&& (#[trigger] new[i]).well_indexed()
                &&& new[i] is Dir == kids[i] is Dir
                &&& new[i].name() == kids[i].name()
            } by {}
            if index_html_index is None {
                assert forall|i: int| 0 <= i < new.len() && #[trigger] new[i] is File implies
                    new[i].name() != index by {
                    assert(kids[i] is File);
                    assert(kids[i] == children[i]);
                }
            } else {
                let i = index_html_index->0 as int;
                assert(new[i].name() == kids[i].name());
                assert(kids[i] == children[i]);
            }
        } else {
            let new = children.push(Tree::File { name: p, entry: e });
            assert forall|i: int| 0 <= i < new.len() implies (#[trigger] new[i]).well_indexed() by {
                if i < children.len() {
                    assert(new[i] == children[i]);
                }
            }
            if p != index {
                match index_html_index {
                    Some(i) => {
                        assert(new[i as int] == children[i as int]);
                    },
                    None => {
                        assert forall|i: int|
                            0 <= i < new.len() && #[trigger] new[i] is File implies new[i].name()
                            != index by {
                            if i < children.len() {
                                assert(new[i] == children[i]);
                            }
                        }
                    },
                }
            }
        }
    }
}

/// The list with a directory of a name holds the old children, and the directory at its index.
pub(crate) proof fn lemma_with_dir<E>(children: Seq<Tree<E>>, name: Seq<u8>)
    ensures
        ({
            let kids = tree::with_dir(children, name);
            let at = tree::dir_index(kids, name);
            &&& children.len() <= kids.len()
            &&& forall|i: int| 0 <= i < children.len() ==> #[trigger] kids[i] == children[i]
            &&& 0 <= at < kids.len()
            &&& kids[at] is Dir
            &&& kids[at].name() == name
            &&& at == tree::dir_index(children, name)
            &&& at == children.len() ==> kids[at] == Tree::<E>::empty_dir(name, false)
            &&& forall|i: int|
                children.len() <= i < kids.len() ==> i == at && #[trigger] kids[i] is Dir
        }),
{
    tree::lemma_dir_index(children, name);
    let kids = tree::with_dir(children, name);
    let d = tree::dir_index(children, name);
    assert forall|j: int| 0 <= j < d implies !(#[trigger] kids[j] is Dir && kids[j].name()
        == name) by {
        assert(kids[j] == children[j]);
    }
    tree::lemma_dir_index_is(kids, name, d);
}

/// What is added behind a list, or changed in it without changing names, leaves the index of a
/// child as it was.
pub(crate) proof fn lemma_child_index_kept<E>(old_kids: Seq<Tree<E>>, new_kids: Seq<Tree<E>>, name: Seq<u8>)
    requires
        old_kids.len() <= new_kids.len(),
        forall|i: int|
            0 <= i < old_kids.len() ==> (#[trigger] new_kids[i]).name() == old_kids[i].name(),
        tree::child_index(old_kids, name) < old_kids.len(),
    ensures
        tree::child_index(new_kids, name) == tree::child_index(old_kids, name),
{
    tree::lemma_child_index(old_kids, name);
    let d = tree::child_index(old_kids, name);
    assert forall|j: int| 0 <= j < d implies #[trigger] new_kids[j].name() != name by {
        assert(old_kids[j].name() != name);
    }
    tree::lemma_child_index_is(new_kids, name, d);
}

proof fn lemma_with_entry_find<E>(t: Tree<E>, e: E, q: Seq<u8>)
    requires
        t.find(q) is Some,
    ensures
        t.with_entry(e).find(q) is Some,
        t.find(q)->0 is File ==> t.with_entry(e).find(q) == t.find(q),
        t.with_entry(e).find(q)->0 is Dir == t.find(q)->0 is Dir,
        t.with_entry(e).find(q)->0.name() == t.find(q)->0.name(),
    decreases q.len(),
{
    path::lemma_separator(q);
    if q.len() == 0 || q == seq![0x2fu8] {
    } else {
        let (head, tail) = path::split_path(q);
        if head.len() == 0 {
            lemma_with_entry_find(t, e, tail);
        }
    }
}

/// An insertion hides nothing: a path that leads to a file leads to the same file afterwards,
/// and one that leads to a directory leads to a directory of the same name.
pub proof fn law_insert_keeps_found<E>(t: Tree<E>, e: E, p: Seq<u8>, q: Seq<u8>)
    requires
        t.find(q) is Some,
    ensures
        t.inserted(e, p).find(q) is Some,
        t.find(q)->0 is File ==> t.inserted(e, p).find(q) == t.find(q),
        t.inserted(e, p).find(q)->0 is Dir == t.find(q)->0 is Dir,
        t.inserted(e, p).find(q)->0.name() == t.find(q)->0.name(),
    decreases q.len(),
{
    path::lemma_separator(p);
    path::lemma_separator(q);
    if q.len() == 0 || q == seq![0x2fu8] {
    } else {
        let (head, tail) = path::split_path(q);
        if head.len() == 0 {
            law_insert_keeps_found(t, e, p, tail);
        } else if let Tree::Dir { children, .. } = t {
            let i = tree::child_index(children, head);
            let new = t.inserted(e, p)->children;
            tree::lemma_child_index(children, head);
            if let Some(sep) = path::separator(p) {
                let (phead, ptail) = path::split_path(p);
                let kids = tree::with_dir(children, phead);
                let at = tree::dir_index(kids, phead);
                lemma_with_dir(children, phead);
                let child = if sep + 1 < p.len() {
                    kids[at].inserted(e, ptail)
                } else {
                    kids[at].with_entry(e)
                };
                assert(new == kids.update(at, child));
                assert(child.name() == kids[at].name());
                assert forall|k: int| 0 <= k < children.len() implies (#[trigger] new[k]).name()
                    == children[k].name() by {
                    assert(kids[k] == children[k]);
                }
                lemma_child_index_kept(children, new, head);
                assert(kids[i] == children[i]);
                if i == at {
                    if sep + 1 < p.len() {
                        law_insert_keeps_found(children[i], e, ptail, tail);
                    } else {
                        lemma_with_entry_find(children[i], e, tail);
                    }
                } else {
                    assert(new[i] == children[i]);
                }
            } else {
                assert(new == children.push(Tree::File { name: p, entry: e }));
                lemma_child_index_kept(children, new, head);
                assert(new[i] == children[i]);
            }
        }
    }
}

/// Whether a path is that of a directory: nothing follows its last divided-off name.
pub open spec fn names_dir(p: Seq<u8>) -> bool
    decreases p.len(),
{
    proof {
        path::lemma_separator(p);
    }
    match path::separator(p) {
        Some(sep) => sep + 1 == p.len() || names_dir(path::split_path(p).1),
        None => false,
    }
}

/// The last name of a path.
pub open spec fn last_name(p: Seq<u8>) -> Seq<u8>
    decreases p.len(),
{
    proof {
        path::lemma_separator(p);
    }
    match path::separator(p) {
        Some(sep) => if sep + 1 < p.len() {
            last_name(path::split_path(p).1)
        } else {
            path::split_path(p).0
        },
        None => p,
    }
}

impl<E> Tree<E> {
    /// Whether an insertion at a path meets no empty name, no file in the place of a directory,
    /// and nothing of the name of the file to be added.
    pub open spec fn free_for(self, p: Seq<u8>) -> bool
        decreases p.len(),
    {
        proof {
            path::lemma_separator(p);
        }
        match self {
            Tree::Dir { children, .. } => match path::separator(p) {
                Some(sep) => {
                    let (head, tail) = path::split_path(p);
                    let kids = tree::with_dir(children, head);
                    &&& sep > 0
                    &&& tree::child_index(children, head) == tree::dir_index(children, head)
                    &&& sep + 1 < p.len() ==> kids[tree::dir_index(kids, head)].free_for(tail)
                },
                None => p.len() > 0 && tree::child_index(children, p) == children.len(),
            },
            Tree::File { .. } => false,
        }
    }
}

/// After an insertion the path leads to the entry that was put there, under the last name of the
/// path.
pub proof fn law_find_inserted<E>(t: Tree<E>, e: E, p: Seq<u8>)
    requires
        t.free_for(p),
    ensures
        match t.inserted(e, p).find(p) {
            Some(n) => {
                &&& n.entry() == Some(e)
                &&& n.name() == last_name(p)
                &&& n is Dir == names_dir(p)
            },
            None => false,
        },
    decreases p.len(),
{
    path::lemma_separator(p);
    if let Tree::Dir { children, .. } = t {
        let new = t.inserted(e, p)->children;
        if let Some(sep) = path::separator(p) {
            let (head, tail) = path::split_path(p);
            let kids = tree::with_dir(children, head);
            let at = tree::dir_index(kids, head);
            lemma_with_dir(children, head);
            tree::lemma_child_index(children, head);
            let child = if sep + 1 < p.len() {
                kids[at].inserted(e, tail)
            } else {
                kids[at].with_entry(e)
            };
            assert(new == kids.update(at, child));
            assert forall|j: int| 0 <= j < at implies #[trigger] new[j].name() != head by {
                assert(kids[j] == children[j]);
            }
            assert(child.name() == head);
            tree::lemma_child_index_is(new, head, at);
            if sep + 1 < p.len() {
                law_find_inserted(kids[at], e, tail);
            } else {
                assert(child.find(tail) == Some(child));
            }
            assert(p != seq![0x2fu8]);
            assert(t.inserted(e, p).find(p) == child.find(tail));
        } else {
            assert(new == children.push(Tree::File { name: p, entry: e }));
            tree::lemma_child_index(children, p);
            tree::lemma_child_index_is(new, p, children.len() as int);
            assert(p != seq![0x2fu8]);
            let file = new[children.len() as int];
            assert(file.find(path::split_path(p).1) == Some(file));
        }
    }
}

/// More children are allowed where fewer are there.
pub(crate) proof fn lemma_at_most_more<E>(t: Tree<E>, n: nat, m: nat)
    requires
        t.at_most(n),
        n <= m,
    ensures
        t.at_most(m),
    decreases t,
{
    if let Tree::Dir { children, .. } = t {
        assert forall|i: int| 0 <= i < children.len() implies (#[trigger] children[i]).at_most(
            m,
        ) by {
            lemma_at_most_more(children[i], n, m);
        }
    }
}

/// An insertion adds no more than one child to any directory.
pub proof fn law_insert_adds_one<E>(t: Tree<E>, e: E, p: Seq<u8>, n: nat)
    requires
        t.at_most(n),
    ensures
        t.inserted(e, p).at_most(n + 1),
    decreases p.len(),
{
    path::lemma_separator(p);
    lemma_at_most_more(t, n, n + 1);
    if let Tree::Dir { children, .. } = t {
        if let Some(sep) = path::separator(p) {
            let (head, tail) = path::split_path(p);
            let kids = tree::with_dir(children, head);
            let at = tree::dir_index(kids, head);
            lemma_with_dir(children, head);
            assert(kids[at].at_most(n)) by {
                if at < children.len() {
                    assert(kids[at] == children[at]);
                }
            }
            lemma_at_most_more(kids[at], n, n + 1);
            let child = if sep + 1 < p.len() {
                law_insert_adds_one(kids[at], e, tail, n);
                kids[at].inserted(e, tail)
            } else {
                kids[at].with_entry(e)
            };
            let new = kids.update(at, child);
            assert forall|i: int| 0 <= i < new.len() implies (#[trigger] new[i]).at_most(n + 1) by {
                if i != at {
                    assert(new[i] == kids[i]);
                    assert(kids[i] == children[i]);
                }
            }
        } else {
            let new = children.push(Tree::File { name: p, entry: e });
            assert forall|i: int| 0 <= i < new.len() implies (#[trigger] new[i]).at_most(n + 1) by {
                if i < children.len() {
                    assert(new[i] == children[i]);
                }
            }
        }
    }
}

/// What a path leads to in a well indexed tree is well indexed.
pub proof fn law_found_well_indexed<E>(t: Tree<E>, p: Seq<u8>)
    requires
        t.well_indexed(),
        t.find(p) is Some,
    ensures
        t.find(p)->0.well_indexed(),
    decreases p.len(),
{
    path::lemma_separator(p);
    if p.len() == 0 || p == seq![0x2fu8] {
    } else {
        let (head, tail) = path::split_path(p);
        if head.len() == 0 {
            law_found_well_indexed(t, tail);
        } else if let Tree::Dir { children, .. } = t {
            let at = tree::child_index(children, head);
            tree::lemma_child_index(children, head);
            assert(children[at].well_indexed());
            law_found_well_indexed(children[at], tail);
        }
    }
}

/// A slash before a path makes no difference.
pub proof fn law_leading_slash<E>(t: Tree<E>, p: Seq<u8>)
    ensures
        t.find(seq![0x2fu8] + p) == t.find(p),
{
    let q = seq![0x2fu8] + p;
    if p.len() == 0 {
        assert(q =~= seq![0x2fu8]);
    } else {
        assert(q != seq![0x2fu8]) by {
            assert(q.len() > 1);
        }
        path::lemma_first_slash_is(q, 0);
        assert(path::split_path(q).1 =~= p);
    }
}

/// A slash behind a path makes no difference, where the last part of the path has one byte for
/// each character.
pub proof fn law_trailing_slash<E>(t: Tree<E>, p: Seq<u8>)
    requires
        path::last_part_plain(p),
    ensures
        t.find(p.push(0x2f)) == t.find(p),
    decreases p.len(),
{
    let q = p.push(0x2f);
    path::lemma_separator(p);
    if p.len() == 0 {
        assert(q =~= seq![0x2fu8]);
    } else {
        assert(q.len() > 1);
        assert(q != seq![0x2fu8]);
        if let Some(sep) = path::separator(p) {
            let k = path::first_slash(p)->0;
            path::lemma_first_slash_is(q, k);
            path::lemma_chars_within_prefix(p, q, k);
            let (head, tail) = path::split_path(p);
            assert(path::split_path(q).0 =~= head);
            assert(path::split_path(q).1 =~= tail.push(0x2f));
            if p == seq![0x2fu8] {
                assert(tail.push(0x2f) =~= seq![0x2fu8]);
                assert(t.find(tail.push(0x2f)) == Some(t));
            } else if head.len() == 0 {
                law_trailing_slash(t, tail);
            } else if let Tree::Dir { children, .. } = t {
                let at = tree::child_index(children, head);
                law_trailing_slash(children[at], tail);
            }
        } else {
            path::lemma_first_slash_is(q, p.len() as int);
            path::lemma_chars_within_prefix(p, q, p.len() as int);
            assert(path::split_path(q).0 =~= p);
            assert(path::split_path(q).1 =~= Seq::<u8>::empty());
        }
    }
}

/// Whether no name in a path is empty.
pub open spec fn no_empty_name(p: Seq<u8>) -> bool
    decreases p.len(),
{
    proof {
        path::lemma_separator(p);
    }
    match path::separator(p) {
        Some(sep) => sep > 0 && (sep + 1 < p.len() ==> no_empty_name(path::split_path(p).1)),
        None => p.len() > 0,
    }
}

/// Whether what is put at `q` stands in the way of what is put at `p`: a file of the same name,
/// a file in the place of a directory, or a directory in the place of the file.
pub open spec fn stands_in_the_way(q: Seq<u8>, p: Seq<u8>) -> bool
    decreases p.len(),
{
    proof {
        path::lemma_separator(p);
    }
    let (p_head, p_tail) = path::split_path(p);
    let (q_head, q_tail) = path::split_path(q);
    &&& p_head == q_head
    &&& match (path::separator(p), path::separator(q)) {
        (Some(i), Some(j)) => {
            &&& i + 1 < p.len()
            &&& j + 1 < q.len()
            &&& stands_in_the_way(q_tail, p_tail)
        },
        _ => true,
    }
}

/// A directory without contents is free for every path without an empty name.
pub(crate) proof fn lemma_empty_free<E>(name: Seq<u8>, is_root: bool, p: Seq<u8>)
    requires
        no_empty_name(p),
    ensures
        Tree::<E>::empty_dir(name, is_root).free_for(p),
    decreases p.len(),
{
    path::lemma_separator(p);
    if let Some(sep) = path::separator(p) {
        let (head, tail) = path::split_path(p);
        let none = Seq::<Tree<E>>::empty();
        lemma_with_dir(none, head);
        tree::lemma_child_index(none, head);
        if sep + 1 < p.len() {
            lemma_empty_free::<E>(head, false, tail);
        }
    }
}

/// Where the first child of a name is a directory, or none has it, that is still so when names
/// and kinds stay and children are added, unless a file of the name is added first.
proof fn lemma_first_stays_dir<E>(old_kids: Seq<Tree<E>>, new_kids: Seq<Tree<E>>, name: Seq<u8>)
    requires
        tree::child_index(old_kids, name) == tree::dir_index(old_kids, name),
        old_kids.len() <= new_kids.len() <= old_kids.len() + 1,
        forall|i: int|
            0 <= i < old_kids.len() ==> (#[trigger] new_kids[i]).name() == old_kids[i].name()
                && new_kids[i] is Dir == old_kids[i] is Dir,
        new_kids.len() > old_kids.len() && new_kids.last().name() == name ==> new_kids.last() is Dir,
    ensures
        tree::child_index(new_kids, name) == tree::dir_index(new_kids, name),
        tree::dir_index(old_kids, name) < old_kids.len() ==> tree::dir_index(new_kids, name)
            == tree::dir_index(old_kids, name),
{
    tree::lemma_child_index(old_kids, name);
    tree::lemma_dir_index(old_kids, name);
    let d = tree::dir_index(old_kids, name);
    assert forall|j: int| 0 <= j < d implies #[trigger] new_kids[j].name() != name by {
        assert(old_kids[j].name() != name);
    }
    if d < old_kids.len() || new_kids.len() == old_kids.len() || new_kids[d].name() == name {
        tree::lemma_child_index_is(new_kids, name, d);
        tree::lemma_dir_index_is(new_kids, name, d);
    } else {
        assert forall|j: int| 0 <= j < new_kids.len() implies #[trigger] new_kids[j].name()
            != name by {}
        tree::lemma_child_index_is(new_kids, name, new_kids.len() as int);
        tree::lemma_dir_index_is(new_kids, name, new_kids.len() as int);
    }
}

proof fn lemma_with_entry_free<E>(t: Tree<E>, e: E, p: Seq<u8>)
    requires
        t.free_for(p),
    ensures
        t.with_entry(e).free_for(p),
{
}

/// A tree stays free for a path when something is put where it does not stand in the way.
pub proof fn law_stays_free<E>(t: Tree<E>, e: E, q: Seq<u8>, p: Seq<u8>)
    requires
        t.free_for(p),
        !stands_in_the_way(q, p),
    ensures
        t.inserted(e, q).free_for(p),
    decreases p.len(),
{
    path::lemma_separator(p);
    path::lemma_separator(q);
    let (p_head, p_tail) = path::split_path(p);
    let (q_head, q_tail) = path::split_path(q);
    if let Tree::Dir { children, .. } = t {
        let new = t.inserted(e, q)->children;
        // What the insertion makes of the children.
        if let Some(j) = path::separator(q) {
            let kids = tree::with_dir(children, q_head);
            let at = tree::dir_index(kids, q_head);
            lemma_with_dir(children, q_head);
            let child = if j + 1 < q.len() {
                kids[at].inserted(e, q_tail)
            } else {
                kids[at].with_entry(e)
            };
            assert(new == kids.update(at, child));
            assert(child.name() == kids[at].name() && child is Dir);
            assert forall|i: int| 0 <= i < children.len() implies (#[trigger] new[i]).name()
                == children[i].name() && new[i] is Dir == children[i] is Dir by {
                assert(kids[i] == children[i]);
            }
            assert(new.len() > children.len() ==> new.last() is Dir && new.last().name()
                == q_head) by {
                if new.len() > children.len() {
                    assert(at == children.len());
                }
            }
            if let Some(i) = path::separator(p) {
                lemma_first_stays_dir(children, new, p_head);
                lemma_with_dir(children, p_head);
                lemma_with_dir(new, p_head);
                if i + 1 < p.len() {
                    let d = tree::dir_index(children, p_head);
                    let before = tree::with_dir(children, p_head)[d];
                    if p_head == q_head {
                        assert(at == d);
                        assert(before == kids[at]);
                        if j + 1 < q.len() {
                            law_stays_free(before, e, q_tail, p_tail);
                        } else {
                            lemma_with_entry_free(before, e, p_tail);
                        }
                        assert(new[at] == child);
                        tree::lemma_dir_index(new, p_head);
                        assert(tree::dir_index(new, p_head) == at) by {
                            if d == children.len() {
                                tree::lemma_dir_index(children, p_head);
                                assert forall|k: int| 0 <= k < at implies !(#[trigger] new[k] is Dir
                                    && new[k].name() == p_head) by {
                                    assert(!(children[k] is Dir && children[k].name() == p_head));
                                }
                                tree::lemma_dir_index_is(new, p_head, at);
                            }
                        }
                    } else if d < children.len() {
                        assert(d != at) by {
                            if d == at {
                                tree::lemma_dir_index(children, p_head);
                                assert(kids[d] == children[d]);
                            }
                        }
                        assert(new[d] == children[d]);
                    } else {
                        tree::lemma_dir_index(children, p_head);
                        tree::lemma_dir_index(new, p_head);
                        assert forall|k: int| 0 <= k < new.len() implies !(#[trigger] new[k] is Dir
                            && new[k].name() == p_head) by {
                            if k < children.len() {
                                assert(!(children[k] is Dir && children[k].name() == p_head));
                            }
                        }
                        tree::lemma_dir_index_is(new, p_head, new.len() as int);
                    }
                }
            } else {
                lemma_absent(children, new, p);
            }
        } else {
            assert(new == children.push(Tree::File { name: q, entry: e }));
            if let Some(i) = path::separator(p) {
                lemma_first_stays_dir(children, new, p_head);
                lemma_with_dir(children, p_head);
                lemma_with_dir(new, p_head);
                let d = tree::dir_index(children, p_head);
                if d < children.len() {
                    assert(new[d] == children[d]);
                } else {
                    tree::lemma_dir_index(children, p_head);
                    assert forall|k: int| 0 <= k < new.len() implies !(#[trigger] new[k] is Dir
                        && new[k].name() == p_head) by {
                        if k < children.len() {
                            assert(!(children[k] is Dir && children[k].name() == p_head));
                        }
                    }
                    tree::lemma_dir_index_is(new, p_head, new.len() as int);
                }
            } else {
                lemma_absent(children, new, p);
            }
        }
    }
}

/// A name that no child has is still missing when names stay and a child of another is added.
proof fn lemma_absent<E>(old_kids: Seq<Tree<E>>, new_kids: Seq<Tree<E>>, name: Seq<u8>)
    requires
        tree::child_index(old_kids, name) == old_kids.len(),
        old_kids.len() <= new_kids.len() <= old_kids.len() + 1,
        forall|i: int|
            0 <= i < old_kids.len() ==> (#[trigger] new_kids[i]).name() == old_kids[i].name(),
        new_kids.len() > old_kids.len() ==> new_kids.last().name() != name,
    ensures
        tree::child_index(new_kids, name) == new_kids.len(),
{
    tree::lemma_child_index(old_kids, name);
    assert forall|j: int| 0 <= j < new_kids.len() implies #[trigger] new_kids[j].name()
        != name by {
        if j < old_kids.len() {
            assert(old_kids[j].name() != name);
        }
    }
    tree::lemma_child_index_is(new_kids, name, new_kids.len() as int);
}

/// A path at which something can be put can be looked up, in any tree.
pub proof fn law_insertable_findable<E>(t: Tree<E>, p: Seq<u8>)
    requires
        path::insertable(p),
    ensures
        t.findable(p),
    decreases p.len(),
{
    path::lemma_separator(p);
    if p.len() == 0 || p == seq![0x2fu8] {
    } else {
        let (head, tail) = path::split_path(p);
        assert(tail.len() == 0 ==> path::insertable(tail)) by {
            path::lemma_separator(tail);
        }
        if head.len() == 0 {
            law_insertable_findable(t, tail);
        } else if let Tree::Dir { children, .. } = t {
            law_insertable_findable(children[tree::child_index(children, head)], tail);
        }
    }
}

} // verus!
