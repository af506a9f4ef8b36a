//! What an insertion adds to a tree, and what it leaves as it was.
use vstd::prelude::*;

use crate::bytes;
use crate::order;
use crate::path;
use crate::tree;
use crate::tree::Tree;
use crate::tree_laws;

verus! {

/// Whether all bytes of a path are ASCII.
pub open spec fn ascii(p: Seq<u8>) -> bool {
    forall|i: int| 0 <= i < p.len() ==> #[trigger] p[i] < 0x80
}

pub(crate) proof fn lemma_ascii_chars(p: Seq<u8>, k: int)
    requires
        ascii(p),
        0 <= k <= p.len(),
    ensures
        path::chars_within(p, k) == k,
    decreases k,
{
    if k > 0 {
        lemma_ascii_chars(p, k - 1);
        assert(p[k - 1] < 0x80);
    }
}

/// An ASCII path is divided at its first slash.
pub(crate) proof fn lemma_ascii_separator(p: Seq<u8>)
    requires
        ascii(p),
    ensures
        path::separator(p) == path::first_slash(p),
        path::separator(p) matches Some(sep) ==> {
            &&& 0 <= sep < p.len()
            &&& p[sep] == 0x2f
            &&& ascii(path::split_path(p).1)
        },
{
    path::lemma_separator(p);
    if let Some(k) = path::first_slash(p) {
        lemma_ascii_chars(p, k);
        let tail = path::split_path(p).1;
        assert forall|i: int| 0 <= i < tail.len() implies #[trigger] tail[i] < 0x80 by {
            assert(tail[i] == p[k + 1 + i]);
        }
    }
}

/// The last part of an ASCII path has one byte for each character.
pub(crate) proof fn lemma_ascii_plain(p: Seq<u8>)
    requires
        ascii(p),
    ensures
        path::last_part_plain(p),
    decreases p.len(),
{
    lemma_ascii_separator(p);
    if path::separator(p) is Some {
        lemma_ascii_plain(path::split_path(p).1);
    } else {
        lemma_ascii_chars(p, p.len() as int);
    }
}

/// What a path leads to that is made of two with a slash between them: what the second leads to
/// from where the first does. The last part of the first has to have one byte for each
/// character.
pub proof fn law_find_joined<E>(t: Tree<E>, a: Seq<u8>, b: Seq<u8>)
    requires
        path::last_part_plain(a),
    ensures
        t.find(a + seq![0x2fu8] + b) == match t.find(a) {
            Some(n) => n.find(b),
            None => None,
        },
    decreases a.len(),
{
    let q = a + seq![0x2fu8] + b;
    path::lemma_separator(a);
    if a.len() == 0 {
        assert(q =~= seq![0x2fu8] + b);
        tree_laws::law_leading_slash(t, b);
    } else {
        assert(q.len() > 1);
        if let Some(sep) = path::separator(a) {
            let k = path::first_slash(a)->0;
            path::lemma_first_slash_is(q, k);
            path::lemma_chars_within_prefix(a, q, k);
            let (head, tail) = path::split_path(a);
            assert(path::split_path(q).0 =~= head);
            assert(path::split_path(q).1 =~= tail + seq![0x2fu8] + b);
            if head.len() == 0 {
                law_find_joined(t, tail, b);
                if a == seq![0x2fu8] {
                    assert(tail =~= Seq::<u8>::empty());
                    assert(t.find(tail) == Some(t));
                }
            } else if let Tree::Dir { children, .. } = t {
                law_find_joined(children[tree::child_index(children, head)], tail, b);
            }
        } else {
            path::lemma_first_slash_is(q, a.len() as int);
            path::lemma_chars_within_prefix(a, q, a.len() as int);
            assert(path::split_path(q).0 =~= a);
            assert(path::split_path(q).1 =~= b);
            assert(a != seq![0x2fu8]) by {
                if a == seq![0x2fu8] {
                    assert(a[0] == 0x2f);
                }
            }
            if let Tree::Dir { children, .. } = t {
                let child = children[tree::child_index(children, a)];
                assert(child.find(Seq::<u8>::empty()) == Some(child));
            }
        }
    }
}

/// What two paths lead to with a slash between them, where the first is ASCII: what the second
/// leads to from where the first does.
pub proof fn law_find_joined_ascii<E>(t: Tree<E>, a: Seq<u8>, b: Seq<u8>)
    requires
        ascii(a),
    ensures
        t.find(a + seq![0x2fu8] + b) == match t.find(a) {
            Some(n) => n.find(b),
            None => None,
        },
{
    lemma_ascii_plain(a);
    law_find_joined(t, a, b);
}

/// Whether a path goes on behind a slash at an index, so that what stands before the slash is
/// the path of a directory on the way.
pub open spec fn goes_on_behind(p: Seq<u8>, k: int) -> bool {
    0 <= k && k + 1 < p.len() && p[k] == 0x2f
}

impl<E> Tree<E> {
    /// Whether a path leads nowhere or to a directory.
    pub open spec fn dir_or_nothing(self, p: Seq<u8>) -> bool {
        match self.find(p) {
            Some(n) => n is Dir,
            None => true,
        }
    }
}

/// The first parts of an ASCII path, cut off behind a name, are divided as the path is.
proof fn lemma_take(p: Seq<u8>, k: int)
    requires
        ascii(p),
        0 <= k <= p.len(),
        path::separator(p) matches Some(sep) && sep > 0 && sep <= k,
    ensures
        ({
            let sep = path::separator(p)->0;
            let (head, tail) = path::split_path(p);
            &&& k == sep ==> p.take(k) == head && path::separator(p.take(k)) is None
            &&& k > sep ==> path::split_path(p.take(k)) == (head, tail.take(k - sep - 1))
            &&& p.take(k) != seq![0x2fu8]
        }),
{
    lemma_ascii_separator(p);
    path::lemma_separator(p);
    let sep = path::separator(p)->0;
    let q = p.take(k);
    assert(ascii(q)) by {
        assert forall|i: int| 0 <= i < q.len() implies #[trigger] q[i] < 0x80 by {
            assert(q[i] == p[i]);
        }
    }
    lemma_ascii_separator(q);
    path::lemma_separator(q);
    assert(q[0] == p[0]);
    if k > sep {
        path::lemma_first_slash_is(q, sep);
        assert(path::split_path(q).0 =~= path::split_path(p).0);
        assert(path::split_path(q).1 =~= path::split_path(p).1.take(k - sep - 1));
    } else {
        assert(q =~= path::split_path(p).0);
        if let Some(j) = path::first_slash(q) {
            assert(p[j] == 0x2f);
        }
    }
}

/// A tree is free for an ASCII path where the paths of the directories on the way, and the path
/// itself, lead to nothing that would stand in its way.
pub proof fn law_free_where_nothing_found<E>(t: Tree<E>, p: Seq<u8>)
    requires
        t is Dir,
        ascii(p),
        tree_laws::no_empty_name(p),
        forall|k: int| #[trigger] goes_on_behind(p, k) ==> t.dir_or_nothing(p.take(k)),
        t.find(p) is None || (tree_laws::names_dir(p) && t.find(p)->0 is Dir),
    ensures
        t.free_for(p),
    decreases p.len(),
{
    lemma_ascii_separator(p);
    path::lemma_separator(p);
    if let Tree::Dir { children, .. } = t {
        if let Some(sep) = path::separator(p) {
            let (head, tail) = path::split_path(p);
            let kids = tree::with_dir(children, head);
            let at = tree::dir_index(kids, head);
            let i = tree::child_index(children, head);
            tree_laws::lemma_with_dir(children, head);
            tree::lemma_child_index(children, head);
            tree::lemma_dir_index(children, head);
            lemma_take(p, sep);
            assert(head.len() == sep);
            if sep + 1 < p.len() {
                assert(goes_on_behind(p, sep));
                assert(t.dir_or_nothing(p.take(sep)));
                if i < children.len() {
                    assert(path::split_path(head) == (head, Seq::<u8>::empty()));
                    assert(children[i].find(Seq::<u8>::empty()) == Some(children[i]));
                    assert(t.find(head) == Some(children[i]));
                }
            } else {
                assert(p != seq![0x2fu8]);
                assert(tail =~= Seq::<u8>::empty());
                if i < children.len() {
                    assert(children[i].find(tail) == Some(children[i]));
                    assert(t.find(p) == Some(children[i]));
                }
            }
            assert(i == tree::dir_index(children, head)) by {
                if i < children.len() {
                    tree::lemma_dir_index_is(children, head, i);
                } else {
                    tree::lemma_dir_index_is(children, head, children.len() as int);
                }
            }
            if sep + 1 < p.len() {
                if i < children.len() {
                    let child = children[i];
                    assert(kids[at] == child);
                    assert forall|k: int| #[trigger]
                        goes_on_behind(tail, k) implies child.dir_or_nothing(tail.take(k)) by {
                        let m = k + sep + 1;
                        assert(p[m] == tail[k]);
                        assert(goes_on_behind(p, m));
                        assert(t.dir_or_nothing(p.take(m)));
                        lemma_take(p, m);
                        assert(t.find(p.take(m)) == child.find(tail.take(k)));
                    }
                    assert(p != seq![0x2fu8]);
                    assert(t.find(p) == child.find(tail));
                    law_free_where_nothing_found(child, tail);
                } else {
                    tree_laws::lemma_empty_free::<E>(head, false, tail);
                }
            }
        } else {
            assert(p != seq![0x2fu8]) by {
                if p == seq![0x2fu8] {
                    assert(p[0] == 0x2f);
                }
            }
            let i = tree::child_index(children, p);
            tree::lemma_child_index(children, p);
            if i < children.len() {
                assert(children[i].find(path::split_path(p).1) == Some(children[i]));
            }
        }
    }
}

/// Where the way of an insertion goes on, it goes on in the first child of the next name, which
/// is a directory afterwards.
proof fn lemma_way<E>(t: Tree<E>, e: E, p: Seq<u8>)
    requires
        t.free_for(p),
        path::separator(p) is Some,
    ensures
        ({
            let sep = path::separator(p)->0;
            let (head, tail) = path::split_path(p);
            let kids = tree::with_dir(t->children, head);
            let at = tree::dir_index(kids, head);
            let new = t.inserted(e, p)->children;
            &&& t is Dir
            &&& t.inserted(e, p) is Dir
            &&& 0 <= at < new.len()
            &&& tree::child_index(new, head) == at
            &&& new[at] is Dir
            &&& sep + 1 < p.len() ==> kids[at].free_for(tail) && new[at] == kids[at].inserted(
                e,
                tail,
            )
        }),
{
    path::lemma_separator(p);
    let (head, tail) = path::split_path(p);
    let children = t->children;
    let kids = tree::with_dir(children, head);
    let at = tree::dir_index(kids, head);
    let new = t.inserted(e, p)->children;
    tree_laws::lemma_with_dir(children, head);
    tree::lemma_child_index(children, head);
    assert forall|j: int| 0 <= j < at implies #[trigger] new[j].name() != head by {
        assert(kids[j] == children[j]);
    }
    tree::lemma_child_index_is(new, head, at);
}

proof fn lemma_ancestors<E>(t: Tree<E>, e: E, p: Seq<u8>, k: int)
    requires
        t.free_for(p),
        ascii(p),
        goes_on_behind(p, k),
    ensures
        t.inserted(e, p).find(p.take(k)) is Some,
        t.inserted(e, p).find(p.take(k))->0 is Dir,
    decreases p.len(),
{
    lemma_ascii_separator(p);
    path::lemma_separator(p);
    lemma_way(t, e, p);
    let sep = path::separator(p)->0;
    let (head, tail) = path::split_path(p);
    let kids = tree::with_dir(t->children, head);
    let at = tree::dir_index(kids, head);
    let new = t.inserted(e, p)->children;
    lemma_take(p, k);
    if k == sep {
        assert(new[at].find(Seq::<u8>::empty()) == Some(new[at]));
        assert(path::split_path(head) == (head, Seq::<u8>::empty()));
        assert(t.inserted(e, p).find(head) == Some(new[at]));
    } else {
        assert(tail[k - sep - 1] == p[k]);
        lemma_ancestors(kids[at], e, tail, k - sep - 1);
        assert(t.inserted(e, p).find(p.take(k)) == new[at].find(tail.take(k - sep - 1)));
    }
}

/// An ASCII path is that of a directory exactly where it ends in a slash.
pub proof fn law_names_dir_ascii(p: Seq<u8>)
    requires
        ascii(p),
    ensures
        tree_laws::names_dir(p) <==> p.len() > 0 && p.last() == 0x2f,
    decreases p.len(),
{
    lemma_ascii_separator(p);
    path::lemma_separator(p);
    if let Some(sep) = path::separator(p) {
        if sep + 1 < p.len() {
            let tail = path::split_path(p).1;
            law_names_dir_ascii(tail);
            assert(tail.last() == p.last());
        }
    }
}

/// Inserting at an ASCII path without empty names, where nothing stands in the way: the path
/// then leads to the entry that was put there, under the last name of the path; it is a
/// directory exactly where the path ends in a slash; and what stands before a slash on the way
/// leads to a directory.
pub proof fn law_insert_found<E>(t: Tree<E>, e: E, p: Seq<u8>)
    requires
        t is Dir,
        ascii(p),
        tree_laws::no_empty_name(p),
        forall|k: int| #[trigger] goes_on_behind(p, k) ==> t.dir_or_nothing(p.take(k)),
        t.find(p) is None || (p.last() == 0x2f && t.find(p)->0 is Dir),
    ensures
        match t.inserted(e, p).find(p) {
            Some(n) => {
                &&& n.entry() == Some(e)
                &&& n.name() == tree_laws::last_name(p)
                &&& n is Dir <==> p.last() == 0x2f
            },
            None => false,
        },
        forall|k: int| #[trigger]
            goes_on_behind(p, k) ==> match t.inserted(e, p).find(p.take(k)) {
                Some(n) => n is Dir,
                None => false,
            },
{
    law_names_dir_ascii(p);
    law_free_where_nothing_found(t, p);
    tree_laws::law_find_inserted(t, e, p);
    assert forall|k: int| #[trigger] goes_on_behind(p, k) implies match t.inserted(e, p).find(
        p.take(k),
    ) {
        Some(n) => n is Dir,
        None => false,
    } by {
        lemma_ancestors(t, e, p, k);
    }
}

/// The last name of an ASCII path without empty names: what stands behind the slash before it,
/// up to the end or the slash at the end.
pub proof fn law_last_name_ascii(p: Seq<u8>)
    requires
        ascii(p),
        tree_laws::no_empty_name(p),
    ensures
        ({
            let name = tree_laws::last_name(p);
            let end = if p.last() == 0x2f {
                p.len() - 1
            } else {
                p.len() as int
            };
            &&& 0 < name.len() <= end
            &&& name == p.subrange(end - name.len(), end)
            &&& path::first_slash(name) is None
            &&& end == name.len() || p[end - name.len() - 1] == 0x2f
        }),
    decreases p.len(),
{
    lemma_ascii_separator(p);
    path::lemma_separator(p);
    if let Some(sep) = path::separator(p) {
        let (head, tail) = path::split_path(p);
        if sep + 1 < p.len() {
            law_last_name_ascii(tail);
            let name = tree_laws::last_name(tail);
            let end = if tail.last() == 0x2f {
                tail.len() - 1
            } else {
                tail.len() as int
            };
            assert(tail.last() == p.last());
            assert(tail.subrange(end - name.len(), end) =~= p.subrange(
                end + sep + 1 - name.len(),
                end + sep + 1,
            ));
            if end > name.len() {
                assert(tail[end - name.len() - 1] == p[end + sep - name.len()]);
            }
        } else {
            path::lemma_separator(head);
            if let Some(j) = path::first_slash(head) {
                assert(head[j] == p[j]);
            }
        }
    } else {
        assert(p.subrange(0, p.len() as int) =~= p);
    }
}

/// The sum of some numbers.
pub open spec fn total(counts: Seq<nat>) -> nat
    decreases counts.len(),
{
    if counts.len() == 0 {
        0
    } else {
        total(counts.drop_last()) + counts.last()
    }
}

impl<E> Tree<E> {
    /// How many files there are, here and below.
    pub open spec fn file_count(self) -> nat
        decreases self,
    {
        match self {
            Tree::Dir { children, .. } => total(file_counts(children)),
            Tree::File { .. } => 1,
        }
    }
}

/// How many files there are in each of some trees.
pub open spec fn file_counts<E>(trees: Seq<Tree<E>>) -> Seq<nat>
    decreases trees,
{
    Seq::new(
        trees.len(),
        |i: int|
            if 0 <= i < trees.len() {
                trees[i].file_count()
            } else {
                0
            },
    )
}

proof fn lemma_total_push(s: Seq<nat>, x: nat)
    ensures
        total(s.push(x)) == total(s) + x,
{
    assert(s.push(x).drop_last() =~= s);
}

proof fn lemma_total_update(s: Seq<nat>, i: int, x: nat)
    requires
        0 <= i < s.len(),
    ensures
        total(s.update(i, x)) + s[i] == total(s) + x,
    decreases s.len(),
{
    let u = s.update(i, x);
    if i == s.len() - 1 {
        assert(u.drop_last() =~= s.drop_last());
    } else {
        lemma_total_update(s.drop_last(), i, x);
        assert(u.drop_last() =~= s.drop_last().update(i, x));
    }
}

/// An insertion adds one file where the path is that of a file, and none where it is that of a
/// directory.
pub proof fn law_insert_adds_one_file<E>(t: Tree<E>, e: E, p: Seq<u8>)
    requires
        t is Dir,
    ensures
        t.inserted(e, p).file_count() == t.file_count() + if tree_laws::names_dir(p) {
            0nat
        } else {
            1nat
        },
    decreases p.len(),
{
    path::lemma_separator(p);
    if let Tree::Dir { children, .. } = t {
        let new = t.inserted(e, p)->children;
        assert(t.file_count() == total(file_counts(children)));
        assert(t.inserted(e, p).file_count() == total(file_counts(new)));
        if let Some(sep) = path::separator(p) {
            let (head, tail) = path::split_path(p);
            let kids = tree::with_dir(children, head);
            let at = tree::dir_index(kids, head);
            tree_laws::lemma_with_dir(children, head);
            assert(total(file_counts(kids)) == total(file_counts(children))) by {
                if kids.len() > children.len() {
                    let empty = Tree::<E>::empty_dir(head, false);
                    assert(empty.file_count() == total(file_counts(Seq::<Tree<E>>::empty())));
                    assert(file_counts(kids) =~= file_counts(children).push(0));
                    lemma_total_push(file_counts(children), 0);
                }
            }
            let child = if sep + 1 < p.len() {
                law_insert_adds_one_file(kids[at], e, tail);
                kids[at].inserted(e, tail)
            } else {
                let below = file_counts(kids[at]->children);
                assert(kids[at].file_count() == total(below));
                assert(kids[at].with_entry(e).file_count() == total(below));
                kids[at].with_entry(e)
            };
            assert(new == kids.update(at, child));
            assert(file_counts(new) =~= file_counts(kids).update(at, child.file_count()));
            lemma_total_update(file_counts(kids), at, child.file_count());
        } else {
            assert(file_counts(new) =~= file_counts(children).push(1));
            lemma_total_push(file_counts(children), 1);
        }
    }
}

/// An insertion changes neither the name nor the entry of the directory that it is made in, nor
/// whether that is the root.
pub proof fn law_insert_keeps_own<E>(t: Tree<E>, e: E, p: Seq<u8>)
    requires
        t is Dir,
    ensures
        t.inserted(e, p) is Dir,
        t.inserted(e, p).name() == t.name(),
        t.inserted(e, p).entry() == t.entry(),
        t.inserted(e, p)->is_root == t->is_root,
{
}

impl<E> Tree<E> {
    /// Whether, here and below, the index recorded for `index.html` is that of a file of this
    /// name, and none is recorded only where there is no such file.
    pub open spec fn indexes_file(self) -> bool
        decreases self,
    {
        match self {
            Tree::Dir { children, index_html_index, .. } => {
                &&& match index_html_index {
                    Some(i) => i < children.len() && is_index(children[i as int]),
                    None => forall|i: int|
                        0 <= i < children.len() ==> !is_index(#[trigger] children[i]),
                }
                &&& forall|i: int|
                    0 <= i < children.len() ==> (#[trigger] children[i]).indexes_file()
            },
            Tree::File { .. } => true,
        }
    }

    /// Whether, here and below, no two directories in one directory have the same name.
    pub open spec fn dirs_distinct(self) -> bool
        decreases self,
    {
        match self {
            Tree::Dir { children, .. } => {
                &&& all_apart(children)
                &&& forall|i: int|
                    0 <= i < children.len() ==> (#[trigger] children[i]).dirs_distinct()
            },
            Tree::File { .. } => true,
        }
    }

    /// Whether no directory below is marked as the root.
    pub open spec fn no_root_below(self) -> bool
        decreases self,
    {
        match self {
            Tree::Dir { children, .. } => {
                forall|i: int|
                    0 <= i < children.len() ==> {
                        &&& (#[trigger] children[i]).no_root_below()
                        &&& children[i] is Dir ==> !children[i]->is_root
                    }
            },
            Tree::File { .. } => true,
        }
    }
}

/// Whether a node is a file named `index.html`.
pub open spec fn is_index<E>(t: Tree<E>) -> bool {
    t is File && t.name() == bytes::text("index.html"@)
}

/// Whether two nodes are not directories of one name.
pub open spec fn apart<E>(a: Tree<E>, b: Tree<E>) -> bool {
    a is Dir && b is Dir ==> a.name() != b.name()
}

/// Whether no two of some nodes are directories of one name.
pub open spec fn all_apart<E>(s: Seq<Tree<E>>) -> bool {
    forall|i: int, j: int| 0 <= i < j < s.len() ==> apart(#[trigger] s[i], #[trigger] s[j])
}

/// A root without contents records no index, holds no two directories of one name and no other
/// root.
pub proof fn law_root<E>()
    ensures
        Tree::<E>::empty_dir(Seq::empty(), true).indexes_file(),
        Tree::<E>::empty_dir(Seq::empty(), true).dirs_distinct(),
        Tree::<E>::empty_dir(Seq::empty(), true).no_root_below(),
{
}

/// An insertion, however deep, leaves a recorded index that of a file named `index.html`, and
/// leaves none unrecorded where there is one.
pub proof fn law_insert_indexes_file<E>(t: Tree<E>, e: E, p: Seq<u8>)
    requires
        t.indexes_file(),
        t.at_most(usize::MAX as nat),
    ensures
        t.inserted(e, p).indexes_file(),
    decreases p.len(),
{
    path::lemma_separator(p);
    if let Tree::Dir { children, index_html_index, .. } = t {
        let new = t.inserted(e, p)->children;
        if let Some(sep) = path::separator(p) {
            let (head, tail) = path::split_path(p);
            let kids = tree::with_dir(children, head);
            let at = tree::dir_index(kids, head);
            tree_laws::lemma_with_dir(children, head);
            assert(kids[at].indexes_file() && kids[at].at_most(usize::MAX as nat)) by {
                if at < children.len() {
                    assert(kids[at] == children[at]);
                }
            }
            let child = if sep + 1 < p.len() {
                law_insert_indexes_file(kids[at], e, tail);
                kids[at].inserted(e, tail)
            } else {
                kids[at].with_entry(e)
            };
            assert(child.indexes_file());
            assert(new == kids.update(at, child));
            assert forall|i: int| 0 <= i < new.len() implies {
                &&& (#[trigger] new[i]).indexes_file()
                &&& is_index(new[i]) == is_index(kids[i])
                &&& is_index(new[i]) ==> i < children.len() && is_index(children[i])
                &&& i < children.len() && is_index(children[i]) ==> is_index(new[i])
            } by {
                if i < children.len() {
                    assert(kids[i] == children[i]);
                }
                if i != at {
                    assert(new[i] == kids[i]);
                }
            }
            if let Some(i) = index_html_index {
                assert(is_index(new[i as int]));
            }
        } else {
            assert(new == children.push(Tree::File { name: p, entry: e }));
            assert forall|i: int| 0 <= i < children.len() implies new[i] == children[i] by {}
            assert forall|i: int| 0 <= i < new.len() implies {
                (#[trigger] new[i]).indexes_file()
            } by {
                if i < children.len() {
                    assert(new[i] == children[i]);
                }
            }
            if p != bytes::text("index.html"@) {
                if let Some(i) = index_html_index {
                    assert(is_index(new[i as int]));
                }
            }
        }
    }
}

/// An insertion makes no two directories of one name in a directory.
pub proof fn law_insert_keeps_dirs_distinct<E>(t: Tree<E>, e: E, p: Seq<u8>)
    requires
        t.dirs_distinct(),
    ensures
        t.inserted(e, p).dirs_distinct(),
    decreases p.len(),
{
    path::lemma_separator(p);
    if let Tree::Dir { children, .. } = t {
        let new = t.inserted(e, p)->children;
        if let Some(sep) = path::separator(p) {
            let (head, tail) = path::split_path(p);
            let kids = tree::with_dir(children, head);
            let at = tree::dir_index(kids, head);
            tree_laws::lemma_with_dir(children, head);
            tree::lemma_dir_index(children, head);
            assert forall|i: int| 0 <= i < kids.len() implies {
                (#[trigger] kids[i]).dirs_distinct()
            } by {
                if i < children.len() {
                    assert(kids[i] == children[i]);
                }
            }
            let child = if sep + 1 < p.len() {
                law_insert_keeps_dirs_distinct(kids[at], e, tail);
                kids[at].inserted(e, tail)
            } else {
                kids[at].with_entry(e)
            };
            assert(child.dirs_distinct());
            assert(new == kids.update(at, child));
            assert forall|i: int| 0 <= i < new.len() implies {
                &&& (#[trigger] new[i]).dirs_distinct()
                &&& new[i] is Dir == kids[i] is Dir
                &&& new[i].name() == kids[i].name()
            } by {
                if i != at {
                    assert(new[i] == kids[i]);
                }
            }
            assert forall|i: int, j: int| 0 <= i < j < new.len() implies apart(
                #[trigger] new[i],
                #[trigger] new[j],
            ) by {
                assert(kids[i] == children[i]);
                if j < children.len() {
                    assert(kids[j] == children[j]);
                    assert(apart(children[i], children[j]));
                } else {
                    assert(!(children[i] is Dir && children[i].name() == head));
                }
            }
        } else {
            assert(new == children.push(Tree::File { name: p, entry: e }));
            assert forall|i: int| 0 <= i < new.len() implies {
                (#[trigger] new[i]).dirs_distinct()
            } by {
                if i < children.len() {
                    assert(new[i] == children[i]);
                }
            }
            assert forall|i: int, j: int| 0 <= i < j < new.len() implies apart(
                #[trigger] new[i],
                #[trigger] new[j],
            ) by {
                assert(new[i] == children[i]);
                if j < children.len() {
                    assert(new[j] == children[j]);
                }
            }
        }
    }
}

/// An insertion marks no directory below as the root.
pub proof fn law_insert_marks_no_root<E>(t: Tree<E>, e: E, p: Seq<u8>)
    requires
        t.no_root_below(),
    ensures
        t.inserted(e, p).no_root_below(),
    decreases p.len(),
{
    path::lemma_separator(p);
    if let Tree::Dir { children, .. } = t {
        let new = t.inserted(e, p)->children;
        if let Some(sep) = path::separator(p) {
            let (head, tail) = path::split_path(p);
            let kids = tree::with_dir(children, head);
            let at = tree::dir_index(kids, head);
            tree_laws::lemma_with_dir(children, head);
            assert forall|i: int| 0 <= i < kids.len() implies {
                &&& (#[trigger] kids[i]).no_root_below()
                &&& kids[i] is Dir ==> !kids[i]->is_root
            } by {
                if i < children.len() {
                    assert(kids[i] == children[i]);
                }
            }
            let child = if sep + 1 < p.len() {
                law_insert_marks_no_root(kids[at], e, tail);
                kids[at].inserted(e, tail)
            } else {
                kids[at].with_entry(e)
            };
            assert(child.no_root_below() && !child->is_root);
            assert(new == kids.update(at, child));
            assert forall|i: int| 0 <= i < new.len() implies {
                &&& (#[trigger] new[i]).no_root_below()
                &&& new[i] is Dir ==> !new[i]->is_root
            } by {
                if i != at {
                    assert(new[i] == kids[i]);
                }
            }
        } else {
            assert(new == children.push(Tree::File { name: p, entry: e }));
            assert forall|i: int| 0 <= i < new.len() implies {
                &&& (#[trigger] new[i]).no_root_below()
                &&& new[i] is Dir ==> !new[i]->is_root
            } by {
                if i < children.len() {
                    assert(new[i] == children[i]);
                }
            }
        }
    }
}

proof fn lemma_insert_apart<E>(s: Seq<Tree<E>>, x: Tree<E>)
    requires
        all_apart(s),
        forall|i: int| 0 <= i < s.len() ==> apart(#[trigger] s[i], x),
    ensures
        all_apart(order::insert_by_name(s, x)),
    decreases s.len(),
{
    let r = order::insert_by_name(s, x);
    if s.len() == 0 || order::lex_le(s.last().name(), x.name()) {
        assert forall|i: int, j: int| 0 <= i < j < r.len() implies apart(
            #[trigger] r[i],
            #[trigger] r[j],
        ) by {
            assert(r[i] == s[i]);
            if j < s.len() {
                assert(r[j] == s[j]);
            }
        }
    } else {
        let d = s.drop_last();
        let q = order::insert_by_name(d, x);
        assert forall|i: int| 0 <= i < d.len() implies d[i] == s[i] by {}
        lemma_insert_apart(d, x);
        tree_laws::lemma_insert_members(d, x);
        assert forall|i: int, j: int| 0 <= i < j < r.len() implies apart(
            #[trigger] r[i],
            #[trigger] r[j],
        ) by {
            assert(r[i] == q[i]);
            if j < q.len() {
                assert(r[j] == q[j]);
            } else if q[i] != x {
                assert(d.contains(q[i]));
                let k = choose|k: int| 0 <= k < d.len() && d[k] == q[i];
                assert(apart(s[k], s[s.len() - 1]));
            } else {
                assert(apart(s[s.len() - 1], x));
            }
        }
    }
}

proof fn lemma_sort_apart<E>(s: Seq<Tree<E>>)
    requires
        all_apart(s),
    ensures
        all_apart(order::name_sorted(s)),
    decreases s.len(),
{
    if s.len() > 0 {
        let d = s.drop_last();
        assert forall|i: int| 0 <= i < d.len() implies d[i] == s[i] by {}
        lemma_sort_apart(d);
        tree_laws::lemma_sorted_members(d);
        let q = order::name_sorted(d);
        assert forall|i: int| 0 <= i < q.len() implies apart(#[trigger] q[i], s.last()) by {
            assert(d.contains(q[i]));
            let k = choose|k: int| 0 <= k < d.len() && d[k] == q[i];
            assert(apart(s[k], s[s.len() - 1]));
        }
        lemma_insert_apart(q, s.last());
    }
}

/// Sorting makes no two directories of one name in a directory, and marks none as the root.
pub proof fn law_sort_keeps_dirs<E>(t: Tree<E>)
    ensures
        t.dirs_distinct() ==> t.sorted().dirs_distinct(),
        t.no_root_below() ==> t.sorted().no_root_below(),
    decreases t,
{
    if let Tree::Dir { children, .. } = t {
        let each = tree::each_sorted(children);
        let kids = order::name_sorted(each);
        tree_laws::lemma_sorted_members(each);
        if t.dirs_distinct() {
            assert forall|i: int, j: int| 0 <= i < j < each.len() implies apart(
                #[trigger] each[i],
                #[trigger] each[j],
            ) by {
                assert(apart(children[i], children[j]));
            }
            lemma_sort_apart(each);
        }
        assert forall|j: int| 0 <= j < kids.len() implies {
            &&& t.dirs_distinct() ==> (#[trigger] kids[j]).dirs_distinct()
            &&& t.no_root_below() ==> kids[j].no_root_below()
            &&& t.no_root_below() && kids[j] is Dir ==> !kids[j]->is_root
        } by {
            assert(each.contains(kids[j]));
            let i = choose|i: int| 0 <= i < each.len() && each[i] == kids[j];
            law_sort_keeps_dirs(children[i]);
            assert(children[i] is Dir == kids[j] is Dir);
        }
    }
}

proof fn lemma_insert_count<E>(s: Seq<Tree<E>>, x: Tree<E>)
    ensures
        total(file_counts(order::insert_by_name(s, x))) == total(file_counts(s)) + x.file_count(),
    decreases s.len(),
{
    let r = order::insert_by_name(s, x);
    if s.len() == 0 || order::lex_le(s.last().name(), x.name()) {
        assert(file_counts(r) =~= file_counts(s).push(x.file_count()));
        lemma_total_push(file_counts(s), x.file_count());
    } else {
        let d = s.drop_last();
        let q = order::insert_by_name(d, x);
        lemma_insert_count(d, x);
        assert(file_counts(r) =~= file_counts(q).push(s.last().file_count()));
        lemma_total_push(file_counts(q), s.last().file_count());
        assert(file_counts(s) =~= file_counts(d).push(s.last().file_count()));
        lemma_total_push(file_counts(d), s.last().file_count());
    }
}

proof fn lemma_sort_count<E>(s: Seq<Tree<E>>)
    ensures
        total(file_counts(order::name_sorted(s))) == total(file_counts(s)),
    decreases s.len(),
{
    if s.len() > 0 {
        let d = s.drop_last();
        lemma_sort_count(d);
        lemma_insert_count(order::name_sorted(d), s.last());
        assert(file_counts(s) =~= file_counts(d).push(s.last().file_count()));
        lemma_total_push(file_counts(d), s.last().file_count());
    }
}

/// Sorting adds no file and loses none.
pub proof fn law_sort_keeps_files<E>(t: Tree<E>)
    ensures
        t.sorted().file_count() == t.file_count(),
    decreases t,
{
    if let Tree::Dir { children, .. } = t {
        let each = tree::each_sorted(children);
        lemma_sort_count(each);
        assert forall|i: int| 0 <= i < children.len() implies #[trigger] file_counts(each)[i]
            == file_counts(children)[i] by {
            law_sort_keeps_files(children[i]);
        }
        assert(file_counts(each) =~= file_counts(children));
    }
}

/// Whether two paths are those of one directory.
pub open spec fn same_dir(q: Seq<u8>, p: Seq<u8>) -> bool
    decreases p.len(),
{
    proof {
        path::lemma_separator(p);
    }
    let (p_head, p_tail) = path::split_path(p);
    let (q_head, q_tail) = path::split_path(q);
    match (path::separator(p), path::separator(q)) {
        (Some(i), Some(j)) => {
            &&& p_head == q_head
            &&& i + 1 < p.len() <==> j + 1 < q.len()
            &&& i + 1 < p.len() ==> same_dir(q_tail, p_tail)
        },
        _ => false,
    }
}

/// ASCII paths are those of one directory only where they are the same.
pub proof fn law_same_dir_ascii(q: Seq<u8>, p: Seq<u8>)
    requires
        ascii(p),
        ascii(q),
        same_dir(q, p),
    ensures
        q == p,
    decreases p.len(),
{
    lemma_ascii_separator(p);
    lemma_ascii_separator(q);
    let (p_head, p_tail) = path::split_path(p);
    let (q_head, q_tail) = path::split_path(q);
    let i = path::separator(p)->0;
    assert(path::separator(q)->0 == i) by {
        assert(p_head.len() == i);
    }
    if i + 1 < p.len() {
        law_same_dir_ascii(q_tail, p_tail);
    } else {
        assert(p_tail =~= q_tail);
    }
    assert(p =~= p_head + seq![0x2fu8] + p_tail);
    assert(q =~= q_head + seq![0x2fu8] + q_tail);
}

/// An insertion leaves the entry of a directory as it was, unless it is made at the path of that
/// directory.
pub proof fn law_insert_keeps_dir_entry<E>(t: Tree<E>, e: E, q: Seq<u8>, p: Seq<u8>)
    requires
        tree_laws::no_empty_name(p),
        tree_laws::names_dir(p),
        t.find(p) is Some,
        !same_dir(q, p),
    ensures
        t.inserted(e, q).find(p) is Some,
        t.inserted(e, q).find(p)->0.entry() == t.find(p)->0.entry(),
    decreases p.len(),
{
    path::lemma_separator(p);
    path::lemma_separator(q);
    let (p_head, p_tail) = path::split_path(p);
    let (q_head, q_tail) = path::split_path(q);
    let end = path::separator(p)->0 + 1;
    assert(p != seq![0x2fu8]);
    if let Tree::Dir { children, .. } = t {
        let new = t.inserted(e, q)->children;
        let i = tree::child_index(children, p_head);
        tree::lemma_child_index(children, p_head);
        if end == p.len() {
            assert(p_tail =~= Seq::<u8>::empty());
            assert(children[i].find(p_tail) == Some(children[i]));
        } else {
            assert(tree_laws::no_empty_name(p_tail));
            path::lemma_separator(p_tail);
            assert(path::split_path(p_tail).0.len() > 0);
        }
        if let Some(j) = path::separator(q) {
            let kids = tree::with_dir(children, q_head);
            let at = tree::dir_index(kids, q_head);
            tree_laws::lemma_with_dir(children, q_head);
            let child = if j + 1 < q.len() {
                kids[at].inserted(e, q_tail)
            } else {
                kids[at].with_entry(e)
            };
            assert(new == kids.update(at, child));
            assert forall|k: int| 0 <= k < children.len() implies (#[trigger] new[k]).name()
                == children[k].name() by {
                assert(kids[k] == children[k]);
            }
            tree_laws::lemma_child_index_kept(children, new, p_head);
            assert(kids[i] == children[i]);
            if i == at {
                assert(new[i] == child);
                if end == p.len() {
                    assert(child.find(p_tail) == Some(child));
                } else if j + 1 < q.len() {
                    law_insert_keeps_dir_entry(children[i], e, q_tail, p_tail);
                } else {
                    assert(p_tail != seq![0x2fu8]);
                    assert(child.find(p_tail) == children[i].find(p_tail));
                }
            } else {
                assert(new[i] == children[i]);
            }
        } else {
            assert(new == children.push(Tree::File { name: q, entry: e }));
            tree_laws::lemma_child_index_kept(children, new, p_head);
            assert(new[i] == children[i]);
        }
    }
}

} // verus!
