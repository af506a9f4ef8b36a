//! The files and directories of an archive, arranged as a tree.
use vstd::prelude::*;

use crate::bytes;
use crate::entry::Entry;
use crate::order;
use crate::path;
use crate::tree;
use crate::tree::Tree;

verus! {

/// A file or a directory, with the archive entry it stands for.
#[derive(Debug)]
#[allow(inconsistent_fields)]
pub enum FsTreeNode<E = Entry> {
    /// A directory.
    Dir {
        name: String,
        children: Vec<FsTreeNode<E>>,
        /// The directory's own entry, where the archive has one.
        entry: Option<E>,
        is_root: bool,
        /// Index in `children` of the child that is shown in place of a listing.
        index_html_index: Option<usize>,
    },
    /// A file.
    File { name: String, entry: E },
}

/// The tree that a node stands for.
pub open spec fn tree_of<E>(node: FsTreeNode<E>) -> Tree<E>
    decreases node,
{
    match node {
        FsTreeNode::Dir { name, children, entry, is_root, index_html_index } => Tree::Dir {
            name: bytes::text(name@),
            children: Seq::new(
                children@.len(),
                |i: int|
                    if 0 <= i < children@.len() {
                        tree_of(children@[i])
                    } else {
                        arbitrary()
                    },
            ),
            entry,
            is_root,
            index_html_index,
        },
        FsTreeNode::File { name, entry } => Tree::File { name: bytes::text(name@), entry },
    }
}

/// The trees that a list of nodes stands for.
pub open spec fn trees_of<E>(nodes: Seq<FsTreeNode<E>>) -> Seq<Tree<E>> {
    Seq::new(nodes.len(), |i: int| tree_of(nodes[i]))
}

impl<E> View for FsTreeNode<E> {
    type V = Tree<E>;

    open spec fn view(&self) -> Tree<E> {
        tree_of(*self)
    }
}

/// Index of the first directory of a name, or the number of nodes where there is none.
fn find_dir<E>(nodes: &Vec<FsTreeNode<E>>, dir_name: &str) -> (r: usize)
    ensures
        r == tree::dir_index(trees_of(nodes@), bytes::text(dir_name@)),
        r <= nodes@.len(),
{
    let ghost trees = trees_of(nodes@);
    let mut i: usize = 0;
    while i < nodes.len()
        invariant
            i <= nodes@.len(),
            trees == trees_of(nodes@),
            forall|j: int|
                0 <= j < i ==> !(#[trigger] trees[j] is Dir && trees[j].name() == bytes::text(
                    dir_name@,
                )),
        decreases nodes@.len() - i,
    {
        let same = match &nodes[i] {
            FsTreeNode::Dir { name, .. } => bytes::equal(
                name.as_str().as_bytes(),
                dir_name.as_bytes(),
            ),
            FsTreeNode::File { .. } => false,
        };
        assert(trees[i as int] == nodes@[i as int]@);
        if same {
            proof {
                tree::lemma_dir_index_is(trees, bytes::text(dir_name@), i as int);
            }
            return i;
        }
        i += 1;
    }
    proof {
        tree::lemma_dir_index_is(trees, bytes::text(dir_name@), i as int);
    }
    i
}

impl<E> FsTreeNode<E> {
    fn insert_path(&mut self, new_entry: E, path: &str)
        requires
            old(self)@ is Dir,
            path::insertable(bytes::text(path@)),
        ensures
            final(self)@ == old(self)@.inserted(new_entry, bytes::text(path@)),
        decreases bytes::text(path@).len(),
    {
        let ghost p = bytes::text(path@);
        let ghost before = self@;
        proof {
            path::lemma_separator(p);
        }
        match self {
            FsTreeNode::Dir { name, children, entry, is_root, index_html_index } => {
                assert(before->children =~= trees_of(children@));
                match path::find_separator(path) {
                    Some(sep) => {
                        proof {
                            path::lemma_boundary(path, sep as int);
                        }
                        let (head, rest) = path.split_at(sep);
                        let at = find_dir(children, head);
                        let ghost kids = tree::with_dir(before->children, path::split_path(p).0);
                        if at == children.len() {
                            let created = FsTreeNode::Dir {
                                name: head.to_owned(),
                                children: Vec::new(),
                                entry: None,
                                is_root: false,
                                index_html_index: None,
                            };
                            assert(created@->children =~= Seq::empty());
                            children.push(created);
                            assert(trees_of(children@) =~= before->children.push(created@));
                        }
                        assert(trees_of(children@) =~= kids);
                        proof {
                            tree::lemma_dir_index(before->children, path::split_path(p).0);
                            tree::lemma_dir_index_is(kids, path::split_path(p).0, at as int);
                        }
                        let ghost mid = children@;
                        assert(tree_of(mid[at as int]) == kids[at as int]);
                        let child = &mut children[at];
                        if rest.as_bytes().len() > 1 {
                            assert(path::boundary(bytes::text(rest@), 1)) by {
                                assert(bytes::text(rest@)[1] == p[sep + 1]);
                            }
                            proof {
                                path::lemma_boundary(rest, 1);
                            }
                            let (_, tail) = rest.split_at(1);
                            assert(bytes::text(tail@) =~= path::split_path(p).1);
                            child.insert_path(new_entry, tail);
                        } else {
                            match child {
                                FsTreeNode::Dir { entry, .. } => {
                                    *entry = Some(new_entry);
                                },
                                FsTreeNode::File { .. } => {},
                            }
                        }
                        assert(trees_of(children@) =~= kids.update(
                            at as int,
                            tree_of(children@[at as int]),
                        ));
                    },
                    None => {
                        if bytes::equal(path.as_bytes(), "index.html".as_bytes()) {
                            *index_html_index = Some(children.len());
                        }
                        let created = FsTreeNode::File { name: path.to_owned(), entry: new_entry };
                        children.push(created);
                        assert(trees_of(children@) =~= before->children.push(created@));
                    },
                }
            },
            FsTreeNode::File { .. } => {},
        }
        proof {
            assert(self@->children =~= trees_of(self->children@));
        }
    }

    /// Puts an entry at a path below this directory.
    pub fn insert_at(&mut self, new_entry: E, path: String)
        requires
            old(self)@ is Dir,
            path::insertable(bytes::text(path@)),
        ensures
            final(self)@ == old(self)@.inserted(new_entry, bytes::text(path@)),
    {
        self.insert_path(new_entry, path.as_str())
    }
}

/// Index of the first node of a name, or the number of nodes where there is none.
fn find_child<E>(nodes: &[FsTreeNode<E>], child_name: &[u8]) -> (r: usize)
    ensures
        r == tree::child_index(trees_of(nodes@), child_name@),
        r <= nodes@.len(),
{
    let ghost trees = trees_of(nodes@);
    let mut i: usize = 0;
    while i < nodes.len()
        invariant
            i <= nodes@.len(),
            trees == trees_of(nodes@),
            forall|j: int| 0 <= j < i ==> #[trigger] trees[j].name() != child_name@,
        decreases nodes@.len() - i,
    {
        assert(trees[i as int] == nodes@[i as int]@);
        if bytes::equal(nodes[i].name().as_bytes(), child_name) {
            proof {
                tree::lemma_child_index_is(trees, child_name@, i as int);
            }
            return i;
        }
        i += 1;
    }
    proof {
        tree::lemma_child_index_is(trees, child_name@, i as int);
    }
    i
}

impl<E> FsTreeNode<E> {
    /// A root directory without contents.
    pub fn root() -> (r: Self)
        ensures
            r@ == Tree::<E>::empty_dir(Seq::empty(), true),
    {
        let r = FsTreeNode::Dir {
            name: String::new(),
            children: Vec::new(),
            entry: None,
            is_root: true,
            index_html_index: None,
        };
        assert(r@->children =~= Seq::empty());
        assert(r@.name() =~= Seq::empty());
        r
    }

    /// The name of the file or directory.
    pub fn name(&self) -> (r: &str)
        ensures
            bytes::text(r@) == self@.name(),
    {
        match self {
            FsTreeNode::Dir { name, .. } => name.as_str(),
            FsTreeNode::File { name, .. } => name.as_str(),
        }
    }

    /// The archive entry of the file or directory.
    pub fn entry(&self) -> (r: Option<&E>)
        ensures
            match r {
                Some(e) => self@.entry() == Some(*e),
                None => self@.entry() is None,
            },
    {
        match self {
            FsTreeNode::Dir { entry, .. } => entry.as_ref(),
            FsTreeNode::File { entry, .. } => Some(entry),
        }
    }

    /// What a path leads to.
    pub fn find(&self, path: &str) -> (r: Option<&Self>)
        requires
            self@.findable(bytes::text(path@)),
        ensures
            match r {
                Some(node) => self@.find(bytes::text(path@)) == Some(node@),
                None => self@.find(bytes::text(path@)) is None,
            },
        decreases bytes::text(path@).len(),
    {
        let ghost p = bytes::text(path@);
        let b = path.as_bytes();
        if b.len() == 0 || (b.len() == 1 && b[0] == 0x2f) {
            assert(p.len() == 1 ==> p =~= seq![0x2fu8]);
            return Some(self);
        }
        proof {
            path::lemma_separator(p);
        }
        let (head, tail) = path::divide(path);
        if head.as_bytes().len() == 0 {
            return self.find(tail);
        }
        match self {
            FsTreeNode::Dir { children, .. } => {
                assert(self@->children =~= trees_of(children@));
                let at = find_child(children.as_slice(), head.as_bytes());
                if at < children.len() {
                    children[at].find(tail)
                } else {
                    None
                }
            },
            FsTreeNode::File { .. } => None,
        }
    }

    /// Whether every part of a path that `find` comes to can be divided.
    pub fn can_find(&self, path: &str) -> (r: bool)
        ensures
            r == self@.findable(bytes::text(path@)),
        decreases bytes::text(path@).len(),
    {
        let ghost p = bytes::text(path@);
        let b = path.as_bytes();
        if b.len() == 0 || (b.len() == 1 && b[0] == 0x2f) {
            assert(p.len() == 1 ==> p =~= seq![0x2fu8]);
            return true;
        }
        proof {
            path::lemma_separator(p);
        }
        if !path::can_divide(path) {
            return false;
        }
        let (head, tail) = path::divide(path);
        if head.as_bytes().len() == 0 {
            return self.can_find(tail);
        }
        match self {
            FsTreeNode::Dir { children, .. } => {
                assert(self@->children =~= trees_of(children@));
                let at = find_child(children.as_slice(), head.as_bytes());
                if at < children.len() {
                    children[at].can_find(tail)
                } else {
                    true
                }
            },
            FsTreeNode::File { .. } => true,
        }
    }
}

proof fn lemma_trees_push<E>(nodes: Seq<FsTreeNode<E>>, x: FsTreeNode<E>)
    ensures
        trees_of(nodes.push(x)) == trees_of(nodes).push(tree_of(x)),
{
    assert(trees_of(nodes.push(x)) =~= trees_of(nodes).push(tree_of(x)));
}

/// Moves the last of `from` to the end of `out`.
fn move_last<E>(from: &mut Vec<FsTreeNode<E>>, out: &mut Vec<FsTreeNode<E>>)
    requires
        old(from)@.len() > 0,
    ensures
        trees_of(final(from)@) == trees_of(old(from)@).drop_last(),
        trees_of(final(out)@) == trees_of(old(out)@).push(trees_of(old(from)@).last()),
        final(from)@.len() == old(from)@.len() - 1,
{
    let ghost before = trees_of(from@);
    match from.pop() {
        Some(x) => {
            assert(trees_of(from@) =~= before.drop_last());
            proof {
                lemma_trees_push(out@, x);
            }
            out.push(x);
        },
        None => {},
    }
}

/// The nodes in reverse.
fn reversed<E>(nodes: Vec<FsTreeNode<E>>) -> (r: Vec<FsTreeNode<E>>)
    ensures
        trees_of(r@) == trees_of(nodes@).reverse(),
{
    let mut from = nodes;
    let ghost all = trees_of(from@);
    let mut out: Vec<FsTreeNode<E>> = Vec::new();
    assert(trees_of(out@) + all.reverse() =~= all.reverse());
    assert(trees_of(out@) + trees_of(from@).reverse() =~= all.reverse());
    while from.len() > 0
        invariant
            trees_of(out@) + trees_of(from@).reverse() == all.reverse(),
        decreases from@.len(),
    {
        let ghost f = trees_of(from@);
        let ghost o = trees_of(out@);
        move_last(&mut from, &mut out);
        assert(o.push(f.last()) + f.drop_last().reverse() =~= o + f.reverse());
    }
    assert(trees_of(out@) + trees_of(from@).reverse() =~= trees_of(out@));
    out
}

/// One sorted list made of two; of nodes with one name those of `a` come first.
fn merge<E>(a: Vec<FsTreeNode<E>>, b: Vec<FsTreeNode<E>>) -> (r: Vec<FsTreeNode<E>>)
    requires
        order::in_name_order(trees_of(a@)),
        order::in_name_order(trees_of(b@)),
    ensures
        order::in_name_order(trees_of(r@)),
        forall|n: Seq<u8>| #[trigger]
            order::named(trees_of(r@), n) == order::named(trees_of(a@), n) + order::named(
                trees_of(b@),
                n,
            ),
{
    let ghost a0 = trees_of(a@);
    let ghost b0 = trees_of(b@);
    let mut a = a;
    let mut b = b;
    let mut out: Vec<FsTreeNode<E>> = Vec::new();
    proof {
        assert(trees_of(out@) =~= Seq::empty());
        order::lemma_merge_start(a0, b0);
    }
    while a.len() > 0 || b.len() > 0
        invariant
            order::merging(a0, b0, trees_of(a@), trees_of(b@), trees_of(out@)),
        decreases a@.len() + b@.len(),
    {
        let ghost ta = trees_of(a@);
        let ghost tb = trees_of(b@);
        let ghost to = trees_of(out@);
        let from_b = if b.len() == 0 {
            false
        } else if a.len() == 0 {
            true
        } else {
            assert(ta.last() == tree_of(a@[a@.len() - 1]));
            assert(tb.last() == tree_of(b@[b@.len() - 1]));
            order::name_le(a[a.len() - 1].name().as_bytes(), b[b.len() - 1].name().as_bytes())
        };
        if from_b {
            proof {
                order::lemma_merge_second(a0, b0, ta, tb, to);
            }
            move_last(&mut b, &mut out);
        } else {
            proof {
                order::lemma_merge_first(a0, b0, ta, tb, to);
            }
            move_last(&mut a, &mut out);
        }
    }
    proof {
        order::lemma_merge_end(a0, b0, trees_of(a@), trees_of(b@), trees_of(out@));
    }
    reversed(out)
}

/// The nodes in the order of their names; those of one name keep their order.
fn sort_nodes<E>(nodes: Vec<FsTreeNode<E>>) -> (r: Vec<FsTreeNode<E>>)
    ensures
        trees_of(r@) == order::name_sorted(trees_of(nodes@)),
    decreases nodes@.len(),
{
    let ghost all = trees_of(nodes@);
    if nodes.len() <= 1 {
        proof {
            if all.len() == 1 {
                order::lemma_lex_total(all[0].name(), all[0].name());
            }
            order::law_name_sorted(all);
            order::lemma_sorted_unique(all, order::name_sorted(all));
        }
        return nodes;
    }
    let mut left = nodes;
    let mid: usize = left.len() / 2;
    let right = left.split_off(mid);
    proof {
        assert(all =~= trees_of(left@) + trees_of(right@));
        order::law_name_sorted(trees_of(left@));
        order::law_name_sorted(trees_of(right@));
    }
    let sorted_left = sort_nodes(left);
    let sorted_right = sort_nodes(right);
    let merged = merge(sorted_left, sorted_right);
    proof {
        assert forall|n: Seq<u8>| #[trigger] order::named(trees_of(merged@), n) == order::named(
            order::name_sorted(all),
            n,
        ) by {
            order::lemma_named_concat(trees_of(left@), trees_of(right@), n);
            order::law_name_sorted(all);
            assert(order::named(trees_of(sorted_left@), n) == order::named(trees_of(left@), n));
            assert(order::named(trees_of(sorted_right@), n) == order::named(trees_of(right@), n));
        }
        order::law_name_sorted(all);
        order::lemma_sorted_unique(trees_of(merged@), order::name_sorted(all));
    }
    merged
}

/// Sorts the nodes below each of `nodes`.
fn sort_each<E>(nodes: &mut Vec<FsTreeNode<E>>)
    ensures
        trees_of(final(nodes)@) == tree::each_sorted(trees_of(old(nodes)@)),
    decreases *old(nodes),
{
    let ghost before = nodes@;
    let mut i: usize = 0;
    while i < nodes.len()
        invariant
            i <= nodes@.len() == before.len(),
            before == old(nodes)@,
            forall|j: int| i <= j < nodes@.len() ==> nodes@[j] == before[j],
            forall|j: int|
                0 <= j < i ==> tree_of(#[trigger] nodes@[j]) == tree_of(before[j]).sorted(),
        decreases nodes@.len() - i,
    {
        assert(decreases_to!(*old(nodes) => old(nodes)@));
        assert(decreases_to!(old(nodes)@ => old(nodes)@[i as int]));
        let node = &mut nodes[i];
        node.recursive_sort();
        i += 1;
    }
    assert(trees_of(nodes@) =~= tree::each_sorted(trees_of(before)));
}

impl<E> FsTreeNode<E> {
    /// Puts the children of every directory in the order of their names.
    pub fn recursive_sort(&mut self)
        ensures
            final(self)@ == old(self)@.sorted(),
        decreases *old(self),
    {
        let ghost before = self@;
        match self {
            FsTreeNode::Dir { children, index_html_index, .. } => {
                assert(before->children =~= trees_of(children@));
                sort_each(children);
                let mut taken: Vec<FsTreeNode<E>> = Vec::new();
                std::mem::swap(&mut taken, children);
                *children = sort_nodes(taken);
                if index_html_index.is_some() {
                    let at = find_child(children.as_slice(), "index.html".as_bytes());
                    *index_html_index = if at < children.len() {
                        Some(at)
                    } else {
                        None
                    };
                }
            },
            FsTreeNode::File { .. } => {},
        }
        assert(self@ is Dir ==> self@->children =~= trees_of(self->children@));
    }
}

} // verus!
