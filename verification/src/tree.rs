//! The model of a file tree: what a path leads to, what an insertion and a sort change.
use vstd::prelude::*;

use crate::bytes;
use crate::order;
use crate::path;

verus! {

/// A tree with its names as UTF-8 bytes.
#[allow(inconsistent_fields)]
pub enum Tree<E> {
    Dir {
        name: Seq<u8>,
        children: Seq<Tree<E>>,
        entry: Option<E>,
        is_root: bool,
        index_html_index: Option<usize>,
    },
    File { name: Seq<u8>, entry: E },
}

impl<E> Tree<E> {
    /// The name of a file or directory.
    pub open spec fn name(self) -> Seq<u8> {
        match self {
            Tree::Dir { name, .. } => name,
            Tree::File { name, .. } => name,
        }
    }

    /// The archive entry of a file or directory.
    pub open spec fn entry(self) -> Option<E> {
        match self {
            Tree::Dir { entry, .. } => entry,
            Tree::File { entry, .. } => Some(entry),
        }
    }

    /// A directory without contents and without an entry.
    pub open spec fn empty_dir(name: Seq<u8>, is_root: bool) -> Tree<E> {
        Tree::Dir {
            name,
            children: Seq::empty(),
            entry: None,
            is_root,
            index_html_index: None,
        }
    }

    /// The directory with another list of children.
    pub open spec fn with_children(self, new_children: Seq<Tree<E>>) -> Tree<E> {
        match self {
            Tree::Dir { name, children, entry, is_root, index_html_index } => Tree::Dir {
                name,
                children: new_children,
                entry,
                is_root,
                index_html_index,
            },
            Tree::File { .. } => self,
        }
    }

    /// The directory with another entry.
    pub open spec fn with_entry(self, e: E) -> Tree<E> {
        match self {
            Tree::Dir { name, children, entry, is_root, index_html_index } => Tree::Dir {
                name,
                children,
                entry: Some(e),
                is_root,
                index_html_index,
            },
            Tree::File { .. } => self,
        }
    }

    /// The directory with a file behind its other children.
    pub open spec fn with_file(self, file_name: Seq<u8>, e: E) -> Tree<E> {
        match self {
            Tree::Dir { name, children, entry, is_root, index_html_index } => Tree::Dir {
                name,
                children: children.push(Tree::File { name: file_name, entry: e }),
                entry,
                is_root,
                index_html_index: if file_name == bytes::text("index.html"@) {
                    Some(children.len() as usize)
                } else {
                    index_html_index
                },
            },
            Tree::File { .. } => self,
        }
    }

    /// What a path leads to.
    ///
    /// Slashes before a name are passed over. Of several children with one name the first
    /// counts, be it a file or a directory.
    pub open spec fn find(self, p: Seq<u8>) -> Option<Tree<E>>
        decreases p.len(),
    {
        proof {
            path::lemma_separator(p);
        }
        if p.len() == 0 || p == seq![0x2fu8] {
            Some(self)
        } else {
            let (head, tail) = path::split_path(p);
            if head.len() == 0 {
                self.find(tail)
            } else {
                match self {
                    Tree::Dir { children, .. } => {
                        let at = child_index(children, head);
                        if at < children.len() {
                            children[at].find(tail)
                        } else {
                            None
                        }
                    },
                    Tree::File { .. } => None,
                }
            }
        }
    }

    /// Whether every part of a path that a search comes to can be divided.
    pub open spec fn findable(self, p: Seq<u8>) -> bool
        decreases p.len(),
    {
        proof {
            path::lemma_separator(p);
        }
        if p.len() == 0 || p == seq![0x2fu8] {
            true
        } else {
            let (head, tail) = path::split_path(p);
            &&& path::divisible(p)
            &&& if head.len() == 0 {
                self.findable(tail)
            } else {
                match self {
                    Tree::Dir { children, .. } => {
                        let at = child_index(children, head);
                        at < children.len() ==> children[at].findable(tail)
                    },
                    Tree::File { .. } => true,
                }
            }
        }
    }

    /// The tree with an entry put at a path.
    ///
    /// Directories on the way are made where they are missing. A path that ends behind a
    /// divided-off name is that of a directory, whose entry is set; any other path is that of a
    /// file, which is added.
    pub open spec fn inserted(self, e: E, p: Seq<u8>) -> Tree<E>
        decreases p.len(),
    {
        proof {
            path::lemma_separator(p);
        }
        match self {
            Tree::Dir { children, .. } => match path::separator(p) {
                Some(sep) => {
                    let (head, tail) = path::split_path(p);
                    let kids = with_dir(children, head);
                    let at = dir_index(kids, head);
                    let child = if sep + 1 < p.len() {
                        kids[at].inserted(e, tail)
                    } else {
                        kids[at].with_entry(e)
                    };
                    self.with_children(kids.update(at, child))
                },
                None => self.with_file(p, e),
            },
            Tree::File { .. } => self,
        }
    }
}

/// Index of the first directory of a name, or the number of children where there is none.
pub open spec fn dir_index<E>(children: Seq<Tree<E>>, name: Seq<u8>) -> int
    decreases children.len(),
{
    if children.len() == 0 || (children[0] is Dir && children[0].name() == name) {
        0
    } else {
        1 + dir_index(children.drop_first(), name)
    }
}

/// Index of the first child of a name, or the number of children where there is none.
pub open spec fn child_index<E>(children: Seq<Tree<E>>, name: Seq<u8>) -> int
    decreases children.len(),
{
    if children.len() == 0 || children[0].name() == name {
        0
    } else {
        1 + child_index(children.drop_first(), name)
    }
}

/// The children, with an empty directory of that name behind them where there was none.
pub open spec fn with_dir<E>(children: Seq<Tree<E>>, name: Seq<u8>) -> Seq<Tree<E>> {
    if dir_index(children, name) < children.len() {
        children
    } else {
        children.push(Tree::empty_dir(name, false))
    }
}

/// A directory index is determined by being the first.
pub(crate) proof fn lemma_dir_index<E>(children: Seq<Tree<E>>, name: Seq<u8>)
    ensures
        0 <= dir_index(children, name) <= children.len(),
        forall|j: int|
            0 <= j < dir_index(children, name) ==> !(#[trigger] children[j] is Dir
                && children[j].name() == name),
        dir_index(children, name) < children.len() ==> {
            &&& children[dir_index(children, name)] is Dir
            &&& children[dir_index(children, name)].name() == name
        },
    decreases children.len(),
{
    if children.len() > 0 && !(children[0] is Dir && children[0].name() == name) {
        let rest = children.drop_first();
        lemma_dir_index(rest, name);
        assert forall|j: int| 0 < j < children.len() implies children[j] == rest[j - 1] by {}
    }
}

pub(crate) proof fn lemma_dir_index_is<E>(children: Seq<Tree<E>>, name: Seq<u8>, i: int)
    requires
        0 <= i <= children.len(),
        forall|j: int|
            0 <= j < i ==> !(#[trigger] children[j] is Dir && children[j].name() == name),
        i < children.len() ==> children[i] is Dir && children[i].name() == name,
    ensures
        dir_index(children, name) == i,
{
    lemma_dir_index(children, name);
    let d = dir_index(children, name);
    if d < i {
        assert(children[d] is Dir && children[d].name() == name);
    } else if i < d {
        assert(!(children[i] is Dir && children[i].name() == name));
    }
}

/// A child index is determined by being the first.
pub(crate) proof fn lemma_child_index<E>(children: Seq<Tree<E>>, name: Seq<u8>)
    ensures
        0 <= child_index(children, name) <= children.len(),
        forall|j: int|
            0 <= j < child_index(children, name) ==> #[trigger] children[j].name() != name,
        child_index(children, name) < children.len() ==> children[child_index(
            children,
            name,
        )].name() == name,
    decreases children.len(),
{
    if children.len() > 0 && children[0].name() != name {
        let rest = children.drop_first();
        lemma_child_index(rest, name);
        assert forall|j: int| 0 < j < children.len() implies children[j] == rest[j - 1] by {}
    }
}

pub(crate) proof fn lemma_child_index_is<E>(children: Seq<Tree<E>>, name: Seq<u8>, i: int)
    requires
        0 <= i <= children.len(),
        forall|j: int| 0 <= j < i ==> #[trigger] children[j].name() != name,
        i < children.len() ==> children[i].name() == name,
    ensures
        child_index(children, name) == i,
{
    lemma_child_index(children, name);
    let d = child_index(children, name);
    if d < i {
        assert(children[d].name() == name);
    } else if i < d {
        assert(children[i].name() != name);
    }
}

/// Index of the first child named `index.html`.
pub open spec fn index_position<E>(children: Seq<Tree<E>>) -> Option<usize> {
    let at = child_index(children, bytes::text("index.html"@));
    if at < children.len() {
        Some(at as usize)
    } else {
        None
    }
}

impl<E> Tree<E> {
    /// The tree with the children of every directory in the order of their names.
    pub open spec fn sorted(self) -> Tree<E>
        decreases self,
    {
        match self {
            Tree::Dir { name, children, entry, is_root, index_html_index } => {
                let kids = order::name_sorted(each_sorted(children));
                Tree::Dir {
                    name,
                    children: kids,
                    entry,
                    is_root,
                    index_html_index: if index_html_index is Some {
                        index_position(kids)
                    } else {
                        None
                    },
                }
            },
            Tree::File { .. } => self,
        }
    }
}

/// Each tree sorted.
pub open spec fn each_sorted<E>(trees: Seq<Tree<E>>) -> Seq<Tree<E>>
    decreases trees,
{
    Seq::new(
        trees.len(),
        |i: int|
            if 0 <= i < trees.len() {
                trees[i].sorted()
            } else {
                arbitrary()
            },
    )
}

} // verus!
