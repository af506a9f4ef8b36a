//! In which order the children of a directory stand.
use vstd::prelude::*;

use crate::archive;
use crate::entry::Entry;
use crate::order;
use crate::page_laws;
use crate::path;
use crate::tree;
use crate::tree::Tree;
use crate::tree_laws;

verus! {

/// Whether one name comes before another or is the same: where they first differ it has the
/// smaller byte, or it is the beginning of the other.
pub open spec fn precedes(a: Seq<u8>, b: Seq<u8>) -> bool {
    exists|k: int| #[trigger] precedes_at(a, b, k)
}

/// Whether two names agree up to an index, and the first ends there or has the smaller byte.
pub open spec fn precedes_at(a: Seq<u8>, b: Seq<u8>, k: int) -> bool {
    &&& 0 <= k <= a.len()
    &&& k <= b.len()
    &&& forall|i: int| 0 <= i < k ==> #[trigger] a[i] == b[i]
    &&& k == a.len() || (k < b.len() && a[k] < b[k])
}

/// The order of names is that of their bytes.
pub proof fn law_order_of_names(a: Seq<u8>, b: Seq<u8>)
    ensures
        order::lex_le(a, b) <==> precedes(a, b),
    decreases a.len(),
{
    if a.len() == 0 {
        assert(precedes_at(a, b, 0));
    } else if b.len() == 0 {
        if precedes(a, b) {
            let k = choose|k: int| #[trigger] precedes_at(a, b, k);
            assert(k == 0);
        }
    } else if a[0] != b[0] {
        if a[0] < b[0] {
            assert(precedes_at(a, b, 0));
        }
        if precedes(a, b) {
            let k = choose|k: int| #[trigger] precedes_at(a, b, k);
            if k > 0 {
                assert(a[0] == b[0]);
            }
        }
    } else {
        let c = a.drop_first();
        let d = b.drop_first();
        law_order_of_names(c, d);
        if precedes(c, d) {
            let k = choose|k: int| #[trigger] precedes_at(c, d, k);
            assert forall|i: int| 0 <= i < k + 1 implies #[trigger] a[i] == b[i] by {
                if i > 0 {
                    assert(c[i - 1] == d[i - 1]);
                }
            }
            if k < c.len() {
                assert(a[k + 1] == c[k] && b[k + 1] == d[k]);
            }
            assert(precedes_at(a, b, k + 1));
        }
        if precedes(a, b) {
            let k = choose|k: int| #[trigger] precedes_at(a, b, k);
            assert(k > 0);
            assert forall|i: int| 0 <= i < k - 1 implies #[trigger] c[i] == d[i] by {
                assert(a[i + 1] == b[i + 1]);
            }
            if k < a.len() {
                assert(a[k] == c[k - 1] && b[k] == d[k - 1]);
            }
            assert(precedes_at(c, d, k - 1));
        }
    }
}

proof fn lemma_found_in_order<E>(t: Tree<E>, p: Seq<u8>)
    requires
        t.in_order(),
        t.find(p) is Some,
    ensures
        t.find(p)->0.in_order(),
    decreases p.len(),
{
    path::lemma_separator(p);
    if p.len() == 0 || p == seq![0x2fu8] {
    } else {
        let (head, tail) = path::split_path(p);
        if head.len() == 0 {
            lemma_found_in_order(t, tail);
        } else if let Tree::Dir { children, .. } = t {
            let at = tree::child_index(children, head);
            tree::lemma_child_index(children, head);
            assert(children[at].in_order());
            lemma_found_in_order(children[at], tail);
        }
    }
}

/// The children of a directory of an archive stand in the order of their names, byte by byte.
pub proof fn law_children_in_order(entries: Seq<Entry>, p: Seq<u8>, i: int, j: int)
    requires
        archive::archive_tree(entries).find(p) matches Some(dir) && dir is Dir && 0 <= i <= j
            < dir->children.len(),
    ensures
        ({
            let children = archive::archive_tree(entries).find(p)->0->children;
            precedes(page_laws::name_of(children[i]), page_laws::name_of(children[j]))
        }),
{
    let t = archive::with_entries(archive::empty_root(), entries);
    tree_laws::law_sorted_in_order(t);
    lemma_found_in_order(t.sorted(), p);
    let children = t.sorted().find(p)->0->children;
    assert(order::in_name_order(children));
    assert(order::lex_le(children[i].name(), children[j].name()));
    law_order_of_names(children[i].name(), children[j].name());
}

} // verus!
