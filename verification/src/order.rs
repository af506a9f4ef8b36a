//! The order of names, and lists sorted by it.
use vstd::prelude::*;

use crate::tree::Tree;

verus! {

/// Whether `a` comes before `b` or equals it, compared byte by byte from the front.
pub open spec fn lex_le(a: Seq<u8>, b: Seq<u8>) -> bool
    decreases a.len(),
{
    if a.len() == 0 {
        true
    } else if b.len() == 0 {
        false
    } else if a[0] != b[0] {
        a[0] < b[0]
    } else {
        lex_le(a.drop_first(), b.drop_first())
    }
}

pub(crate) proof fn lemma_lex_total(a: Seq<u8>, b: Seq<u8>)
    ensures
        lex_le(a, b) || lex_le(b, a),
        lex_le(a, b) && lex_le(b, a) ==> a == b,
    decreases a.len(),
{
    if a.len() > 0 && b.len() > 0 && a[0] == b[0] {
        lemma_lex_total(a.drop_first(), b.drop_first());
        if lex_le(a, b) && lex_le(b, a) {
            assert(a =~= seq![a[0]] + a.drop_first());
            assert(b =~= seq![b[0]] + b.drop_first());
        }
    } else if a.len() == 0 && b.len() == 0 {
        assert(a =~= b);
    }
}

pub(crate) proof fn lemma_lex_transitive(a: Seq<u8>, b: Seq<u8>, c: Seq<u8>)
    requires
        lex_le(a, b),
        lex_le(b, c),
    ensures
        lex_le(a, c),
    decreases a.len(),
{
    if a.len() > 0 && b.len() > 0 && c.len() > 0 && a[0] == b[0] && b[0] == c[0] {
        lemma_lex_transitive(a.drop_first(), b.drop_first(), c.drop_first());
    }
}

/// Whether the names stand in ascending order.
pub open spec fn in_name_order<E>(s: Seq<Tree<E>>) -> bool {
    forall|i: int, j: int|
        0 <= i <= j < s.len() ==> lex_le(#[trigger] s[i].name(), #[trigger] s[j].name())
}

/// The members of one name, in the order in which they stand.
pub open spec fn named<E>(s: Seq<Tree<E>>, name: Seq<u8>) -> Seq<Tree<E>>
    decreases s.len(),
{
    if s.len() == 0 {
        s
    } else if s.last().name() == name {
        named(s.drop_last(), name).push(s.last())
    } else {
        named(s.drop_last(), name)
    }
}

/// `s` with `x` put behind the last member whose name is not greater.
pub open spec fn insert_by_name<E>(s: Seq<Tree<E>>, x: Tree<E>) -> Seq<Tree<E>>
    decreases s.len(),
{
    if s.len() == 0 || lex_le(s.last().name(), x.name()) {
        s.push(x)
    } else {
        insert_by_name(s.drop_last(), x).push(s.last())
    }
}

/// The members in the order of their names; those of one name keep their order.
pub open spec fn name_sorted<E>(s: Seq<Tree<E>>) -> Seq<Tree<E>>
    decreases s.len(),
{
    if s.len() == 0 {
        s
    } else {
        insert_by_name(name_sorted(s.drop_last()), s.last())
    }
}

pub(crate) proof fn lemma_named_push<E>(s: Seq<Tree<E>>, x: Tree<E>, name: Seq<u8>)
    ensures
        named(s.push(x), name) == if x.name() == name {
            named(s, name).push(x)
        } else {
            named(s, name)
        },
{
    assert(s.push(x).drop_last() =~= s);
}

pub(crate) proof fn lemma_named_concat<E>(a: Seq<Tree<E>>, b: Seq<Tree<E>>, name: Seq<u8>)
    ensures
        named(a + b, name) == named(a, name) + named(b, name),
    decreases b.len(),
{
    if b.len() == 0 {
        assert(a + b =~= a);
        assert(named(a, name) + named(b, name) =~= named(a, name));
    } else {
        lemma_named_concat(a, b.drop_last(), name);
        assert((a + b).drop_last() =~= a + b.drop_last());
        assert((a + b).last() == b.last());
        if b.last().name() == name {
            assert(named(a, name) + named(b.drop_last(), name).push(b.last()) =~= (named(a, name)
                + named(b.drop_last(), name)).push(b.last()));
        }
    }
}

pub(crate) proof fn lemma_named_members<E>(s: Seq<Tree<E>>, name: Seq<u8>)
    ensures
        named(s, name).len() > 0 <==> exists|j: int|
            0 <= j < s.len() && #[trigger] s[j].name() == name,
    decreases s.len(),
{
    if s.len() > 0 {
        lemma_named_members(s.drop_last(), name);
        if s.last().name() == name {
            assert(s[s.len() - 1].name() == name);
        } else {
            assert forall|j: int| 0 <= j < s.len() - 1 implies s[j] == s.drop_last()[j] by {}
            if named(s, name).len() > 0 {
                let j = choose|j: int|
                    0 <= j < s.drop_last().len() && #[trigger] s.drop_last()[j].name() == name;
                assert(s[j].name() == name);
            }
            if exists|j: int| 0 <= j < s.len() && #[trigger] s[j].name() == name {
                let j = choose|j: int| 0 <= j < s.len() && #[trigger] s[j].name() == name;
                assert(s.drop_last()[j].name() == name);
            }
        }
    }
}

/// A list in name order is determined by its members of each name.
pub(crate) proof fn lemma_sorted_unique<E>(s: Seq<Tree<E>>, t: Seq<Tree<E>>)
    requires
        in_name_order(s),
        in_name_order(t),
        forall|n: Seq<u8>| #[trigger] named(s, n) == named(t, n),
    ensures
        s == t,
    decreases s.len(),
{
    if s.len() == 0 || t.len() == 0 {
        if t.len() > 0 {
            let n = t.last().name();
            assert(named(s, n) == named(t, n));
        }
        if s.len() > 0 {
            let n = s.last().name();
            assert(named(s, n) == named(t, n));
        }
        assert(s =~= t);
    } else {
        let x = s.last();
        let y = t.last();
        lemma_named_members(t, x.name());
        lemma_named_members(s, y.name());
        assert(named(s, x.name()) == named(t, x.name()));
        assert(named(s, y.name()) == named(t, y.name()));
        let j = choose|j: int| 0 <= j < t.len() && #[trigger] t[j].name() == x.name();
        assert(lex_le(t[j].name(), t[t.len() - 1].name()));
        let i = choose|i: int| 0 <= i < s.len() && #[trigger] s[i].name() == y.name();
        assert(lex_le(s[i].name(), s[s.len() - 1].name()));
        lemma_lex_total(x.name(), y.name());
        assert(named(s, x.name()).last() == x);
        assert(named(t, x.name()).last() == y);
        assert forall|n: Seq<u8>| #[trigger] named(s.drop_last(), n) == named(t.drop_last(), n) by {
            assert(named(s, n) == named(t, n));
            if n == x.name() {
                assert(named(s.drop_last(), n) =~= named(s, n).drop_last());
                assert(named(t.drop_last(), n) =~= named(t, n).drop_last());
            }
        }
        lemma_drop_last_ordered(s);
        lemma_drop_last_ordered(t);
        lemma_sorted_unique(s.drop_last(), t.drop_last());
        assert(s =~= s.drop_last().push(x));
        assert(t =~= t.drop_last().push(y));
    }
}

pub(crate) proof fn lemma_drop_last_ordered<E>(s: Seq<Tree<E>>)
    requires
        in_name_order(s),
        s.len() > 0,
    ensures
        in_name_order(s.drop_last()),
{
    let d = s.drop_last();
    assert forall|i: int, j: int| 0 <= i <= j < d.len() implies lex_le(
        #[trigger] d[i].name(),
        #[trigger] d[j].name(),
    ) by {
        assert(lex_le(s[i].name(), s[j].name()));
    }
}

pub(crate) proof fn lemma_push_ordered<E>(s: Seq<Tree<E>>, x: Tree<E>)
    requires
        in_name_order(s),
        s.len() > 0 ==> lex_le(s.last().name(), x.name()),
    ensures
        in_name_order(s.push(x)),
{
    let p = s.push(x);
    assert forall|i: int, j: int| 0 <= i <= j < p.len() implies lex_le(
        #[trigger] p[i].name(),
        #[trigger] p[j].name(),
    ) by {
        if j < s.len() {
            assert(lex_le(s[i].name(), s[j].name()));
        } else if i < s.len() {
            assert(lex_le(s[i].name(), s[s.len() - 1].name()));
            lemma_lex_transitive(s[i].name(), s.last().name(), x.name());
        } else {
            lemma_lex_total(x.name(), x.name());
        }
    }
}

pub(crate) proof fn lemma_insert_by_name<E>(s: Seq<Tree<E>>, x: Tree<E>)
    requires
        in_name_order(s),
    ensures
        in_name_order(insert_by_name(s, x)),
        insert_by_name(s, x).len() == s.len() + 1,
        insert_by_name(s, x).last().name() == if s.len() == 0 || lex_le(
            s.last().name(),
            x.name(),
        ) {
            x.name()
        } else {
            s.last().name()
        },
        forall|n: Seq<u8>| #[trigger]
            named(insert_by_name(s, x), n) == if x.name() == n {
                named(s, n).push(x)
            } else {
                named(s, n)
            },
    decreases s.len(),
{
    if s.len() == 0 || lex_le(s.last().name(), x.name()) {
        lemma_push_ordered(s, x);
        assert forall|n: Seq<u8>| #[trigger]
            named(insert_by_name(s, x), n) == if x.name() == n {
                named(s, n).push(x)
            } else {
                named(s, n)
            } by {
            lemma_named_push(s, x, n);
        }
    } else {
        let d = s.drop_last();
        let l = s.last();
        lemma_drop_last_ordered(s);
        lemma_insert_by_name(d, x);
        lemma_lex_total(l.name(), x.name());
        if d.len() > 0 {
            assert(lex_le(s[d.len() - 1].name(), s[d.len() as int].name()));
        }
        lemma_push_ordered(insert_by_name(d, x), l);
        assert forall|n: Seq<u8>| #[trigger]
            named(insert_by_name(s, x), n) == if x.name() == n {
                named(s, n).push(x)
            } else {
                named(s, n)
            } by {
            lemma_named_push(insert_by_name(d, x), l, n);
            assert(named(insert_by_name(d, x), n) == if x.name() == n {
                named(d, n).push(x)
            } else {
                named(d, n)
            });
        }
    }
}

/// Sorting puts the names in order and keeps the members of each name as they stood.
pub proof fn law_name_sorted<E>(s: Seq<Tree<E>>)
    ensures
        in_name_order(name_sorted(s)),
        name_sorted(s).len() == s.len(),
        forall|n: Seq<u8>| #[trigger] named(name_sorted(s), n) == named(s, n),
    decreases s.len(),
{
    if s.len() > 0 {
        let d = s.drop_last();
        law_name_sorted(d);
        lemma_insert_by_name(name_sorted(d), s.last());
        assert forall|n: Seq<u8>| #[trigger] named(name_sorted(s), n) == named(s, n) by {
            assert(named(name_sorted(d), n) == named(d, n));
            assert(named(insert_by_name(name_sorted(d), s.last()), n) == if s.last().name() == n {
                named(name_sorted(d), n).push(s.last())
            } else {
                named(name_sorted(d), n)
            });
        }
    }
}

/// Whether `a` comes before `b` or equals it, compared byte by byte from the front.
pub(crate) fn name_le(a: &[u8], b: &[u8]) -> (r: bool)
    ensures
        r == lex_le(a@, b@),
{
    let mut i: usize = 0;
    assert(a@.skip(0) =~= a@);
    assert(b@.skip(0) =~= b@);
    while i < a.len()
        invariant
            i <= a@.len(),
            i <= b@.len(),
            lex_le(a@, b@) == lex_le(a@.skip(i as int), b@.skip(i as int)),
        decreases a@.len() - i,
    {
        if i >= b.len() {
            return false;
        }
        if a[i] != b[i] {
            return a[i] < b[i];
        }
        assert(a@.skip(i as int).drop_first() =~= a@.skip(i + 1));
        assert(b@.skip(i as int).drop_first() =~= b@.skip(i + 1));
        i += 1;
    }
    true
}

/// Where the last of `a` has the greater name, none of `b` has that name.
pub(crate) proof fn lemma_none_named<E>(b: Seq<Tree<E>>, n: Seq<u8>)
    requires
        in_name_order(b),
        b.len() > 0 ==> !lex_le(n, b.last().name()),
    ensures
        named(b, n).len() == 0,
{
    lemma_named_members(b, n);
    if exists|j: int| 0 <= j < b.len() && #[trigger] b[j].name() == n {
        let j = choose|j: int| 0 <= j < b.len() && #[trigger] b[j].name() == n;
        assert(lex_le(b[j].name(), b[b.len() - 1].name()));
    }
}

/// The reverse of `s`, with `x` before it.
pub(crate) proof fn lemma_named_reverse_push<E>(s: Seq<Tree<E>>, x: Tree<E>, n: Seq<u8>)
    ensures
        named(s.push(x).reverse(), n) == if x.name() == n {
            seq![x] + named(s.reverse(), n)
        } else {
            named(s.reverse(), n)
        },
{
    assert(s.push(x).reverse() =~= seq![x] + s.reverse());
    lemma_named_concat(seq![x], s.reverse(), n);
    let e = Seq::<Tree<E>>::empty();
    assert(seq![x] =~= e.push(x));
    lemma_named_push(e, x, n);
    assert(e + named(s.reverse(), n) =~= named(s.reverse(), n));
}

/// Whether `out`, from the back, begins with names that those of `s` come before.
pub open spec fn all_before<E>(s: Seq<Tree<E>>, out: Seq<Tree<E>>) -> bool {
    s.len() > 0 && out.len() > 0 ==> lex_le(s.last().name(), out.last().name())
}

/// What is ordered from the back stays so with a name at the end that comes before the others.
pub(crate) proof fn lemma_front_ordered<E>(s: Seq<Tree<E>>, x: Tree<E>)
    requires
        in_name_order(s.reverse()),
        s.len() > 0 ==> lex_le(x.name(), s.last().name()),
    ensures
        in_name_order(s.push(x).reverse()),
{
    let r = s.reverse();
    let p = s.push(x).reverse();
    assert(p =~= seq![x] + r);
    assert forall|i: int, j: int| 0 <= i <= j < p.len() implies lex_le(
        #[trigger] p[i].name(),
        #[trigger] p[j].name(),
    ) by {
        if i > 0 {
            assert(lex_le(r[i - 1].name(), r[j - 1].name()));
        } else if j > 0 {
            assert(lex_le(r[0].name(), r[j - 1].name()));
            lemma_lex_transitive(x.name(), r[0].name(), r[j - 1].name());
        } else {
            lemma_lex_total(x.name(), x.name());
        }
    }
}

/// Whether two ordered lists are being merged from the back: `a` and `b` are left of them, and
/// `out`, read from the back, is ordered, comes behind what is left, and holds the rest, of each
/// name that of the first list before that of the second.
pub open spec fn merging<E>(
    a0: Seq<Tree<E>>,
    b0: Seq<Tree<E>>,
    a: Seq<Tree<E>>,
    b: Seq<Tree<E>>,
    out: Seq<Tree<E>>,
) -> bool {
    &&& in_name_order(a)
    &&& in_name_order(b)
    &&& in_name_order(out.reverse())
    &&& all_before(a, out)
    &&& all_before(b, out)
    &&& forall|n: Seq<u8>|
        named(a0, n) + named(b0, n) == #[trigger] named(a, n) + named(b, n) + named(
            out.reverse(),
            n,
        )
}

pub(crate) proof fn lemma_merge_start<E>(a: Seq<Tree<E>>, b: Seq<Tree<E>>)
    requires
        in_name_order(a),
        in_name_order(b),
    ensures
        merging(a, b, a, b, Seq::empty()),
{
    let none = Seq::<Tree<E>>::empty();
    assert(none.reverse() =~= none);
    assert forall|n: Seq<u8>| named(a, n) + named(b, n) == #[trigger] named(a, n) + named(b, n)
        + named(none.reverse(), n) by {
        assert(named(a, n) + named(b, n) + named(none, n) =~= named(a, n) + named(b, n));
    }
}

/// The last of the second list is taken, where that of the first does not come behind it.
pub(crate) proof fn lemma_merge_second<E>(
    a0: Seq<Tree<E>>,
    b0: Seq<Tree<E>>,
    a: Seq<Tree<E>>,
    b: Seq<Tree<E>>,
    out: Seq<Tree<E>>,
)
    requires
        merging(a0, b0, a, b, out),
        b.len() > 0,
        a.len() > 0 ==> lex_le(a.last().name(), b.last().name()),
    ensures
        merging(a0, b0, a, b.drop_last(), out.push(b.last())),
{
    let x = b.last();
    let d = b.drop_last();
    lemma_drop_last_ordered(b);
    lemma_front_ordered(out, x);
    if b.len() > 1 {
        assert(lex_le(b[b.len() - 2].name(), b[b.len() - 1].name()));
    }
    assert forall|n: Seq<u8>| named(a0, n) + named(b0, n) == #[trigger] named(a, n) + named(d, n)
        + named(out.push(x).reverse(), n) by {
        lemma_named_reverse_push(out, x, n);
        if x.name() == n {
            assert(named(a, n) + named(b, n) + named(out.reverse(), n) =~= named(a, n) + named(d, n)
                + (seq![x] + named(out.reverse(), n)));
        }
    }
}

/// The last of the first list is taken, where it comes behind that of the second.
pub(crate) proof fn lemma_merge_first<E>(
    a0: Seq<Tree<E>>,
    b0: Seq<Tree<E>>,
    a: Seq<Tree<E>>,
    b: Seq<Tree<E>>,
    out: Seq<Tree<E>>,
)
    requires
        merging(a0, b0, a, b, out),
        a.len() > 0,
        b.len() > 0 ==> !lex_le(a.last().name(), b.last().name()),
    ensures
        merging(a0, b0, a.drop_last(), b, out.push(a.last())),
{
    let x = a.last();
    let d = a.drop_last();
    lemma_drop_last_ordered(a);
    lemma_front_ordered(out, x);
    if a.len() > 1 {
        assert(lex_le(a[a.len() - 2].name(), a[a.len() - 1].name()));
    }
    if b.len() > 0 {
        lemma_lex_total(x.name(), b.last().name());
    }
    lemma_none_named(b, x.name());
    assert forall|n: Seq<u8>| named(a0, n) + named(b0, n) == #[trigger] named(d, n) + named(b, n)
        + named(out.push(x).reverse(), n) by {
        lemma_named_reverse_push(out, x, n);
        assert(named(a0, n) + named(b0, n) == named(a, n) + named(b, n) + named(out.reverse(), n));
        if x.name() == n {
            assert(named(a, n) + named(b, n) + named(out.reverse(), n) =~= named(d, n) + named(b, n)
                + (seq![x] + named(out.reverse(), n)));
        }
    }
}

/// Once nothing is left, the two lists are merged.
pub(crate) proof fn lemma_merge_end<E>(
    a0: Seq<Tree<E>>,
    b0: Seq<Tree<E>>,
    a: Seq<Tree<E>>,
    b: Seq<Tree<E>>,
    out: Seq<Tree<E>>,
)
    requires
        merging(a0, b0, a, b, out),
        a.len() == 0,
        b.len() == 0,
    ensures
        in_name_order(out.reverse()),
        forall|n: Seq<u8>| #[trigger]
            named(out.reverse(), n) == named(a0, n) + named(b0, n),
{
    assert forall|n: Seq<u8>| #[trigger] named(out.reverse(), n) == named(a0, n) + named(
        b0,
        n,
    ) by {
        assert(named(a, n) + named(b, n) + named(out.reverse(), n) =~= named(out.reverse(), n));
    }
}

} // verus!
