//! Comparing, searching and copying byte strings.
use vstd::prelude::*;

verus! {

/// The UTF-8 bytes of a text.
pub open spec fn text(s: Seq<char>) -> Seq<u8> {
    vstd::utf8::encode_utf8(s)
}

/// `b`, with an ASCII capital letter replaced by its small letter.
pub open spec fn lower_case(b: u8) -> u8 {
    if 65 <= b <= 90 {
        (b + 32) as u8
    } else {
        b
    }
}

/// Whether two byte strings differ in the case of ASCII letters at most.
pub open spec fn same_ignoring_case(a: Seq<u8>, b: Seq<u8>) -> bool {
    &&& a.len() == b.len()
    &&& forall|i: int| 0 <= i < a.len() ==> lower_case(#[trigger] a[i]) == lower_case(b[i])
}

/// Whether `needle` stands somewhere in `haystack`.
pub open spec fn occurs_in(needle: Seq<u8>, haystack: Seq<u8>) -> bool {
    exists|i: int| #[trigger] occurs_at(needle, haystack, i)
}

/// Whether `needle` stands in `haystack`, starting at index `i`.
pub open spec fn occurs_at(needle: Seq<u8>, haystack: Seq<u8>, i: int) -> bool {
    &&& 0 <= i
    &&& i + needle.len() <= haystack.len()
    &&& haystack.subrange(i, i + needle.len()) == needle
}

/// `s`, with the bytes from index `at` on replaced by `new`.
pub open spec fn overwrite(s: Seq<u8>, at: int, new: Seq<u8>) -> Seq<u8>
    recommends
        0 <= at,
        at + new.len() <= s.len(),
{
    s.subrange(0, at) + new + s.subrange(at + new.len(), s.len() as int)
}

/// Index of the first occurrence of `needle` in `haystack`.
pub fn position(haystack: &[u8], needle: u8) -> (r: Option<usize>)
    ensures
        match r {
            Some(i) => i < haystack@.len() && haystack@[i as int] == needle && forall|j: int|
                0 <= j < i ==> haystack@[j] != needle,
            None => !haystack@.contains(needle),
        },
{
    let mut idx: usize = 0;
    while idx < haystack.len()
        invariant
            idx <= haystack@.len(),
            forall|j: int| 0 <= j < idx ==> haystack@[j] != needle,
        decreases haystack@.len() - idx,
    {
        if haystack[idx] == needle {
            return Some(idx);
        }
        idx += 1;
    }
    None
}

/// Whether two byte strings are equal.
pub fn equal(a: &[u8], b: &[u8]) -> (r: bool)
    ensures
        r == (a@ == b@),
{
    if a.len() != b.len() {
        return false;
    }
    let mut i: usize = 0;
    while i < a.len()
        invariant
            i <= a@.len() == b@.len(),
            forall|j: int| 0 <= j < i ==> a@[j] == b@[j],
        decreases a@.len() - i,
    {
        if a[i] != b[i] {
            return false;
        }
        i += 1;
    }
    assert(a@ =~= b@);
    true
}

fn to_lower(b: u8) -> (r: u8)
    ensures
        r == lower_case(b),
{
    if 65 <= b && b <= 90 {
        b + 32
    } else {
        b
    }
}

/// Whether two byte strings differ in the case of ASCII letters at most.
pub fn eq_ignore_ascii_case(a: &[u8], b: &[u8]) -> (r: bool)
    ensures
        r == same_ignoring_case(a@, b@),
{
    if a.len() != b.len() {
        return false;
    }
    let mut i: usize = 0;
    while i < a.len()
        invariant
            i <= a@.len() == b@.len(),
            forall|j: int| 0 <= j < i ==> lower_case(#[trigger] a@[j]) == lower_case(b@[j]),
        decreases a@.len() - i,
    {
        if to_lower(a[i]) != to_lower(b[i]) {
            return false;
        }
        i += 1;
    }
    true
}

/// Whether `needle` stands somewhere in `haystack`.
pub fn contains(haystack: &[u8], needle: &[u8]) -> (r: bool)
    ensures
        r == occurs_in(needle@, haystack@),
{
    if needle.len() > haystack.len() {
        return false;
    }
    let last: usize = haystack.len() - needle.len();
    let n: usize = needle.len();
    let mut i: usize = 0;
    while i <= last
        invariant
            n == needle@.len(),
            last + n == haystack@.len(),
            i <= last + 1,
            haystack@.len() <= usize::MAX,
            forall|j: int| 0 <= j < i ==> !occurs_at(needle@, haystack@, j),
        decreases last + 1 - i,
    {
        if equal(&haystack[i..i + n], needle) {
            assert(occurs_at(needle@, haystack@, i as int));
            return true;
        }
        if i == last {
            assert forall|j: int| !occurs_at(needle@, haystack@, j) by {}
            return false;
        }
        i += 1;
    }
    false
}

/// Puts `new` into `buf`, from index `at` on.
pub fn copy_into(buf: &mut Vec<u8>, at: usize, new: &[u8])
    requires
        at + new@.len() <= old(buf)@.len(),
    ensures
        final(buf)@ == overwrite(old(buf)@, at as int, new@),
{
    let mut i: usize = 0;
    let ghost before = buf@;
    assert(buf@.len() == buf.len());
    while i < new.len()
        invariant
            i <= new@.len(),
            at + new@.len() <= before.len() == buf@.len() <= usize::MAX,
            forall|j: int| 0 <= j < before.len() ==> #[trigger] buf@[j] == (if at <= j < at + i {
                new@[j - at]
            } else {
                before[j]
            }),
        decreases new@.len() - i,
    {
        buf[at + i] = new[i];
        i += 1;
    }
    assert(buf@ =~= overwrite(before, at as int, new@));
}

/// Appends `new` to `out`.
pub fn append(out: &mut Vec<u8>, new: &[u8])
    ensures
        final(out)@ == old(out)@ + new@,
{
    let mut i: usize = 0;
    let ghost before = out@;
    while i < new.len()
        invariant
            i <= new@.len(),
            out@ == before + new@.subrange(0, i as int),
        decreases new@.len() - i,
    {
        out.push(new[i]);
        assert(new@.subrange(0, i + 1) =~= new@.subrange(0, i as int).push(new@[i as int]));
        i += 1;
    }
    assert(new@.subrange(0, new@.len() as int) =~= new@);
}

} // verus!
