//! Paths, and where they are divided into names.
use vstd::prelude::*;

use crate::bytes;

verus! {

/// Index of the first slash of a path.
pub open spec fn first_slash(p: Seq<u8>) -> Option<int>
    decreases p.len(),
{
    if p.len() == 0 {
        None
    } else if p[0] == 0x2f {
        Some(0)
    } else {
        match first_slash(p.drop_first()) {
            Some(k) => Some(k + 1),
            None => None,
        }
    }
}

/// How many characters begin within the first `k` bytes of a UTF-8 string.
pub open spec fn chars_within(p: Seq<u8>, k: int) -> int
    decreases k,
{
    if k <= 0 {
        0
    } else if vstd::utf8::is_continuation_byte(p[k - 1]) {
        chars_within(p, k - 1)
    } else {
        chars_within(p, k - 1) + 1
    }
}

/// Where a path is divided: the number of characters before its first slash.
///
/// The number is taken as a byte offset, so a path is divided at the slash itself only where
/// the characters before it are ASCII.
pub open spec fn separator(p: Seq<u8>) -> Option<int> {
    match first_slash(p) {
        Some(k) => Some(chars_within(p, k)),
        None => None,
    }
}

/// A first slash is one, and none stands before it; no more characters than bytes do.
pub proof fn lemma_separator(p: Seq<u8>)
    ensures
        match first_slash(p) {
            Some(k) => {
                &&& 0 <= k < p.len()
                &&& p[k] == 0x2f
                &&& forall|j: int| 0 <= j < k ==> p[j] != 0x2f
                &&& 0 <= chars_within(p, k) <= k
            },
            None => forall|j: int| 0 <= j < p.len() ==> p[j] != 0x2f,
        },
    decreases p.len(),
{
    if p.len() > 0 && p[0] != 0x2f {
        let rest = p.drop_first();
        lemma_separator(rest);
        assert forall|j: int| 0 < j < p.len() implies p[j] == rest[j - 1] by {}
    }
    if let Some(k) = first_slash(p) {
        lemma_chars_within(p, k);
    }
}

pub(crate) proof fn lemma_chars_within(p: Seq<u8>, k: int)
    ensures
        0 <= chars_within(p, k),
        0 <= k ==> chars_within(p, k) <= k,
    decreases k,
{
    if k > 0 {
        lemma_chars_within(p, k - 1);
    }
}

/// Whether a UTF-8 string can be cut at a byte offset.
pub open spec fn boundary(p: Seq<u8>, n: int) -> bool {
    0 <= n <= p.len() && (n < p.len() ==> !vstd::utf8::is_continuation_byte(p[n]))
}

/// The first name of a path and what follows it; the byte between them is left out.
pub open spec fn split_path(p: Seq<u8>) -> (Seq<u8>, Seq<u8>) {
    match separator(p) {
        Some(sep) => (p.subrange(0, sep), p.subrange(sep + 1, p.len() as int)),
        None => (p, Seq::empty()),
    }
}

/// Whether a path can be divided: neither end of the byte left out lies within a character.
pub open spec fn divisible(p: Seq<u8>) -> bool {
    match separator(p) {
        Some(sep) => boundary(p, sep) && boundary(p, sep + 1),
        None => true,
    }
}

/// Whether every part of a path that an insertion comes to can be divided.
pub open spec fn insertable(p: Seq<u8>) -> bool
    decreases p.len(),
{
    proof {
        lemma_separator(p);
    }
    &&& divisible(p)
    &&& match separator(p) {
        Some(sep) => sep + 1 < p.len() ==> insertable(split_path(p).1),
        None => true,
    }
}

/// The number of characters before the first slash of a path.
pub(crate) fn find_separator(path: &str) -> (r: Option<usize>)
    ensures
        match r {
            Some(sep) => separator(bytes::text(path@)) == Some(sep as int) && sep < usize::MAX,
            None => separator(bytes::text(path@)) is None,
        },
{
    let b = path.as_bytes();
    let mut i: usize = 0;
    let mut count: usize = 0;
    proof {
        lemma_separator(b@);
    }
    while i < b.len()
        invariant
            i <= b@.len(),
            b@ == bytes::text(path@),
            forall|j: int| 0 <= j < i ==> b@[j] != 0x2f,
            count == chars_within(b@, i as int),
            count <= i,
        decreases b@.len() - i,
    {
        if b[i] == 0x2f {
            proof {
                lemma_separator(b@);
                let k = first_slash(b@)->0;
                assert(k == i);
            }
            return Some(count);
        }
        if b[i] < 0x80 || b[i] >= 0xc0 {
            count += 1;
        }
        i += 1;
    }
    None
}

pub(crate) proof fn lemma_boundary(s: &str, n: int)
    requires
        boundary(bytes::text(s@), n),
    ensures
        vstd::utf8::is_char_boundary(bytes::text(s@), n),
{
    let b = bytes::text(s@);
    vstd::utf8::encode_utf8_valid_utf8(s@);
    if n < b.len() {
        vstd::utf8::is_char_boundary_iff_not_is_continuation_byte(b, n);
    } else {
        vstd::utf8::is_char_boundary_start_end_of_seq(b);
    }
}

/// The first name of a path and what follows it.
pub(crate) fn divide(path: &str) -> (r: (&str, &str))
    requires
        divisible(bytes::text(path@)),
    ensures
        bytes::text(r.0@) == split_path(bytes::text(path@)).0,
        bytes::text(r.1@) == split_path(bytes::text(path@)).1,
{
    let ghost p = bytes::text(path@);
    proof {
        lemma_separator(p);
    }
    match find_separator(path) {
        Some(sep) => {
            proof {
                lemma_boundary(path, sep as int);
                lemma_boundary(path, sep + 1);
            }
            let (head, _) = path.split_at(sep);
            let (_, tail) = path.split_at(sep + 1);
            (head, tail)
        },
        None => {
            proof {
                reveal_strlit("");
                assert(""@ =~= Seq::<char>::empty());
            }
            (path, "")
        },
    }
}

/// Whether a path can be divided.
pub(crate) fn can_divide(path: &str) -> (r: bool)
    ensures
        r == divisible(bytes::text(path@)),
{
    proof {
        lemma_separator(bytes::text(path@));
        vstd::utf8::encode_utf8_valid_utf8(path@);
    }
    match find_separator(path) {
        Some(sep) => {
            let b = path.as_bytes();
            let at_start = b[sep] < 0x80 || b[sep] >= 0xc0;
            let at_end = sep + 1 == b.len() || b[sep + 1] < 0x80 || b[sep + 1] >= 0xc0;
            at_start && at_end
        },
        None => true,
    }
}

/// Whether an insertion at a path is defined.
pub fn can_insert(path: &str) -> (r: bool)
    ensures
        r == insertable(bytes::text(path@)),
    decreases bytes::text(path@).len(),
{
    proof {
        lemma_separator(bytes::text(path@));
    }
    if !can_divide(path) {
        return false;
    }
    match find_separator(path) {
        Some(sep) => {
            if sep + 1 < path.as_bytes().len() {
                let (_, tail) = divide(path);
                can_insert(tail)
            } else {
                true
            }
        },
        None => true,
    }
}

/// A slash before which there is none is the first.
pub(crate) proof fn lemma_first_slash_is(p: Seq<u8>, k: int)
    requires
        0 <= k < p.len(),
        p[k] == 0x2f,
        forall|j: int| 0 <= j < k ==> p[j] != 0x2f,
    ensures
        first_slash(p) == Some(k),
{
    lemma_separator(p);
    if let Some(d) = first_slash(p) {
        if d < k {
            assert(p[d] != 0x2f);
        } else if k < d {
            assert(p[k] != 0x2f);
        }
    }
}

/// Characters are counted by what stands before the end of the count.
pub(crate) proof fn lemma_chars_within_prefix(p: Seq<u8>, q: Seq<u8>, k: int)
    requires
        0 <= k <= p.len(),
        k <= q.len(),
        forall|j: int| 0 <= j < k ==> p[j] == q[j],
    ensures
        chars_within(p, k) == chars_within(q, k),
    decreases k,
{
    if k > 0 {
        lemma_chars_within_prefix(p, q, k - 1);
    }
}

/// Whether what follows the last division of a path has one byte for each character.
pub open spec fn last_part_plain(p: Seq<u8>) -> bool
    decreases p.len(),
{
    proof {
        lemma_separator(p);
    }
    match separator(p) {
        Some(_) => last_part_plain(split_path(p).1),
        None => chars_within(p, p.len() as int) == p.len(),
    }
}

/// Index of the first slash among some characters.
pub open spec fn slash_position(chars: Seq<char>) -> Option<int>
    decreases chars.len(),
{
    if chars.len() == 0 {
        None
    } else if chars[0] == '/' {
        Some(0)
    } else {
        match slash_position(chars.drop_first()) {
            Some(k) => Some(k + 1),
            None => None,
        }
    }
}

/// The first character of a text has no byte of a slash in its written form unless it is one;
/// and of its bytes only the first begins a character.
proof fn lemma_first_char(chars: Seq<char>)
    requires
        chars.len() > 0,
    ensures
        ({
            let b = bytes::text(chars);
            let first = vstd::utf8::encode_scalar(chars[0] as u32);
            &&& b == first + bytes::text(chars.drop_first())
            &&& 1 <= first.len() <= 4
            &&& !vstd::utf8::is_continuation_byte(first[0])
            &&& forall|i: int|
                1 <= i < first.len() ==> vstd::utf8::is_continuation_byte(#[trigger] first[i])
            &&& first[0] == 0x2f <==> chars[0] == '/'
            &&& chars[0] == '/' ==> first.len() == 1
        }),
{
    let b = bytes::text(chars);
    let c = chars[0] as u32;
    let first = vstd::utf8::encode_scalar(c);
    let rest = bytes::text(chars.drop_first());
    assert(b == first + rest);
    vstd::utf8::encode_utf8_first_scalar(chars);
    assert(first.len() == vstd::utf8::length_of_first_scalar(b));
    assert forall|i: int| 0 <= i < first.len() implies b[i] == first[i] by {}
    assert(first[0] == b[0]);
    assert forall|i: int| 1 <= i < first.len() implies vstd::utf8::is_continuation_byte(
        #[trigger] first[i],
    ) by {
        assert(i == 1 || i == 2 || i == 3);
    }
    vstd::utf8::char_u32_cast(chars[0], c);
    if c <= 0x7f {
        assert((c & 0x7f) as u8 == c) by (bit_vector)
            requires
                c <= 0x7f,
        ;
        assert(first[0] == c);
    } else {
        assert(first.len() > 1);
        assert(chars[0] != '/');
    }
}

proof fn lemma_chars_within_front(first: Seq<u8>, rest: Seq<u8>, k: int)
    requires
        first.len() > 0,
        !vstd::utf8::is_continuation_byte(first[0]),
        forall|i: int|
            1 <= i < first.len() ==> vstd::utf8::is_continuation_byte(#[trigger] first[i]),
        0 <= k <= rest.len(),
    ensures
        chars_within(first + rest, first.len() + k) == 1 + chars_within(rest, k),
    decreases k,
{
    if k > 0 {
        lemma_chars_within_front(first, rest, k - 1);
        assert((first + rest)[first.len() + k - 1] == rest[k - 1]);
    } else {
        lemma_one_char(first, rest, first.len() as int);
    }
}

proof fn lemma_one_char(first: Seq<u8>, rest: Seq<u8>, n: int)
    requires
        1 <= n <= first.len(),
        !vstd::utf8::is_continuation_byte(first[0]),
        forall|i: int|
            1 <= i < first.len() ==> vstd::utf8::is_continuation_byte(#[trigger] first[i]),
    ensures
        chars_within(first + rest, n) == 1,
    decreases n,
{
    assert((first + rest)[n - 1] == first[n - 1]);
    if n > 1 {
        lemma_one_char(first, rest, n - 1);
    } else {
        assert(chars_within(first + rest, 0) == 0);
    }
}

/// A path is divided at the number of characters before its first slash.
pub proof fn law_separator_counts_chars(chars: Seq<char>)
    ensures
        separator(bytes::text(chars)) == slash_position(chars),
    decreases chars.len(),
{
    if chars.len() > 0 {
        let b = bytes::text(chars);
        let first = vstd::utf8::encode_scalar(chars[0] as u32);
        let rest = bytes::text(chars.drop_first());
        lemma_first_char(chars);
        if chars[0] == '/' {
            lemma_first_slash_is(b, 0);
        } else {
            law_separator_counts_chars(chars.drop_first());
            lemma_separator(rest);
            lemma_separator(b);
            let n = first.len() as int;
            assert forall|j: int| 0 <= j < n implies b[j] != 0x2f by {
                assert(b[j] == first[j]);
            }
            assert forall|j: int| n <= j < b.len() implies b[j] == rest[j - n] by {}
            match first_slash(rest) {
                Some(k) => {
                    lemma_first_slash_is(b, n + k);
                    lemma_chars_within_front(first, rest, k);
                },
                None => {},
            }
        }
    }
}

} // verus!
