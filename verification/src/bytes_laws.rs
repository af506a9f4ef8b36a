//! What the functions on byte strings do, byte by byte.
use vstd::prelude::*;

use crate::bytes;
use crate::client_laws;
use crate::encoding;
use crate::request;
use crate::request_laws;

verus! {

/// Two byte strings are equal exactly where they have the same bytes.
pub proof fn law_equal(a: &[u8], b: &[u8], r: bool)
    requires
        call_ensures(bytes::equal, (a, b), r),
    ensures
        r <==> a@.len() == b@.len() && forall|i: int|
            0 <= i < a@.len() ==> #[trigger] a@[i] == b@[i],
{
    if a@.len() == b@.len() && forall|i: int| 0 <= i < a@.len() ==> #[trigger] a@[i] == b@[i] {
        assert(a@ =~= b@);
    }
}

/// A byte string holds another exactly where that stands in it.
pub proof fn law_contains(haystack: &[u8], needle: &[u8], r: bool)
    requires
        call_ensures(bytes::contains, (haystack, needle), r),
    ensures
        r <==> request_laws::stands_in(needle@, haystack@),
{
    request_laws::lemma_stands(needle@, haystack@);
}

/// What is copied stands in the buffer where it is copied to, and the rest is as it was.
pub proof fn law_copied(buf: &mut Vec<u8>, at: usize, new: &[u8])
    requires
        call_ensures(bytes::copy_into, (buf, at, new), ()),
        at + new@.len() <= old(buf)@.len(),
    ensures
        final(buf)@.len() == old(buf)@.len(),
        forall|i: int|
            0 <= i < old(buf)@.len() ==> #[trigger] final(buf)@[i] == if at <= i < at + new@.len() {
                new@[i - at]
            } else {
                old(buf)@[i]
            },
{
}

/// What is appended stands behind what was there.
pub proof fn law_appended(out: &mut Vec<u8>, new: &[u8])
    requires
        call_ensures(bytes::append, (out, new), ()),
    ensures
        final(out)@.len() == old(out)@.len() + new@.len(),
        final(out)@.take(old(out)@.len() as int) == old(out)@,
        final(out)@.skip(old(out)@.len() as int) == new@,
{
    assert(final(out)@.take(old(out)@.len() as int) =~= old(out)@);
    assert(final(out)@.skip(old(out)@.len() as int) =~= new@);
}

/// The bytes of a number stand for it, the least significant first.
pub proof fn law_le_bytes(n: u32, b: [u8; 4])
    requires
        call_ensures(encoding::to_le_bytes, (n,), b),
    ensures
        client_laws::le_number(b@) == n,
{
    client_laws::lemma_le_number(n);
}

/// The number that bytes stand for, the most significant first, is that of the bytes in the other
/// order, the least significant first.
pub proof fn law_be_bytes(b: [u8; 4], n: u32)
    requires
        call_ensures(request::from_be_bytes, (b,), n),
    ensures
        client_laws::le_number(b@.reverse()) == n,
{
}

} // verus!
