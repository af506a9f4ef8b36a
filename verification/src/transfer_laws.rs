//! What the steps of a transfer send, and what they leave to be done.
use vstd::prelude::*;

use crate::stream::ResponseStream;
use crate::transfer::{CompressedTransfer, Decoded, DecompressedTransfer, ReadAt};
use crate::zip;

verus! {

/// Once the local header has been read, a transfer goes on at the data behind it, and nothing else
/// about it changes; where the header is not whole, nothing changes at all.
pub proof fn law_located(t: &mut CompressedTransfer, stream: &ResponseStream, whole: bool)
    requires
        call_ensures(CompressedTransfer::located, (t, stream), whole),
        zip::data_offset(old(t).offset, stream.buf@) matches Some(offset) ==> offset <= u64::MAX,
    ensures
        whole <==> zip::local_header(stream.buf@) is Some,
        whole ==> {
            let (name_len, extra_len) = zip::local_header(stream.buf@)->0;
            &&& final(t).phase is Data
            &&& final(t).offset == old(t).offset + 30 + name_len + extra_len
            &&& final(t).remaining == old(t).remaining
            &&& final(t).tail == old(t).tail
        },
        !whole ==> *final(t) == *old(t),
{
}

/// Data that has been read is sent as it was read, and the transfer goes on behind it.
pub proof fn law_received(t: &mut CompressedTransfer, stream: &mut ResponseStream, n: usize)
    requires
        call_ensures(CompressedTransfer::received, (t, stream, n), ()),
        n <= old(t).remaining,
        n <= old(stream).buf@.len(),
        old(t).offset + n <= u64::MAX,
    ensures
        final(stream).out@.len() == old(stream).out@.len() + n,
        forall|i: int|
            0 <= i < old(stream).out@.len() ==> #[trigger] final(stream).out@[i] == old(
                stream,
            ).out@[i],
        forall|i: int|
            0 <= i < n ==> final(stream).out@[old(stream).out@.len() + i] == #[trigger] old(
                stream,
            ).buf@[i],
        final(t).offset == old(t).offset + n,
        final(t).remaining + n == old(t).remaining,
        final(t).tail == old(t).tail,
        final(t).phase == old(t).phase,
{
}

/// In the end what belongs behind the data is sent.
pub proof fn law_finished(t: CompressedTransfer, stream: &mut ResponseStream)
    requires
        call_ensures(CompressedTransfer::finish, (t, stream), ()),
    ensures
        final(stream).out@.len() == old(stream).out@.len() + t.tail@.len(),
        final(stream).out@.take(old(stream).out@.len() as int) == old(stream).out@,
        final(stream).out@.skip(old(stream).out@.len() as int) == t.tail@,
{
    assert(final(stream).out@.take(old(stream).out@.len() as int) =~= old(stream).out@);
    assert(final(stream).out@.skip(old(stream).out@.len() as int) =~= t.tail@);
}

/// A transfer of decoded contents reads on from where it stands, and no more than its decoder and
/// the buffer have room for.
pub proof fn law_decoder_read(
    t: &mut DecompressedTransfer,
    stream: &ResponseStream,
    read: Option<ReadAt>,
)
    requires
        call_ensures(DecompressedTransfer::next_read, (t, stream), read),
    ensures
        read is Some <==> old(t)@.wants_read(),
        read matches Some(at) ==> {
            &&& at.offset == old(t)@.offset
            &&& at.len <= old(t)@.space()
            &&& at.len <= stream.buf@.len()
            &&& at.len == old(t)@.space() || at.len == stream.buf@.len()
        },
        final(t)@.offset == old(t)@.offset,
{
}

/// Data that has been read for a decoder is taken where there is room for it, and then the
/// transfer goes on behind it.
pub proof fn law_decoder_received(t: &mut DecompressedTransfer, data: &[u8], taken: bool)
    requires
        call_ensures(DecompressedTransfer::received, (t, data), taken),
    ensures
        taken <==> data@.len() <= old(t)@.space(),
        final(t)@.offset == old(t)@.offset + if taken {
            data@.len()
        } else {
            0
        },
        taken ==> final(t)@.history.last() == zip::FsmEvent::Fed(data@),
{
}

/// What a decoder puts out is sent, and nothing is where it comes to the end or fails.
pub proof fn law_decoder_sends(
    t: DecompressedTransfer,
    stream: &mut ResponseStream,
    decoded: Decoded,
)
    requires
        call_ensures(DecompressedTransfer::process, (t, stream), decoded),
    ensures
        match decoded {
            Decoded::More(next, written) => {
                &&& t@.step(old(stream).buf@.len()) matches zip::FsmStep::Continue { output }
                &&& written == output.len()
                &&& final(stream).out@ == old(stream).out@ + output
                &&& next@.offset == t@.offset
            },
            Decoded::Done => {
                &&& t@.step(old(stream).buf@.len()) is Done
                &&& final(stream).out@ == old(stream).out@
            },
            Decoded::Failed(_) => {
                &&& t@.step(old(stream).buf@.len()) is Failed
                &&& final(stream).out@ == old(stream).out@
            },
        },
{
}

} // verus!
