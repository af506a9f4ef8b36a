//! What is read of the entries that an archive lists, and where their data stands.
use vstd::prelude::*;

use crate::bytes;
use crate::client_laws;
use crate::entry;
use crate::entry::{Entry, Method};
use crate::reading;
use crate::reading::ListedView;
use crate::response_laws;
use crate::transfer;
use crate::transfer::{Action, CompressedTransfer, ReadAt};
use crate::zip;

verus! {

/// The number that a method has in archives.
pub open spec fn number_of(method: Method) -> int {
    match method {
        Method::Store => 0,
        Method::Deflate => 8,
        Method::Deflate64 => 9,
        Method::Bzip2 => 12,
        Method::Lzma => 14,
        Method::Zstd => 93,
        Method::Mp3 => 94,
        Method::Xz => 95,
        Method::Jpeg => 96,
        Method::WavPack => 97,
        Method::Ppmd => 98,
        Method::Aex => 99,
        Method::Unrecognized(number) => number as int,
    }
}

/// A method is read from its number, and by its name where it has one.
pub proof fn law_method_read(method: Method, number: u16)
    requires
        number_of(method) == number,
    ensures
        number_of(entry::method_of(number)) == number,
        !(method is Unrecognized) ==> entry::method_of(number) == method,
{
}

/// What is read of each entry that an archive lists is what the archive says of it.
pub proof fn law_listed_read(listed: Seq<ListedView>, entries: Seq<Entry>, k: int)
    requires
        entry::entry_views(entries) == reading::entries_listed(listed),
        0 <= k < listed.len(),
    ensures
        entries.len() == listed.len(),
        bytes::text(entries[k].name@) == listed[k].name,
        number_of(entries[k].method) == listed[k].method,
        entries[k].header_offset == listed[k].header_offset,
        entries[k].crc32 == listed[k].crc32,
        entries[k].compressed_size == listed[k].compressed_size,
        entries[k].uncompressed_size == listed[k].uncompressed_size,
{
    assert(entry::entry_views(entries).len() == entries.len());
    assert(reading::entries_listed(listed).len() == listed.len());
    assert(entry::entry_views(entries)[k] == entries[k]@);
    assert(reading::entries_listed(listed)[k] == listed[k].entry());
    law_method_read(Method::Unrecognized(listed[k].method), listed[k].method);
}

/// There is a decoder for a method exactly where it is one of those with a decoder.
pub proof fn law_supported(method: Method, r: bool)
    requires
        call_ensures(entry::is_method_supported, (method,), r),
    ensures
        r <==> client_laws::decodable(method),
{
}

/// The data of an entry begins behind its local header, which is a fixed part of thirty bytes, the
/// name and an extra field, whose lengths stand in the fixed part.
pub proof fn law_data_behind_header(
    header_offset: u64,
    fixed: Seq<u8>,
    name: Seq<u8>,
    extra: Seq<u8>,
    behind: Seq<u8>,
)
    requires
        fixed.len() == 30,
        fixed[0] == 0x50 && fixed[1] == 0x4b && fixed[2] == 3 && fixed[3] == 4,
        fixed[8] + 0x100 * fixed[9] != 14,
        name.len() == fixed[26] + 0x100 * fixed[27],
        extra.len() == fixed[28] + 0x100 * fixed[29],
    ensures
        zip::data_offset(header_offset, fixed + name + extra + behind) == Some(
            header_offset + (fixed + name + extra).len(),
        ),
{
    let s = fixed + name + extra + behind;
    assert(s.subrange(0, 4) =~= seq![0x50u8, 0x4b, 0x03, 0x04]);
    assert(s[8] == fixed[8] && s[9] == fixed[9]);
    assert(s[26] == fixed[26] && s[27] == fixed[27] && s[28] == fixed[28] && s[29] == fixed[29]);
}

/// Whether the reads of a transfer go as it asks for them, through a buffer of a length: each is of
/// no more than it asks for, from where it asks, and nothing is asked for in the end. `reads` holds
/// how many bytes each gives.
pub open spec fn goes_as_asked(
    archive: Seq<u8>,
    t: CompressedTransfer,
    buf_len: usize,
    reads: Seq<int>,
) -> bool
    decreases reads.len(),
{
    if reads.len() == 0 {
        t.action(buf_len) is Finish
    } else {
        &&& t.action(buf_len) matches Action::ReadData(at)
        &&& 0 <= reads[0] <= at.len
        &&& at.offset + reads[0] <= archive.len()
        &&& goes_as_asked(archive, t.after(reads[0]), buf_len, reads.drop_first())
    }
}

/// What the reads give that a transfer asks for, one behind the other.
pub open spec fn given(
    archive: Seq<u8>,
    t: CompressedTransfer,
    buf_len: usize,
    reads: Seq<int>,
) -> Seq<u8>
    decreases reads.len(),
{
    if reads.len() == 0 {
        Seq::empty()
    } else {
        let offset = t.action(buf_len)->ReadData_0.offset as int;
        archive.subrange(offset, offset + reads[0]) + given(
            archive,
            t.after(reads[0]),
            buf_len,
            reads.drop_first(),
        )
    }
}

/// A transfer whose reads go as it asks for them is given the data of its entry, whole and in
/// order, and leaves what is sent behind it as it is.
pub proof fn law_asked_for_data(
    archive: Seq<u8>,
    t: CompressedTransfer,
    buf_len: usize,
    reads: Seq<int>,
)
    requires
        t.phase is Data,
        t.offset + t.remaining <= archive.len() <= u64::MAX,
        goes_as_asked(archive, t, buf_len, reads),
    ensures
        given(archive, t, buf_len, reads) == archive.subrange(
            t.offset as int,
            t.offset + t.remaining,
        ),
        response_laws::after_reads(t, reads).tail == t.tail,
    decreases reads.len(),
{
    if reads.len() == 0 {
        assert(archive.subrange(t.offset as int, t.offset + t.remaining) =~= Seq::empty());
    } else {
        let n = reads[0];
        let u = t.after(n);
        law_asked_for_data(archive, u, buf_len, reads.drop_first());
        assert(archive.subrange(t.offset as int, t.offset + n) + archive.subrange(
            u.offset as int,
            u.offset + u.remaining,
        ) =~= archive.subrange(t.offset as int, t.offset + t.remaining));
    }
}

/// As long as data is left, a transfer asks for some of it.
pub proof fn law_asks_while_data_left(t: CompressedTransfer, buf_len: usize)
    requires
        t.phase is Data,
        t.remaining > 0,
        buf_len > 0,
    ensures
        t.action(buf_len) matches Action::ReadData(at) && 0 < at.len <= buf_len,
{
}

/// A read is of as much as both the reader and the buffer have room for.
pub proof fn law_read_within(offset: u64, space: usize, room: usize, at: ReadAt)
    requires
        call_ensures(transfer::read_within, (offset, space, room), at),
    ensures
        at.offset == offset,
        at.len <= space,
        at.len <= room,
        at.len == space || at.len == room,
{
}

/// What is sent of an archive for an entry as it stands there: the data behind its local header,
/// however the reads divide it. `before` and `behind` are what else the archive holds.
pub proof fn law_data_sent(
    before: Seq<u8>,
    fixed: Seq<u8>,
    name: Seq<u8>,
    extra: Seq<u8>,
    data: Seq<u8>,
    behind: Seq<u8>,
    t: CompressedTransfer,
    header: Seq<u8>,
    buf_len: usize,
    reads: Seq<int>,
)
    requires
        ({
            let archive = before + fixed + name + extra + data + behind;
            &&& archive.len() <= u64::MAX
            &&& fixed.len() == 30
            &&& fixed[0] == 0x50 && fixed[1] == 0x4b && fixed[2] == 3 && fixed[3] == 4
            &&& fixed[8] + 0x100 * fixed[9] != 14
            &&& name.len() == fixed[26] + 0x100 * fixed[27]
            &&& extra.len() == fixed[28] + 0x100 * fixed[29]
            &&& t.phase is Locate
            &&& t.offset == before.len()
            &&& t.remaining == data.len()
            &&& header.len() >= 30 + name.len() + extra.len()
            &&& before.len() + header.len() <= archive.len()
            &&& header == archive.skip(before.len() as int).take(header.len() as int)
            &&& zip::data_offset(t.offset, header) matches Some(offset)
            &&& goes_as_asked(archive, t.at_data(offset as u64), buf_len, reads)
        }),
    ensures
        ({
            let archive = before + fixed + name + extra + data + behind;
            let offset = zip::data_offset(t.offset, header)->0;
            &&& t.action(buf_len) matches Action::ReadHeader(at) && at.offset == before.len()
                && at.len == 1024
            &&& given(archive, t.at_data(offset as u64), buf_len, reads) == data
            &&& t.at_data(offset as u64).tail == t.tail
        }),
{
    let archive = before + fixed + name + extra + data + behind;
    let front = fixed + name + extra;
    let rest = header.skip(front.len() as int);
    assert(archive =~= before + (front + data + behind));
    assert(header.take(front.len() as int) =~= front) by {
        assert forall|i: int| 0 <= i < front.len() implies header[i] == front[i] by {
            assert(header[i] == archive[before.len() + i]);
        }
    }
    assert(header =~= fixed + name + extra + rest);
    law_data_behind_header(t.offset, fixed, name, extra, rest);
    let offset = zip::data_offset(t.offset, header)->0;
    let d = t.at_data(offset as u64);
    law_asked_for_data(archive, d, buf_len, reads);
    assert(archive.subrange(offset, offset + data.len()) =~= data);
}

} // verus!
