//! Calls into other crates and into parts of the standard library, with the contracts that the
//! rest of the library rests on. Verus believes these contracts without proof.
use vstd::prelude::*;

use crate::bytes;
use crate::encoding;
use crate::http::{Header, HttpParse, HttpParseView};
use crate::reading::{ArchiveEvent, ArchiveProcessed, ArchiveStep, ListedEntry};
use crate::zip::{FsmEvent, FsmStep, Processed};

verus! {

/// What `httparse::Request::parse` makes of a message, with room for a number of headers.
pub uninterp spec fn http_parse(message: Seq<u8>, max_headers: int) -> HttpParseView;

/// `httparse::Request::parse` with an array of `MAX` headers.
///
/// The result is a function of the bytes and of the size of the array. Of a whole request the
/// method and the path are known. Before the method stand only line breaks, which are passed
/// over; one space follows it, then the path, and a space ends the path.
#[verifier::external_body]
pub(crate) fn parse_http<const MAX: usize>(message: &[u8]) -> (r: HttpParse)
    ensures
        r@ == http_parse(message@, MAX as int),
        r@ matches HttpParseView::Complete { method, path, .. } ==> {
            &&& method matches Some(m)
            &&& path matches Some(p)
            &&& crate::http::path_stands_at(message@, p, crate::http::path_start(message@, m))
        },
{
    let mut headers = [httparse::EMPTY_HEADER; MAX];
    let mut request = httparse::Request::new(&mut headers);
    let result = request.parse(message);
    let method = request.method.map(str::to_owned);
    let path = request.path.map(str::to_owned);
    match result {
        Ok(httparse::Status::Complete(_)) => {
            let lines = request.headers.iter();
            let headers = lines.map(|h| Header { name: h.name.to_owned(), value: h.value.to_vec() });
            HttpParse::Complete { method, path, headers: headers.collect() }
        }
        Ok(httparse::Status::Partial) => HttpParse::Partial { path },
        Err(httparse::Error::TooManyHeaders) => HttpParse::TooManyHeaders,
        Err(_) => HttpParse::Invalid,
    }
}

/// `std::str::from_utf8`: the text that the bytes are the UTF-8 form of, where they are one.
#[verifier::external_body]
pub(crate) fn from_utf8(input: &[u8]) -> (r: Option<&str>)
    ensures
        match r {
            Some(s) => vstd::utf8::valid_utf8(input@) && bytes::text(s@) == input@,
            None => !vstd::utf8::valid_utf8(input@),
        },
{
    std::str::from_utf8(input).ok()
}

/// `const_hex::decode_to_array`: the bytes that hexadecimal digits stand for, where there are
/// as many digits as the array needs. A prefix `0x` or `0X` is left out first.
#[verifier::external_body]
pub(crate) fn decode_hex<const N: usize>(input: &[u8]) -> (r: Option<[u8; N]>)
    ensures
        match r {
            Some(a) => encoding::hex_bytes(encoding::without_hex_prefix(input@)) == Some(a@),
            None => match encoding::hex_bytes(encoding::without_hex_prefix(input@)) {
                Some(b) => b.len() != N,
                None => true,
            },
        },
{
    const_hex::decode_to_array(input).ok()
}

/// `percent_encoding::percent_decode`, read to its end.
#[verifier::external_body]
pub(crate) fn percent_decode(input: &[u8]) -> (r: Vec<u8>)
    ensures
        r@ == encoding::percent_decoded(input@),
{
    percent_encoding::percent_decode(input).collect()
}

/// `const_hex::encode_to_slice`: two hexadecimal digits for each byte, with small letters. The
/// output has to have room for exactly that many.
#[verifier::external_body]
pub(crate) fn encode_hex(input: &[u8], output: &mut [u8])
    requires
        old(output)@.len() == 2 * input@.len(),
    ensures
        final(output)@ == encoding::hex_text(input@),
{
    const_hex::encode_to_slice(input, output).expect("the output should have the right length")
}

/// `itoa::Buffer::format`: the decimal digits of a number.
#[verifier::external_body]
pub(crate) fn format_decimal(n: u64) -> (r: String)
    ensures
        bytes::text(r@) == encoding::decimal(n as nat),
{
    itoa::Buffer::new().format(n).to_owned()
}

/// `v_htmlescape::escape`, written out: entities for `"`, `&`, `'`, `/`, `<` and `>`.
#[verifier::external_body]
pub(crate) fn escape_html(name: &str) -> (r: String)
    ensures
        bytes::text(r@) == encoding::html_text(bytes::text(name@)),
{
    v_htmlescape::escape(name).to_string()
}

/// `percent_encoding::percent_encode_byte`: a percent sign and two hexadecimal digits with
/// capital letters.
pub assume_specification[ percent_encoding::percent_encode_byte ](byte: u8) -> (r: &'static str)
    ensures
        bytes::text(r@) == encoding::percent_escape(byte),
;

/// The media type that `mime_guess` gives a file name, without parameters; plain text where it
/// knows none.
pub uninterp spec fn mime_essence(name: Seq<char>) -> Seq<char>;

/// `mime_guess::from_path`, the first of its guesses, or plain text where there is none.
///
/// The result depends on the name alone.
#[verifier::external_body]
pub(crate) fn guess_mime(name: &str) -> (r: String)
    ensures
        r@ == mime_essence(name@),
{
    mime_guess::from_path(name).first_or_text_plain().essence_str().to_owned()
}

/// `rc_zip::parse::LocalFileHeader::parser` on a buffer: the lengths of the name and of the
/// extra field.
///
/// There is a header where the buffer begins with its signature and holds its fixed part, the
/// name and the extra field whole; for LZMA also the properties behind them, of version 2.0 and
/// with a size of 5.
#[verifier::external_body]
pub(crate) fn parse_local_header(buf: &[u8]) -> (r: Option<(usize, usize)>)
    ensures
        match r {
            Some((name_len, extra_len)) => crate::zip::local_header(buf@) == Some(
                (name_len as int, extra_len as int),
            ),
            None => crate::zip::local_header(buf@) is None,
        },
{
    let mut input = winnow::Partial::new(buf);
    let header = rc_zip::parse::LocalFileHeader::parser(&mut input).ok();
    header.map(|h| (h.name.len(), h.extra.len()))
}

/// A decoder of one entry, from its local header to the end of its data.
#[verifier::external_type_specification]
#[verifier::external_body]
pub struct ExEntryFsm(rc_zip::fsm::EntryFsm);

/// What went wrong in an archive.
#[verifier::external_type_specification]
#[verifier::external_body]
pub struct ExZipError(rc_zip::error::Error);

/// What has been done with a decoder so far.
pub uninterp spec fn fsm_history(fsm: rc_zip::fsm::EntryFsm) -> Seq<FsmEvent>;

/// Whether a decoder asks for data, as `EntryFsm::wants_read` tells.
pub uninterp spec fn fsm_wants_read(history: Seq<FsmEvent>) -> bool;

/// How much data a decoder has room for: the length of what `EntryFsm::space` gives.
pub uninterp spec fn fsm_space(history: Seq<FsmEvent>) -> nat;

/// What `EntryFsm::process` does with an output buffer of a length.
pub uninterp spec fn fsm_step(history: Seq<FsmEvent>, out_len: nat) -> FsmStep;

/// `rc_zip::fsm::EntryFsm::new`, without an entry and without a buffer: a decoder with which
/// nothing has been done.
#[verifier::external_body]
pub(crate) fn new_fsm() -> (r: rc_zip::fsm::EntryFsm)
    ensures
        fsm_history(r) == Seq::<FsmEvent>::empty(),
{
    rc_zip::fsm::EntryFsm::new(None, None)
}

/// `rc_zip::fsm::EntryFsm::wants_read`: a function of what has been done with the decoder.
pub assume_specification[ rc_zip::fsm::EntryFsm::wants_read ](
    fsm: &rc_zip::fsm::EntryFsm,
) -> (r: bool)
    ensures
        r == fsm_wants_read(fsm_history(*fsm)),
;

/// `rc_zip::fsm::EntryFsm::space`: how much room there is. Data that stands in the way may be
/// moved to make some; asked again, the decoder has the same room.
#[verifier::external_body]
pub(crate) fn space_len(fsm: &mut rc_zip::fsm::EntryFsm) -> (r: usize)
    ensures
        r == fsm_space(fsm_history(*old(fsm))),
        fsm_history(*final(fsm)) == fsm_history(*old(fsm)).push(FsmEvent::SpaceAsked),
        fsm_space(fsm_history(*final(fsm))) == r,
{
    fsm.space().len()
}

/// `rc_zip::fsm::EntryFsm::fill`, with the data put into `EntryFsm::space` before.
#[verifier::external_body]
pub(crate) fn feed(fsm: &mut rc_zip::fsm::EntryFsm, data: &[u8])
    requires
        data@.len() <= fsm_space(fsm_history(*old(fsm))),
    ensures
        fsm_history(*final(fsm)) == fsm_history(*old(fsm)).push(FsmEvent::Fed(data@)),
{
    fsm.space()[..data.len()].copy_from_slice(data);
    fsm.fill(data.len());
}

/// `rc_zip::fsm::EntryFsm::process`: a function of what has been done with the decoder and of
/// the length of the output buffer. The output stands at the front of that buffer; what becomes
/// of the rest of it is left open.
///
/// No data makes it panic. For Deflate64 data that rests on the version of the `deflate64` crate
/// that Cargo.toml holds it to: the ones behind it can fail an assertion where data is divided
/// within a match.
#[verifier::external_body]
pub(crate) fn process(fsm: rc_zip::fsm::EntryFsm, out: &mut [u8]) -> (r: Processed)
    ensures
        final(out)@.len() == old(out)@.len(),
        match fsm_step(fsm_history(fsm), old(out)@.len()) {
            FsmStep::Continue { output } => {
                &&& r matches Processed::Continue(next, written)
                &&& written == output.len()
                &&& written <= old(out)@.len()
                &&& final(out)@.take(written as int) == output
                &&& fsm_history(next) == fsm_history(fsm).push(
                    FsmEvent::Processed(old(out)@.len()),
                )
            },
            FsmStep::Done => r is Done,
            FsmStep::Failed => r is Failed,
        },
{
    match fsm.process(out) {
        Ok(rc_zip::fsm::FsmResult::Continue((next, outcome))) => {
            Processed::Continue(next, outcome.bytes_written)
        }
        Ok(rc_zip::fsm::FsmResult::Done(_)) => Processed::Done,
        Err(error) => Processed::Failed(error),
    }
}

/// A reader of the directory of an archive.
#[verifier::external_type_specification]
#[verifier::external_body]
pub struct ExArchiveFsm(rc_zip::fsm::ArchiveFsm);

/// What has been done with a reader so far.
pub uninterp spec fn archive_history(fsm: rc_zip::fsm::ArchiveFsm) -> Seq<ArchiveEvent>;

/// The size of the archive that a reader was made for.
pub uninterp spec fn archive_size(fsm: rc_zip::fsm::ArchiveFsm) -> u64;

/// Where a reader asks for data, as `ArchiveFsm::wants_read` tells.
pub uninterp spec fn archive_offset(size: u64, history: Seq<ArchiveEvent>) -> Option<u64>;

/// How much data a reader has room for: the length of what `ArchiveFsm::space` gives.
pub uninterp spec fn archive_space(size: u64, history: Seq<ArchiveEvent>) -> nat;

/// What `ArchiveFsm::process` makes of the data.
pub uninterp spec fn archive_step(size: u64, history: Seq<ArchiveEvent>) -> ArchiveStep;

/// `rc_zip::fsm::ArchiveFsm::new`: a reader with which nothing has been done.
#[verifier::external_body]
pub(crate) fn new_archive(size: u64) -> (r: rc_zip::fsm::ArchiveFsm)
    ensures
        archive_size(r) == size,
        archive_history(r) == Seq::<ArchiveEvent>::empty(),
{
    rc_zip::fsm::ArchiveFsm::new(size)
}

/// `rc_zip::fsm::ArchiveFsm::wants_read`: a function of the size of the archive and of what has
/// been done with the reader.
pub assume_specification[ rc_zip::fsm::ArchiveFsm::wants_read ](
    fsm: &rc_zip::fsm::ArchiveFsm,
) -> (r: Option<u64>)
    ensures
        r == archive_offset(archive_size(*fsm), archive_history(*fsm)),
;

/// `rc_zip::fsm::ArchiveFsm::space`: how much room there is. Data that stands in the way may be
/// moved to make some; asked again, the reader has the same room. Where it asks for data does not
/// change.
#[verifier::external_body]
pub(crate) fn archive_space_len(fsm: &mut rc_zip::fsm::ArchiveFsm) -> (r: usize)
    ensures
        r == archive_space(archive_size(*old(fsm)), archive_history(*old(fsm))),
        archive_size(*final(fsm)) == archive_size(*old(fsm)),
        archive_history(*final(fsm)) == archive_history(*old(fsm)).push(ArchiveEvent::SpaceAsked),
        archive_space(archive_size(*final(fsm)), archive_history(*final(fsm))) == r,
        archive_offset(archive_size(*final(fsm)), archive_history(*final(fsm))) == archive_offset(
            archive_size(*old(fsm)),
            archive_history(*old(fsm)),
        ),
{
    fsm.space().len()
}

/// `rc_zip::fsm::ArchiveFsm::fill`, with the data put into `ArchiveFsm::space` before. The reader
/// adds the length of the data to the offset at which it asks for more.
#[verifier::external_body]
pub(crate) fn feed_archive(fsm: &mut rc_zip::fsm::ArchiveFsm, data: &[u8])
    requires
        data@.len() <= archive_space(archive_size(*old(fsm)), archive_history(*old(fsm))),
        archive_offset(archive_size(*old(fsm)), archive_history(*old(fsm))) matches Some(offset)
            ==> offset + data@.len() <= u64::MAX,
    ensures
        archive_size(*final(fsm)) == archive_size(*old(fsm)),
        archive_history(*final(fsm)) == archive_history(*old(fsm)).push(ArchiveEvent::Fed(data@)),
        archive_offset(archive_size(*old(fsm)), archive_history(*old(fsm))) matches Some(offset)
            ==> archive_offset(archive_size(*final(fsm)), archive_history(*final(fsm))) == Some(
            (offset + data@.len()) as u64,
        ),
{
    fsm.space()[..data.len()].copy_from_slice(data);
    fsm.fill(data.len());
}

/// `rc_zip::fsm::ArchiveFsm::process`: a function of the size of the archive and of what has been
/// done with the reader. Once it has read the whole directory it gives the entries, in the order
/// in which they are listed there.
///
/// The reader computes with signed numbers of 64 bits, so no archive may be larger than these
/// count, and where it has a ZIP64 end record before it, the offset in that record may not be one
/// that is out of their range. It comes to such a record behind the locator, which it reads once
/// it has looked through the end of the archive.
#[verifier::external_body]
pub(crate) fn process_archive(fsm: rc_zip::fsm::ArchiveFsm) -> (r: ArchiveProcessed)
    requires
        archive_size(fsm) <= i64::MAX,
        crate::reading::in_range(archive_size(fsm), archive_history(fsm)),
    ensures
        match archive_step(archive_size(fsm), archive_history(fsm)) {
            ArchiveStep::Continue => {
                &&& r matches ArchiveProcessed::Continue(next)
                &&& archive_size(next) == archive_size(fsm)
                &&& archive_history(next) == archive_history(fsm).push(ArchiveEvent::Processed)
            },
            ArchiveStep::Done(listed) => {
                &&& r matches ArchiveProcessed::Done(entries)
                &&& crate::reading::listed_views(entries@) == listed
            },
            ArchiveStep::Failed => r is Failed,
        },
{
    match fsm.process() {
        Ok(rc_zip::fsm::FsmResult::Continue(next)) => ArchiveProcessed::Continue(next),
        Ok(rc_zip::fsm::FsmResult::Done(archive)) => {
            let listed = archive.entries().map(|e| ListedEntry {
                name: e.name.clone(),
                method: e.method.into(),
                header_offset: e.header_offset,
                crc32: e.crc32,
                compressed_size: e.compressed_size,
                uncompressed_size: e.uncompressed_size,
            });
            ArchiveProcessed::Done(listed.collect())
        }
        Err(error) => ArchiveProcessed::Failed(error),
    }
}

} // verus!
