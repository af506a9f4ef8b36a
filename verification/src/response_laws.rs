//! What holds of requests and responses together.
use vstd::prelude::*;

use crate::archive;
use crate::archive_laws;
use crate::bytes;
use crate::encoding;
use crate::encoding_laws;
use crate::entry::Entry;
use crate::http;
use crate::http::{HeaderView, HttpParseView};
use crate::outside;
use crate::request;
use crate::request::{AcceptedEncodings, Request};
use crate::response;
use crate::response::Response;
use crate::status::HttpStatus;
use crate::stream;
use crate::stream::{BufferFull, Transfer};
use crate::transfer;
use crate::transfer::{CompressedTransfer, Decoding};
use crate::tree::Tree;
use crate::tree_laws;
use crate::zip;

verus! {

/// The value of a header that sends an entity tag back.
pub open spec fn quoted(tag: Seq<u8>) -> Seq<u8> {
    seq![0x22u8] + tag + seq![0x22u8]
}

/// Whether a header holds an entity tag that the client has.
pub open spec fn is_tag_header(h: HeaderView) -> bool {
    bytes::same_ignoring_case(h.name, bytes::text("if-none-match"@))
}

proof fn lemma_tag_read(list: Seq<HeaderView>, k: int, crc32: u32)
    requires
        0 <= k < list.len(),
        is_tag_header(list[k]),
        list[k].value == quoted(stream::etag(crc32)),
        forall|j: int| k < j < list.len() ==> !is_tag_header(#[trigger] list[j]),
    ensures
        request::headers_of(list).if_none_match == Some(response::tag_value(crc32)),
    decreases list.len(),
{
    if k == list.len() - 1 {
        let tag = stream::etag(crc32);
        let value = list[k].value;
        assert(tag.len() == 8);
        assert(value.len() == 10);
        assert(value.subrange(1, 9) =~= tag);
        encoding_laws::law_hex_round_trip(encoding::le_bytes(crc32));
    } else {
        let init = list.drop_last();
        assert forall|j: int| k < j < init.len() implies !is_tag_header(#[trigger] init[j]) by {
            assert(init[j] == list[j]);
        }
        lemma_tag_read(init, k, crc32);
        assert(!is_tag_header(list[list.len() - 1]));
    }
}

/// A client that sends back the entity tag of what a path leads to is told that its copy is up
/// to date, as long as no later header holds another tag.
pub proof fn law_etag_round_trip(
    request: Request,
    list: Seq<HeaderView>,
    k: int,
    tree: Tree<Entry>,
    entry: Entry,
    preamble: Seq<u8>,
    answer: Response,
)
    requires
        request matches Request::Get { path, headers } && {
            &&& headers == request::headers_of(list)
            &&& response::lookup(tree, path.part()) matches Some(node)
            &&& node.entry() == Some(entry)
        },
        0 <= k < list.len(),
        is_tag_header(list[k]),
        list[k].value == quoted(stream::etag(entry.crc32)),
        forall|j: int| k < j < list.len() ==> !is_tag_header(#[trigger] list[j]),
        response::answers(request, tree, preamble, answer),
    ensures
        answer.stream.out@ == stream::not_modified_response(entry.crc32),
        answer.left matches Ok(Transfer::Finished),
{
    lemma_tag_read(list, k, entry.crc32);
}

/// The entity tags of entries with different checksums are told apart.
pub proof fn law_tag_value_injective(a: u32, b: u32)
    requires
        response::tag_value(a) == response::tag_value(b),
    ensures
        a == b,
{
    lemma_tag_value(a);
    lemma_tag_value(b);
    let x = encoding::le_bytes(a);
    let y = encoding::le_bytes(b);
    let (x0, x1, x2, x3) = (x[0] as int, x[1] as int, x[2] as int, x[3] as int);
    let (y0, y1, y2, y3) = (y[0] as int, y[1] as int, y[2] as int, y[3] as int);
    lemma_last_byte((x0 * 256 + x1) * 256 + x2, x3, (y0 * 256 + y1) * 256 + y2, y3);
    lemma_last_byte(x0 * 256 + x1, x2, y0 * 256 + y1, y2);
    lemma_last_byte(x0, x1, y0, y1);
}

proof fn lemma_last_byte(p: int, x: int, q: int, y: int)
    requires
        p * 256 + x == q * 256 + y,
        0 <= x < 256,
        0 <= y < 256,
    ensures
        p == q,
        x == y,
{
}

proof fn lemma_tag_value(n: u32)
    ensures
        response::tag_value(n) == request::big_endian(encoding::le_bytes(n)),
        ({
            let b = encoding::le_bytes(n);
            n == b[0] + b[1] * 0x100 + b[2] * 0x10000 + b[3] * 0x1000000
        }),
{
    let b = encoding::le_bytes(n);
    let q = n / 0x100;
    let r = n / 0x10000;
    let s = n / 0x1000000;
    assert(n == 0x100 * q + n % 256);
    assert(q == 0x100 * r + q % 256);
    assert(r == 0x100 * s + r % 256);
    assert(s < 256);
}

/// The body of a response that sends compressed data as it stands in the archive is as long as
/// its head says.
pub proof fn law_compressed_length(entry: Entry, accepted: AcceptedEncodings, data: Seq<u8>)
    requires
        stream::compression_for(entry.method, accepted) is Some,
        data.len() == entry.compressed_size,
    ensures
        (transfer::body_head(entry) + data + transfer::body_tail(entry)).len()
            == stream::content_length(entry, stream::compression_for(entry.method, accepted)),
{
}

/// How a transfer stands after some reads of data.
pub open spec fn after_reads(t: CompressedTransfer, reads: Seq<int>) -> CompressedTransfer
    decreases reads.len(),
{
    if reads.len() == 0 {
        t
    } else {
        after_reads(t.after(reads[0]), reads.drop_first())
    }
}

/// Whether each read gives no more than what is left.
pub open spec fn reads_fit(t: CompressedTransfer, reads: Seq<int>) -> bool
    decreases reads.len(),
{
    reads.len() == 0 || {
        &&& 0 <= reads[0] <= t.remaining
        &&& reads_fit(t.after(reads[0]), reads.drop_first())
    }
}

/// What is sent of an archive by some reads, each of as many bytes, from where the transfer then
/// stands.
pub open spec fn sent_by_reads(
    archive: Seq<u8>,
    t: CompressedTransfer,
    reads: Seq<int>,
) -> Seq<u8>
    decreases reads.len(),
{
    if reads.len() == 0 {
        Seq::empty()
    } else {
        archive.subrange(t.offset as int, t.offset + reads[0]) + sent_by_reads(
            archive,
            t.after(reads[0]),
            reads.drop_first(),
        )
    }
}

/// However the reads divide it, once nothing is left to be read the data of the entry has been
/// sent, whole and in order.
pub proof fn law_reads_send_data(archive: Seq<u8>, t: CompressedTransfer, reads: Seq<int>)
    requires
        t.offset + t.remaining <= archive.len() <= u64::MAX,
        reads_fit(t, reads),
        after_reads(t, reads).remaining == 0,
    ensures
        sent_by_reads(archive, t, reads) == archive.subrange(
            t.offset as int,
            t.offset + t.remaining,
        ),
    decreases reads.len(),
{
    if reads.len() == 0 {
        assert(archive.subrange(t.offset as int, t.offset + t.remaining) =~= Seq::empty());
    } else {
        let n = reads[0];
        let u = t.after(n);
        law_reads_send_data(archive, u, reads.drop_first());
        assert(archive.subrange(t.offset as int, t.offset + n) + archive.subrange(
            u.offset as int,
            u.offset + u.remaining,
        ) =~= archive.subrange(t.offset as int, t.offset + t.remaining));
    }
}

/// However the reads divide it, the body of a response that sends an entry as it stands in the
/// archive is the data of the entry, with what belongs around it, and it is as long as the head
/// of the response says.
///
/// `t` is the transfer at its beginning, and `header` what was read from its offset on.
pub proof fn law_compressed_body(
    archive: Seq<u8>,
    entry: Entry,
    accepted: AcceptedEncodings,
    t: CompressedTransfer,
    header: Seq<u8>,
    reads: Seq<int>,
)
    requires
        stream::compression_for(entry.method, accepted) is Some,
        stream::starts(t, entry),
        zip::data_offset(entry.header_offset, header) matches Some(offset)
            && offset + entry.compressed_size <= archive.len() <= u64::MAX,
        ({
            let d = t.at_data(zip::data_offset(entry.header_offset, header)->0 as u64);
            reads_fit(d, reads) && after_reads(d, reads).remaining == 0
        }),
    ensures
        ({
            let offset = zip::data_offset(entry.header_offset, header)->0;
            let body = transfer::body_head(entry) + sent_by_reads(
                archive,
                t.at_data(offset as u64),
                reads,
            ) + t.tail@;
            &&& body == transfer::body_head(entry) + archive.subrange(
                offset,
                offset + entry.compressed_size,
            ) + transfer::body_tail(entry)
            &&& body.len() == stream::content_length(
                entry,
                stream::compression_for(entry.method, accepted),
            )
        }),
{
    let offset = zip::data_offset(entry.header_offset, header)->0;
    law_reads_send_data(archive, t.at_data(offset as u64), reads);
    law_compressed_length(
        entry,
        accepted,
        archive.subrange(offset, offset + entry.compressed_size),
    );
}

/// The status with which a message is refused, whatever the tree holds.
pub open spec fn refusal(parsed: HttpParseView) -> Option<HttpStatus> {
    match parsed {
        HttpParseView::TooManyHeaders => Some(HttpStatus::HeaderTooLong),
        HttpParseView::Invalid => Some(HttpStatus::BadRequest),
        HttpParseView::Partial { path: None } => Some(HttpStatus::UriTooLong),
        HttpParseView::Partial { path: Some(_) } => Some(HttpStatus::BadRequest),
        HttpParseView::Complete { path: None, .. } => Some(HttpStatus::BadRequest),
        HttpParseView::Complete { method, path: Some(_), .. } => if method != Some(
            bytes::text("GET"@),
        ) {
            Some(HttpStatus::MethodNotAllowed)
        } else {
            None
        },
    }
}

/// A message that is no whole request, has too many headers or asks for anything but to get a
/// file is answered with its status and nothing else.
pub proof fn law_refused(
    parsed: HttpParseView,
    message: Seq<u8>,
    buf: Seq<u8>,
    request: Request,
    tree: Tree<Entry>,
    preamble: Seq<u8>,
    answer: Response,
)
    requires
        request@ == request::request_of(parsed, message, buf),
        response::answers(request, tree, preamble, answer),
        refusal(parsed) is Some,
    ensures
        answer.stream.out@ == stream::status_response(refusal(parsed)->0.text()),
        answer.left matches Ok(Transfer::Finished),
        answer.stream.buf@ == buf,
        request is Bad,
{
}

/// A path whose decoded form does not leave a byte of the buffer free is refused as too long.
pub proof fn law_long_path_refused(
    headers: Seq<HeaderView>,
    path: Seq<u8>,
    message: Seq<u8>,
    buf: Seq<u8>,
    request: Request,
    tree: Tree<Entry>,
    preamble: Seq<u8>,
    answer: Response,
)
    requires
        ({
            let get = bytes::text("GET"@);
            let parsed = HttpParseView::Complete { method: Some(get), path: Some(path), headers };
            &&& request@ == request::request_of(parsed, message, buf)
            &&& http::path_start(message, get) + path.len() + encoding::percent_decoded(path).len()
                >= buf.len()
        }),
        response::answers(request, tree, preamble, answer),
    ensures
        answer.stream.out@ == stream::status_response(HttpStatus::UriTooLong.text()),
        answer.left matches Ok(Transfer::Finished),
{
}

/// A file of an archive is sent to whoever asks for its name behind a slash, unless the client
/// holds a copy, where the name is not empty nor one of its parts and no entry before it stands
/// in its way.
pub proof fn law_file_served(
    entries: Seq<Entry>,
    k: int,
    request: Request,
    preamble: Seq<u8>,
    answer: Response,
)
    requires
        0 <= k < entries.len(),
        tree_laws::no_empty_name(bytes::text(entries[k].name@)),
        !tree_laws::names_dir(bytes::text(entries[k].name@)),
        forall|j: int|
            0 <= j < k ==> !tree_laws::stands_in_the_way(
                bytes::text((#[trigger] entries[j]).name@),
                bytes::text(entries[k].name@),
            ),
        request matches Request::Get { path, headers } && {
            &&& path.part() == seq![0x2fu8] + bytes::text(entries[k].name@)
            &&& headers.if_none_match != Some(response::tag_value(entries[k].crc32))
        },
        response::answers(request, archive::archive_tree(entries), preamble, answer),
    ensures
        stream::follows_plan(
            stream::entry_plan(
                outside::mime_essence(entries[k].name@),
                entries[k],
                request->headers.accepted_encodings,
            ),
            entries[k],
            request->path.buf@.len() as int,
            answer.stream.out@,
            answer.left,
        ),
{
    let name = bytes::text(entries[k].name@);
    let tree = archive::archive_tree(entries);
    archive_laws::law_file_found(entries, k);
    tree_laws::law_leading_slash(tree, name);
    vstd::utf8::encode_utf8_valid_utf8(entries[k].name@);
    assert(vstd::utf8::valid_utf8(seq![0x2fu8])) by {
        reveal_with_fuel(vstd::utf8::valid_utf8, 2);
        let slash = seq![0x2fu8];
        assert(vstd::utf8::codepoint_width_1(0x2f) == 0x2f) by {
            assert(0x2fu8 & 0x7f == 0x2f) by (bit_vector);
        }
        assert(vstd::utf8::pop_first_scalar(slash) =~= Seq::empty());
    }
    vstd::utf8::valid_utf8_concat(seq![0x2fu8], name);
    assert(answer.stream.out@.skip(0) =~= answer.stream.out@);
}

/// A turn of a transfer of decoded contents: data is read and handed on, or the decoder is given
/// a buffer of a length.
pub enum Turn {
    Read(Seq<u8>),
    Process(nat),
}

/// How a decoding stands after a turn. A read asks the decoder for room twice: for how much is to
/// be read, and for whether what was read fits.
pub open spec fn after_turn(d: Decoding, turn: Turn) -> Decoding {
    match turn {
        Turn::Read(data) => d.asked().asked().fed(data),
        Turn::Process(len) => d.processed(len),
    }
}

/// How a decoding stands after some turns.
pub open spec fn after_turns(d: Decoding, turns: Seq<Turn>) -> Decoding
    decreases turns.len(),
{
    if turns.len() == 0 {
        d
    } else {
        after_turn(after_turns(d, turns.drop_last()), turns.last())
    }
}

/// What a step of a decoder puts out.
pub open spec fn step_output(step: zip::FsmStep) -> Seq<u8> {
    match step {
        zip::FsmStep::Continue { output } => output,
        _ => Seq::empty(),
    }
}

/// What is sent during some turns.
pub open spec fn sent_by_turns(d: Decoding, turns: Seq<Turn>) -> Seq<u8>
    decreases turns.len(),
{
    if turns.len() == 0 {
        Seq::empty()
    } else {
        let init = turns.drop_last();
        match turns.last() {
            Turn::Read(_) => sent_by_turns(d, init),
            Turn::Process(len) => sent_by_turns(d, init) + step_output(
                after_turns(d, init).step(len),
            ),
        }
    }
}

/// What is read during some turns.
pub open spec fn read_by_turns(turns: Seq<Turn>) -> Seq<u8>
    decreases turns.len(),
{
    if turns.len() == 0 {
        Seq::empty()
    } else {
        match turns.last() {
            Turn::Read(data) => read_by_turns(turns.drop_last()) + data,
            Turn::Process(_) => read_by_turns(turns.drop_last()),
        }
    }
}

/// Whether each read gives what stands in the archive where the decoding then is.
pub open spec fn reads_archive(archive: Seq<u8>, d: Decoding, turns: Seq<Turn>) -> bool
    decreases turns.len(),
{
    turns.len() == 0 || {
        let at = after_turns(d, turns.drop_last()).offset;
        &&& reads_archive(archive, d, turns.drop_last())
        &&& turns.last() matches Turn::Read(data) ==> {
            &&& at + data.len() <= archive.len()
            &&& data == archive.subrange(at, at + data.len())
        }
    }
}

/// What a decoder was given.
pub open spec fn fed_to_decoder(h: Seq<zip::FsmEvent>) -> Seq<u8>
    decreases h.len(),
{
    if h.len() == 0 {
        Seq::empty()
    } else {
        match h.last() {
            zip::FsmEvent::Fed(data) => fed_to_decoder(h.drop_last()) + data,
            _ => fed_to_decoder(h.drop_last()),
        }
    }
}

/// What a decoder has put out, in order.
pub open spec fn decoder_output(h: Seq<zip::FsmEvent>) -> Seq<u8>
    decreases h.len(),
{
    if h.len() == 0 {
        Seq::empty()
    } else {
        match h.last() {
            zip::FsmEvent::Processed(len) => decoder_output(h.drop_last()) + step_output(
                outside::fsm_step(h.drop_last(), len),
            ),
            _ => decoder_output(h.drop_last()),
        }
    }
}

proof fn lemma_turns(archive: Seq<u8>, d: Decoding, turns: Seq<Turn>)
    requires
        d.history.len() == 0,
        0 <= d.offset <= archive.len(),
        reads_archive(archive, d, turns),
    ensures
        ({
            let read = read_by_turns(turns);
            let end = after_turns(d, turns);
            &&& end.offset == d.offset + read.len() <= archive.len()
            &&& read == archive.subrange(d.offset, d.offset + read.len())
            &&& fed_to_decoder(end.history) == read
            &&& sent_by_turns(d, turns) == decoder_output(end.history)
        }),
    decreases turns.len(),
{
    if turns.len() == 0 {
        assert(archive.subrange(d.offset, d.offset) =~= Seq::empty());
    } else {
        let init = turns.drop_last();
        lemma_turns(archive, d, init);
        let before = after_turns(d, init);
        let h = before.history;
        match turns.last() {
            Turn::Read(data) => {
                let asked = zip::FsmEvent::SpaceAsked;
                let fed = zip::FsmEvent::Fed(data);
                assert(h.push(asked).drop_last() =~= h);
                assert(h.push(asked).push(asked).drop_last() =~= h.push(asked));
                assert(h.push(asked).push(asked).push(fed).drop_last() =~= h.push(asked).push(
                    asked,
                ));
                assert(fed_to_decoder(h.push(asked)) == fed_to_decoder(h));
                assert(fed_to_decoder(h.push(asked).push(asked)) == fed_to_decoder(h));
                assert(decoder_output(h.push(asked)) == decoder_output(h));
                assert(decoder_output(h.push(asked).push(asked)) == decoder_output(h));
                let read = read_by_turns(init);
                assert(read + data =~= archive.subrange(
                    d.offset,
                    d.offset + read.len() + data.len(),
                ));
            },
            Turn::Process(len) => {
                assert(h.push(zip::FsmEvent::Processed(len)).drop_last() =~= h);
            },
        }
    }
}

/// The body of a response that sends the contents of an entry decoded is what the decoder puts
/// out, in order, when it is given the archive from the local header of the entry on: however the
/// reads divide it, nothing is left out, repeated or sent from elsewhere.
pub proof fn law_decoded_body(archive: Seq<u8>, entry: Entry, turns: Seq<Turn>)
    requires
        entry.header_offset <= archive.len(),
        reads_archive(archive, Decoding::of(entry), turns),
    ensures
        ({
            let start = entry.header_offset as int;
            let len = read_by_turns(turns).len();
            let end = after_turns(Decoding::of(entry), turns);
            &&& end.offset == start + len
            &&& fed_to_decoder(end.history) == archive.subrange(start, start + len)
            &&& sent_by_turns(Decoding::of(entry), turns) == decoder_output(end.history)
        }),
{
    lemma_turns(archive, Decoding::of(entry), turns);
}

/// The response to a request for a file that is sent decoded: its head, and behind it what the
/// decoder puts out.
pub proof fn law_decoded_response(
    archive: Seq<u8>,
    entry: Entry,
    mime: Seq<char>,
    accepted: AcceptedEncodings,
    room: int,
    head: Seq<u8>,
    left: Result<Transfer, BufferFull>,
    turns: Seq<Turn>,
)
    requires
        entry.header_offset <= archive.len(),
        stream::compression_for(entry.method, accepted) is None,
        entry.method.supported(),
        stream::follows_plan(
            stream::entry_plan(mime, entry, accepted),
            entry,
            room,
            head,
            left,
        ),
        left is Ok,
        reads_archive(archive, Decoding::of(entry), turns),
    ensures
        left matches Ok(Transfer::Decompressed(t)) && {
            &&& t@ == Decoding::of(entry)
            &&& head + sent_by_turns(t@, turns) == stream::entry_head(mime, entry, None)
                + decoder_output(after_turns(t@, turns).history)
        },
{
    law_decoded_body(archive, entry, turns);
}

} // verus!
