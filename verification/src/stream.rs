//! Response heads, and the choice of what is sent for a file or a directory.
use vstd::prelude::*;

use crate::bytes;
use crate::encoding;
use crate::entry::{Entry, Method};
use crate::entry::is_method_supported;
use crate::fstree;
use crate::fstree::FsTreeNode;
use crate::listing;
use crate::outside;
use crate::request::AcceptedEncodings;
use crate::status::HttpStatus;
use crate::transfer;
use crate::transfer::{CompressedTransfer, Decoding, DecompressedTransfer};
use crate::tree::Tree;

verus! {

/// A response did not fit into the buffer it is put together in.
#[derive(Debug, Clone, Copy, PartialEq, Eq, Structural)]
pub struct BufferFull;

/// A response on its way: what is to be sent, in order, and the buffer of the connection.
#[derive(Debug)]
pub struct ResponseStream {
    pub out: Vec<u8>,
    pub buf: Vec<u8>,
}

/// The entity tag of an entry: the bytes of its checksum in hexadecimal digits, the least
/// significant first.
pub open spec fn etag(crc32: u32) -> Seq<u8> {
    encoding::hex_text(encoding::le_bytes(crc32))
}

/// The entity tag of an entry.
pub fn encode_crc32(crc32: u32) -> (r: [u8; 8])
    ensures
        r@ == etag(crc32),
{
    let mut tag: [u8; 8] = [0, 0, 0, 0, 0, 0, 0, 0];
    let b = encoding::to_le_bytes(crc32);
    outside::encode_hex(&b, &mut tag);
    tag
}

/// A way in which a compressed entry is sent as it stands in the archive.
#[derive(Debug)]
pub struct ContentCompression {
    /// How many bytes are sent beside the compressed data.
    pub extra_len: u64,
    /// The name of the encoding.
    pub encoding: &'static str,
}

/// The line that names the encoding, where there is one.
pub open spec fn encoding_line(compression: Option<ContentCompression>) -> Seq<u8> {
    match compression {
        Some(c) => bytes::text("Content-Encoding: "@) + bytes::text(c.encoding@) + bytes::text(
            "\r\n"@,
        ),
        None => Seq::empty(),
    }
}

/// The length of the body of a response.
pub open spec fn content_length(entry: Entry, compression: Option<ContentCompression>) -> nat {
    match compression {
        Some(c) => (entry.compressed_size + c.extra_len) as nat,
        None => entry.uncompressed_size as nat,
    }
}

/// The head of a response with the contents of an entry.
pub open spec fn entry_head(
    mime: Seq<char>,
    entry: Entry,
    compression: Option<ContentCompression>,
) -> Seq<u8> {
    bytes::text("HTTP/1.1 200 OK\r\nContent-Type: "@) + bytes::text(mime) + bytes::text("\r\n"@)
        + encoding_line(compression) + bytes::text("Content-Length: "@) + encoding::decimal(
        content_length(entry, compression),
    ) + bytes::text("\r\nETag: \""@) + etag(entry.crc32) + bytes::text(
        "\"\r\nCache-control: max-age=180, public\r\n\r\n"@,
    )
}

/// A response that consists of a status line.
pub open spec fn status_response(status: Seq<char>) -> Seq<u8> {
    bytes::text("HTTP/1.1 "@) + bytes::text(status) + bytes::text(
        "\r\nContent-Length: 0\r\n\r\n"@,
    )
}

/// The response that says that a client's copy is up to date.
pub open spec fn not_modified_response(crc32: u32) -> Seq<u8> {
    bytes::text("HTTP/1.1 304 Not Modified\r\nETag: \""@) + etag(crc32) + bytes::text(
        "\"\r\n\r\n"@,
    )
}

/// Whether there is room for what is sent beside the compressed data.
pub open spec fn length_fits(entry: Entry, compression: Option<ContentCompression>) -> bool {
    content_length(entry, compression) <= u64::MAX
}

/// An optional value behind a reference.
pub open spec fn referred<T>(r: Option<&T>) -> Option<T> {
    match r {
        Some(t) => Some(*t),
        None => None,
    }
}

impl ResponseStream {
    /// A response of which nothing is to be sent yet.
    pub fn new(buf: Vec<u8>) -> (r: Self)
        ensures
            r.out@ == Seq::<u8>::empty(),
            r.buf == buf,
    {
        ResponseStream { out: Vec::new(), buf }
    }

    /// The buffer of the connection.
    pub fn into_buf(self) -> (r: Vec<u8>)
        ensures
            r == self.buf,
    {
        self.buf
    }

    /// Sends the head of a response with the contents of an entry, of a known media type.
    pub fn send_typed_header(
        &mut self,
        mime: &str,
        entry: &Entry,
        compression: Option<&ContentCompression>,
    ) -> (r: Result<(), BufferFull>)
        requires
            length_fits(*entry, referred(compression)),
        ensures
            final(self).buf@.len() == old(self).buf@.len(),
            ({
                let head = entry_head(mime@, *entry, referred(compression));
                match r {
                    Ok(()) => {
                        &&& head.len() <= old(self).buf@.len()
                        &&& final(self).out@ == old(self).out@ + head
                        &&& final(self).buf@ == bytes::overwrite(old(self).buf@, 0, head)
                    },
                    Err(_) => {
                        &&& head.len() > old(self).buf@.len()
                        &&& *final(self) == *old(self)
                    },
                }
            }),
    {
        let mut head: Vec<u8> = Vec::new();
        bytes::append(&mut head, "HTTP/1.1 200 OK\r\nContent-Type: ".as_bytes());
        bytes::append(&mut head, mime.as_bytes());
        bytes::append(&mut head, "\r\n".as_bytes());
        if let Some(c) = compression {
            bytes::append(&mut head, "Content-Encoding: ".as_bytes());
            bytes::append(&mut head, c.encoding.as_bytes());
            bytes::append(&mut head, "\r\n".as_bytes());
        }
        bytes::append(&mut head, "Content-Length: ".as_bytes());
        let length: u64 = match compression {
            Some(c) => entry.compressed_size + c.extra_len,
            None => entry.uncompressed_size,
        };
        bytes::append(&mut head, outside::format_decimal(length).as_str().as_bytes());
        bytes::append(&mut head, "\r\nETag: \"".as_bytes());
        let tag = encode_crc32(entry.crc32);
        bytes::append(&mut head, &tag);
        bytes::append(
            &mut head,
            "\"\r\nCache-control: max-age=180, public\r\n\r\n".as_bytes(),
        );
        assert(head@ =~= entry_head(mime@, *entry, referred(compression)));
        if head.len() > self.buf.len() {
            return Err(BufferFull);
        }
        bytes::copy_into(&mut self.buf, 0, head.as_slice());
        let n: usize = head.len();
        bytes::append(&mut self.out, &self.buf.as_slice()[0..n]);
        assert(self.buf@.subrange(0, n as int) =~= head@);
        Ok(())
    }

    /// Sends the head of a response with the contents of an entry.
    pub fn send_entry_header(
        &mut self,
        entry: &Entry,
        compression: Option<&ContentCompression>,
    ) -> (r: Result<(), BufferFull>)
        requires
            length_fits(*entry, referred(compression)),
        ensures
            final(self).buf@.len() == old(self).buf@.len(),
            ({
                let head = entry_head(
                    outside::mime_essence(entry.name@),
                    *entry,
                    referred(compression),
                );
                match r {
                    Ok(()) => {
                        &&& head.len() <= old(self).buf@.len()
                        &&& final(self).out@ == old(self).out@ + head
                        &&& final(self).buf@ == bytes::overwrite(old(self).buf@, 0, head)
                    },
                    Err(_) => {
                        &&& head.len() > old(self).buf@.len()
                        &&& *final(self) == *old(self)
                    },
                }
            }),
    {
        let mime = outside::guess_mime(entry.name.as_str());
        self.send_typed_header(mime.as_str(), entry, compression)
    }

    fn send_status_empty(&mut self, status: &str)
        ensures
            final(self).buf == old(self).buf,
            final(self).out@ == old(self).out@ + status_response(status@),
    {
        bytes::append(&mut self.out, "HTTP/1.1 ".as_bytes());
        bytes::append(&mut self.out, status.as_bytes());
        bytes::append(&mut self.out, "\r\nContent-Length: 0\r\n\r\n".as_bytes());
        assert(self.out@ =~= old(self).out@ + status_response(status@));
    }

    /// Sends a response that consists of a status line.
    pub fn serve_status(&mut self, status: HttpStatus)
        ensures
            final(self).buf == old(self).buf,
            final(self).out@ == old(self).out@ + status_response(status.text()),
    {
        self.send_status_empty(status.as_str())
    }
}

/// How long the response is that says that a client's copy is up to date.
pub const NOT_MODIFIED_LEN: usize = 47;

proof fn lemma_not_modified_template()
    ensures
        ({
            let template = bytes::text("HTTP/1.1 304 Not Modified\r\nETag: \"xxxxxxxx\"\r\n\r\n"@);
            let head = bytes::text("HTTP/1.1 304 Not Modified\r\nETag: \""@);
            let tail = bytes::text("\"\r\n\r\n"@);
            &&& template.len() == NOT_MODIFIED_LEN
            &&& head.len() == 34
            &&& tail.len() == 5
            &&& template.subrange(0, 34) == head
            &&& template.subrange(42, 47) == tail
            &&& template[34] == 0x78
            &&& forall|i: int| 0 <= i < 34 ==> template[i] != 0x78
        }),
{
    reveal_strlit("HTTP/1.1 304 Not Modified\r\nETag: \"xxxxxxxx\"\r\n\r\n");
    reveal_strlit("HTTP/1.1 304 Not Modified\r\nETag: \"");
    reveal_strlit("\"\r\n\r\n");
    let template = "HTTP/1.1 304 Not Modified\r\nETag: \"xxxxxxxx\"\r\n\r\n"@;
    let head = "HTTP/1.1 304 Not Modified\r\nETag: \""@;
    let tail = "\"\r\n\r\n"@;
    let head_chars = seq!['H', 'T', 'T', 'P', '/', '1', '.', '1', ' ', '3', '0', '4', ' ', 'N', 'o', 't', ' ', 'M', 'o', 'd', 'i', 'f', 'i', 'e', 'd', '\r', '\n', 'E', 'T', 'a', 'g', ':', ' ', '"'];
    let tail_chars = seq!['"', '\r', '\n', '\r', '\n'];
    assert(head =~= head_chars);
    assert(tail =~= tail_chars);
    assert(template.subrange(0, 34) =~= head_chars);
    assert(template.subrange(42, 47) =~= tail_chars);
    assert(template =~= head + template.subrange(34, 42) + tail);
    assert(template.subrange(34, 42) =~= seq!['x', 'x', 'x', 'x', 'x', 'x', 'x', 'x']);
    vstd::utf8::is_ascii_chars_encode_utf8(template);
    vstd::utf8::is_ascii_chars_encode_utf8(head);
    vstd::utf8::is_ascii_chars_encode_utf8(tail);
    assert(bytes::text(template).subrange(0, 34) =~= bytes::text(head));
    assert(bytes::text(template).subrange(42, 47) =~= bytes::text(tail));
}

impl ResponseStream {
    /// Sends the response that says that a client's copy is up to date.
    pub fn serve_not_modified(&mut self, crc32: u32)
        requires
            NOT_MODIFIED_LEN <= old(self).buf@.len(),
        ensures
            final(self).buf@.len() == old(self).buf@.len(),
            final(self).buf@ == bytes::overwrite(
                old(self).buf@,
                0,
                not_modified_response(crc32),
            ),
            final(self).out@ == old(self).out@ + not_modified_response(crc32),
    {
        let template = "HTTP/1.1 304 Not Modified\r\nETag: \"xxxxxxxx\"\r\n\r\n".as_bytes();
        proof {
            lemma_not_modified_template();
        }
        bytes::copy_into(&mut self.buf, 0, template);
        let tag = encode_crc32(crc32);
        if let Some(crc_offset) = bytes::position(template, 0x78) {
            bytes::copy_into(&mut self.buf, crc_offset, &tag);
        }
        bytes::append(&mut self.out, &self.buf.as_slice()[0..NOT_MODIFIED_LEN]);
        assert(self.buf@.subrange(0, 47) =~= not_modified_response(crc32));
        assert(self.buf@ =~= bytes::overwrite(old(self).buf@, 0, not_modified_response(crc32)));
    }
}

/// How an entry is sent as it stands in the archive, where the client accepts that.
pub open spec fn compression_for(
    method: Method,
    accepted: AcceptedEncodings,
) -> Option<ContentCompression> {
    if method is Deflate && accepted.gzip {
        Some(ContentCompression { extra_len: 18, encoding: "gzip" })
    } else if method is Zstd && accepted.zstd {
        Some(ContentCompression { extra_len: 0, encoding: "zstd" })
    } else {
        None
    }
}

/// What is left to be sent behind the head of a response.
pub enum Transfer {
    /// Nothing.
    Finished,
    /// The data of an entry as it stands in the archive.
    Compressed(CompressedTransfer),
    /// The contents of an entry, decoded.
    Decompressed(DecompressedTransfer),
}

/// What is to be sent, and what then is left to be sent, when an entry is asked for.
pub enum EntryPlan {
    /// The head, and behind it the data as it stands in the archive.
    AsStored(Seq<u8>),
    /// The head, and behind it the decoded contents.
    Decode(Seq<u8>),
    /// The response that says that there is no decoder.
    Unsupported(Seq<u8>),
}

/// What is sent when an entry is asked for.
pub open spec fn entry_plan(
    mime: Seq<char>,
    entry: Entry,
    accepted: AcceptedEncodings,
) -> EntryPlan {
    let compression = compression_for(entry.method, accepted);
    let head = entry_head(mime, entry, compression);
    if compression is Some {
        EntryPlan::AsStored(head)
    } else if entry.method.supported() {
        EntryPlan::Decode(head)
    } else {
        EntryPlan::Unsupported(status_response("500 Unsupported Compression"@))
    }
}

/// Whether the sizes of an entry can be handled where it is sent as it stands in the archive.
pub open spec fn sendable(entry: Entry, accepted: AcceptedEncodings) -> bool {
    compression_for(entry.method, accepted) matches Some(c) ==> {
        &&& entry.compressed_size + c.extra_len <= u64::MAX
        &&& entry.compressed_size <= usize::MAX
    }
}

/// Whether a transfer is the one of an entry, at its beginning.
pub open spec fn starts(t: CompressedTransfer, entry: Entry) -> bool {
    &&& t.phase is Locate
    &&& t.offset == entry.header_offset
    &&& t.remaining == entry.compressed_size
    &&& t.tail@ == transfer::body_tail(entry)
}

/// Whether a response has gone out as planned: `sent` is what was added to it, and `left` what
/// is left to be sent.
pub open spec fn follows_plan(
    plan: EntryPlan,
    entry: Entry,
    room: int,
    sent: Seq<u8>,
    left: Result<Transfer, BufferFull>,
) -> bool {
    match plan {
        EntryPlan::AsStored(head) => if head.len() > room {
            left is Err && sent == Seq::<u8>::empty()
        } else {
            &&& left matches Ok(Transfer::Compressed(t))
            &&& starts(t, entry)
            &&& sent == head + transfer::body_head(entry)
        },
        EntryPlan::Decode(head) => if head.len() > room {
            left is Err && sent == Seq::<u8>::empty()
        } else {
            &&& left matches Ok(Transfer::Decompressed(t))
            &&& t@ == Decoding::of(entry)
            &&& sent == head
        },
        EntryPlan::Unsupported(response) => {
            left matches Ok(Transfer::Finished) && sent == response
        },
    }
}

/// What an entry leaves in the buffer of the connection: the head of the response, where there is
/// one and it fits.
pub open spec fn buffer_after(plan: EntryPlan, buf: Seq<u8>) -> Seq<u8> {
    match plan {
        EntryPlan::AsStored(head) => head_in(buf, head),
        EntryPlan::Decode(head) => head_in(buf, head),
        EntryPlan::Unsupported(_) => buf,
    }
}

/// A buffer with a head at its front, where that fits.
pub open spec fn head_in(buf: Seq<u8>, head: Seq<u8>) -> Seq<u8> {
    if head.len() > buf.len() {
        buf
    } else {
        bytes::overwrite(buf, 0, head)
    }
}

impl ResponseStream {
    /// Sends a directory listing.
    pub fn serve_index(
        &mut self,
        preamble: &str,
        is_root: bool,
        entries: &[FsTreeNode<Entry>],
    ) -> (r: Result<(), BufferFull>)
        requires
            listing::CHUNK_SIZE_LEN + 2 <= old(self).buf@.len(),
        ensures
            final(self).buf@.len() == old(self).buf@.len(),
            ({
                let p = listing::listing(
                    old(self).out@ + listing::listing_head(),
                    bytes::text(preamble@),
                    is_root,
                    fstree::trees_of(entries@),
                    listing::chunk_room(old(self).buf@.len() as int),
                );
                &&& r is Err == p.failed
                &&& final(self).out@ == listing::listing_output(p)
                &&& r is Ok ==> final(self).buf@ == listing::listing_buffer(
                    old(self).buf@,
                    bytes::text(preamble@),
                    is_root,
                    fstree::trees_of(entries@),
                )
            }),
    {
        if listing::write_listing(&mut self.out, &mut self.buf, preamble, is_root, entries) {
            Ok(())
        } else {
            Err(BufferFull)
        }
    }

    /// Sends the head of a response with the contents of an entry of a known media type, and
    /// tells what is left to be sent.
    pub fn serve_typed_entry(
        &mut self,
        mime: &str,
        entry: &Entry,
        accepted_encodings: AcceptedEncodings,
    ) -> (r: Result<Transfer, BufferFull>)
        requires
            sendable(*entry, accepted_encodings),
        ensures
            final(self).buf@.len() == old(self).buf@.len(),
            final(self).out@.len() >= old(self).out@.len(),
            final(self).out@.take(old(self).out@.len() as int) == old(self).out@,
            follows_plan(
                entry_plan(mime@, *entry, accepted_encodings),
                *entry,
                old(self).buf@.len() as int,
                final(self).out@.skip(old(self).out@.len() as int),
                r,
            ),
            final(self).buf@ == buffer_after(
                entry_plan(mime@, *entry, accepted_encodings),
                old(self).buf@,
            ),
    {
        let ghost before = self.out@;
        let compression = match entry.method {
            Method::Deflate if accepted_encodings.gzip => Some(
                ContentCompression { extra_len: 18, encoding: "gzip" },
            ),
            Method::Zstd if accepted_encodings.zstd => Some(
                ContentCompression { extra_len: 0, encoding: "zstd" },
            ),
            _ => None,
        };
        assert(compression == compression_for(entry.method, accepted_encodings));
        if compression.is_some() {
            match self.send_typed_header(mime, entry, compression.as_ref()) {
                Ok(()) => {
                    let t = CompressedTransfer::start(entry, self);
                    assert(self.out@.skip(before.len() as int) =~= entry_head(
                        mime@,
                        *entry,
                        compression,
                    ) + transfer::body_head(*entry));
                    assert(self.out@.take(before.len() as int) =~= before);
                    Ok(Transfer::Compressed(t))
                },
                Err(e) => {
                    assert(self.out@.skip(before.len() as int) =~= Seq::<u8>::empty());
                    assert(self.out@.take(before.len() as int) =~= before);
                    Err(e)
                },
            }
        } else if is_method_supported(entry.method) {
            match self.send_typed_header(mime, entry, None) {
                Ok(()) => {
                    assert(self.out@.skip(before.len() as int) =~= entry_head(
                        mime@,
                        *entry,
                        compression,
                    ));
                    assert(self.out@.take(before.len() as int) =~= before);
                    Ok(Transfer::Decompressed(DecompressedTransfer::start(entry)))
                },
                Err(e) => {
                    assert(self.out@.skip(before.len() as int) =~= Seq::<u8>::empty());
                    assert(self.out@.take(before.len() as int) =~= before);
                    Err(e)
                },
            }
        } else {
            self.send_status_empty("500 Unsupported Compression");
            assert(self.out@.skip(before.len() as int) =~= status_response(
                "500 Unsupported Compression"@,
            ));
            assert(self.out@.take(before.len() as int) =~= before);
            Ok(Transfer::Finished)
        }
    }
}

/// What is sent for a file or a directory.
pub enum Target {
    /// The contents of an entry.
    Contents(Entry),
    /// A listing of these children.
    Listing { is_root: bool, children: Seq<Tree<Entry>> },
}

/// What is sent for a file or a directory: of a directory the file recorded as its index, or a
/// listing where there is none.
pub open spec fn target(node: Tree<Entry>) -> Target {
    match node {
        Tree::Dir { children, is_root, index_html_index, .. } => match index_html_index {
            Some(i) => match children[i as int] {
                Tree::File { entry, .. } => Target::Contents(entry),
                Tree::Dir { .. } => Target::Listing { is_root, children },
            },
            None => Target::Listing { is_root, children },
        },
        Tree::File { entry, .. } => Target::Contents(entry),
    }
}

/// Whether a node can be sent through a buffer of a length.
pub open spec fn servable(node: Tree<Entry>, accepted: AcceptedEncodings, buf_len: int) -> bool {
    &&& node matches Tree::Dir { children, index_html_index: Some(i), .. } ==> i < children.len()
    &&& match target(node) {
        Target::Contents(entry) => sendable(entry, accepted),
        Target::Listing { .. } => listing::CHUNK_SIZE_LEN + 2 <= buf_len,
    }
}

/// Whether a buffer is what a node leaves of another, with `sent` sent before. Of a listing that
/// fails only the length is told.
pub open spec fn leaves_buffer(
    node: Tree<Entry>,
    accepted: AcceptedEncodings,
    preamble: Seq<u8>,
    sent: Seq<u8>,
    before: Seq<u8>,
    after: Seq<u8>,
) -> bool {
    match target(node) {
        Target::Contents(entry) => after == buffer_after(
            entry_plan(outside::mime_essence(entry.name@), entry, accepted),
            before,
        ),
        Target::Listing { is_root, children } => {
            let p = listing::listing(
                sent + listing::listing_head(),
                preamble,
                is_root,
                children,
                listing::chunk_room(before.len() as int),
            );
            &&& after.len() == before.len()
            &&& !p.failed ==> after == listing::listing_buffer(before, preamble, is_root, children)
        },
    }
}

/// Whether a response for a node is right: `before` is what was to be sent before, `after` what
/// is to be sent now, and `left` what is left to be sent.
pub open spec fn serves(
    node: Tree<Entry>,
    accepted: AcceptedEncodings,
    preamble: Seq<u8>,
    buf_len: int,
    before: Seq<u8>,
    after: Seq<u8>,
    left: Result<Transfer, BufferFull>,
) -> bool {
    match target(node) {
        Target::Contents(entry) => {
            &&& before.len() <= after.len()
            &&& after.take(before.len() as int) == before
            &&& follows_plan(
                entry_plan(outside::mime_essence(entry.name@), entry, accepted),
                entry,
                buf_len,
                after.skip(before.len() as int),
                left,
            )
        },
        Target::Listing { is_root, children } => {
            let p = listing::listing(
                before + listing::listing_head(),
                preamble,
                is_root,
                children,
                listing::chunk_room(buf_len),
            );
            &&& after == listing::listing_output(p)
            &&& if p.failed {
                left is Err
            } else {
                left matches Ok(Transfer::Finished)
            }
        },
    }
}

impl ResponseStream {
    /// Sends the head of a response with the contents of an entry, and tells what is left to be
    /// sent.
    fn serve_entry(
        &mut self,
        entry: &Entry,
        accepted_encodings: AcceptedEncodings,
    ) -> (r: Result<Transfer, BufferFull>)
        requires
            sendable(*entry, accepted_encodings),
        ensures
            final(self).buf@.len() == old(self).buf@.len(),
            final(self).out@.len() >= old(self).out@.len(),
            final(self).out@.take(old(self).out@.len() as int) == old(self).out@,
            follows_plan(
                entry_plan(outside::mime_essence(entry.name@), *entry, accepted_encodings),
                *entry,
                old(self).buf@.len() as int,
                final(self).out@.skip(old(self).out@.len() as int),
                r,
            ),
            final(self).buf@ == buffer_after(
                entry_plan(outside::mime_essence(entry.name@), *entry, accepted_encodings),
                old(self).buf@,
            ),
    {
        let mime = outside::guess_mime(entry.name.as_str());
        self.serve_typed_entry(mime.as_str(), entry, accepted_encodings)
    }

    /// Sends a file, or a directory, as far as that does not need the archive, and tells what is
    /// left to be sent.
    pub fn serve_node(
        &mut self,
        preamble: &str,
        node: &FsTreeNode<Entry>,
        accepted_encodings: AcceptedEncodings,
    ) -> (r: Result<Transfer, BufferFull>)
        requires
            servable(node@, accepted_encodings, old(self).buf@.len() as int),
        ensures
            final(self).buf@.len() == old(self).buf@.len(),
            leaves_buffer(
                node@,
                accepted_encodings,
                bytes::text(preamble@),
                old(self).out@,
                old(self).buf@,
                final(self).buf@,
            ),
            serves(
                node@,
                accepted_encodings,
                bytes::text(preamble@),
                old(self).buf@.len() as int,
                old(self).out@,
                final(self).out@,
                r,
            ),
    {
        match node {
            FsTreeNode::Dir { is_root, children, index_html_index, .. } => {
                assert(node@->children =~= fstree::trees_of(children@));
                if let Some(idx) = index_html_index {
                    if let FsTreeNode::File { entry, .. } = &children[*idx] {
                        return self.serve_entry(entry, accepted_encodings);
                    }
                }
                match self.serve_index(preamble, *is_root, children.as_slice()) {
                    Ok(()) => Ok(Transfer::Finished),
                    Err(e) => Err(e),
                }
            },
            FsTreeNode::File { entry, .. } => self.serve_entry(entry, accepted_encodings),
        }
    }
}

/// Whether a node can be sent through a buffer of a length.
pub fn can_serve(
    node: &FsTreeNode<Entry>,
    accepted_encodings: AcceptedEncodings,
    buf_len: usize,
) -> (r: bool)
    ensures
        r == servable(node@, accepted_encodings, buf_len as int),
{
    match node {
        FsTreeNode::Dir { children, index_html_index, .. } => {
            assert(node@->children =~= fstree::trees_of(children@));
            if let Some(idx) = index_html_index {
                if *idx >= children.len() {
                    return false;
                }
                if let FsTreeNode::File { entry, .. } = &children[*idx] {
                    return can_send(entry, accepted_encodings);
                }
            }
            buf_len >= listing::CHUNK_SIZE_LEN + 2
        },
        FsTreeNode::File { entry, .. } => can_send(entry, accepted_encodings),
    }
}

/// Whether the sizes of an entry can be handled.
fn can_send(entry: &Entry, accepted_encodings: AcceptedEncodings) -> (r: bool)
    ensures
        r == sendable(*entry, accepted_encodings),
{
    match entry.method {
        Method::Deflate if accepted_encodings.gzip => entry.compressed_size <= u64::MAX - 18
            && entry.compressed_size <= usize::MAX as u64,
        Method::Zstd if accepted_encodings.zstd => entry.compressed_size <= usize::MAX as u64,
        _ => true,
    }
}

} // verus!
