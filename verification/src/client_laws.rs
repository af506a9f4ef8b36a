//! What a client makes of the responses that it gets.
use vstd::prelude::*;

use crate::bytes;
use crate::client;
use crate::encoding;
use crate::encoding_laws;
use crate::entry::{Entry, Method};
use crate::literals;
use crate::request::AcceptedEncodings;
use crate::stream;
use crate::stream::{BufferFull, ContentCompression, Transfer};
use crate::transfer;
use crate::transfer::{CompressedTransfer, Decoding, DecompressedTransfer};

verus! {

/// The number in four bytes, the least significant first.
pub open spec fn le_number(b: Seq<u8>) -> int {
    b[0] + 0x100 * b[1] + 0x1_0000 * b[2] + 0x100_0000 * b[3]
}

/// Whether the value of an entity tag header is eight hexadecimal digits in quotation marks that
/// stand for the bytes of a checksum, the least significant first.
pub open spec fn is_tag_of(value: Seq<u8>, crc32: u32) -> bool {
    &&& value.len() == 10
    &&& value[0] == 0x22
    &&& value[9] == 0x22
    &&& encoding::hex_bytes(value.subrange(1, 9)) matches Some(b)
    &&& le_number(b) == crc32
}

/// Whether there is a decoder for a method.
pub open spec fn decodable(method: Method) -> bool {
    match method {
        Method::Store => true,
        Method::Deflate => true,
        Method::Deflate64 => true,
        Method::Bzip2 => true,
        Method::Lzma => true,
        Method::Zstd => true,
        _ => false,
    }
}

/// Whether a response says to a client what belongs to the contents of an entry: that they
/// follow, of which media type they are, how many bytes follow, how long a copy can be kept, and
/// their tag.
pub open spec fn announces(
    out: Seq<u8>,
    mime: Seq<u8>,
    encoding: Option<Seq<u8>>,
    length: nat,
    crc32: u32,
) -> bool {
    &&& client::status(out) == Some(200nat)
    &&& client::header(out, bytes::text("Content-Type"@)) == Some(mime)
    &&& client::header(out, bytes::text("Content-Encoding"@)) == encoding
    &&& client::header_number(out, bytes::text("Content-Length"@)) == Some(length)
    &&& client::header(out, bytes::text("Transfer-Encoding"@)) is None
    &&& client::header(out, bytes::text("Cache-control"@)) == Some(
        bytes::text("max-age=180, public"@),
    )
    &&& client::header(out, bytes::text("ETag"@)) matches Some(tag) && is_tag_of(tag, crc32)
}

/// Whether bytes are the header of a gzip file of deflated data that has no optional fields, no
/// time and no known system.
pub open spec fn is_gzip_header(b: Seq<u8>) -> bool {
    &&& b.len() == 10
    &&& b[0] == 0x1f && b[1] == 0x8b
    &&& b[2] == 8
    &&& b[3] == 0
    &&& b[4] == 0 && b[5] == 0 && b[6] == 0 && b[7] == 0
    &&& b[9] == 0xff
}

/// Whether bytes are the trailer of a gzip file: the checksum, and the size modulo 2 to the 32nd.
pub open spec fn is_gzip_trailer(b: Seq<u8>, crc32: u32, size: u64) -> bool {
    &&& b.len() == 8
    &&& le_number(b) == crc32
    &&& le_number(b.skip(4)) == size % 0x1_0000_0000
}

/// Whether a response delivers the contents of an entry to a client that accepts some encodings:
/// `out` is what is sent at once, and `left` what is left to be sent.
///
/// Data that stands in the archive in an encoding that the client accepts follows as it stands,
/// under the name of that encoding, and with what the encoding asks for around it. Other contents
/// follow decoded, under no encoding, where there is a decoder. The length is that of all that
/// follows.
pub open spec fn delivers(
    entry: Entry,
    mime: Seq<u8>,
    gzip: bool,
    zstd: bool,
    out: Seq<u8>,
    left: Transfer,
) -> bool {
    match left {
        Transfer::Compressed(t) => {
            let around = client::body(out).len() + t.tail@.len();
            &&& t.phase is Locate
            &&& t.offset == entry.header_offset
            &&& t.remaining == entry.compressed_size
            &&& if entry.method is Deflate {
                &&& gzip
                &&& is_gzip_header(client::body(out))
                &&& is_gzip_trailer(t.tail@, entry.crc32, entry.uncompressed_size)
                &&& announces(
                    out,
                    mime,
                    Some(bytes::text("gzip"@)),
                    (entry.compressed_size + around) as nat,
                    entry.crc32,
                )
            } else {
                &&& entry.method is Zstd
                &&& zstd
                &&& around == 0
                &&& announces(
                    out,
                    mime,
                    Some(bytes::text("zstd"@)),
                    entry.compressed_size as nat,
                    entry.crc32,
                )
            }
        },
        Transfer::Decompressed(t) => {
            &&& decodable(entry.method)
            &&& !(entry.method is Deflate && gzip)
            &&& !(entry.method is Zstd && zstd)
            &&& t@.history.len() == 0
            &&& t@.offset == entry.header_offset
            &&& client::body(out).len() == 0
            &&& announces(out, mime, None, entry.uncompressed_size as nat, entry.crc32)
        },
        Transfer::Finished => {
            &&& !decodable(entry.method)
            &&& is_status(out, 500)
        },
    }
}

/// Whether a response is a status and nothing else.
pub open spec fn is_status(out: Seq<u8>, status: nat) -> bool {
    &&& client::status(out) == Some(status)
    &&& client::header_number(out, bytes::text("Content-Length"@)) == Some(0nat)
    &&& client::header(out, bytes::text("Content-Encoding"@)) is None
    &&& client::body(out).len() == 0
}

pub(crate) proof fn lemma_status(s: Seq<u8>, a: u8, b: u8, c: u8)
    requires
        s.len() >= 13,
        s.take(13) == seq![
            0x48u8, 0x54, 0x54, 0x50, 0x2f, 0x31, 0x2e, 0x31, 0x20, a, b, c, 0x20,
        ],
        0x30 <= a <= 0x39,
        0x30 <= b <= 0x39,
        0x30 <= c <= 0x39,
    ensures
        client::status(s) == Some((100 * (a - 0x30) + 10 * (b - 0x30) + (c - 0x30)) as nat),
{
    let t = s.take(13);
    assert forall|i: int| 0 <= i < 13 implies s[i] == #[trigger] t[i] by {}
    assert(s[0] == t[0] && s[1] == t[1] && s[2] == t[2] && s[3] == t[3] && s[4] == t[4]);
    assert(s[5] == t[5] && s[6] == t[6] && s[7] == t[7] && s[8] == t[8] && s[12] == t[12]);
    let front = seq![0x48u8, 0x54, 0x54, 0x50, 0x2f, 0x31, 0x2e, 0x31, 0x20];
    assert(client::begins(s, front));
    let d = s.subrange(9, 12);
    assert(d =~= seq![t[9], t[10], t[11]]);
    assert(d =~= seq![a, b, c]);
    assert(d.drop_last() =~= seq![a, b]);
    assert(d.drop_last().drop_last() =~= seq![a]);
    reveal_with_fuel(client::number, 4);
}

/// A text differs from a line that has another byte somewhere in its front.
pub(crate) proof fn lemma_other(front: Seq<u8>, value: Seq<u8>, key: Seq<u8>, i: int)
    requires
        0 <= i < front.len(),
        i < key.len(),
        front[i] != key[i],
    ensures
        !client::begins(front + value, key),
{
    assert((front + value)[i] == front[i]);
}

/// A line begins with its own name.
pub(crate) proof fn lemma_own(key: Seq<u8>, value: Seq<u8>)
    ensures
        client::begins(key + value, key),
        (key + value).skip(key.len() as int) == value,
{
    assert((key + value).skip(key.len() as int) =~= value);
}

/// The names of headers, with what separates them from their values, and where they differ.
pub(crate) proof fn lemma_keys()
    ensures
        ({
            let colon = seq![0x3au8, 0x20u8];
            let a = bytes::text("Content-Type: "@);
            let b = bytes::text("Content-Encoding: "@);
            let c = bytes::text("Content-Length: "@);
            let d = bytes::text("ETag: "@);
            let e = bytes::text("Transfer-Encoding"@) + colon;
            &&& a == bytes::text("Content-Type"@) + colon
            &&& b == bytes::text("Content-Encoding"@) + colon
            &&& c == bytes::text("Content-Length"@) + colon
            &&& d == bytes::text("ETag"@) + colon
            &&& a.len() == 14 && a[0] == 0x43 && a[1] == 0x6f && a[8] == 0x54
            &&& b.len() == 18 && b[0] == 0x43 && b[1] == 0x6f && b[8] == 0x45
            &&& c.len() == 16 && c[0] == 0x43 && c[1] == 0x6f && c[8] == 0x4c
            &&& d.len() == 6 && d[0] == 0x45
            &&& e.len() == 19 && e[0] == 0x54
            &&& client::one_line(a) && client::one_line(b) && client::one_line(c)
            &&& client::one_line(d)
        }),
{
    literals::lemma_type_is();
    literals::lemma_encoding_is();
    literals::lemma_length_is();
    literals::lemma_tag_key();
    literals::lemma_type_name();
    literals::lemma_encoding_name();
    literals::lemma_length_name();
    literals::lemma_tag_name();
    literals::lemma_transfer_name();
    let colon = seq![0x3au8, 0x20u8];
    assert(bytes::text("Content-Type: "@) =~= bytes::text("Content-Type"@) + colon);
    assert(bytes::text("Content-Encoding: "@) =~= bytes::text("Content-Encoding"@) + colon);
    assert(bytes::text("Content-Length: "@) =~= bytes::text("Content-Length"@) + colon);
    assert(bytes::text("ETag: "@) =~= bytes::text("ETag"@) + colon);
}

/// The parts of the texts that the head of an entry's response is made of.
pub(crate) proof fn lemma_entry_texts()
    ensures
        ({
            let line_break = seq![0x0du8, 0x0au8];
            let quote = seq![0x22u8];
            let first = bytes::text("HTTP/1.1 200 OK"@);
            let last = bytes::text("Cache-control: max-age=180, public"@);
            &&& bytes::text("\r\n"@) == line_break
            &&& bytes::text("HTTP/1.1 200 OK\r\nContent-Type: "@) == first + line_break
                + bytes::text("Content-Type: "@)
            &&& bytes::text("\r\nETag: \""@) == line_break + bytes::text("ETag: "@) + quote
            &&& bytes::text("\"\r\nCache-control: max-age=180, public\r\n\r\n"@) == quote
                + line_break + last + line_break + line_break
            &&& client::one_line(first)
            &&& client::one_line(last)
            &&& first.len() == 15
            &&& first.take(13) == seq![
                0x48u8, 0x54, 0x54, 0x50, 0x2f, 0x31, 0x2e, 0x31, 0x20, 0x32, 0x30, 0x30, 0x20,
            ]
            &&& first[0] == 0x48
            &&& last.len() == 34
            &&& last[0] == 0x43
            &&& last[1] == 0x61
            &&& last == (bytes::text("Cache-control"@) + seq![0x3au8, 0x20u8]) + bytes::text(
                "max-age=180, public"@,
            )
            &&& bytes::text("Cache-control"@).len() == 13
        }),
{
    literals::lemma_ok_type();
    literals::lemma_ok_line();
    literals::lemma_type_is();
    literals::lemma_line_break();
    literals::lemma_tag_is();
    literals::lemma_tag_key();
    literals::lemma_cache_control();
    literals::lemma_cache_line();
    literals::lemma_cache_name();
    literals::lemma_cache_value();
    let line_break = seq![0x0du8, 0x0au8];
    let quote = seq![0x22u8];
    let first = bytes::text("HTTP/1.1 200 OK"@);
    let last = bytes::text("Cache-control: max-age=180, public"@);
    assert(bytes::text("HTTP/1.1 200 OK\r\nContent-Type: "@) =~= first + line_break
        + bytes::text("Content-Type: "@));
    assert(bytes::text("\r\nETag: \""@) =~= line_break + bytes::text("ETag: "@) + quote);
    assert(bytes::text("\"\r\nCache-control: max-age=180, public\r\n\r\n"@) =~= quote + line_break
        + last + line_break + line_break);
    assert(first.take(13) =~= seq![
        0x48u8, 0x54, 0x54, 0x50, 0x2f, 0x31, 0x2e, 0x31, 0x20, 0x32, 0x30, 0x30, 0x20,
    ]);
    assert(last =~= (bytes::text("Cache-control"@) + seq![0x3au8, 0x20u8]) + bytes::text(
        "max-age=180, public"@,
    ));
}

/// The head of an entry's response, line by line; `named` is the line of the encoding with its
/// break, where there is one.
spec fn entry_lines(
    mime: Seq<u8>,
    named: Seq<u8>,
    length: Seq<u8>,
    tag: Seq<u8>,
    more: Seq<u8>,
) -> Seq<u8> {
    let line_break = seq![0x0du8, 0x0au8];
    let s5 = bytes::text("Cache-control: max-age=180, public"@) + line_break + (line_break + more);
    let s4 = (bytes::text("ETag: "@) + tag) + line_break + s5;
    let s3 = (bytes::text("Content-Length: "@) + length) + line_break + s4;
    let s1 = (bytes::text("Content-Type: "@) + mime) + line_break + (named + s3);
    bytes::text("HTTP/1.1 200 OK"@) + line_break + s1
}

proof fn lemma_entry_lines(
    mime: Seq<char>,
    entry: Entry,
    compression: Option<ContentCompression>,
    more: Seq<u8>,
)
    ensures
        stream::entry_head(mime, entry, compression) + more == entry_lines(
            bytes::text(mime),
            stream::encoding_line(compression),
            encoding::decimal(stream::content_length(entry, compression)),
            seq![0x22u8] + stream::etag(entry.crc32) + seq![0x22u8],
            more,
        ),
{
    lemma_entry_texts();
    let b = seq![0x0du8, 0x0au8];
    let q = seq![0x22u8];
    let a = bytes::text("HTTP/1.1 200 OK"@);
    let ty = bytes::text("Content-Type: "@);
    let m = bytes::text(mime);
    let e = stream::encoding_line(compression);
    let le = bytes::text("Content-Length: "@);
    let n = encoding::decimal(stream::content_length(entry, compression));
    let ta = bytes::text("ETag: "@);
    let t = stream::etag(entry.crc32);
    let c = bytes::text("Cache-control: max-age=180, public"@);
    let front = a + b + ty + m + b;
    let front_lines = a + b + ((ty + m) + b);
    assert(front =~= front_lines);
    let back = (q + b + c + b + b) + more;
    assert(back =~= q + (b + (c + b + (b + more))));
    let s5 = c + b + (b + more);
    let tagged = (b + ta + q) + t + (q + (b + s5));
    assert(tagged =~= b + ((ta + (q + t + q)) + b + s5));
    lemma_regroup(front, e, le, n, b + ta + q, t, q + b + c + b + b, more);
    let s4 = (ta + (q + t + q)) + b + s5;
    let s3 = (le + n) + b + s4;
    assert(le + n + (b + s4) =~= s3);
    assert(front_lines + (e + s3) =~= a + b + ((ty + m) + b + (e + s3)));
}

proof fn lemma_regroup(
    front: Seq<u8>,
    e: Seq<u8>,
    le: Seq<u8>,
    n: Seq<u8>,
    x: Seq<u8>,
    t: Seq<u8>,
    y: Seq<u8>,
    more: Seq<u8>,
)
    ensures
        front + e + le + n + x + t + y + more == front + (e + (le + n + (x + t + (y + more)))),
{
    assert(x + t + (y + more) =~= x + t + y + more);
    assert(front + e + le + n + x + t + y + more =~= front + e + (le + n) + (x + t + y + more));
    assert(front + e + (le + n) + (x + t + y + more) =~= front + (e + (le + n + (x + t + y
        + more))));
}

/// What a client reads of the head of an entry's response, line by line.
proof fn lemma_entry_read(
    mime: Seq<u8>,
    encoding: Option<Seq<u8>>,
    length: Seq<u8>,
    tag: Seq<u8>,
    more: Seq<u8>,
    out: Seq<u8>,
)
    requires
        client::one_line(mime),
        encoding matches Some(e) ==> client::one_line(e),
        client::one_line(length),
        client::one_line(tag),
        out == entry_lines(
            mime,
            match encoding {
                Some(e) => bytes::text("Content-Encoding: "@) + e + seq![0x0du8, 0x0au8],
                None => Seq::empty(),
            },
            length,
            tag,
            more,
        ),
    ensures
        client::body(out) == more,
        client::status(out) == Some(200nat),
        client::header(out, bytes::text("Content-Type"@)) == Some(mime),
        client::header(out, bytes::text("Content-Encoding"@)) == encoding,
        client::header(out, bytes::text("Content-Length"@)) == Some(length),
        client::header(out, bytes::text("Transfer-Encoding"@)) is None,
        client::header(out, bytes::text("ETag"@)) == Some(tag),
        client::header(out, bytes::text("Cache-control"@)) == Some(
            bytes::text("max-age=180, public"@),
        ),
{
    lemma_entry_texts();
    lemma_keys();
    let b = seq![0x0du8, 0x0au8];
    let colon = seq![0x3au8, 0x20u8];
    let none = Seq::<u8>::empty();
    let a = bytes::text("Content-Type: "@);
    let ek = bytes::text("Content-Encoding: "@);
    let c = bytes::text("Content-Length: "@);
    let d = bytes::text("ETag: "@);
    let t = bytes::text("Transfer-Encoding"@) + colon;
    let l0 = bytes::text("HTTP/1.1 200 OK"@);
    let l1 = a + mime;
    let l3 = c + length;
    let l4 = d + tag;
    let l5 = bytes::text("Cache-control: max-age=180, public"@);
    let s5 = l5 + b + (b + more);
    let s4 = l4 + b + s5;
    let s3 = l3 + b + s4;
    let s2 = match encoding {
        Some(e) => (ek + e) + b + s3,
        None => s3,
    };
    let s1 = l1 + b + s2;
    client::lemma_one_line_add(a, mime);
    client::lemma_one_line_add(c, length);
    client::lemma_one_line_add(d, tag);
    if let Some(e) = encoding {
        client::lemma_one_line_add(ek, e);
    } else {
        assert(none + s3 =~= s3);
    }
    assert(out == l0 + b + s1);
    assert(l0 + none =~= l0);
    assert(l5 + none =~= l5);
    lemma_own(a, mime);
    lemma_own(c, length);
    lemma_own(d, tag);
    // The media type.
    let n = bytes::text("Content-Type"@);
    client::lemma_line(l0, s1, n);
    lemma_other(l0, none, a, 0);
    client::lemma_line(l1, s2, n);
    // The encoding.
    let n = bytes::text("Content-Encoding"@);
    client::lemma_line(l0, s1, n);
    lemma_other(l0, none, ek, 0);
    client::lemma_line(l1, s2, n);
    lemma_other(a, mime, ek, 8);
    if let Some(e) = encoding {
        client::lemma_line(ek + e, s3, n);
        lemma_own(ek, e);
    }
    client::lemma_line(l3, s4, n);
    lemma_other(c, length, ek, 8);
    client::lemma_line(l4, s5, n);
    lemma_other(d, tag, ek, 0);
    client::lemma_line(l5, b + more, n);
    lemma_other(l5, none, ek, 1);
    client::lemma_head_end(more, n);
    // The length.
    let n = bytes::text("Content-Length"@);
    client::lemma_line(l0, s1, n);
    lemma_other(l0, none, c, 0);
    client::lemma_line(l1, s2, n);
    lemma_other(a, mime, c, 8);
    if let Some(e) = encoding {
        client::lemma_line(ek + e, s3, n);
        lemma_other(ek, e, c, 8);
    }
    client::lemma_line(l3, s4, n);
    // The transfer encoding.
    let n = bytes::text("Transfer-Encoding"@);
    client::lemma_line(l0, s1, n);
    lemma_other(l0, none, t, 0);
    client::lemma_line(l1, s2, n);
    lemma_other(a, mime, t, 0);
    if let Some(e) = encoding {
        client::lemma_line(ek + e, s3, n);
        lemma_other(ek, e, t, 0);
    }
    client::lemma_line(l3, s4, n);
    lemma_other(c, length, t, 0);
    client::lemma_line(l4, s5, n);
    lemma_other(d, tag, t, 0);
    client::lemma_line(l5, b + more, n);
    lemma_other(l5, none, t, 0);
    client::lemma_head_end(more, n);
    // The tag.
    let n = bytes::text("ETag"@);
    client::lemma_line(l0, s1, n);
    lemma_other(l0, none, d, 0);
    client::lemma_line(l1, s2, n);
    lemma_other(a, mime, d, 0);
    if let Some(e) = encoding {
        client::lemma_line(ek + e, s3, n);
        lemma_other(ek, e, d, 0);
    }
    client::lemma_line(l3, s4, n);
    lemma_other(c, length, d, 0);
    client::lemma_line(l4, s5, n);
    // How long a copy can be kept.
    let n = bytes::text("Cache-control"@);
    let kept = n + colon;
    assert(kept[0] == l5[0] && kept[1] == l5[1]);
    client::lemma_line(l0, s1, n);
    lemma_other(l0, none, kept, 0);
    client::lemma_line(l1, s2, n);
    lemma_other(a, mime, kept, 1);
    if let Some(e) = encoding {
        client::lemma_line(ek + e, s3, n);
        lemma_other(ek, e, kept, 1);
    }
    client::lemma_line(l3, s4, n);
    lemma_other(c, length, kept, 1);
    client::lemma_line(l4, s5, n);
    lemma_other(d, tag, kept, 0);
    client::lemma_line(l5, b + more, n);
    lemma_own(kept, bytes::text("max-age=180, public"@));
    assert(out.take(13) =~= l0.take(13));
    lemma_status(out, 0x32, 0x30, 0x30);
}

/// What a client reads of the head of a response with the contents of an entry, whatever follows.
pub(crate) proof fn lemma_entry_head(
    mime: Seq<char>,
    entry: Entry,
    compression: Option<ContentCompression>,
    more: Seq<u8>,
)
    requires
        client::one_line(bytes::text(mime)),
        compression matches Some(c) ==> client::one_line(bytes::text(c.encoding@)),
    ensures
        ({
            let out = stream::entry_head(mime, entry, compression) + more;
            &&& client::body(out) == more
            &&& announces(
                out,
                bytes::text(mime),
                match compression {
                    Some(c) => Some(bytes::text(c.encoding@)),
                    None => None,
                },
                stream::content_length(entry, compression),
                entry.crc32,
            )
        }),
{
    let n = stream::content_length(entry, compression);
    let tag = stream::etag(entry.crc32);
    let quoted = seq![0x22u8] + tag + seq![0x22u8];
    client::law_decimal_read(n);
    client::lemma_decimal_one_line(n);
    lemma_tag(entry.crc32);
    client::lemma_one_line_add(seq![0x22u8], tag);
    client::lemma_one_line_add(seq![0x22u8] + tag, seq![0x22u8]);
    assert(quoted.subrange(1, 9) =~= tag);
    lemma_entry_lines(mime, entry, compression, more);
    literals::lemma_line_break();
    lemma_entry_read(
        bytes::text(mime),
        match compression {
            Some(c) => Some(bytes::text(c.encoding@)),
            None => None,
        },
        encoding::decimal(n),
        quoted,
        more,
        stream::entry_head(mime, entry, compression) + more,
    );
}

/// The entity tag of an entry is eight digits, which stand for its checksum.
pub(crate) proof fn lemma_tag(crc32: u32)
    ensures
        stream::etag(crc32).len() == 8,
        client::one_line(stream::etag(crc32)),
        encoding::hex_bytes(stream::etag(crc32)) matches Some(b) && b.len() == 4 && le_number(b)
            == crc32,
{
    let tag = stream::etag(crc32);
    let b = encoding::le_bytes(crc32);
    encoding_laws::law_hex_round_trip(b);
    assert forall|i: int| 0 <= i < tag.len() implies #[trigger] tag[i] != 0x0d by {
        let x = b[i / 2] as int;
        assert(0 <= x / 16 < 16 && 0 <= x % 16 < 16);
    }
    let q = crc32 / 0x100;
    let r = crc32 / 0x10000;
    let s = crc32 / 0x1000000;
    assert(crc32 == 0x100 * q + crc32 % 256);
    assert(q == 0x100 * r + q % 256);
    assert(r == 0x100 * s + r % 256);
}

/// What a client reads of a response that is a status.
pub(crate) proof fn lemma_status_response(status: Seq<char>, a: u8, b_: u8, c: u8)
    requires
        client::one_line(bytes::text(status)),
        bytes::text(status).len() >= 4,
        bytes::text(status).take(4) == seq![a, b_, c, 0x20u8],
        0x30 <= a <= 0x39,
        0x30 <= b_ <= 0x39,
        0x30 <= c <= 0x39,
    ensures
        is_status(
            stream::status_response(status),
            (100 * (a - 0x30) + 10 * (b_ - 0x30) + (c - 0x30)) as nat,
        ),
{
    literals::lemma_version();
    literals::lemma_no_body();
    literals::lemma_no_length();
    lemma_keys();
    let out = stream::status_response(status);
    let version = bytes::text("HTTP/1.1 "@);
    let end = bytes::text("\r\nContent-Length: 0\r\n\r\n"@);
    let b = seq![0x0du8, 0x0au8];
    let none = Seq::<u8>::empty();
    let zero = seq![0x30u8];
    let length = bytes::text("Content-Length: "@);
    let l0 = version + bytes::text(status);
    assert(end =~= b + bytes::text("Content-Length: 0"@) + b + b);
    assert(bytes::text("Content-Length: 0"@) =~= length + zero) by {
        literals::lemma_length_is();
    }
    client::lemma_one_line_add(version, bytes::text(status));
    client::lemma_one_line_add(length, zero);
    let s1 = (length + zero) + b + (b + none);
    assert(s1 =~= length + zero + b + b);
    assert(out =~= l0 + b + s1);
    let n = bytes::text("Content-Length"@);
    client::lemma_line(l0, s1, n);
    lemma_other(version, bytes::text(status), length, 0);
    client::lemma_line(length + zero, b + none, n);
    lemma_own(length, zero);
    let n = bytes::text("Content-Encoding"@);
    client::lemma_line(l0, s1, n);
    lemma_other(version, bytes::text(status), bytes::text("Content-Encoding: "@), 0);
    client::lemma_line(length + zero, b + none, n);
    lemma_other(length, zero, bytes::text("Content-Encoding: "@), 8);
    client::lemma_head_end(none, n);
    let t = bytes::text(status).take(4);
    assert(out.take(13) =~= version + t);
    assert(version + t =~= seq![
        0x48u8, 0x54, 0x54, 0x50, 0x2f, 0x31, 0x2e, 0x31, 0x20, a, b_, c, 0x20,
    ]);
    lemma_status(out, a, b_, c);
}

/// The head of a response with the contents of an entry says of what follows how it is encoded and
/// how long it is: what is sent beside the compressed data and that data itself, where it is sent
/// as it stands in the archive, and otherwise the contents.
pub proof fn law_head_announces(
    mime: Seq<char>,
    entry: Entry,
    compression: Option<ContentCompression>,
    more: Seq<u8>,
)
    requires
        client::one_line(bytes::text(mime)),
        compression matches Some(c) ==> client::one_line(bytes::text(c.encoding@)),
    ensures
        ({
            let out = stream::entry_head(mime, entry, compression) + more;
            &&& client::body(out) == more
            &&& match compression {
                Some(c) => announces(
                    out,
                    bytes::text(mime),
                    Some(bytes::text(c.encoding@)),
                    (entry.compressed_size + c.extra_len) as nat,
                    entry.crc32,
                ),
                None => announces(
                    out,
                    bytes::text(mime),
                    None,
                    entry.uncompressed_size as nat,
                    entry.crc32,
                ),
            }
        }),
{
    lemma_entry_head(mime, entry, compression, more);
}

/// Whatever the method of an entry and whatever a client accepts, the response delivers the
/// contents: under the encoding that the body is in, which the client accepts, or decoded, and
/// with the length of what follows; or it says that there is no decoder.
pub proof fn law_entry_delivered(
    mime: Seq<char>,
    entry: Entry,
    accepted: AcceptedEncodings,
    room: int,
    out: Seq<u8>,
    left: Result<Transfer, BufferFull>,
)
    requires
        stream::follows_plan(
            stream::entry_plan(mime, entry, accepted),
            entry,
            room,
            out,
            left,
        ),
        left is Ok,
        client::one_line(bytes::text(mime)),
    ensures
        delivers(entry, bytes::text(mime), accepted.gzip, accepted.zstd, out, left->Ok_0),
{
    let compression = stream::compression_for(entry.method, accepted);
    let head = stream::entry_head(mime, entry, compression);
    match left->Ok_0 {
        Transfer::Compressed(t) => {
            assert(out == head + transfer::body_head(entry));
            if entry.method is Deflate {
                lemma_gzip_delivered(mime, entry, accepted, t, out);
            } else {
                lemma_zstd_delivered(mime, entry, accepted, t, out);
            }
        },
        Transfer::Decompressed(t) => {
            lemma_decoded_delivered(mime, entry, accepted, t, out);
        },
        Transfer::Finished => {
            lemma_unsupported();
        },
    }
}

proof fn lemma_gzip_delivered(
    mime: Seq<char>,
    entry: Entry,
    accepted: AcceptedEncodings,
    t: CompressedTransfer,
    out: Seq<u8>,
)
    requires
        client::one_line(bytes::text(mime)),
        entry.method is Deflate,
        ({
            let compression = stream::compression_for(entry.method, accepted);
            &&& compression is Some
            &&& stream::starts(t, entry)
            &&& out == stream::entry_head(mime, entry, compression) + transfer::body_head(entry)
        }),
    ensures
        delivers(
            entry,
            bytes::text(mime),
            accepted.gzip,
            accepted.zstd,
            out,
            Transfer::Compressed(t),
        ),
{
    let compression = stream::compression_for(entry.method, accepted);
    assert(client::one_line(bytes::text("gzip"@))) by {
        literals::lemma_gzip();
    }
    lemma_entry_head(mime, entry, compression, transfer::body_head(entry));
    let low = (entry.uncompressed_size % 0x1_0000_0000) as u32;
    lemma_le_number(entry.crc32);
    lemma_le_number(low);
    let a = encoding::le_bytes(entry.crc32);
    let b = encoding::le_bytes(low);
    let tail = t.tail@;
    assert(tail == a + b);
    assert(tail[0] == a[0] && tail[1] == a[1] && tail[2] == a[2] && tail[3] == a[3]);
    assert(tail.skip(4) =~= b);
}

proof fn lemma_zstd_delivered(
    mime: Seq<char>,
    entry: Entry,
    accepted: AcceptedEncodings,
    t: CompressedTransfer,
    out: Seq<u8>,
)
    requires
        client::one_line(bytes::text(mime)),
        !(entry.method is Deflate),
        ({
            let compression = stream::compression_for(entry.method, accepted);
            &&& compression is Some
            &&& stream::starts(t, entry)
            &&& out == stream::entry_head(mime, entry, compression) + transfer::body_head(entry)
        }),
    ensures
        delivers(
            entry,
            bytes::text(mime),
            accepted.gzip,
            accepted.zstd,
            out,
            Transfer::Compressed(t),
        ),
{
    let compression = stream::compression_for(entry.method, accepted);
    assert(client::one_line(bytes::text("zstd"@))) by {
        literals::lemma_zstd();
    }
    lemma_entry_head(mime, entry, compression, transfer::body_head(entry));
}

proof fn lemma_decoded_delivered(
    mime: Seq<char>,
    entry: Entry,
    accepted: AcceptedEncodings,
    t: DecompressedTransfer,
    out: Seq<u8>,
)
    requires
        client::one_line(bytes::text(mime)),
        stream::compression_for(entry.method, accepted) is None,
        entry.method.supported(),
        t@ == Decoding::of(entry),
        out == stream::entry_head(mime, entry, None),
    ensures
        delivers(
            entry,
            bytes::text(mime),
            accepted.gzip,
            accepted.zstd,
            out,
            Transfer::Decompressed(t),
        ),
{
    assert(out + Seq::<u8>::empty() =~= out);
    lemma_entry_head(mime, entry, None, Seq::empty());
}

/// What a client reads where there is no decoder for an entry.
proof fn lemma_unsupported()
    ensures
        is_status(stream::status_response("500 Unsupported Compression"@), 500),
{
    literals::lemma_unsupported();
    let text = bytes::text("500 Unsupported Compression"@);
    assert(text.take(4) =~= seq![0x35u8, 0x30, 0x30, 0x20]);
    lemma_status_response("500 Unsupported Compression"@, 0x35, 0x30, 0x30);
}

pub(crate) proof fn lemma_le_number(n: u32)
    ensures
        le_number(encoding::le_bytes(n)) == n,
{
    let q = n / 0x100;
    let r = n / 0x10000;
    let s = n / 0x1000000;
    assert(n == 0x100 * q + n % 256);
    assert(q == 0x100 * r + q % 256);
    assert(r == 0x100 * s + r % 256);
}

} // verus!
