//! The bytes of the texts that requests and responses are made of.
use vstd::prelude::*;

use crate::bytes;

verus! {

pub(crate) proof fn lemma_ok_type()
    ensures
        bytes::text("HTTP/1.1 200 OK\r\nContent-Type: "@) == seq![
            0x48u8, 0x54, 0x54, 0x50, 0x2f, 0x31, 0x2e, 0x31, 0x20, 0x32, 0x30, 0x30, 0x20, 0x4f,
            0x4b, 0x0d, 0x0a, 0x43, 0x6f, 0x6e, 0x74, 0x65, 0x6e, 0x74, 0x2d, 0x54, 0x79, 0x70,
            0x65, 0x3a, 0x20,
        ],
{
    reveal_strlit("HTTP/1.1 200 OK\r\nContent-Type: ");
    let s = "HTTP/1.1 200 OK\r\nContent-Type: "@;
    assert(s =~= seq![
        'H', 'T', 'T', 'P', '/', '1', '.', '1', ' ', '2', '0', '0', ' ', 'O', 'K', '\r', '\n',
        'C', 'o', 'n', 't', 'e', 'n', 't', '-', 'T', 'y', 'p', 'e', ':', ' ',
    ]);
    vstd::utf8::is_ascii_chars_encode_utf8(s);
    assert(bytes::text(s) =~= seq![
        0x48u8, 0x54, 0x54, 0x50, 0x2f, 0x31, 0x2e, 0x31, 0x20, 0x32, 0x30, 0x30, 0x20, 0x4f,
        0x4b, 0x0d, 0x0a, 0x43, 0x6f, 0x6e, 0x74, 0x65, 0x6e, 0x74, 0x2d, 0x54, 0x79, 0x70, 0x65,
        0x3a, 0x20,
    ]);
}

pub(crate) proof fn lemma_line_break()
    ensures
        bytes::text("\r\n"@) == seq![
            0x0du8, 0x0a,
        ],
{
    reveal_strlit("\r\n");
    let s = "\r\n"@;
    assert(s =~= seq![
        '\r', '\n',
    ]);
    vstd::utf8::is_ascii_chars_encode_utf8(s);
    assert(bytes::text(s) =~= seq![
        0x0du8, 0x0a,
    ]);
}

pub(crate) proof fn lemma_encoding_is()
    ensures
        bytes::text("Content-Encoding: "@) == seq![
            0x43u8, 0x6f, 0x6e, 0x74, 0x65, 0x6e, 0x74, 0x2d, 0x45, 0x6e, 0x63, 0x6f, 0x64, 0x69,
            0x6e, 0x67, 0x3a, 0x20,
        ],
{
    reveal_strlit("Content-Encoding: ");
    let s = "Content-Encoding: "@;
    assert(s =~= seq![
        'C', 'o', 'n', 't', 'e', 'n', 't', '-', 'E', 'n', 'c', 'o', 'd', 'i', 'n', 'g', ':', ' ',
    ]);
    vstd::utf8::is_ascii_chars_encode_utf8(s);
    assert(bytes::text(s) =~= seq![
        0x43u8, 0x6f, 0x6e, 0x74, 0x65, 0x6e, 0x74, 0x2d, 0x45, 0x6e, 0x63, 0x6f, 0x64, 0x69,
        0x6e, 0x67, 0x3a, 0x20,
    ]);
}

pub(crate) proof fn lemma_length_is()
    ensures
        bytes::text("Content-Length: "@) == seq![
            0x43u8, 0x6f, 0x6e, 0x74, 0x65, 0x6e, 0x74, 0x2d, 0x4c, 0x65, 0x6e, 0x67, 0x74, 0x68,
            0x3a, 0x20,
        ],
{
    reveal_strlit("Content-Length: ");
    let s = "Content-Length: "@;
    assert(s =~= seq![
        'C', 'o', 'n', 't', 'e', 'n', 't', '-', 'L', 'e', 'n', 'g', 't', 'h', ':', ' ',
    ]);
    vstd::utf8::is_ascii_chars_encode_utf8(s);
    assert(bytes::text(s) =~= seq![
        0x43u8, 0x6f, 0x6e, 0x74, 0x65, 0x6e, 0x74, 0x2d, 0x4c, 0x65, 0x6e, 0x67, 0x74, 0x68,
        0x3a, 0x20,
    ]);
}

pub(crate) proof fn lemma_tag_is()
    ensures
        bytes::text("\r\nETag: \""@) == seq![
            0x0du8, 0x0a, 0x45, 0x54, 0x61, 0x67, 0x3a, 0x20, 0x22,
        ],
{
    reveal_strlit("\r\nETag: \"");
    let s = "\r\nETag: \""@;
    assert(s =~= seq![
        '\r', '\n', 'E', 'T', 'a', 'g', ':', ' ', '"',
    ]);
    vstd::utf8::is_ascii_chars_encode_utf8(s);
    assert(bytes::text(s) =~= seq![
        0x0du8, 0x0a, 0x45, 0x54, 0x61, 0x67, 0x3a, 0x20, 0x22,
    ]);
}

pub(crate) proof fn lemma_cache_control()
    ensures
        bytes::text("\"\r\nCache-control: max-age=180, public\r\n\r\n"@) == seq![
            0x22u8, 0x0d, 0x0a, 0x43, 0x61, 0x63, 0x68, 0x65, 0x2d, 0x63, 0x6f, 0x6e, 0x74, 0x72,
            0x6f, 0x6c, 0x3a, 0x20, 0x6d, 0x61, 0x78, 0x2d, 0x61, 0x67, 0x65, 0x3d, 0x31, 0x38,
            0x30, 0x2c, 0x20, 0x70, 0x75, 0x62, 0x6c, 0x69, 0x63, 0x0d, 0x0a, 0x0d, 0x0a,
        ],
{
    reveal_strlit("\"\r\nCache-control: max-age=180, public\r\n\r\n");
    let s = "\"\r\nCache-control: max-age=180, public\r\n\r\n"@;
    assert(s =~= seq![
        '"', '\r', '\n', 'C', 'a', 'c', 'h', 'e', '-', 'c', 'o', 'n', 't', 'r', 'o', 'l', ':',
        ' ', 'm', 'a', 'x', '-', 'a', 'g', 'e', '=', '1', '8', '0', ',', ' ', 'p', 'u', 'b', 'l',
        'i', 'c', '\r', '\n', '\r', '\n',
    ]);
    vstd::utf8::is_ascii_chars_encode_utf8(s);
    assert(bytes::text(s) =~= seq![
        0x22u8, 0x0d, 0x0a, 0x43, 0x61, 0x63, 0x68, 0x65, 0x2d, 0x63, 0x6f, 0x6e, 0x74, 0x72,
        0x6f, 0x6c, 0x3a, 0x20, 0x6d, 0x61, 0x78, 0x2d, 0x61, 0x67, 0x65, 0x3d, 0x31, 0x38, 0x30,
        0x2c, 0x20, 0x70, 0x75, 0x62, 0x6c, 0x69, 0x63, 0x0d, 0x0a, 0x0d, 0x0a,
    ]);
}

pub(crate) proof fn lemma_version()
    ensures
        bytes::text("HTTP/1.1 "@) == seq![
            0x48u8, 0x54, 0x54, 0x50, 0x2f, 0x31, 0x2e, 0x31, 0x20,
        ],
{
    reveal_strlit("HTTP/1.1 ");
    let s = "HTTP/1.1 "@;
    assert(s =~= seq![
        'H', 'T', 'T', 'P', '/', '1', '.', '1', ' ',
    ]);
    vstd::utf8::is_ascii_chars_encode_utf8(s);
    assert(bytes::text(s) =~= seq![
        0x48u8, 0x54, 0x54, 0x50, 0x2f, 0x31, 0x2e, 0x31, 0x20,
    ]);
}

pub(crate) proof fn lemma_no_body()
    ensures
        bytes::text("\r\nContent-Length: 0\r\n\r\n"@) == seq![
            0x0du8, 0x0a, 0x43, 0x6f, 0x6e, 0x74, 0x65, 0x6e, 0x74, 0x2d, 0x4c, 0x65, 0x6e, 0x67,
            0x74, 0x68, 0x3a, 0x20, 0x30, 0x0d, 0x0a, 0x0d, 0x0a,
        ],
{
    reveal_strlit("\r\nContent-Length: 0\r\n\r\n");
    let s = "\r\nContent-Length: 0\r\n\r\n"@;
    assert(s =~= seq![
        '\r', '\n', 'C', 'o', 'n', 't', 'e', 'n', 't', '-', 'L', 'e', 'n', 'g', 't', 'h', ':',
        ' ', '0', '\r', '\n', '\r', '\n',
    ]);
    vstd::utf8::is_ascii_chars_encode_utf8(s);
    assert(bytes::text(s) =~= seq![
        0x0du8, 0x0a, 0x43, 0x6f, 0x6e, 0x74, 0x65, 0x6e, 0x74, 0x2d, 0x4c, 0x65, 0x6e, 0x67,
        0x74, 0x68, 0x3a, 0x20, 0x30, 0x0d, 0x0a, 0x0d, 0x0a,
    ]);
}

pub(crate) proof fn lemma_not_found()
    ensures
        bytes::text("404 Not Found"@) == seq![
            0x34u8, 0x30, 0x34, 0x20, 0x4e, 0x6f, 0x74, 0x20, 0x46, 0x6f, 0x75, 0x6e, 0x64,
        ],
{
    reveal_strlit("404 Not Found");
    let s = "404 Not Found"@;
    assert(s =~= seq![
        '4', '0', '4', ' ', 'N', 'o', 't', ' ', 'F', 'o', 'u', 'n', 'd',
    ]);
    vstd::utf8::is_ascii_chars_encode_utf8(s);
    assert(bytes::text(s) =~= seq![
        0x34u8, 0x30, 0x34, 0x20, 0x4e, 0x6f, 0x74, 0x20, 0x46, 0x6f, 0x75, 0x6e, 0x64,
    ]);
}

pub(crate) proof fn lemma_bad_request()
    ensures
        bytes::text("400 Bad Request"@) == seq![
            0x34u8, 0x30, 0x30, 0x20, 0x42, 0x61, 0x64, 0x20, 0x52, 0x65, 0x71, 0x75, 0x65, 0x73,
            0x74,
        ],
{
    reveal_strlit("400 Bad Request");
    let s = "400 Bad Request"@;
    assert(s =~= seq![
        '4', '0', '0', ' ', 'B', 'a', 'd', ' ', 'R', 'e', 'q', 'u', 'e', 's', 't',
    ]);
    vstd::utf8::is_ascii_chars_encode_utf8(s);
    assert(bytes::text(s) =~= seq![
        0x34u8, 0x30, 0x30, 0x20, 0x42, 0x61, 0x64, 0x20, 0x52, 0x65, 0x71, 0x75, 0x65, 0x73,
        0x74,
    ]);
}

pub(crate) proof fn lemma_uri_too_long()
    ensures
        bytes::text("414 URI Too Long"@) == seq![
            0x34u8, 0x31, 0x34, 0x20, 0x55, 0x52, 0x49, 0x20, 0x54, 0x6f, 0x6f, 0x20, 0x4c, 0x6f,
            0x6e, 0x67,
        ],
{
    reveal_strlit("414 URI Too Long");
    let s = "414 URI Too Long"@;
    assert(s =~= seq![
        '4', '1', '4', ' ', 'U', 'R', 'I', ' ', 'T', 'o', 'o', ' ', 'L', 'o', 'n', 'g',
    ]);
    vstd::utf8::is_ascii_chars_encode_utf8(s);
    assert(bytes::text(s) =~= seq![
        0x34u8, 0x31, 0x34, 0x20, 0x55, 0x52, 0x49, 0x20, 0x54, 0x6f, 0x6f, 0x20, 0x4c, 0x6f,
        0x6e, 0x67,
    ]);
}

pub(crate) proof fn lemma_header_too_long()
    ensures
        bytes::text("431 Request Header Fields Too Large"@) == seq![
            0x34u8, 0x33, 0x31, 0x20, 0x52, 0x65, 0x71, 0x75, 0x65, 0x73, 0x74, 0x20, 0x48, 0x65,
            0x61, 0x64, 0x65, 0x72, 0x20, 0x46, 0x69, 0x65, 0x6c, 0x64, 0x73, 0x20, 0x54, 0x6f,
            0x6f, 0x20, 0x4c, 0x61, 0x72, 0x67, 0x65,
        ],
{
    reveal_strlit("431 Request Header Fields Too Large");
    let s = "431 Request Header Fields Too Large"@;
    assert(s =~= seq![
        '4', '3', '1', ' ', 'R', 'e', 'q', 'u', 'e', 's', 't', ' ', 'H', 'e', 'a', 'd', 'e', 'r',
        ' ', 'F', 'i', 'e', 'l', 'd', 's', ' ', 'T', 'o', 'o', ' ', 'L', 'a', 'r', 'g', 'e',
    ]);
    vstd::utf8::is_ascii_chars_encode_utf8(s);
    assert(bytes::text(s) =~= seq![
        0x34u8, 0x33, 0x31, 0x20, 0x52, 0x65, 0x71, 0x75, 0x65, 0x73, 0x74, 0x20, 0x48, 0x65,
        0x61, 0x64, 0x65, 0x72, 0x20, 0x46, 0x69, 0x65, 0x6c, 0x64, 0x73, 0x20, 0x54, 0x6f, 0x6f,
        0x20, 0x4c, 0x61, 0x72, 0x67, 0x65,
    ]);
}

pub(crate) proof fn lemma_method_not_allowed()
    ensures
        bytes::text("405 Method Not Allowed"@) == seq![
            0x34u8, 0x30, 0x35, 0x20, 0x4d, 0x65, 0x74, 0x68, 0x6f, 0x64, 0x20, 0x4e, 0x6f, 0x74,
            0x20, 0x41, 0x6c, 0x6c, 0x6f, 0x77, 0x65, 0x64,
        ],
{
    reveal_strlit("405 Method Not Allowed");
    let s = "405 Method Not Allowed"@;
    assert(s =~= seq![
        '4', '0', '5', ' ', 'M', 'e', 't', 'h', 'o', 'd', ' ', 'N', 'o', 't', ' ', 'A', 'l', 'l',
        'o', 'w', 'e', 'd',
    ]);
    vstd::utf8::is_ascii_chars_encode_utf8(s);
    assert(bytes::text(s) =~= seq![
        0x34u8, 0x30, 0x35, 0x20, 0x4d, 0x65, 0x74, 0x68, 0x6f, 0x64, 0x20, 0x4e, 0x6f, 0x74,
        0x20, 0x41, 0x6c, 0x6c, 0x6f, 0x77, 0x65, 0x64,
    ]);
}

pub(crate) proof fn lemma_unsupported()
    ensures
        bytes::text("500 Unsupported Compression"@) == seq![
            0x35u8, 0x30, 0x30, 0x20, 0x55, 0x6e, 0x73, 0x75, 0x70, 0x70, 0x6f, 0x72, 0x74, 0x65,
            0x64, 0x20, 0x43, 0x6f, 0x6d, 0x70, 0x72, 0x65, 0x73, 0x73, 0x69, 0x6f, 0x6e,
        ],
{
    reveal_strlit("500 Unsupported Compression");
    let s = "500 Unsupported Compression"@;
    assert(s =~= seq![
        '5', '0', '0', ' ', 'U', 'n', 's', 'u', 'p', 'p', 'o', 'r', 't', 'e', 'd', ' ', 'C', 'o',
        'm', 'p', 'r', 'e', 's', 's', 'i', 'o', 'n',
    ]);
    vstd::utf8::is_ascii_chars_encode_utf8(s);
    assert(bytes::text(s) =~= seq![
        0x35u8, 0x30, 0x30, 0x20, 0x55, 0x6e, 0x73, 0x75, 0x70, 0x70, 0x6f, 0x72, 0x74, 0x65,
        0x64, 0x20, 0x43, 0x6f, 0x6d, 0x70, 0x72, 0x65, 0x73, 0x73, 0x69, 0x6f, 0x6e,
    ]);
}

pub(crate) proof fn lemma_not_modified()
    ensures
        bytes::text("HTTP/1.1 304 Not Modified\r\nETag: \""@) == seq![
            0x48u8, 0x54, 0x54, 0x50, 0x2f, 0x31, 0x2e, 0x31, 0x20, 0x33, 0x30, 0x34, 0x20, 0x4e,
            0x6f, 0x74, 0x20, 0x4d, 0x6f, 0x64, 0x69, 0x66, 0x69, 0x65, 0x64, 0x0d, 0x0a, 0x45,
            0x54, 0x61, 0x67, 0x3a, 0x20, 0x22,
        ],
{
    reveal_strlit("HTTP/1.1 304 Not Modified\r\nETag: \"");
    let s = "HTTP/1.1 304 Not Modified\r\nETag: \""@;
    assert(s =~= seq![
        'H', 'T', 'T', 'P', '/', '1', '.', '1', ' ', '3', '0', '4', ' ', 'N', 'o', 't', ' ', 'M',
        'o', 'd', 'i', 'f', 'i', 'e', 'd', '\r', '\n', 'E', 'T', 'a', 'g', ':', ' ', '"',
    ]);
    vstd::utf8::is_ascii_chars_encode_utf8(s);
    assert(bytes::text(s) =~= seq![
        0x48u8, 0x54, 0x54, 0x50, 0x2f, 0x31, 0x2e, 0x31, 0x20, 0x33, 0x30, 0x34, 0x20, 0x4e,
        0x6f, 0x74, 0x20, 0x4d, 0x6f, 0x64, 0x69, 0x66, 0x69, 0x65, 0x64, 0x0d, 0x0a, 0x45, 0x54,
        0x61, 0x67, 0x3a, 0x20, 0x22,
    ]);
}

pub(crate) proof fn lemma_tag_end()
    ensures
        bytes::text("\"\r\n\r\n"@) == seq![
            0x22u8, 0x0d, 0x0a, 0x0d, 0x0a,
        ],
{
    reveal_strlit("\"\r\n\r\n");
    let s = "\"\r\n\r\n"@;
    assert(s =~= seq![
        '"', '\r', '\n', '\r', '\n',
    ]);
    vstd::utf8::is_ascii_chars_encode_utf8(s);
    assert(bytes::text(s) =~= seq![
        0x22u8, 0x0d, 0x0a, 0x0d, 0x0a,
    ]);
}

pub(crate) proof fn lemma_listing_head()
    ensures
        bytes::text("HTTP/1.1 200 OK\r\nContent-Type: text/html; charset=utf-8\r\nTransfer-Encoding: chunked\r\n\r\n"@) == seq![
            0x48u8, 0x54, 0x54, 0x50, 0x2f, 0x31, 0x2e, 0x31, 0x20, 0x32, 0x30, 0x30, 0x20, 0x4f,
            0x4b, 0x0d, 0x0a, 0x43, 0x6f, 0x6e, 0x74, 0x65, 0x6e, 0x74, 0x2d, 0x54, 0x79, 0x70,
            0x65, 0x3a, 0x20, 0x74, 0x65, 0x78, 0x74, 0x2f, 0x68, 0x74, 0x6d, 0x6c, 0x3b, 0x20,
            0x63, 0x68, 0x61, 0x72, 0x73, 0x65, 0x74, 0x3d, 0x75, 0x74, 0x66, 0x2d, 0x38, 0x0d,
            0x0a, 0x54, 0x72, 0x61, 0x6e, 0x73, 0x66, 0x65, 0x72, 0x2d, 0x45, 0x6e, 0x63, 0x6f,
            0x64, 0x69, 0x6e, 0x67, 0x3a, 0x20, 0x63, 0x68, 0x75, 0x6e, 0x6b, 0x65, 0x64, 0x0d,
            0x0a, 0x0d, 0x0a,
        ],
{
    reveal_strlit("HTTP/1.1 200 OK\r\nContent-Type: text/html; charset=utf-8\r\nTransfer-Encoding: chunked\r\n\r\n");
    let s = "HTTP/1.1 200 OK\r\nContent-Type: text/html; charset=utf-8\r\nTransfer-Encoding: chunked\r\n\r\n"@;
    assert(s =~= seq![
        'H', 'T', 'T', 'P', '/', '1', '.', '1', ' ', '2', '0', '0', ' ', 'O', 'K', '\r', '\n',
        'C', 'o', 'n', 't', 'e', 'n', 't', '-', 'T', 'y', 'p', 'e', ':', ' ', 't', 'e', 'x', 't',
        '/', 'h', 't', 'm', 'l', ';', ' ', 'c', 'h', 'a', 'r', 's', 'e', 't', '=', 'u', 't', 'f',
        '-', '8', '\r', '\n', 'T', 'r', 'a', 'n', 's', 'f', 'e', 'r', '-', 'E', 'n', 'c', 'o',
        'd', 'i', 'n', 'g', ':', ' ', 'c', 'h', 'u', 'n', 'k', 'e', 'd', '\r', '\n', '\r', '\n',
    ]);
    vstd::utf8::is_ascii_chars_encode_utf8(s);
    assert(bytes::text(s) =~= seq![
        0x48u8, 0x54, 0x54, 0x50, 0x2f, 0x31, 0x2e, 0x31, 0x20, 0x32, 0x30, 0x30, 0x20, 0x4f,
        0x4b, 0x0d, 0x0a, 0x43, 0x6f, 0x6e, 0x74, 0x65, 0x6e, 0x74, 0x2d, 0x54, 0x79, 0x70, 0x65,
        0x3a, 0x20, 0x74, 0x65, 0x78, 0x74, 0x2f, 0x68, 0x74, 0x6d, 0x6c, 0x3b, 0x20, 0x63, 0x68,
        0x61, 0x72, 0x73, 0x65, 0x74, 0x3d, 0x75, 0x74, 0x66, 0x2d, 0x38, 0x0d, 0x0a, 0x54, 0x72,
        0x61, 0x6e, 0x73, 0x66, 0x65, 0x72, 0x2d, 0x45, 0x6e, 0x63, 0x6f, 0x64, 0x69, 0x6e, 0x67,
        0x3a, 0x20, 0x63, 0x68, 0x75, 0x6e, 0x6b, 0x65, 0x64, 0x0d, 0x0a, 0x0d, 0x0a,
    ]);
}

pub(crate) proof fn lemma_last_chunk()
    ensures
        bytes::text("0\r\n\r\n"@) == seq![
            0x30u8, 0x0d, 0x0a, 0x0d, 0x0a,
        ],
{
    reveal_strlit("0\r\n\r\n");
    let s = "0\r\n\r\n"@;
    assert(s =~= seq![
        '0', '\r', '\n', '\r', '\n',
    ]);
    vstd::utf8::is_ascii_chars_encode_utf8(s);
    assert(bytes::text(s) =~= seq![
        0x30u8, 0x0d, 0x0a, 0x0d, 0x0a,
    ]);
}

pub(crate) proof fn lemma_type_name()
    ensures
        bytes::text("Content-Type"@) == seq![
            0x43u8, 0x6f, 0x6e, 0x74, 0x65, 0x6e, 0x74, 0x2d, 0x54, 0x79, 0x70, 0x65,
        ],
{
    reveal_strlit("Content-Type");
    let s = "Content-Type"@;
    assert(s =~= seq![
        'C', 'o', 'n', 't', 'e', 'n', 't', '-', 'T', 'y', 'p', 'e',
    ]);
    vstd::utf8::is_ascii_chars_encode_utf8(s);
    assert(bytes::text(s) =~= seq![
        0x43u8, 0x6f, 0x6e, 0x74, 0x65, 0x6e, 0x74, 0x2d, 0x54, 0x79, 0x70, 0x65,
    ]);
}

pub(crate) proof fn lemma_encoding_name()
    ensures
        bytes::text("Content-Encoding"@) == seq![
            0x43u8, 0x6f, 0x6e, 0x74, 0x65, 0x6e, 0x74, 0x2d, 0x45, 0x6e, 0x63, 0x6f, 0x64, 0x69,
            0x6e, 0x67,
        ],
{
    reveal_strlit("Content-Encoding");
    let s = "Content-Encoding"@;
    assert(s =~= seq![
        'C', 'o', 'n', 't', 'e', 'n', 't', '-', 'E', 'n', 'c', 'o', 'd', 'i', 'n', 'g',
    ]);
    vstd::utf8::is_ascii_chars_encode_utf8(s);
    assert(bytes::text(s) =~= seq![
        0x43u8, 0x6f, 0x6e, 0x74, 0x65, 0x6e, 0x74, 0x2d, 0x45, 0x6e, 0x63, 0x6f, 0x64, 0x69,
        0x6e, 0x67,
    ]);
}

pub(crate) proof fn lemma_length_name()
    ensures
        bytes::text("Content-Length"@) == seq![
            0x43u8, 0x6f, 0x6e, 0x74, 0x65, 0x6e, 0x74, 0x2d, 0x4c, 0x65, 0x6e, 0x67, 0x74, 0x68,
        ],
{
    reveal_strlit("Content-Length");
    let s = "Content-Length"@;
    assert(s =~= seq![
        'C', 'o', 'n', 't', 'e', 'n', 't', '-', 'L', 'e', 'n', 'g', 't', 'h',
    ]);
    vstd::utf8::is_ascii_chars_encode_utf8(s);
    assert(bytes::text(s) =~= seq![
        0x43u8, 0x6f, 0x6e, 0x74, 0x65, 0x6e, 0x74, 0x2d, 0x4c, 0x65, 0x6e, 0x67, 0x74, 0x68,
    ]);
}

pub(crate) proof fn lemma_tag_name()
    ensures
        bytes::text("ETag"@) == seq![
            0x45u8, 0x54, 0x61, 0x67,
        ],
{
    reveal_strlit("ETag");
    let s = "ETag"@;
    assert(s =~= seq![
        'E', 'T', 'a', 'g',
    ]);
    vstd::utf8::is_ascii_chars_encode_utf8(s);
    assert(bytes::text(s) =~= seq![
        0x45u8, 0x54, 0x61, 0x67,
    ]);
}

pub(crate) proof fn lemma_transfer_name()
    ensures
        bytes::text("Transfer-Encoding"@) == seq![
            0x54u8, 0x72, 0x61, 0x6e, 0x73, 0x66, 0x65, 0x72, 0x2d, 0x45, 0x6e, 0x63, 0x6f, 0x64,
            0x69, 0x6e, 0x67,
        ],
{
    reveal_strlit("Transfer-Encoding");
    let s = "Transfer-Encoding"@;
    assert(s =~= seq![
        'T', 'r', 'a', 'n', 's', 'f', 'e', 'r', '-', 'E', 'n', 'c', 'o', 'd', 'i', 'n', 'g',
    ]);
    vstd::utf8::is_ascii_chars_encode_utf8(s);
    assert(bytes::text(s) =~= seq![
        0x54u8, 0x72, 0x61, 0x6e, 0x73, 0x66, 0x65, 0x72, 0x2d, 0x45, 0x6e, 0x63, 0x6f, 0x64,
        0x69, 0x6e, 0x67,
    ]);
}

pub(crate) proof fn lemma_gzip()
    ensures
        bytes::text("gzip"@) == seq![
            0x67u8, 0x7a, 0x69, 0x70,
        ],
{
    reveal_strlit("gzip");
    let s = "gzip"@;
    assert(s =~= seq![
        'g', 'z', 'i', 'p',
    ]);
    vstd::utf8::is_ascii_chars_encode_utf8(s);
    assert(bytes::text(s) =~= seq![
        0x67u8, 0x7a, 0x69, 0x70,
    ]);
}

pub(crate) proof fn lemma_zstd()
    ensures
        bytes::text("zstd"@) == seq![
            0x7au8, 0x73, 0x74, 0x64,
        ],
{
    reveal_strlit("zstd");
    let s = "zstd"@;
    assert(s =~= seq![
        'z', 's', 't', 'd',
    ]);
    vstd::utf8::is_ascii_chars_encode_utf8(s);
    assert(bytes::text(s) =~= seq![
        0x7au8, 0x73, 0x74, 0x64,
    ]);
}

pub(crate) proof fn lemma_parent_line()
    ensures
        bytes::text("<li class=top><a href=\"..\">..</a>\n"@) == seq![
            0x3cu8, 0x6c, 0x69, 0x20, 0x63, 0x6c, 0x61, 0x73, 0x73, 0x3d, 0x74, 0x6f, 0x70, 0x3e,
            0x3c, 0x61, 0x20, 0x68, 0x72, 0x65, 0x66, 0x3d, 0x22, 0x2e, 0x2e, 0x22, 0x3e, 0x2e,
            0x2e, 0x3c, 0x2f, 0x61, 0x3e, 0x0a,
        ],
{
    reveal_strlit("<li class=top><a href=\"..\">..</a>\n");
    let s = "<li class=top><a href=\"..\">..</a>\n"@;
    assert(s =~= seq![
        '<', 'l', 'i', ' ', 'c', 'l', 'a', 's', 's', '=', 't', 'o', 'p', '>', '<', 'a', ' ', 'h',
        'r', 'e', 'f', '=', '"', '.', '.', '"', '>', '.', '.', '<', '/', 'a', '>', '\n',
    ]);
    vstd::utf8::is_ascii_chars_encode_utf8(s);
    assert(bytes::text(s) =~= seq![
        0x3cu8, 0x6c, 0x69, 0x20, 0x63, 0x6c, 0x61, 0x73, 0x73, 0x3d, 0x74, 0x6f, 0x70, 0x3e,
        0x3c, 0x61, 0x20, 0x68, 0x72, 0x65, 0x66, 0x3d, 0x22, 0x2e, 0x2e, 0x22, 0x3e, 0x2e, 0x2e,
        0x3c, 0x2f, 0x61, 0x3e, 0x0a,
    ]);
}

pub(crate) proof fn lemma_dir_start()
    ensures
        bytes::text("<li class=dir><a href=\"./"@) == seq![
            0x3cu8, 0x6c, 0x69, 0x20, 0x63, 0x6c, 0x61, 0x73, 0x73, 0x3d, 0x64, 0x69, 0x72, 0x3e,
            0x3c, 0x61, 0x20, 0x68, 0x72, 0x65, 0x66, 0x3d, 0x22, 0x2e, 0x2f,
        ],
{
    reveal_strlit("<li class=dir><a href=\"./");
    let s = "<li class=dir><a href=\"./"@;
    assert(s =~= seq![
        '<', 'l', 'i', ' ', 'c', 'l', 'a', 's', 's', '=', 'd', 'i', 'r', '>', '<', 'a', ' ', 'h',
        'r', 'e', 'f', '=', '"', '.', '/',
    ]);
    vstd::utf8::is_ascii_chars_encode_utf8(s);
    assert(bytes::text(s) =~= seq![
        0x3cu8, 0x6c, 0x69, 0x20, 0x63, 0x6c, 0x61, 0x73, 0x73, 0x3d, 0x64, 0x69, 0x72, 0x3e,
        0x3c, 0x61, 0x20, 0x68, 0x72, 0x65, 0x66, 0x3d, 0x22, 0x2e, 0x2f,
    ]);
}

pub(crate) proof fn lemma_dir_middle()
    ensures
        bytes::text("/\">"@) == seq![
            0x2fu8, 0x22, 0x3e,
        ],
{
    reveal_strlit("/\">");
    let s = "/\">"@;
    assert(s =~= seq![
        '/', '"', '>',
    ]);
    vstd::utf8::is_ascii_chars_encode_utf8(s);
    assert(bytes::text(s) =~= seq![
        0x2fu8, 0x22, 0x3e,
    ]);
}

pub(crate) proof fn lemma_line_tail()
    ensures
        bytes::text("</a>\n"@) == seq![
            0x3cu8, 0x2f, 0x61, 0x3e, 0x0a,
        ],
{
    reveal_strlit("</a>\n");
    let s = "</a>\n"@;
    assert(s =~= seq![
        '<', '/', 'a', '>', '\n',
    ]);
    vstd::utf8::is_ascii_chars_encode_utf8(s);
    assert(bytes::text(s) =~= seq![
        0x3cu8, 0x2f, 0x61, 0x3e, 0x0a,
    ]);
}

pub(crate) proof fn lemma_file_start()
    ensures
        bytes::text("<li><a href=\"./"@) == seq![
            0x3cu8, 0x6c, 0x69, 0x3e, 0x3c, 0x61, 0x20, 0x68, 0x72, 0x65, 0x66, 0x3d, 0x22, 0x2e,
            0x2f,
        ],
{
    reveal_strlit("<li><a href=\"./");
    let s = "<li><a href=\"./"@;
    assert(s =~= seq![
        '<', 'l', 'i', '>', '<', 'a', ' ', 'h', 'r', 'e', 'f', '=', '"', '.', '/',
    ]);
    vstd::utf8::is_ascii_chars_encode_utf8(s);
    assert(bytes::text(s) =~= seq![
        0x3cu8, 0x6c, 0x69, 0x3e, 0x3c, 0x61, 0x20, 0x68, 0x72, 0x65, 0x66, 0x3d, 0x22, 0x2e,
        0x2f,
    ]);
}

pub(crate) proof fn lemma_file_middle()
    ensures
        bytes::text("\">"@) == seq![
            0x22u8, 0x3e,
        ],
{
    reveal_strlit("\">");
    let s = "\">"@;
    assert(s =~= seq![
        '"', '>',
    ]);
    vstd::utf8::is_ascii_chars_encode_utf8(s);
    assert(bytes::text(s) =~= seq![
        0x22u8, 0x3e,
    ]);
}

pub(crate) proof fn lemma_accept_name()
    ensures
        bytes::text("accept-encoding"@) == seq![
            0x61u8, 0x63, 0x63, 0x65, 0x70, 0x74, 0x2d, 0x65, 0x6e, 0x63, 0x6f, 0x64, 0x69, 0x6e,
            0x67,
        ],
{
    reveal_strlit("accept-encoding");
    let s = "accept-encoding"@;
    assert(s =~= seq![
        'a', 'c', 'c', 'e', 'p', 't', '-', 'e', 'n', 'c', 'o', 'd', 'i', 'n', 'g',
    ]);
    vstd::utf8::is_ascii_chars_encode_utf8(s);
    assert(bytes::text(s) =~= seq![
        0x61u8, 0x63, 0x63, 0x65, 0x70, 0x74, 0x2d, 0x65, 0x6e, 0x63, 0x6f, 0x64, 0x69, 0x6e,
        0x67,
    ]);
}

pub(crate) proof fn lemma_match_name()
    ensures
        bytes::text("if-none-match"@) == seq![
            0x69u8, 0x66, 0x2d, 0x6e, 0x6f, 0x6e, 0x65, 0x2d, 0x6d, 0x61, 0x74, 0x63, 0x68,
        ],
{
    reveal_strlit("if-none-match");
    let s = "if-none-match"@;
    assert(s =~= seq![
        'i', 'f', '-', 'n', 'o', 'n', 'e', '-', 'm', 'a', 't', 'c', 'h',
    ]);
    vstd::utf8::is_ascii_chars_encode_utf8(s);
    assert(bytes::text(s) =~= seq![
        0x69u8, 0x66, 0x2d, 0x6e, 0x6f, 0x6e, 0x65, 0x2d, 0x6d, 0x61, 0x74, 0x63, 0x68,
    ]);
}

pub(crate) proof fn lemma_connection_name()
    ensures
        bytes::text("connection"@) == seq![
            0x63u8, 0x6f, 0x6e, 0x6e, 0x65, 0x63, 0x74, 0x69, 0x6f, 0x6e,
        ],
{
    reveal_strlit("connection");
    let s = "connection"@;
    assert(s =~= seq![
        'c', 'o', 'n', 'n', 'e', 'c', 't', 'i', 'o', 'n',
    ]);
    vstd::utf8::is_ascii_chars_encode_utf8(s);
    assert(bytes::text(s) =~= seq![
        0x63u8, 0x6f, 0x6e, 0x6e, 0x65, 0x63, 0x74, 0x69, 0x6f, 0x6e,
    ]);
}

pub(crate) proof fn lemma_close()
    ensures
        bytes::text("close"@) == seq![
            0x63u8, 0x6c, 0x6f, 0x73, 0x65,
        ],
{
    reveal_strlit("close");
    let s = "close"@;
    assert(s =~= seq![
        'c', 'l', 'o', 's', 'e',
    ]);
    vstd::utf8::is_ascii_chars_encode_utf8(s);
    assert(bytes::text(s) =~= seq![
        0x63u8, 0x6c, 0x6f, 0x73, 0x65,
    ]);
}

pub(crate) proof fn lemma_index_html()
    ensures
        bytes::text("index.html"@) == seq![
            0x69u8, 0x6e, 0x64, 0x65, 0x78, 0x2e, 0x68, 0x74, 0x6d, 0x6c,
        ],
{
    reveal_strlit("index.html");
    let s = "index.html"@;
    assert(s =~= seq![
        'i', 'n', 'd', 'e', 'x', '.', 'h', 't', 'm', 'l',
    ]);
    vstd::utf8::is_ascii_chars_encode_utf8(s);
    assert(bytes::text(s) =~= seq![
        0x69u8, 0x6e, 0x64, 0x65, 0x78, 0x2e, 0x68, 0x74, 0x6d, 0x6c,
    ]);
}

pub(crate) proof fn lemma_get()
    ensures
        bytes::text("GET"@) == seq![
            0x47u8, 0x45, 0x54,
        ],
{
    reveal_strlit("GET");
    let s = "GET"@;
    assert(s =~= seq![
        'G', 'E', 'T',
    ]);
    vstd::utf8::is_ascii_chars_encode_utf8(s);
    assert(bytes::text(s) =~= seq![
        0x47u8, 0x45, 0x54,
    ]);
}

pub(crate) proof fn lemma_quot()
    ensures
        bytes::text("&quot;"@) == seq![
            0x26u8, 0x71, 0x75, 0x6f, 0x74, 0x3b,
        ],
{
    reveal_strlit("&quot;");
    let s = "&quot;"@;
    assert(s =~= seq![
        '&', 'q', 'u', 'o', 't', ';',
    ]);
    vstd::utf8::is_ascii_chars_encode_utf8(s);
    assert(bytes::text(s) =~= seq![
        0x26u8, 0x71, 0x75, 0x6f, 0x74, 0x3b,
    ]);
}

pub(crate) proof fn lemma_amp()
    ensures
        bytes::text("&amp;"@) == seq![
            0x26u8, 0x61, 0x6d, 0x70, 0x3b,
        ],
{
    reveal_strlit("&amp;");
    let s = "&amp;"@;
    assert(s =~= seq![
        '&', 'a', 'm', 'p', ';',
    ]);
    vstd::utf8::is_ascii_chars_encode_utf8(s);
    assert(bytes::text(s) =~= seq![
        0x26u8, 0x61, 0x6d, 0x70, 0x3b,
    ]);
}

pub(crate) proof fn lemma_apos()
    ensures
        bytes::text("&#x27;"@) == seq![
            0x26u8, 0x23, 0x78, 0x32, 0x37, 0x3b,
        ],
{
    reveal_strlit("&#x27;");
    let s = "&#x27;"@;
    assert(s =~= seq![
        '&', '#', 'x', '2', '7', ';',
    ]);
    vstd::utf8::is_ascii_chars_encode_utf8(s);
    assert(bytes::text(s) =~= seq![
        0x26u8, 0x23, 0x78, 0x32, 0x37, 0x3b,
    ]);
}

pub(crate) proof fn lemma_slash()
    ensures
        bytes::text("&#x2f;"@) == seq![
            0x26u8, 0x23, 0x78, 0x32, 0x66, 0x3b,
        ],
{
    reveal_strlit("&#x2f;");
    let s = "&#x2f;"@;
    assert(s =~= seq![
        '&', '#', 'x', '2', 'f', ';',
    ]);
    vstd::utf8::is_ascii_chars_encode_utf8(s);
    assert(bytes::text(s) =~= seq![
        0x26u8, 0x23, 0x78, 0x32, 0x66, 0x3b,
    ]);
}

pub(crate) proof fn lemma_lt()
    ensures
        bytes::text("&lt;"@) == seq![
            0x26u8, 0x6c, 0x74, 0x3b,
        ],
{
    reveal_strlit("&lt;");
    let s = "&lt;"@;
    assert(s =~= seq![
        '&', 'l', 't', ';',
    ]);
    vstd::utf8::is_ascii_chars_encode_utf8(s);
    assert(bytes::text(s) =~= seq![
        0x26u8, 0x6c, 0x74, 0x3b,
    ]);
}

pub(crate) proof fn lemma_gt()
    ensures
        bytes::text("&gt;"@) == seq![
            0x26u8, 0x67, 0x74, 0x3b,
        ],
{
    reveal_strlit("&gt;");
    let s = "&gt;"@;
    assert(s =~= seq![
        '&', 'g', 't', ';',
    ]);
    vstd::utf8::is_ascii_chars_encode_utf8(s);
    assert(bytes::text(s) =~= seq![
        0x26u8, 0x67, 0x74, 0x3b,
    ]);
}

pub(crate) proof fn lemma_ok_line()
    ensures
        bytes::text("HTTP/1.1 200 OK"@) == seq![
            0x48u8, 0x54, 0x54, 0x50, 0x2f, 0x31, 0x2e, 0x31, 0x20, 0x32, 0x30, 0x30, 0x20, 0x4f,
            0x4b,
        ],
{
    reveal_strlit("HTTP/1.1 200 OK");
    let s = "HTTP/1.1 200 OK"@;
    assert(s =~= seq![
        'H', 'T', 'T', 'P', '/', '1', '.', '1', ' ', '2', '0', '0', ' ', 'O', 'K',
    ]);
    vstd::utf8::is_ascii_chars_encode_utf8(s);
    assert(bytes::text(s) =~= seq![
        0x48u8, 0x54, 0x54, 0x50, 0x2f, 0x31, 0x2e, 0x31, 0x20, 0x32, 0x30, 0x30, 0x20, 0x4f,
        0x4b,
    ]);
}

pub(crate) proof fn lemma_type_is()
    ensures
        bytes::text("Content-Type: "@) == seq![
            0x43u8, 0x6f, 0x6e, 0x74, 0x65, 0x6e, 0x74, 0x2d, 0x54, 0x79, 0x70, 0x65, 0x3a, 0x20,
        ],
{
    reveal_strlit("Content-Type: ");
    let s = "Content-Type: "@;
    assert(s =~= seq![
        'C', 'o', 'n', 't', 'e', 'n', 't', '-', 'T', 'y', 'p', 'e', ':', ' ',
    ]);
    vstd::utf8::is_ascii_chars_encode_utf8(s);
    assert(bytes::text(s) =~= seq![
        0x43u8, 0x6f, 0x6e, 0x74, 0x65, 0x6e, 0x74, 0x2d, 0x54, 0x79, 0x70, 0x65, 0x3a, 0x20,
    ]);
}

pub(crate) proof fn lemma_tag_key()
    ensures
        bytes::text("ETag: "@) == seq![
            0x45u8, 0x54, 0x61, 0x67, 0x3a, 0x20,
        ],
{
    reveal_strlit("ETag: ");
    let s = "ETag: "@;
    assert(s =~= seq![
        'E', 'T', 'a', 'g', ':', ' ',
    ]);
    vstd::utf8::is_ascii_chars_encode_utf8(s);
    assert(bytes::text(s) =~= seq![
        0x45u8, 0x54, 0x61, 0x67, 0x3a, 0x20,
    ]);
}

pub(crate) proof fn lemma_cache_line()
    ensures
        bytes::text("Cache-control: max-age=180, public"@) == seq![
            0x43u8, 0x61, 0x63, 0x68, 0x65, 0x2d, 0x63, 0x6f, 0x6e, 0x74, 0x72, 0x6f, 0x6c, 0x3a,
            0x20, 0x6d, 0x61, 0x78, 0x2d, 0x61, 0x67, 0x65, 0x3d, 0x31, 0x38, 0x30, 0x2c, 0x20,
            0x70, 0x75, 0x62, 0x6c, 0x69, 0x63,
        ],
{
    reveal_strlit("Cache-control: max-age=180, public");
    let s = "Cache-control: max-age=180, public"@;
    assert(s =~= seq![
        'C', 'a', 'c', 'h', 'e', '-', 'c', 'o', 'n', 't', 'r', 'o', 'l', ':', ' ', 'm', 'a', 'x',
        '-', 'a', 'g', 'e', '=', '1', '8', '0', ',', ' ', 'p', 'u', 'b', 'l', 'i', 'c',
    ]);
    vstd::utf8::is_ascii_chars_encode_utf8(s);
    assert(bytes::text(s) =~= seq![
        0x43u8, 0x61, 0x63, 0x68, 0x65, 0x2d, 0x63, 0x6f, 0x6e, 0x74, 0x72, 0x6f, 0x6c, 0x3a,
        0x20, 0x6d, 0x61, 0x78, 0x2d, 0x61, 0x67, 0x65, 0x3d, 0x31, 0x38, 0x30, 0x2c, 0x20, 0x70,
        0x75, 0x62, 0x6c, 0x69, 0x63,
    ]);
}

pub(crate) proof fn lemma_not_modified_line()
    ensures
        bytes::text("HTTP/1.1 304 Not Modified"@) == seq![
            0x48u8, 0x54, 0x54, 0x50, 0x2f, 0x31, 0x2e, 0x31, 0x20, 0x33, 0x30, 0x34, 0x20, 0x4e,
            0x6f, 0x74, 0x20, 0x4d, 0x6f, 0x64, 0x69, 0x66, 0x69, 0x65, 0x64,
        ],
{
    reveal_strlit("HTTP/1.1 304 Not Modified");
    let s = "HTTP/1.1 304 Not Modified"@;
    assert(s =~= seq![
        'H', 'T', 'T', 'P', '/', '1', '.', '1', ' ', '3', '0', '4', ' ', 'N', 'o', 't', ' ', 'M',
        'o', 'd', 'i', 'f', 'i', 'e', 'd',
    ]);
    vstd::utf8::is_ascii_chars_encode_utf8(s);
    assert(bytes::text(s) =~= seq![
        0x48u8, 0x54, 0x54, 0x50, 0x2f, 0x31, 0x2e, 0x31, 0x20, 0x33, 0x30, 0x34, 0x20, 0x4e,
        0x6f, 0x74, 0x20, 0x4d, 0x6f, 0x64, 0x69, 0x66, 0x69, 0x65, 0x64,
    ]);
}

pub(crate) proof fn lemma_no_length()
    ensures
        bytes::text("Content-Length: 0"@) == seq![
            0x43u8, 0x6f, 0x6e, 0x74, 0x65, 0x6e, 0x74, 0x2d, 0x4c, 0x65, 0x6e, 0x67, 0x74, 0x68,
            0x3a, 0x20, 0x30,
        ],
{
    reveal_strlit("Content-Length: 0");
    let s = "Content-Length: 0"@;
    assert(s =~= seq![
        'C', 'o', 'n', 't', 'e', 'n', 't', '-', 'L', 'e', 'n', 'g', 't', 'h', ':', ' ', '0',
    ]);
    vstd::utf8::is_ascii_chars_encode_utf8(s);
    assert(bytes::text(s) =~= seq![
        0x43u8, 0x6f, 0x6e, 0x74, 0x65, 0x6e, 0x74, 0x2d, 0x4c, 0x65, 0x6e, 0x67, 0x74, 0x68,
        0x3a, 0x20, 0x30,
    ]);
}

pub(crate) proof fn lemma_cache_name()
    ensures
        bytes::text("Cache-control"@) == seq![
            0x43u8, 0x61, 0x63, 0x68, 0x65, 0x2d, 0x63, 0x6f, 0x6e, 0x74, 0x72, 0x6f, 0x6c,
        ],
{
    reveal_strlit("Cache-control");
    let s = "Cache-control"@;
    assert(s =~= seq![
        'C', 'a', 'c', 'h', 'e', '-', 'c', 'o', 'n', 't', 'r', 'o', 'l',
    ]);
    vstd::utf8::is_ascii_chars_encode_utf8(s);
    assert(bytes::text(s) =~= seq![
        0x43u8, 0x61, 0x63, 0x68, 0x65, 0x2d, 0x63, 0x6f, 0x6e, 0x74, 0x72, 0x6f, 0x6c,
    ]);
}

pub(crate) proof fn lemma_cache_value()
    ensures
        bytes::text("max-age=180, public"@) == seq![
            0x6du8, 0x61, 0x78, 0x2d, 0x61, 0x67, 0x65, 0x3d, 0x31, 0x38, 0x30, 0x2c, 0x20, 0x70,
            0x75, 0x62, 0x6c, 0x69, 0x63,
        ],
{
    reveal_strlit("max-age=180, public");
    let s = "max-age=180, public"@;
    assert(s =~= seq![
        'm', 'a', 'x', '-', 'a', 'g', 'e', '=', '1', '8', '0', ',', ' ', 'p', 'u', 'b', 'l', 'i',
        'c',
    ]);
    vstd::utf8::is_ascii_chars_encode_utf8(s);
    assert(bytes::text(s) =~= seq![
        0x6du8, 0x61, 0x78, 0x2d, 0x61, 0x67, 0x65, 0x3d, 0x31, 0x38, 0x30, 0x2c, 0x20, 0x70,
        0x75, 0x62, 0x6c, 0x69, 0x63,
    ]);
}

} // verus!
