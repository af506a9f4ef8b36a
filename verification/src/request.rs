//! Reading requests.
use vstd::prelude::*;

use crate::bytes;
use crate::encoding;
use crate::http;
use crate::http::{Header, HeaderView, HttpParse, HttpParseView};
use crate::outside;
use crate::status::HttpStatus;

verus! {

/// The encodings that a client accepts.
#[derive(Debug, Clone, Copy, PartialEq, Eq, Structural)]
pub struct AcceptedEncodings {
    pub gzip: bool,
    pub zstd: bool,
}

impl Default for AcceptedEncodings {
    fn default() -> (r: Self)
        ensures
            r == (AcceptedEncodings { gzip: false, zstd: false }),
    {
        AcceptedEncodings { gzip: false, zstd: false }
    }
}

/// The encodings that the value of an `Accept-Encoding` header names; none where the value is
/// not UTF-8.
pub open spec fn encodings_in(value: Seq<u8>) -> AcceptedEncodings {
    AcceptedEncodings {
        gzip: vstd::utf8::valid_utf8(value) && bytes::occurs_in(bytes::text("gzip"@), value),
        zstd: vstd::utf8::valid_utf8(value) && bytes::occurs_in(bytes::text("zstd"@), value),
    }
}

impl AcceptedEncodings {
    /// The encodings that an `Accept-Encoding` header names.
    pub fn from_header(header: &Header) -> (r: Self)
        ensures
            r == encodings_in(header.value@),
    {
        match outside::from_utf8(header.value.as_slice()) {
            Some(value) => AcceptedEncodings {
                gzip: bytes::contains(value.as_bytes(), "gzip".as_bytes()),
                zstd: bytes::contains(value.as_bytes(), "zstd".as_bytes()),
            },
            None => AcceptedEncodings::default(),
        }
    }
}

/// What the server reads of the headers of a request.
#[derive(Debug, Clone, Copy, PartialEq, Eq, Structural)]
pub struct Headers {
    /// The entity tag that the client holds, read as a number.
    pub if_none_match: Option<u32>,
    pub accepted_encodings: AcceptedEncodings,
    /// Whether the client asks for the connection to be closed.
    pub close: bool,
}

/// What is read of a request without headers.
pub open spec fn no_headers() -> Headers {
    Headers {
        if_none_match: None,
        accepted_encodings: AcceptedEncodings { gzip: false, zstd: false },
        close: false,
    }
}

impl Default for Headers {
    fn default() -> (r: Self)
        ensures
            r == no_headers(),
    {
        Headers {
            if_none_match: None,
            accepted_encodings: AcceptedEncodings::default(),
            close: false,
        }
    }
}

/// The number that four bytes stand for, the first of them the most significant.
pub open spec fn big_endian(b: Seq<u8>) -> int {
    b[0] * 0x1000000 + b[1] * 0x10000 + b[2] * 0x100 + b[3]
}

/// The number in the entity tag that the value of an `If-None-Match` header holds: eight
/// hexadecimal digits between two bytes.
pub open spec fn tag_number(value: Seq<u8>) -> Option<u32> {
    match encoding::hex_bytes(value.subrange(1, 9)) {
        Some(b) => Some(big_endian(b) as u32),
        None => None,
    }
}

/// What is read of the headers once one more has been read.
pub open spec fn with_header(headers: Headers, h: HeaderView) -> Headers {
    if bytes::same_ignoring_case(h.name, bytes::text("if-none-match"@)) && h.value.len() == 10 {
        match tag_number(h.value) {
            Some(n) => Headers { if_none_match: Some(n), ..headers },
            None => headers,
        }
    } else if bytes::same_ignoring_case(h.name, bytes::text("accept-encoding"@)) {
        Headers { accepted_encodings: encodings_in(h.value), ..headers }
    } else if bytes::same_ignoring_case(h.name, bytes::text("connection"@))
        && bytes::same_ignoring_case(h.value, bytes::text("close"@)) {
        Headers { close: true, ..headers }
    } else {
        headers
    }
}

/// What is read of a list of headers.
pub open spec fn headers_of(list: Seq<HeaderView>) -> Headers
    decreases list.len(),
{
    if list.len() == 0 {
        no_headers()
    } else {
        with_header(headers_of(list.drop_last()), list.last())
    }
}

/// The number that four bytes stand for, the first of them the most significant.
pub fn from_be_bytes(b: [u8; 4]) -> (r: u32)
    ensures
        r == big_endian(b@),
{
    (b[0] as u32) * 0x1000000 + (b[1] as u32) * 0x10000 + (b[2] as u32) * 0x100 + (b[3] as u32)
}

/// The number in the entity tag that the value of an `If-None-Match` header holds.
fn read_tag(value: &[u8]) -> (r: Option<u32>)
    requires
        value@.len() == 10,
    ensures
        r == tag_number(value@),
{
    let hex_part = &value[1..9];
    let ghost h = hex_part@;
    proof {
        assert(h == value@.subrange(1, 9));
        if encoding::without_hex_prefix(h) != h {
            assert(encoding::hex_digit(h[1]) is None);
            assert(encoding::hex_bytes(h) is None);
            assert(h.skip(2).len() == 6);
        } else {
            assert(h.len() == 8);
        }
    }
    match outside::decode_hex::<4>(hex_part) {
        Some(b) => {
            assert(b@.len() == 4);
            Some(from_be_bytes(b))
        },
        None => None,
    }
}

/// What is read of a list of headers.
pub fn extract_headers(parsed_headers: &[Header]) -> (r: Headers)
    ensures
        r == headers_of(http::header_views(parsed_headers@)),
{
    let ghost views = http::header_views(parsed_headers@);
    let mut headers = Headers::default();
    let mut i: usize = 0;
    assert(views.take(0) =~= Seq::empty());
    while i < parsed_headers.len()
        invariant
            i <= parsed_headers@.len(),
            views == http::header_views(parsed_headers@),
            headers == headers_of(views.take(i as int)),
        decreases parsed_headers@.len() - i,
    {
        let h = &parsed_headers[i];
        let name = h.name.as_str().as_bytes();
        proof {
            assert(views.take(i + 1).drop_last() =~= views.take(i as int));
            assert(views.take(i + 1).last() == h@);
        }
        if bytes::eq_ignore_ascii_case(name, "if-none-match".as_bytes()) && h.value.len() == 10 {
            if let Some(number) = read_tag(h.value.as_slice()) {
                headers.if_none_match = Some(number);
            }
        } else if bytes::eq_ignore_ascii_case(name, "accept-encoding".as_bytes()) {
            headers.accepted_encodings = AcceptedEncodings::from_header(h);
        } else if bytes::eq_ignore_ascii_case(name, "connection".as_bytes())
            && bytes::eq_ignore_ascii_case(h.value.as_slice(), "close".as_bytes()) {
            headers.close = true;
        }
        i += 1;
    }
    assert(views.take(views.len() as int) =~= views);
    headers
}

/// A buffer, and a part of it.
#[derive(Debug)]
pub struct BufSlice {
    pub buf: Vec<u8>,
    pub start: usize,
    pub end: usize,
}

impl BufSlice {
    /// Whether the part lies within the buffer.
    pub open spec fn wf(self) -> bool {
        self.start <= self.end <= self.buf@.len()
    }

    /// The bytes of the part.
    pub open spec fn part(self) -> Seq<u8> {
        self.buf@.subrange(self.start as int, self.end as int)
    }

    /// The bytes of the part.
    pub fn as_slice(&self) -> (r: &[u8])
        requires
            self.wf(),
        ensures
            r@ == self.part(),
    {
        &self.buf.as_slice()[self.start..self.end]
    }

    /// The whole buffer.
    pub fn into_inner(self) -> (r: Vec<u8>)
        ensures
            r == self.buf,
    {
        self.buf
    }
}

/// A request, or what is wrong with it. Either way it holds the buffer it was read into.
#[derive(Debug)]
pub enum Request {
    Get { path: BufSlice, headers: Headers },
    Bad { status: HttpStatus, buf: Vec<u8> },
}

/// A request, with buffers as sequences.
pub enum RequestView {
    Get { buf: Seq<u8>, start: int, end: int, headers: Headers },
    Bad { status: HttpStatus, buf: Seq<u8> },
}

impl View for Request {
    type V = RequestView;

    open spec fn view(&self) -> RequestView {
        match *self {
            Request::Get { path, headers } => RequestView::Get {
                buf: path.buf@,
                start: path.start as int,
                end: path.end as int,
                headers,
            },
            Request::Bad { status, buf } => RequestView::Bad { status, buf: buf@ },
        }
    }
}

impl Request {
    /// Whether the path lies within its buffer.
    pub open spec fn wf(self) -> bool {
        self matches Request::Get { path, .. } ==> path.wf()
    }

    /// Whether the connection is kept once the request has been answered.
    pub fn keep_alive(&self) -> (r: bool)
        ensures
            r == match *self {
                Request::Get { headers, .. } => !headers.close,
                Request::Bad { .. } => false,
            },
    {
        match self {
            Request::Get { headers, .. } => !headers.close,
            Request::Bad { .. } => false,
        }
    }
}

impl RequestView {
    /// The buffer that the request holds.
    pub open spec fn buffer(self) -> Seq<u8> {
        match self {
            RequestView::Get { buf, .. } => buf,
            RequestView::Bad { buf, .. } => buf,
        }
    }
}

/// The request that a parsed message is. The message was read into the front of `buf`.
///
/// The path is decoded into the part of the buffer behind it, and it has to leave a byte of that
/// free.
pub open spec fn request_of(parsed: HttpParseView, message: Seq<u8>, buf: Seq<u8>) -> RequestView {
    match parsed {
        HttpParseView::TooManyHeaders => RequestView::Bad {
            status: HttpStatus::HeaderTooLong,
            buf,
        },
        HttpParseView::Invalid => RequestView::Bad { status: HttpStatus::BadRequest, buf },
        HttpParseView::Partial { path: None } => RequestView::Bad {
            status: HttpStatus::UriTooLong,
            buf,
        },
        HttpParseView::Partial { path: Some(_) } => RequestView::Bad {
            status: HttpStatus::BadRequest,
            buf,
        },
        HttpParseView::Complete { path: None, .. } => RequestView::Bad {
            status: HttpStatus::BadRequest,
            buf,
        },
        HttpParseView::Complete { method, path: Some(path), headers } => if method != Some(
            bytes::text("GET"@),
        ) {
            RequestView::Bad { status: HttpStatus::MethodNotAllowed, buf }
        } else {
            let end = http::path_start(message, method->0) + path.len();
            let decoded = encoding::percent_decoded(path);
            let room = buf.len() - end;
            if decoded.len() < room {
                RequestView::Get {
                    buf: bytes::overwrite(buf, end, decoded),
                    start: end,
                    end: end + decoded.len(),
                    headers: headers_of(headers),
                }
            } else {
                RequestView::Bad {
                    status: HttpStatus::UriTooLong,
                    buf: bytes::overwrite(buf, end, decoded.take(room)),
                }
            }
        },
    }
}

/// Where a path stands in a message.
pub fn get_path_range(message: &[u8], method: &str, path: &str) -> (r: (usize, usize))
    requires
        http::path_stands_at(
            message@,
            bytes::text(path@),
            http::path_start(message@, bytes::text(method@)),
        ),
    ensures
        r.0 == http::path_start(message@, bytes::text(method@)),
        r.1 == r.0 + bytes::text(path@).len(),
{
    let mut i: usize = 0;
    assert(message@.skip(0) =~= message@);
    while i < message.len() && (message[i] == 0x0d || message[i] == 0x0a)
        invariant
            i <= message@.len(),
            http::leading_breaks(message@) == i + http::leading_breaks(message@.skip(i as int)),
        decreases message@.len() - i,
    {
        assert(message@.skip(i as int).drop_first() =~= message@.skip(i + 1));
        i += 1;
    }
    assert(http::leading_breaks(message@.skip(i as int)) == 0);
    let start: usize = i + method.as_bytes().len() + 1;
    (start, start + path.as_bytes().len())
}

/// Decodes a path into the buffer behind it, as far as there is room.
///
/// The decoded path has to leave a byte free; where it does not, the buffer is handed back.
pub fn decode_path(buf: Vec<u8>, range: (usize, usize)) -> (r: Result<BufSlice, Vec<u8>>)
    requires
        range.0 <= range.1 <= buf@.len(),
    ensures
        ({
            let decoded = encoding::percent_decoded(
                buf@.subrange(range.0 as int, range.1 as int),
            );
            let room = buf@.len() - range.1;
            match r {
                Ok(path) => {
                    &&& decoded.len() < room
                    &&& path.wf()
                    &&& path.start == range.1
                    &&& path.part() == decoded
                    &&& path.buf@ == bytes::overwrite(buf@, range.1 as int, decoded)
                },
                Err(rest) => {
                    &&& decoded.len() >= room
                    &&& rest@ == bytes::overwrite(buf@, range.1 as int, decoded.take(room))
                },
            }
        }),
{
    let mut buf = buf;
    let decoded = outside::percent_decode(&buf.as_slice()[range.0..range.1]);
    let room: usize = buf.len() - range.1;
    if decoded.len() >= room {
        bytes::copy_into(&mut buf, range.1, &decoded.as_slice()[0..room]);
        assert(decoded@.take(room as int) =~= decoded@.subrange(0, room as int));
        return Err(buf);
    }
    bytes::copy_into(&mut buf, range.1, decoded.as_slice());
    let end: usize = range.1 + decoded.len();
    let path = BufSlice { buf, start: range.1, end };
    assert(path.part() =~= decoded@);
    Ok(path)
}

fn bad(status: HttpStatus, buf: Vec<u8>) -> (r: Request)
    ensures
        r@ == (RequestView::Bad { status, buf: buf@ }),
        r.wf(),
{
    Request::Bad { status, buf }
}

/// The request that a parsed message is. The message takes up the first `len` bytes of `buf`.
pub fn request_from_parse(parsed: HttpParse, buf: Vec<u8>, len: usize) -> (r: Request)
    requires
        len <= buf@.len(),
        parsed@ matches HttpParseView::Complete { method: Some(m), path: Some(p), .. }
            ==> http::path_stands_at(buf@.take(len as int), p, http::path_start(
            buf@.take(len as int),
            m,
        )),
    ensures
        r@ == request_of(parsed@, buf@.take(len as int), buf@),
        r@.buffer().len() == buf@.len(),
        r.wf(),
{
    match parsed {
        HttpParse::TooManyHeaders => bad(HttpStatus::HeaderTooLong, buf),
        HttpParse::Invalid => bad(HttpStatus::BadRequest, buf),
        HttpParse::Partial { path } => match path {
            None => bad(HttpStatus::UriTooLong, buf),
            Some(_) => bad(HttpStatus::BadRequest, buf),
        },
        HttpParse::Complete { method, path, headers } => {
            let path = match path {
                None => return bad(HttpStatus::BadRequest, buf),
                Some(path) => path,
            };
            let method = match method {
                None => return bad(HttpStatus::MethodNotAllowed, buf),
                Some(method) => method,
            };
            if !bytes::equal(method.as_str().as_bytes(), "GET".as_bytes()) {
                return bad(HttpStatus::MethodNotAllowed, buf);
            }
            let headers = extract_headers(headers.as_slice());
            let range = get_path_range(&buf.as_slice()[0..len], method.as_str(), path.as_str());
            proof {
                let message = buf@.take(len as int);
                assert(buf@.subrange(0, len as int) =~= message);
                assert(buf@.subrange(range.0 as int, range.1 as int) =~= message.subrange(
                    range.0 as int,
                    range.1 as int,
                ));
            }
            match decode_path(buf, range) {
                Ok(path) => Request::Get { path, headers },
                Err(rest) => bad(HttpStatus::UriTooLong, rest),
            }
        },
    }
}

/// The most headers that a request may have.
pub const MAX_HEADERS: usize = 64;

/// The request that has been read into a buffer.
///
/// `read` is the number of bytes that were read, or `None` where reading failed. Where it
/// failed, or nothing was left to read, there is no request and the buffer is handed back.
pub fn parse_next_request(read: Option<usize>, buf: Vec<u8>) -> (r: Result<Request, Vec<u8>>)
    requires
        read matches Some(len) ==> len <= buf@.len(),
    ensures
        match r {
            Ok(request) => {
                &&& read matches Some(len)
                &&& len > 0
                &&& request.wf()
                &&& request@.buffer().len() == buf@.len()
                &&& request@ == request_of(
                    outside::http_parse(buf@.take(len as int), MAX_HEADERS as int),
                    buf@.take(len as int),
                    buf@,
                )
            },
            Err(rest) => rest == buf && (read is None || read == Some(0usize)),
        },
{
    let len = match read {
        None => return Err(buf),
        Some(len) => len,
    };
    if len == 0 {
        return Err(buf);
    }
    assert(buf@.subrange(0, len as int) =~= buf@.take(len as int));
    let parsed = outside::parse_http::<MAX_HEADERS>(&buf.as_slice()[0..len]);
    Ok(request_from_parse(parsed, buf, len))
}

} // verus!
