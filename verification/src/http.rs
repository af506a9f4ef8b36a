//! Parsed HTTP messages.
use vstd::prelude::*;

use crate::bytes;

verus! {

/// A header line of a request.
#[derive(Debug)]
pub struct Header {
    pub name: String,
    pub value: Vec<u8>,
}

/// A header line, its name as UTF-8 bytes.
pub struct HeaderView {
    pub name: Seq<u8>,
    pub value: Seq<u8>,
}

impl View for Header {
    type V = HeaderView;

    open spec fn view(&self) -> HeaderView {
        HeaderView { name: bytes::text(self.name@), value: self.value@ }
    }
}

/// What a parser makes of the bytes read from a connection.
#[derive(Debug)]
pub enum HttpParse {
    /// A whole request.
    Complete { method: Option<String>, path: Option<String>, headers: Vec<Header> },
    /// The beginning of a request; the path is known once it has been read whole.
    Partial { path: Option<String> },
    /// A request with more headers than there is room for.
    TooManyHeaders,
    /// No request.
    Invalid,
}

/// What a parser makes of the bytes, with texts as UTF-8 bytes.
pub enum HttpParseView {
    Complete { method: Option<Seq<u8>>, path: Option<Seq<u8>>, headers: Seq<HeaderView> },
    Partial { path: Option<Seq<u8>> },
    TooManyHeaders,
    Invalid,
}

/// The bytes of a text that may be missing.
pub open spec fn optional_text(s: Option<String>) -> Option<Seq<u8>> {
    match s {
        Some(s) => Some(bytes::text(s@)),
        None => None,
    }
}

/// The views of header lines.
pub open spec fn header_views(headers: Seq<Header>) -> Seq<HeaderView> {
    headers.map_values(|h: Header| h@)
}

impl View for HttpParse {
    type V = HttpParseView;

    open spec fn view(&self) -> HttpParseView {
        match *self {
            HttpParse::Complete { method, path, headers } => HttpParseView::Complete {
                method: optional_text(method),
                path: optional_text(path),
                headers: header_views(headers@),
            },
            HttpParse::Partial { path } => HttpParseView::Partial { path: optional_text(path) },
            HttpParse::TooManyHeaders => HttpParseView::TooManyHeaders,
            HttpParse::Invalid => HttpParseView::Invalid,
        }
    }
}

/// How many bytes of line breaks a message begins with.
pub open spec fn leading_breaks(message: Seq<u8>) -> nat
    decreases message.len(),
{
    if message.len() > 0 && (message[0] == 0x0d || message[0] == 0x0a) {
        1 + leading_breaks(message.drop_first())
    } else {
        0
    }
}

/// Where the path of a message begins: behind line breaks, the method and one space.
pub open spec fn path_start(message: Seq<u8>, method: Seq<u8>) -> int {
    leading_breaks(message) as int + method.len() + 1
}

/// Whether a path stands at an index of a message, with a byte behind it.
pub open spec fn path_stands_at(message: Seq<u8>, path: Seq<u8>, start: int) -> bool {
    &&& 0 <= start
    &&& start + path.len() < message.len()
    &&& message.subrange(start, start + path.len()) == path
}

} // verus!
