//! What is read of requests.
use vstd::prelude::*;

use crate::bytes;
use crate::client_laws;
use crate::connection_laws;
use crate::encoding;
use crate::entry::Entry;
use crate::http;
use crate::http::{Header, HeaderView, HttpParseView};
use crate::literals;
use crate::outside;
use crate::request;
use crate::request::{AcceptedEncodings, Request};
use crate::response;
use crate::tree::Tree;

verus! {

/// Whether a word stands in a text.
pub open spec fn stands_in(word: Seq<u8>, s: Seq<u8>) -> bool {
    exists|i: int| #[trigger] stands_at(word, s, i)
}

/// Whether a word stands in a text, from an index on.
pub open spec fn stands_at(word: Seq<u8>, s: Seq<u8>, i: int) -> bool {
    &&& 0 <= i
    &&& i + word.len() <= s.len()
    &&& forall|j: int| 0 <= j < word.len() ==> #[trigger] word[j] == s[i + j]
}

/// Whether a text is a word of small letters, with any of them written as capitals.
pub open spec fn spells(s: Seq<u8>, word: Seq<u8>) -> bool {
    &&& s.len() == word.len()
    &&& forall|i: int|
        0 <= i < s.len() ==> {
            ||| #[trigger] s[i] == word[i]
            ||| 0x61 <= word[i] <= 0x7a && s[i] == word[i] - 0x20
        }
}

/// `gzip`
pub open spec fn gzip_word() -> Seq<u8> {
    seq![0x67u8, 0x7a, 0x69, 0x70]
}

/// `zstd`
pub open spec fn zstd_word() -> Seq<u8> {
    seq![0x7au8, 0x73, 0x74, 0x64]
}

/// `accept-encoding`
pub open spec fn accept_encoding_word() -> Seq<u8> {
    seq![
        0x61u8, 0x63, 0x63, 0x65, 0x70, 0x74, 0x2d, 0x65, 0x6e, 0x63, 0x6f, 0x64, 0x69, 0x6e, 0x67,
    ]
}

/// `if-none-match`
pub open spec fn if_none_match_word() -> Seq<u8> {
    seq![0x69u8, 0x66, 0x2d, 0x6e, 0x6f, 0x6e, 0x65, 0x2d, 0x6d, 0x61, 0x74, 0x63, 0x68]
}

/// `connection`
pub open spec fn connection_word() -> Seq<u8> {
    seq![0x63u8, 0x6f, 0x6e, 0x6e, 0x65, 0x63, 0x74, 0x69, 0x6f, 0x6e]
}

/// `close`
pub open spec fn close_word() -> Seq<u8> {
    seq![0x63u8, 0x6c, 0x6f, 0x73, 0x65]
}

/// Whether a header asks for the connection to be closed.
pub open spec fn asks_to_close(h: HeaderView) -> bool {
    spells(h.name, connection_word()) && spells(h.value, close_word())
}

/// The bytes that the entity tag in a header stands for, where the header holds one: the eight
/// hexadecimal digits behind the first byte and before the last.
pub open spec fn tag_in(h: HeaderView) -> Option<Seq<u8>> {
    if spells(h.name, if_none_match_word()) && h.value.len() == 10 {
        encoding::hex_bytes(h.value.subrange(1, 9))
    } else {
        None
    }
}

proof fn lemma_spells(s: Seq<u8>, word: Seq<u8>)
    requires
        forall|i: int| 0 <= i < word.len() ==> !(0x41 <= #[trigger] word[i] <= 0x5a),
    ensures
        bytes::same_ignoring_case(s, word) <==> spells(s, word),
{
    if bytes::same_ignoring_case(s, word) {
        assert forall|i: int| 0 <= i < s.len() implies {
            ||| #[trigger] s[i] == word[i]
            ||| 0x61 <= word[i] <= 0x7a && s[i] == word[i] - 0x20
        } by {
            assert(bytes::lower_case(s[i]) == bytes::lower_case(word[i]));
        }
    }
    if spells(s, word) {
        assert forall|i: int| 0 <= i < s.len() implies bytes::lower_case(#[trigger] s[i])
            == bytes::lower_case(word[i]) by {
            assert(!(0x41 <= word[i] <= 0x5a));
        }
    }
}

pub(crate) proof fn lemma_stands(word: Seq<u8>, s: Seq<u8>)
    ensures
        bytes::occurs_in(word, s) <==> stands_in(word, s),
{
    if bytes::occurs_in(word, s) {
        let i = choose|i: int| #[trigger] bytes::occurs_at(word, s, i);
        assert forall|j: int| 0 <= j < word.len() implies #[trigger] word[j] == s[i + j] by {
            assert(s.subrange(i, i + word.len())[j] == s[i + j]);
        }
        assert(stands_at(word, s, i));
    }
    if stands_in(word, s) {
        let i = choose|i: int| #[trigger] stands_at(word, s, i);
        assert(s.subrange(i, i + word.len()) =~= word);
        assert(bytes::occurs_at(word, s, i));
    }
}

/// How the headers that matter are told apart.
proof fn lemma_names(h: HeaderView)
    ensures
        bytes::same_ignoring_case(h.name, bytes::text("if-none-match"@)) <==> spells(
            h.name,
            if_none_match_word(),
        ),
        bytes::same_ignoring_case(h.name, bytes::text("accept-encoding"@)) <==> spells(
            h.name,
            accept_encoding_word(),
        ),
        bytes::same_ignoring_case(h.name, bytes::text("connection"@)) <==> spells(
            h.name,
            connection_word(),
        ),
        bytes::same_ignoring_case(h.value, bytes::text("close"@)) <==> spells(
            h.value,
            close_word(),
        ),
        spells(h.name, if_none_match_word()) ==> h.name.len() == 13,
        spells(h.name, accept_encoding_word()) ==> h.name.len() == 15,
        spells(h.name, connection_word()) ==> h.name.len() == 10,
{
    literals::lemma_match_name();
    literals::lemma_accept_name();
    literals::lemma_connection_name();
    literals::lemma_close();
    lemma_spells(h.name, if_none_match_word());
    lemma_spells(h.name, accept_encoding_word());
    lemma_spells(h.name, connection_word());
    lemma_spells(h.value, close_word());
}

proof fn lemma_encodings(list: Seq<HeaderView>, k: int)
    requires
        -1 <= k < list.len(),
        k >= 0 ==> spells(list[k].name, accept_encoding_word()),
        forall|j: int|
            k < j < list.len() ==> !spells((#[trigger] list[j]).name, accept_encoding_word()),
    ensures
        request::headers_of(list).accepted_encodings == if k < 0 {
            AcceptedEncodings { gzip: false, zstd: false }
        } else {
            request::encodings_in(list[k].value)
        },
    decreases list.len(),
{
    if list.len() > 0 {
        lemma_names(list.last());
        if k < list.len() - 1 {
            let init = list.drop_last();
            assert(!spells(list[list.len() - 1].name, accept_encoding_word()));
            assert forall|j: int| k < j < init.len() implies !spells(
                (#[trigger] init[j]).name,
                accept_encoding_word(),
            ) by {
                assert(init[j] == list[j]);
            }
            lemma_encodings(init, k);
        }
    }
}

/// An encoding counts as accepted exactly where its own name stands in the value of the last
/// header that names encodings, a value that is UTF-8.
pub proof fn law_encodings_accepted(list: Seq<HeaderView>, k: int)
    requires
        0 <= k < list.len(),
        spells(list[k].name, accept_encoding_word()),
        forall|j: int|
            k < j < list.len() ==> !spells((#[trigger] list[j]).name, accept_encoding_word()),
    ensures
        ({
            let accepted = request::headers_of(list).accepted_encodings;
            let value = list[k].value;
            let text = vstd::utf8::valid_utf8(value);
            &&& accepted.gzip <==> text && stands_in(gzip_word(), value)
            &&& accepted.zstd <==> text && stands_in(zstd_word(), value)
        }),
{
    lemma_encodings(list, k);
    literals::lemma_gzip();
    literals::lemma_zstd();
    lemma_stands(gzip_word(), list[k].value);
    lemma_stands(zstd_word(), list[k].value);
}

/// Without a header that names encodings none counts as accepted.
pub proof fn law_no_encodings_accepted(list: Seq<HeaderView>)
    requires
        forall|j: int|
            0 <= j < list.len() ==> !spells((#[trigger] list[j]).name, accept_encoding_word()),
    ensures
        !request::headers_of(list).accepted_encodings.gzip,
        !request::headers_of(list).accepted_encodings.zstd,
{
    lemma_encodings(list, -1);
}

/// An encoding whose name stands in no header that names encodings does not count as accepted.
pub proof fn law_unnamed_not_accepted(list: Seq<HeaderView>)
    ensures
        ({
            let accepted = request::headers_of(list).accepted_encodings;
            &&& (forall|j: int|
                0 <= j < list.len() && spells(
                    (#[trigger] list[j]).name,
                    accept_encoding_word(),
                ) ==> !stands_in(gzip_word(), list[j].value)) ==> !accepted.gzip
            &&& (forall|j: int|
                0 <= j < list.len() && spells(
                    (#[trigger] list[j]).name,
                    accept_encoding_word(),
                ) ==> !stands_in(zstd_word(), list[j].value)) ==> !accepted.zstd
        }),
    decreases list.len(),
{
    if list.len() > 0 {
        let init = list.drop_last();
        let last = list.len() - 1;
        assert(forall|j: int| 0 <= j < init.len() ==> #[trigger] init[j] == list[j]);
        law_unnamed_not_accepted(init);
        lemma_names(list.last());
        assert(list[last] == list.last());
        literals::lemma_gzip();
        literals::lemma_zstd();
        lemma_stands(gzip_word(), list.last().value);
        lemma_stands(zstd_word(), list.last().value);
        let (g, z) = (gzip_word(), zstd_word());
        let name = accept_encoding_word();
        if forall|j: int|
            0 <= j < list.len() && spells((#[trigger] list[j]).name, name) ==> !stands_in(
                g,
                list[j].value,
            ) {
            assert forall|j: int| 0 <= j < init.len() && spells((#[trigger] init[j]).name, name)
                implies !stands_in(g, init[j].value) by {
                assert(init[j] == list[j]);
            }
        }
        if forall|j: int|
            0 <= j < list.len() && spells((#[trigger] list[j]).name, name) ==> !stands_in(
                z,
                list[j].value,
            ) {
            assert forall|j: int| 0 <= j < init.len() && spells((#[trigger] init[j]).name, name)
                implies !stands_in(z, init[j].value) by {
                assert(init[j] == list[j]);
            }
        }
    }
}

/// A client asks for the connection to be closed exactly where a header of its request says so.
pub proof fn law_close_asked(list: Seq<HeaderView>)
    ensures
        request::headers_of(list).close <==> exists|j: int|
            0 <= j < list.len() && asks_to_close(#[trigger] list[j]),
    decreases list.len(),
{
    if list.len() > 0 {
        let init = list.drop_last();
        law_close_asked(init);
        lemma_names(list.last());
        assert(forall|j: int| 0 <= j < init.len() ==> #[trigger] init[j] == list[j]);
        assert(list[list.len() - 1] == list.last());
        if request::headers_of(init).close {
            let j = choose|j: int| 0 <= j < init.len() && asks_to_close(#[trigger] init[j]);
            assert(asks_to_close(list[j]));
        }
        if exists|j: int| 0 <= j < list.len() && asks_to_close(#[trigger] list[j]) {
            let j = choose|j: int| 0 <= j < list.len() && asks_to_close(#[trigger] list[j]);
            if j < init.len() {
                assert(asks_to_close(init[j]));
            }
        }
    }
}

proof fn lemma_tag_number(list: Seq<HeaderView>, k: int)
    requires
        -1 <= k < list.len(),
        k >= 0 ==> tag_in(list[k]) is Some,
        forall|j: int| k < j < list.len() ==> tag_in(#[trigger] list[j]) is None,
    ensures
        request::headers_of(list).if_none_match == if k < 0 {
            None
        } else {
            Some(request::big_endian(tag_in(list[k])->0) as u32)
        },
    decreases list.len(),
{
    if list.len() > 0 {
        lemma_names(list.last());
        if k < list.len() - 1 {
            let init = list.drop_last();
            assert(tag_in(list[list.len() - 1]) is None);
            assert forall|j: int| k < j < init.len() implies tag_in(#[trigger] init[j]) is None by {
                assert(init[j] == list[j]);
            }
            lemma_tag_number(init, k);
        }
    }
}

/// The entry that a file or directory has in the archive.
pub open spec fn own_entry(node: Tree<Entry>) -> Option<Entry> {
    match node {
        Tree::File { entry, .. } => Some(entry),
        Tree::Dir { entry: Some(entry), .. } => Some(entry),
        Tree::Dir { entry: None, .. } => None,
    }
}

/// A client's copy of a file or directory counts as up to date exactly where the last header that
/// holds an entity tag holds that of its entry, which stands for the checksum.
pub proof fn law_up_to_date(list: Seq<HeaderView>, k: int, node: Tree<Entry>)
    requires
        0 <= k < list.len(),
        tag_in(list[k]) is Some,
        forall|j: int| k < j < list.len() ==> tag_in(#[trigger] list[j]) is None,
    ensures
        response::up_to_date(node, request::headers_of(list).if_none_match) <==> (own_entry(
            node,
        ) matches Some(entry) && client_laws::le_number(tag_in(list[k])->0) == entry.crc32),
{
    lemma_tag_number(list, k);
    let b = tag_in(list[k])->0;
    assert(b.len() == 4);
    if let Some(entry) = own_entry(node) {
        client_laws::lemma_le_number(entry.crc32);
        let c = encoding::le_bytes(entry.crc32);
        lemma_numbers(b[0], b[1], b[2], b[3], c[0], c[1], c[2], c[3]);
        assert(request::big_endian(b) as u32 == request::big_endian(b));
        assert(response::tag_value(entry.crc32) == request::big_endian(c));
        assert(request::big_endian(b) == request::big_endian(c) <==> client_laws::le_number(b)
            == client_laws::le_number(c));
    }
}

/// Four bytes give the same number as four others in one order exactly where they do in the other.
proof fn lemma_numbers(b0: u8, b1: u8, b2: u8, b3: u8, c0: u8, c1: u8, c2: u8, c3: u8)
    ensures
        ({
            let x = b0 * 0x1000000 + b1 * 0x10000 + b2 * 0x100 + b3;
            let y = c0 * 0x1000000 + c1 * 0x10000 + c2 * 0x100 + c3;
            let u = b0 + 0x100 * b1 + 0x1_0000 * b2 + 0x100_0000 * b3;
            let v = c0 + 0x100 * c1 + 0x1_0000 * c2 + 0x100_0000 * c3;
            &&& 0 <= x <= u32::MAX && 0 <= y <= u32::MAX
            &&& x == y <==> u == v
        }),
{
    let x = b0 * 0x1000000 + b1 * 0x10000 + b2 * 0x100 + b3;
    let y = c0 * 0x1000000 + c1 * 0x10000 + c2 * 0x100 + c3;
    let u = b0 + 0x100 * b1 + 0x1_0000 * b2 + 0x100_0000 * b3;
    let v = c0 + 0x100 * c1 + 0x1_0000 * c2 + 0x100_0000 * c3;
    if x == y {
        assert(b0 == c0);
        assert(b1 == c1);
        assert(b2 == c2);
    }
    if u == v {
        assert(b3 == c3);
        assert(b2 == c2);
        assert(b1 == c1);
    }
}

/// Without a header that holds an entity tag no copy counts as up to date.
pub proof fn law_not_up_to_date(list: Seq<HeaderView>, node: Tree<Entry>)
    requires
        forall|j: int| 0 <= j < list.len() ==> tag_in(#[trigger] list[j]) is None,
    ensures
        !response::up_to_date(node, request::headers_of(list).if_none_match),
{
    lemma_tag_number(list, -1);
}

/// A connection is kept behind a request exactly where none of its headers asks for it to be
/// closed.
pub proof fn law_kept(
    path: Seq<u8>,
    list: Seq<HeaderView>,
    message: Seq<u8>,
    buf: Seq<u8>,
    request: Request,
)
    requires
        request@ == request::request_of(
            HttpParseView::Complete {
                method: Some(seq![0x47u8, 0x45, 0x54]),
                path: Some(path),
                headers: list,
            },
            message,
            buf,
        ),
        request is Get,
    ensures
        connection_laws::kept(request) <==> forall|j: int|
            0 <= j < list.len() ==> !asks_to_close(#[trigger] list[j]),
{
    literals::lemma_get();
    law_close_asked(list);
}

/// Where a path stands in a message: behind the line breaks, the method and a space.
pub proof fn law_path_start(message: Seq<u8>, method: Seq<u8>, n: int)
    requires
        0 <= n < message.len(),
        forall|i: int| 0 <= i < n ==> #[trigger] message[i] == 0x0d || message[i] == 0x0a,
        message[n] != 0x0d && message[n] != 0x0a,
    ensures
        http::path_start(message, method) == n + method.len() + 1,
    decreases n,
{
    if n > 0 {
        let rest = message.drop_first();
        assert forall|i: int| 0 <= i < n - 1 implies #[trigger] rest[i] == 0x0d || rest[i]
            == 0x0a by {
            assert(rest[i] == message[i + 1]);
        }
        assert(message[0] == 0x0d || message[0] == 0x0a);
        law_path_start(rest, method, n - 1);
    }
}

/// A request to get a file asks for its path, percent-decoded, where that fits behind the path
/// with a byte to spare; otherwise it is refused.
pub proof fn law_path_asked_for(
    path: Seq<u8>,
    list: Seq<HeaderView>,
    message: Seq<u8>,
    buf: Seq<u8>,
    request: Request,
)
    requires
        ({
            let get = seq![0x47u8, 0x45, 0x54];
            let start = http::path_start(message, get);
            &&& request@ == request::request_of(
                HttpParseView::Complete { method: Some(get), path: Some(path), headers: list },
                message,
                buf,
            )
            &&& message.len() <= buf.len()
            &&& http::path_stands_at(message, path, start)
        }),
    ensures
        ({
            let end = http::path_start(message, seq![0x47u8, 0x45, 0x54]) + path.len();
            let asked = encoding::percent_decoded(path);
            match request {
                Request::Get { path: part, headers } => {
                    &&& end + asked.len() < buf.len()
                    &&& part.part() == asked
                    &&& headers == request::headers_of(list)
                },
                Request::Bad { status, .. } => {
                    &&& end + asked.len() >= buf.len()
                    &&& status is UriTooLong
                },
            }
        }),
{
    literals::lemma_get();
    let get = seq![0x47u8, 0x45, 0x54];
    let end = http::path_start(message, get) + path.len();
    let asked = encoding::percent_decoded(path);
    if let Request::Get { path: part, .. } = request {
        assert(part.buf@ == bytes::overwrite(buf, end, asked));
        assert(part.part() =~= asked);
    }
}

/// The headers of a message are read in their order, each with its own name and value.
pub proof fn law_headers_in_order(headers: Seq<Header>, i: int)
    requires
        0 <= i < headers.len(),
    ensures
        http::header_views(headers).len() == headers.len(),
        http::header_views(headers)[i].name == bytes::text(headers[i].name@),
        http::header_views(headers)[i].value == headers[i].value@,
{
}

/// A request is made of what was read into the front of the buffer, with at most 64 headers; there
/// is none where nothing was read or reading failed, and then the buffer is as it was.
pub proof fn law_request_made(
    read: Option<usize>,
    buf: Vec<u8>,
    made: Result<Request, Vec<u8>>,
)
    requires
        read matches Some(len) ==> len <= buf@.len(),
        call_ensures(request::parse_next_request, (read, buf), made),
    ensures
        match read {
            Some(len) if len > 0 => {
                let message = buf@.take(len as int);
                made matches Ok(request) && request@ == request::request_of(
                    outside::http_parse(message, 64),
                    message,
                    buf@,
                )
            },
            _ => made == Err::<Request, Vec<u8>>(buf),
        },
{
}

} // verus!
