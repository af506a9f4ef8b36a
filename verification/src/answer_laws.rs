//! What a client makes of the answers to its requests.
use vstd::prelude::*;

use crate::archive;
use crate::archive_laws;
use crate::bytes;
use crate::client;
use crate::client_laws;
use crate::encoding;
use crate::entry::Entry;
use crate::http::{HeaderView, HttpParseView};
use crate::insert_laws;
use crate::listing;
use crate::listing::Progress;
use crate::literals;
use crate::outside;
use crate::path;
use crate::request;
use crate::request::{AcceptedEncodings, Request};
use crate::request_laws;
use crate::response;
use crate::response::Response;
use crate::status::HttpStatus;
use crate::stream;
use crate::stream::{BufferFull, Transfer};
use crate::tree;
use crate::tree::Tree;
use crate::tree_laws;

verus! {

/// Whether the contents of an entry are sent: they are delivered, or the head of the response does
/// not fit into the buffer of the connection and nothing is sent.
pub open spec fn sends(
    entry: Entry,
    accepted: AcceptedEncodings,
    room: int,
    out: Seq<u8>,
    left: Result<Transfer, BufferFull>,
) -> bool {
    let mime = bytes::text(outside::mime_essence(entry.name@));
    match left {
        Ok(t) => client::one_line(mime) ==> client_laws::delivers(
            entry,
            mime,
            accepted.gzip,
            accepted.zstd,
            out,
            t,
        ),
        Err(_) => out.len() == 0 && room < mime.len() + 160,
    }
}

/// Whether a response says that a client's copy is up to date.
pub open spec fn is_not_modified(out: Seq<u8>, crc32: u32) -> bool {
    &&& client::status(out) == Some(304nat)
    &&& client::header(out, bytes::text("ETag"@)) matches Some(tag) && client_laws::is_tag_of(
        tag,
        crc32,
    )
    &&& client::header(out, bytes::text("Content-Encoding"@)) is None
    &&& client::body(out).len() == 0
}

/// `index.html`
pub open spec fn index_word() -> Seq<u8> {
    seq![0x69u8, 0x6e, 0x64, 0x65, 0x78, 0x2e, 0x68, 0x74, 0x6d, 0x6c]
}

/// The code of a status.
proof fn lemma_code(status: HttpStatus)
    ensures
        client_laws::is_status(
            stream::status_response(status.text()),
            match status {
                HttpStatus::NotFound => 404,
                HttpStatus::BadRequest => 400,
                HttpStatus::UriTooLong => 414,
                HttpStatus::HeaderTooLong => 431,
                HttpStatus::MethodNotAllowed => 405,
            },
        ),
{
    let s = bytes::text(status.text());
    match status {
        HttpStatus::NotFound => {
            literals::lemma_not_found();
            assert(s.take(4) =~= seq![0x34u8, 0x30, 0x34, 0x20]);
            client_laws::lemma_status_response(status.text(), 0x34, 0x30, 0x34);
        },
        HttpStatus::BadRequest => {
            literals::lemma_bad_request();
            assert(s.take(4) =~= seq![0x34u8, 0x30, 0x30, 0x20]);
            client_laws::lemma_status_response(status.text(), 0x34, 0x30, 0x30);
        },
        HttpStatus::UriTooLong => {
            literals::lemma_uri_too_long();
            assert(s.take(4) =~= seq![0x34u8, 0x31, 0x34, 0x20]);
            client_laws::lemma_status_response(status.text(), 0x34, 0x31, 0x34);
        },
        HttpStatus::HeaderTooLong => {
            literals::lemma_header_too_long();
            assert(s.take(4) =~= seq![0x34u8, 0x33, 0x31, 0x20]);
            client_laws::lemma_status_response(status.text(), 0x34, 0x33, 0x31);
        },
        HttpStatus::MethodNotAllowed => {
            literals::lemma_method_not_allowed();
            assert(s.take(4) =~= seq![0x34u8, 0x30, 0x35, 0x20]);
            client_laws::lemma_status_response(status.text(), 0x34, 0x30, 0x35);
        },
    }
}

/// A path that is not UTF-8, or that leads nowhere, is answered with the status for that.
pub proof fn law_nothing_there(
    request: Request,
    tree: Tree<Entry>,
    preamble: Seq<u8>,
    answer: Response,
)
    requires
        response::answers(request, tree, preamble, answer),
        request matches Request::Get { path, .. } && (!vstd::utf8::valid_utf8(path.part())
            || tree.find(path.part()) is None),
    ensures
        client_laws::is_status(answer.stream.out@, 404),
        answer.left matches Ok(Transfer::Finished),
{
    lemma_code(HttpStatus::NotFound);
}

/// What is no request to get a file is answered with the status that says what is wrong with it:
/// too many headers, a path that is not whole, another method, or anything else.
pub proof fn law_refusal_status(
    parsed: HttpParseView,
    message: Seq<u8>,
    buf: Seq<u8>,
    request: Request,
    tree: Tree<Entry>,
    preamble: Seq<u8>,
    answer: Response,
)
    requires
        request@ == request::request_of(parsed, message, buf),
        response::answers(request, tree, preamble, answer),
    ensures
        ({
            let out = answer.stream.out@;
            match parsed {
                HttpParseView::TooManyHeaders => client_laws::is_status(out, 431),
                HttpParseView::Invalid => client_laws::is_status(out, 400),
                HttpParseView::Partial { path: None } => client_laws::is_status(out, 414),
                HttpParseView::Partial { path: Some(_) } => client_laws::is_status(out, 400),
                HttpParseView::Complete { path: None, .. } => client_laws::is_status(out, 400),
                HttpParseView::Complete { method, path: Some(_), .. } => {
                    &&& method != Some(seq![0x47u8, 0x45, 0x54]) ==> client_laws::is_status(
                        out,
                        405,
                    )
                    &&& method == Some(seq![0x47u8, 0x45, 0x54]) && request is Bad
                        ==> client_laws::is_status(out, 414)
                },
            }
        }),
        request is Bad ==> answer.left matches Ok(Transfer::Finished),
{
    literals::lemma_get();
    if let Request::Bad { status, .. } = request {
        lemma_code(status);
    }
}

/// The parts of the texts that the response is made of that says that a copy is up to date.
proof fn lemma_not_modified_texts()
    ensures
        ({
            let line_break = seq![0x0du8, 0x0au8];
            let quote = seq![0x22u8];
            let first = bytes::text("HTTP/1.1 304 Not Modified"@);
            &&& bytes::text("HTTP/1.1 304 Not Modified\r\nETag: \""@) == first + line_break
                + bytes::text("ETag: "@) + quote
            &&& bytes::text("\"\r\n\r\n"@) == quote + line_break + line_break
            &&& client::one_line(first)
            &&& first.len() == 25
            &&& first[0] == 0x48
            &&& first.take(13) == seq![
                0x48u8, 0x54, 0x54, 0x50, 0x2f, 0x31, 0x2e, 0x31, 0x20, 0x33, 0x30, 0x34, 0x20,
            ]
        }),
{
    literals::lemma_not_modified();
    literals::lemma_not_modified_line();
    literals::lemma_tag_key();
    literals::lemma_tag_end();
    let line_break = seq![0x0du8, 0x0au8];
    let quote = seq![0x22u8];
    let first = bytes::text("HTTP/1.1 304 Not Modified"@);
    assert(bytes::text("HTTP/1.1 304 Not Modified\r\nETag: \""@) =~= first + line_break
        + bytes::text("ETag: "@) + quote);
    assert(bytes::text("\"\r\n\r\n"@) =~= quote + line_break + line_break);
    assert(first.take(13) =~= seq![
        0x48u8, 0x54, 0x54, 0x50, 0x2f, 0x31, 0x2e, 0x31, 0x20, 0x33, 0x30, 0x34, 0x20,
    ]);
}

/// What a client reads where its copy is up to date.
proof fn lemma_not_modified(crc32: u32)
    ensures
        is_not_modified(stream::not_modified_response(crc32), crc32),
{
    lemma_not_modified_texts();
    client_laws::lemma_keys();
    client_laws::lemma_tag(crc32);
    let out = stream::not_modified_response(crc32);
    let b = seq![0x0du8, 0x0au8];
    let q = seq![0x22u8];
    let none = Seq::<u8>::empty();
    let first = bytes::text("HTTP/1.1 304 Not Modified"@);
    let key = bytes::text("ETag: "@);
    let tag = stream::etag(crc32);
    let quoted = q + tag + q;
    client::lemma_one_line_add(q, tag);
    client::lemma_one_line_add(q + tag, q);
    client::lemma_one_line_add(key, quoted);
    assert(quoted.subrange(1, 9) =~= tag);
    let s1 = (key + quoted) + b + (b + none);
    lemma_not_modified_lines(first, b, key, q, tag);
    let n = bytes::text("ETag"@);
    assert(first + none =~= first);
    client::lemma_line(first, s1, n);
    client_laws::lemma_other(first, none, key, 0);
    client::lemma_line(key + quoted, b + none, n);
    client_laws::lemma_own(key, quoted);
    let n = bytes::text("Content-Encoding"@);
    let other = bytes::text("Content-Encoding: "@);
    client::lemma_line(first, s1, n);
    client_laws::lemma_other(first, none, other, 0);
    client::lemma_line(key + quoted, b + none, n);
    client_laws::lemma_other(key, quoted, other, 0);
    client::lemma_head_end(none, n);
    assert(out.take(13) =~= first.take(13));
    client_laws::lemma_status(out, 0x33, 0x30, 0x34);
}

proof fn lemma_not_modified_lines(
    first: Seq<u8>,
    b: Seq<u8>,
    key: Seq<u8>,
    q: Seq<u8>,
    tag: Seq<u8>,
)
    ensures
        (first + b + key + q) + tag + (q + b + b) == first + b + ((key + (q + tag + q)) + b + (b
            + Seq::<u8>::empty())),
{
    assert((first + b + key + q) + tag + (q + b + b) =~= first + b + ((key + (q + tag + q)) + b
        + (b + Seq::<u8>::empty())));
}

/// The number of digits of a number.
proof fn lemma_decimal_digits(n: nat, k: nat)
    requires
        n < vstd::arithmetic::power::pow(10, k),
        k > 0,
    ensures
        encoding::decimal(n).len() <= k,
    decreases k,
{
    reveal(vstd::arithmetic::power::pow);
    if n >= 10 {
        let low = (k - 1) as nat;
        vstd::arithmetic::power::lemma_pow0(10);
        assert(vstd::arithmetic::power::pow(10, k) == 10 * vstd::arithmetic::power::pow(10, low));
        assert(low > 0) by {
            if low == 0 {
                assert(vstd::arithmetic::power::pow(10, k) == 10);
            }
        }
        lemma_decimal_digits(n / 10, low);
    }
}

/// How long the head of an entry's response is at most.
proof fn lemma_head_len(
    mime: Seq<char>,
    entry: Entry,
    accepted: AcceptedEncodings,
)
    requires
        stream::sendable(entry, accepted),
    ensures
        stream::entry_head(
            mime,
            entry,
            stream::compression_for(entry.method, accepted),
        ).len() <= bytes::text(mime).len() + 160,
{
    let compression = stream::compression_for(entry.method, accepted);
    literals::lemma_ok_type();
    literals::lemma_line_break();
    literals::lemma_encoding_is();
    literals::lemma_length_is();
    literals::lemma_tag_is();
    literals::lemma_cache_control();
    literals::lemma_gzip();
    literals::lemma_zstd();
    client_laws::lemma_tag(entry.crc32);
    let n = stream::content_length(entry, compression);
    assert(n < vstd::arithmetic::power::pow(10, 20)) by {
        reveal(vstd::arithmetic::power::pow);
        reveal_with_fuel(vstd::arithmetic::power::pow, 21);
    }
    lemma_decimal_digits(n, 20);
}

/// What is sent where contents are the target.
proof fn lemma_contents(
    entry: Entry,
    accepted: AcceptedEncodings,
    room: int,
    out: Seq<u8>,
    left: Result<Transfer, BufferFull>,
)
    requires
        stream::sendable(entry, accepted),
        stream::follows_plan(
            stream::entry_plan(outside::mime_essence(entry.name@), entry, accepted),
            entry,
            room,
            out,
            left,
        ),
    ensures
        sends(entry, accepted, room, out, left),
{
    let mime = outside::mime_essence(entry.name@);
    lemma_head_len(mime, entry, accepted);
    if left is Ok && client::one_line(bytes::text(mime)) {
        client_laws::law_entry_delivered(mime, entry, accepted, room, out, left);
    }
}

/// A path that leads to a file is answered with the contents of its entry, or with the word that
/// the client's copy is up to date.
pub proof fn law_file_answered(
    request: Request,
    tree: Tree<Entry>,
    entry: Entry,
    preamble: Seq<u8>,
    answer: Response,
)
    requires
        response::answers(request, tree, preamble, answer),
        response::answerable(request, tree),
        request matches Request::Get { path, .. } && {
            &&& vstd::utf8::valid_utf8(path.part())
            &&& tree.find(path.part()) matches Some(Tree::File { entry: e, .. })
            &&& e == entry
        },
    ensures
        request matches Request::Get { path, headers } && {
            let node = tree.find(path.part())->0;
            let out = answer.stream.out@;
            if response::up_to_date(node, headers.if_none_match) {
                is_not_modified(out, entry.crc32) && answer.left matches Ok(Transfer::Finished)
            } else {
                sends(
                    entry,
                    headers.accepted_encodings,
                    path.buf@.len() as int,
                    out,
                    answer.left,
                )
            }
        },
{
    if let Request::Get { path, headers } = request {
        let node = tree.find(path.part())->0;
        let out = answer.stream.out@;
        if response::up_to_date(node, headers.if_none_match) {
            lemma_not_modified(entry.crc32);
        } else {
            assert(out.skip(0) =~= out);
            lemma_contents(
                entry,
                headers.accepted_encodings,
                path.buf@.len() as int,
                out,
                answer.left,
            );
        }
    }
}

/// A name without a slash leads from a directory to its first child of that name.
pub proof fn law_find_name<E>(t: Tree<E>, name: Seq<u8>)
    requires
        t is Dir,
        name.len() > 0,
        forall|i: int| 0 <= i < name.len() ==> #[trigger] name[i] != 0x2f,
    ensures
        match t.find(name) {
            Some(child) => exists|i: int|
                {
                    &&& 0 <= i < t->children.len()
                    &&& #[trigger] t->children[i] == child
                    &&& child.name() == name
                    &&& forall|j: int| 0 <= j < i ==> (#[trigger] t->children[j]).name() != name
                },
            None => forall|j: int|
                0 <= j < t->children.len() ==> (#[trigger] t->children[j]).name() != name,
        },
{
    path::lemma_separator(name);
    tree::lemma_child_index(t->children, name);
    assert(name != seq![0x2fu8]) by {
        if name == seq![0x2fu8] {
            assert(name[0] == 0x2f);
        }
    }
    let at = tree::child_index(t->children, name);
    if at < t->children.len() {
        let child = t->children[at];
        assert(child.find(Seq::<u8>::empty()) == Some(child));
    }
}

/// Whatever a path leads to in the tree of an archive: a directory records an index exactly where
/// it holds a file named `index.html`, and the index is that of the first child so named.
proof fn lemma_archive_index(entries: Seq<Entry>, p: Seq<u8>)
    requires
        entries.len() <= usize::MAX,
        archive::archive_tree(entries).find(p) matches Some(n) && n is Dir,
    ensures
        ({
            let node = archive::archive_tree(entries).find(p)->0;
            let at = tree::child_index(node->children, bytes::text("index.html"@));
            match node->index_html_index {
                Some(i) => i == at && at < node->children.len(),
                None => forall|i: int|
                    0 <= i < node->children.len() && #[trigger] node->children[i] is File
                        ==> node->children[i].name() != bytes::text("index.html"@),
            }
        }),
{
    let t = archive::with_entries(archive::empty_root(), entries);
    archive_laws::lemma_entries_well_indexed(entries);
    tree_laws::lemma_at_most_more(t, entries.len(), usize::MAX as nat);
    tree_laws::law_sort_keeps_index(t);
    tree_laws::law_found_well_indexed(t.sorted(), p);
    lemma_found_indexes_first(t.sorted(), p);
}

proof fn lemma_found_indexes_first<E>(t: Tree<E>, p: Seq<u8>)
    requires
        t.indexes_first(),
        t.find(p) is Some,
    ensures
        t.find(p)->0.indexes_first(),
    decreases p.len(),
{
    path::lemma_separator(p);
    if p.len() == 0 || p == seq![0x2fu8] {
    } else {
        let (head, tail) = path::split_path(p);
        if head.len() == 0 {
            lemma_found_indexes_first(t, tail);
        } else if let Tree::Dir { children, .. } = t {
            let at = tree::child_index(children, head);
            tree::lemma_child_index(children, head);
            assert(children[at].indexes_first());
            lemma_found_indexes_first(children[at], tail);
        }
    }
}

/// What a directory of an archive is answered with.
pub(crate) proof fn lemma_dir_target(entries: Seq<Entry>, p: Seq<u8>)
    requires
        entries.len() <= usize::MAX,
        archive::archive_tree(entries).find(p) matches Some(n) && n is Dir,
    ensures
        ({
            let node = archive::archive_tree(entries).find(p)->0;
            match node.find(index_word()) {
                Some(Tree::File { entry, .. }) => stream::target(node) == stream::Target::Contents(
                    entry,
                ),
                _ => stream::target(node) == (stream::Target::Listing {
                    is_root: node->is_root,
                    children: node->children,
                }),
            }
        }),
{
    let node = archive::archive_tree(entries).find(p)->0;
    literals::lemma_index_html();
    let word = index_word();
    lemma_archive_index(entries, p);
    law_find_name(node, word);
    tree::lemma_child_index(node->children, word);
    let at = tree::child_index(node->children, word);
    if at < node->children.len() {
        assert(node->children[at].name() == word);
        let child = node.find(word)->0;
        let i = choose|i: int|
            {
                &&& 0 <= i < node->children.len()
                &&& #[trigger] node->children[i] == child
                &&& child.name() == word
                &&& forall|j: int| 0 <= j < i ==> (#[trigger] node->children[j]).name() != word
            };
        assert(i == at);
    }
}

/// In a directory that holds a file named `index.html` and no directory of that name, the name
/// leads to a file.
pub proof fn law_index_found<E>(dir: Tree<E>, i: int)
    requires
        dir is Dir,
        0 <= i < dir->children.len(),
        dir->children[i] is File,
        dir->children[i].name() == index_word(),
        forall|j: int|
            0 <= j < dir->children.len() && #[trigger] dir->children[j] is Dir
                ==> dir->children[j].name() != index_word(),
    ensures
        dir.find(index_word()) matches Some(Tree::File { .. }),
{
    law_find_name(dir, index_word());
}

/// A client whose copy of a file or directory is up to date is told so, and sent nothing else.
pub proof fn law_copy_up_to_date(
    request: Request,
    tree: Tree<Entry>,
    preamble: Seq<u8>,
    answer: Response,
)
    requires
        response::answers(request, tree, preamble, answer),
        request matches Request::Get { path, headers } && {
            &&& vstd::utf8::valid_utf8(path.part())
            &&& tree.find(path.part()) matches Some(node)
            &&& response::up_to_date(node, headers.if_none_match)
        },
    ensures
        request matches Request::Get { path, .. } && {
            &&& request_laws::own_entry(tree.find(path.part())->0) matches Some(entry)
            &&& is_not_modified(answer.stream.out@, entry.crc32)
            &&& answer.left matches Ok(Transfer::Finished)
        },
{
    if let Request::Get { path, .. } = request {
        lemma_not_modified(request_laws::own_entry(tree.find(path.part())->0)->0.crc32);
    }
}

/// A path that leads to a directory of an archive in which `index.html` leads to a file is
/// answered with the contents of that file, the root and every directory below it alike. Where
/// the path is plain, it is the file that the path with `/index.html` behind it leads to.
pub proof fn law_index_answered(
    entries: Seq<Entry>,
    request: Request,
    preamble: Seq<u8>,
    answer: Response,
)
    requires
        entries.len() <= usize::MAX,
        response::answers(request, archive::archive_tree(entries), preamble, answer),
        response::answerable(request, archive::archive_tree(entries)),
        request matches Request::Get { path, headers } && {
            &&& vstd::utf8::valid_utf8(path.part())
            &&& archive::archive_tree(entries).find(path.part()) matches Some(node)
            &&& node is Dir
            &&& node.find(index_word()) matches Some(Tree::File { .. })
            &&& !response::up_to_date(node, headers.if_none_match)
        },
    ensures
        request matches Request::Get { path, headers } && {
            let t = archive::archive_tree(entries);
            let file = t.find(path.part())->0.find(index_word())->0;
            &&& file matches Tree::File { entry, .. } && sends(
                entry,
                headers.accepted_encodings,
                path.buf@.len() as int,
                answer.stream.out@,
                answer.left,
            )
            &&& path::last_part_plain(path.part()) ==> t.find(
                path.part() + seq![0x2fu8] + index_word(),
            ) == Some(file)
        },
{
    if let Request::Get { path, headers } = request {
        let t = archive::archive_tree(entries);
        let node = t.find(path.part())->0;
        let out = answer.stream.out@;
        lemma_dir_target(entries, path.part());
        if let Some(Tree::File { entry, .. }) = node.find(index_word()) {
            assert(out.skip(0) =~= out);
            lemma_contents(
                entry,
                headers.accepted_encodings,
                path.buf@.len() as int,
                out,
                answer.left,
            );
            if path::last_part_plain(path.part()) {
                insert_laws::law_find_joined(t, path.part(), index_word());
            }
        }
    }
}

/// The parts of the head of a listing.
proof fn lemma_listing_texts()
    ensures
        ({
            let b = seq![0x0du8, 0x0au8];
            let tr = bytes::text("Transfer-Encoding"@) + seq![0x3au8, 0x20u8];
            &&& listing::listing_head() == bytes::text("HTTP/1.1 200 OK"@) + b + (bytes::text(
                "Content-Type: "@,
            ) + html_type_word()) + b + (tr + chunked_word()) + b + b
            &&& client::one_line(html_type_word())
            &&& client::one_line(chunked_word())
            &&& client::one_line(tr)
        }),
{
    literals::lemma_listing_head();
    literals::lemma_ok_line();
    literals::lemma_type_is();
    literals::lemma_transfer_name();
    let b = seq![0x0du8, 0x0au8];
    let tr = bytes::text("Transfer-Encoding"@) + seq![0x3au8, 0x20u8];
    assert(listing::listing_head() =~= bytes::text("HTTP/1.1 200 OK"@) + b + (bytes::text(
        "Content-Type: "@,
    ) + html_type_word()) + b + (tr + chunked_word()) + b + b);
}

/// What a client reads of the head of a listing, whatever follows.
pub(crate) proof fn lemma_listing_head(more: Seq<u8>)
    ensures
        ({
            let out = listing::listing_head() + more;
            &&& client::status(out) == Some(200nat)
            &&& client::header(out, bytes::text("Content-Type"@)) == Some(html_type_word())
            &&& client::header(out, bytes::text("Transfer-Encoding"@)) == Some(chunked_word())
            &&& client::header(out, bytes::text("Content-Encoding"@)) is None
            &&& client::header(out, bytes::text("Content-Length"@)) is None
            &&& client::body(out) == more
        }),
{
    lemma_listing_texts();
    lemma_listing_read(
        html_type_word(),
        chunked_word(),
        more,
        listing::listing_head() + more,
    );
}

proof fn lemma_listing_lines(
    first: Seq<u8>,
    b: Seq<u8>,
    l1: Seq<u8>,
    l2: Seq<u8>,
    more: Seq<u8>,
)
    ensures
        (first + b + l1 + b + l2 + b + b) + more == first + b + (l1 + b + (l2 + b + (b + more))),
{
    assert((first + b + l1 + b + l2 + b + b) + more =~= first + b + (l1 + b + (l2 + b + (b
        + more))));
}

proof fn lemma_listing_read(kind: Seq<u8>, way: Seq<u8>, more: Seq<u8>, out: Seq<u8>)
    requires
        client::one_line(kind),
        client::one_line(way),
        client::one_line(bytes::text("Transfer-Encoding"@) + seq![0x3au8, 0x20u8]),
        ({
            let b = seq![0x0du8, 0x0au8];
            let tr = bytes::text("Transfer-Encoding"@) + seq![0x3au8, 0x20u8];
            out == (bytes::text("HTTP/1.1 200 OK"@) + b + (bytes::text("Content-Type: "@) + kind)
                + b + (tr + way) + b + b) + more
        }),
    ensures
        client::status(out) == Some(200nat),
        client::header(out, bytes::text("Content-Type"@)) == Some(kind),
        client::header(out, bytes::text("Transfer-Encoding"@)) == Some(way),
        client::header(out, bytes::text("Content-Encoding"@)) is None,
        client::header(out, bytes::text("Content-Length"@)) is None,
        client::body(out) == more,
{
    let b = seq![0x0du8, 0x0au8];
    let none = Seq::<u8>::empty();
    let first = bytes::text("HTTP/1.1 200 OK"@);
    let ty = bytes::text("Content-Type: "@);
    let tr = bytes::text("Transfer-Encoding"@) + seq![0x3au8, 0x20u8];
    client_laws::lemma_keys();
    client_laws::lemma_entry_texts();
    lemma_listing_lines(first, b, ty + kind, tr + way, more);
    let s2 = (tr + way) + b + (b + more);
    let s1 = (ty + kind) + b + s2;
    client::lemma_one_line_add(ty, kind);
    client::lemma_one_line_add(tr, way);
    assert(first + none =~= first);
    let n = bytes::text("Content-Type"@);
    client::lemma_line(first, s1, n);
    client_laws::lemma_other(first, none, ty, 0);
    client::lemma_line(ty + kind, s2, n);
    client_laws::lemma_own(ty, kind);
    let n = bytes::text("Transfer-Encoding"@);
    client::lemma_line(first, s1, n);
    client_laws::lemma_other(first, none, tr, 0);
    client::lemma_line(ty + kind, s2, n);
    client_laws::lemma_other(ty, kind, tr, 0);
    client::lemma_line(tr + way, b + more, n);
    client_laws::lemma_own(tr, way);
    let n = bytes::text("Content-Encoding"@);
    let key = bytes::text("Content-Encoding: "@);
    client::lemma_line(first, s1, n);
    client_laws::lemma_other(first, none, key, 0);
    client::lemma_line(ty + kind, s2, n);
    client_laws::lemma_other(ty, kind, key, 8);
    client::lemma_line(tr + way, b + more, n);
    client_laws::lemma_other(tr, way, key, 0);
    client::lemma_head_end(more, n);
    let n = bytes::text("Content-Length"@);
    let key = bytes::text("Content-Length: "@);
    client::lemma_line(first, s1, n);
    client_laws::lemma_other(first, none, key, 0);
    client::lemma_line(ty + kind, s2, n);
    client_laws::lemma_other(ty, kind, key, 8);
    client::lemma_line(tr + way, b + more, n);
    client_laws::lemma_other(tr, way, key, 0);
    client::lemma_head_end(more, n);
    assert(out.take(13) =~= first.take(13));
    client_laws::lemma_status(out, 0x32, 0x30, 0x30);
}

/// `text/html; charset=utf-8`
pub open spec fn html_type_word() -> Seq<u8> {
    seq![
        0x74u8, 0x65, 0x78, 0x74, 0x2f, 0x68, 0x74, 0x6d, 0x6c, 0x3b, 0x20, 0x63, 0x68, 0x61, 0x72,
        0x73, 0x65, 0x74, 0x3d, 0x75, 0x74, 0x66, 0x2d, 0x38,
    ]
}

/// `chunked`
pub open spec fn chunked_word() -> Seq<u8> {
    seq![0x63u8, 0x68, 0x75, 0x6e, 0x6b, 0x65, 0x64]
}

/// What has been sent of a listing stays so.
proof fn lemma_sent_kept(p: Progress, lines: Seq<Seq<u8>>, room: int)
    ensures
        ({
            let sent = p.with_lines(lines, room).sent;
            &&& p.sent.len() <= sent.len()
            &&& sent == p.sent + sent.skip(p.sent.len() as int)
        }),
    decreases lines.len(),
{
    if lines.len() == 0 {
        assert(p.sent =~= p.sent + p.sent.skip(p.sent.len() as int));
    } else {
        lemma_sent_kept(p, lines.drop_last(), room);
        let q = p.with_lines(lines.drop_last(), room);
        let sent = q.with_line(lines.last(), room).sent;
        assert(sent =~= p.sent + sent.skip(p.sent.len() as int));
    }
}

/// A listing begins with its head, even where it fails.
pub(crate) proof fn lemma_listing_begins<E>(
    preamble: Seq<u8>,
    is_root: bool,
    nodes: Seq<Tree<E>>,
    room: int,
) -> (more: Seq<u8>)
    ensures
        listing::listing_output(
            listing::listing(
                Seq::empty() + listing::listing_head(),
                preamble,
                is_root,
                nodes,
                room,
            ),
        ) == listing::listing_head() + more,
{
    let head = Seq::empty() + listing::listing_head();
    assert(head =~= listing::listing_head());
    let p = listing::listing(head, preamble, is_root, nodes, room);
    let out = listing::listing_output(p);
    let top = if is_root {
        preamble
    } else {
        preamble + listing::parent_line()
    };
    let start = Progress { sent: head, pending: top, failed: false };
    let mid = start.with_lines(listing::dir_lines(nodes), room);
    lemma_sent_kept(start, listing::dir_lines(nodes), room);
    lemma_sent_kept(mid, listing::file_lines(nodes), room);
    let more = out.skip(head.len() as int);
    assert(out =~= head + more);
    more
}

/// Whether a buffer is another with the front of a response written over its front, up to a
/// length.
pub open spec fn holds_front(after: Seq<u8>, before: Seq<u8>, out: Seq<u8>, n: int) -> bool {
    &&& 0 <= n <= out.len()
    &&& n <= before.len()
    &&& after == out.take(n) + before.skip(n)
}

/// What an answer leaves in the buffer of the connection, except where it is a listing: the head
/// of the response at its front, where contents follow or the client's copy is up to date, and
/// otherwise what was there before.
pub proof fn law_buffer_left(
    request: Request,
    tree: Tree<Entry>,
    preamble: Seq<u8>,
    answer: Response,
)
    requires
        response::answers(request, tree, preamble, answer),
    ensures
        ({
            let out = answer.stream.out@;
            let after = answer.stream.buf@;
            match request {
                Request::Bad { buf, .. } => after == buf@,
                Request::Get { path, headers } => {
                    &&& after.len() == path.buf@.len()
                    &&& match response::lookup(tree, path.part()) {
                        None => after == path.buf@,
                        Some(node) => if response::up_to_date(node, headers.if_none_match) {
                            out.len() <= path.buf@.len() ==> holds_front(
                                after,
                                path.buf@,
                                out,
                                out.len() as int,
                            )
                        } else {
                            stream::target(node) matches stream::Target::Contents(entry) ==> {
                                let mime = bytes::text(outside::mime_essence(entry.name@));
                                match answer.left {
                                    Ok(Transfer::Finished) => after == path.buf@,
                                    Err(_) => after == path.buf@,
                                    Ok(_) => client::one_line(mime) ==> holds_front(
                                        after,
                                        path.buf@,
                                        out,
                                        out.len() - client::body(out).len(),
                                    ),
                                }
                            }
                        },
                    }
                },
            }
        }),
{
    if let Request::Get { path, headers } = request {
        let out = answer.stream.out@;
        let after = answer.stream.buf@;
        if let Some(node) = response::lookup(tree, path.part()) {
            if response::up_to_date(node, headers.if_none_match) {
                assert(out.take(out.len() as int) =~= out);
                if out.len() <= path.buf@.len() {
                    assert(after =~= out + path.buf@.skip(out.len() as int));
                }
            } else if let stream::Target::Contents(entry) = stream::target(node) {
                let mime = outside::mime_essence(entry.name@);
                assert(out.skip(0) =~= out);
                lemma_contents_buffer(
                    mime,
                    entry,
                    headers.accepted_encodings,
                    path.buf@,
                    after,
                    out,
                    answer.left,
                );
            }
        }
    }
}

proof fn lemma_contents_buffer(
    mime: Seq<char>,
    entry: Entry,
    accepted: AcceptedEncodings,
    before: Seq<u8>,
    after: Seq<u8>,
    out: Seq<u8>,
    left: Result<Transfer, BufferFull>,
)
    requires
        stream::follows_plan(
            stream::entry_plan(mime, entry, accepted),
            entry,
            before.len() as int,
            out,
            left,
        ),
        after == stream::buffer_after(stream::entry_plan(mime, entry, accepted), before),
    ensures
        match left {
            Ok(Transfer::Finished) => after == before,
            Err(_) => after == before,
            Ok(_) => client::one_line(bytes::text(mime)) ==> holds_front(
                after,
                before,
                out,
                out.len() - client::body(out).len(),
            ),
        },
{
    if client::one_line(bytes::text(mime)) && left is Ok && !(left->Ok_0 is Finished) {
        let compression = stream::compression_for(entry.method, accepted);
        let head = stream::entry_head(mime, entry, compression);
        let more = out.skip(head.len() as int);
        assert(out =~= head + more);
        if let Some(c) = compression {
            assert(client::one_line(bytes::text(c.encoding@))) by {
                literals::lemma_gzip();
                literals::lemma_zstd();
            }
        }
        client_laws::lemma_entry_head(mime, entry, compression, more);
        assert(out.take(head.len() as int) =~= head);
        assert(after =~= head + before.skip(head.len() as int));
    }
}

/// Whether no media type breaks the line that it stands in.
pub open spec fn media_types_on_one_line() -> bool {
    forall|name: Seq<char>|
        client::one_line(bytes::text(#[trigger] outside::mime_essence(name)))
}

/// Whether a response names an encoding that its body is in.
pub open spec fn names_encoding(out: Seq<u8>, word: Seq<u8>) -> bool {
    client::header(out, bytes::text("Content-Encoding"@)) == Some(word)
}

/// No answer names an encoding that the client does not accept, whatever it is an answer to.
pub proof fn law_encoding_accepted(
    request: Request,
    tree: Tree<Entry>,
    preamble: Seq<u8>,
    answer: Response,
)
    requires
        response::answers(request, tree, preamble, answer),
        response::answerable(request, tree),
    ensures
        media_types_on_one_line() ==> match request {
            Request::Get { headers, .. } => {
                let out = answer.stream.out@;
                match client::header(out, bytes::text("Content-Encoding"@)) {
                    Some(name) => {
                        ||| name == request_laws::gzip_word() && headers.accepted_encodings.gzip
                        ||| name == request_laws::zstd_word() && headers.accepted_encodings.zstd
                    },
                    None => true,
                }
            },
            Request::Bad { .. } => client::header(
                answer.stream.out@,
                bytes::text("Content-Encoding"@),
            ) is None,
        },
{
    literals::lemma_gzip();
    literals::lemma_zstd();
    let out = answer.stream.out@;
    match request {
        Request::Get { path, headers } => match response::lookup(tree, path.part()) {
            Some(node) => if response::up_to_date(node, headers.if_none_match) {
                lemma_not_modified(node.entry()->0.crc32);
            } else {
                match stream::target(node) {
                    stream::Target::Contents(entry) => {
                        assert(out.skip(0) =~= out);
                        lemma_contents(
                            entry,
                            headers.accepted_encodings,
                            path.buf@.len() as int,
                            out,
                            answer.left,
                        );
                    },
                    stream::Target::Listing { is_root, children } => {
                        let more = lemma_listing_begins(
                            preamble,
                            is_root,
                            children,
                            listing::chunk_room(path.buf@.len() as int),
                        );
                        lemma_listing_head(more);
                    },
                }
            },
            None => {
                lemma_code(HttpStatus::NotFound);
            },
        },
        Request::Bad { status, .. } => {
            lemma_code(status);
        },
    }
}

/// No answer names an encoding whose name stands in no header of the request.
pub proof fn law_unnamed_encoding_unused(
    path: Seq<u8>,
    list: Seq<HeaderView>,
    message: Seq<u8>,
    buf: Seq<u8>,
    request: Request,
    tree: Tree<Entry>,
    preamble: Seq<u8>,
    answer: Response,
)
    requires
        request@ == request::request_of(
            HttpParseView::Complete {
                method: Some(seq![0x47u8, 0x45, 0x54]),
                path: Some(path),
                headers: list,
            },
            message,
            buf,
        ),
        response::answers(request, tree, preamble, answer),
        response::answerable(request, tree),
    ensures
        media_types_on_one_line() ==> {
            &&& (forall|j: int|
                0 <= j < list.len() ==> !request_laws::stands_in(
                    request_laws::gzip_word(),
                    (#[trigger] list[j]).value,
                )) ==> !names_encoding(answer.stream.out@, request_laws::gzip_word())
            &&& (forall|j: int|
                0 <= j < list.len() ==> !request_laws::stands_in(
                    request_laws::zstd_word(),
                    (#[trigger] list[j]).value,
                )) ==> !names_encoding(answer.stream.out@, request_laws::zstd_word())
        },
{
    literals::lemma_get();
    request_laws::law_unnamed_not_accepted(list);
    law_encoding_accepted(request, tree, preamble, answer);
    assert(request_laws::gzip_word() != request_laws::zstd_word()) by {
        assert(request_laws::gzip_word()[0] == 0x67);
        assert(request_laws::zstd_word()[0] == 0x7a);
    }
}

} // verus!
