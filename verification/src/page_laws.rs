//! What a client makes of directory listings.
use vstd::prelude::*;

use crate::answer_laws;
use crate::archive;
use crate::bytes;
use crate::client;
use crate::encoding;
use crate::encoding_laws;
use crate::entry::Entry;
use crate::listing;
use crate::listing_laws;
use crate::literals;
use crate::path;
use crate::request::Request;
use crate::response;
use crate::response::Response;
use crate::tree::Tree;
use crate::tree_laws;

verus! {

/// What a link in a listing leads to a child by: its name behind the directory itself, with a
/// slash behind the name of a directory.
pub open spec fn link_of<E>(child: Tree<E>) -> Seq<u8> {
    let front = seq![0x2eu8, 0x2f];
    match child {
        Tree::Dir { name, .. } => front + name + seq![0x2fu8],
        Tree::File { name, .. } => front + name,
    }
}

/// The name of a file or directory.
pub open spec fn name_of<E>(child: Tree<E>) -> Seq<u8> {
    match child {
        Tree::Dir { name, .. } => name,
        Tree::File { name, .. } => name,
    }
}

/// Whether a byte can stand in a link: it is printable ASCII, but no space, quotation mark, angle
/// bracket or back quote.
pub open spec fn is_plain(b: u8) -> bool {
    0x20 < b < 0x7f && b != 0x22 && b != 0x3c && b != 0x3e && b != 0x60
}

/// Whether all bytes of a text can stand in a link.
pub open spec fn all_plain(s: Seq<u8>) -> bool {
    forall|i: int| 0 <= i < s.len() ==> is_plain(#[trigger] s[i])
}

/// Whether a line of a listing is that of a child: what stands between its quotation marks is a
/// link to the child, where the name holds nothing that reads as an escape, and what it shows is
/// the name. A name of bytes that can stand in a link stands there as it is.
pub open spec fn is_line_of<E>(line: Seq<u8>, child: Tree<E>) -> bool {
    &&& client::begins(line, seq![0x3cu8, 0x6c, 0x69])
    &&& client::quoted_part(line) matches Some(link) && {
        &&& !encoding_laws::holds_percent_escape(name_of(child)) ==> encoding::percent_decoded(link)
            == link_of(child)
        &&& all_plain(link)
        &&& all_plain(name_of(child)) ==> link == link_of(child)
    }
    &&& client::shown_part(line) matches Some(text) && client::page_text(text) == name_of(child)
}

/// Whether a line of a listing leads to the parent directory.
pub open spec fn is_parent_line(line: Seq<u8>) -> bool {
    let dots = seq![0x2eu8, 0x2e];
    &&& client::begins(line, seq![0x3cu8, 0x6c, 0x69])
    &&& client::quoted_part(line) == Some(dots)
    &&& client::shown_part(line) == Some(dots)
}

proof fn lemma_mark(a: Seq<u8>, b: u8, rest: Seq<u8>)
    requires
        forall|i: int| 0 <= i < a.len() ==> #[trigger] a[i] != b,
    ensures
        client::mark(a + seq![b] + rest, b) == Some(a.len() as int),
    decreases a.len(),
{
    let s = a + seq![b] + rest;
    if a.len() == 0 {
        assert(s[0] == b);
    } else {
        let tail = a.drop_first();
        assert forall|i: int| 0 <= i < tail.len() implies #[trigger] tail[i] != b by {
            assert(tail[i] == a[i + 1]);
        }
        lemma_mark(tail, b, rest);
        assert(s.drop_first() =~= tail + seq![b] + rest);
        assert(s[0] == a[0]);
    }
}

/// The marks of a line `front` + `"` + `link` + `"` + `>` + `text` + `<` + `rest`, where the front
/// holds one closing angle bracket.
proof fn lemma_line_parts(
    open: Seq<u8>,
    front: Seq<u8>,
    link: Seq<u8>,
    text: Seq<u8>,
    rest: Seq<u8>,
    line: Seq<u8>,
)
    requires
        line == open + seq![0x3eu8] + front + seq![0x22u8] + link + seq![0x22u8, 0x3e] + text
            + seq![0x3cu8] + rest,
        forall|i: int| 0 <= i < open.len() ==> #[trigger] open[i] != 0x3e && open[i] != 0x22,
        forall|i: int| 0 <= i < front.len() ==> #[trigger] front[i] != 0x3e && front[i] != 0x22,
        forall|i: int| 0 <= i < link.len() ==> #[trigger] link[i] != 0x3e && link[i] != 0x22,
        forall|i: int| 0 <= i < text.len() ==> #[trigger] text[i] != 0x3c,
    ensures
        client::quoted_part(line) == Some(link),
        client::shown_part(line) == Some(text),
{
    let before = open + seq![0x3eu8] + front;
    let behind = seq![0x3eu8] + text + seq![0x3cu8] + rest;
    assert(line =~= before + seq![0x22u8] + (link + seq![0x22u8] + behind));
    lemma_mark(before, 0x22, link + seq![0x22u8] + behind);
    let i = before.len() as int;
    assert(line.skip(i + 1) =~= link + seq![0x22u8] + behind);
    lemma_mark(link, 0x22, behind);
    assert(line.subrange(i + 1, i + 1 + link.len()) =~= link);
    let between = front + seq![0x22u8] + link + seq![0x22u8];
    let more = text + seq![0x3cu8] + rest;
    assert(line =~= open + seq![0x3eu8] + (between + seq![0x3eu8] + more));
    lemma_mark(open, 0x3e, between + seq![0x3eu8] + more);
    let i = open.len() as int;
    assert(line.skip(i + 1) =~= between + seq![0x3eu8] + more);
    lemma_mark(between, 0x3e, more);
    let j = between.len() as int;
    assert(line.skip(i + j + 2) =~= more);
    lemma_mark(text, 0x3c, rest);
    assert(more.take(text.len() as int) =~= text);
}

/// The byte that an escape in a page shows.
proof fn lemma_page_byte(b: u8, rest: Seq<u8>)
    ensures
        client::page_byte(encoding::html_escape(b) + rest) == (
            b,
            encoding::html_escape(b).len() as int,
        ),
        encoding::html_escape(b).len() > 0,
{
    literals::lemma_quot();
    literals::lemma_amp();
    literals::lemma_apos();
    literals::lemma_slash();
    literals::lemma_lt();
    literals::lemma_gt();
    let e = encoding::html_escape(b);
    let s = e + rest;
    assert(s[0] == e[0]);
    if e.len() > 1 {
        assert(s[1] == e[1]);
        assert(s[2] == e[2]);
        assert(s[3] == e[3]);
    }
    if e.len() > 4 {
        assert(s[4] == e[4]);
    }
    let quot = seq![0x26u8, 0x71, 0x75, 0x6f, 0x74, 0x3b];
    let amp = seq![0x26u8, 0x61, 0x6d, 0x70, 0x3b];
    let lt = seq![0x26u8, 0x6c, 0x74, 0x3b];
    let gt = seq![0x26u8, 0x67, 0x74, 0x3b];
    let apos = seq![0x26u8, 0x23, 0x78, 0x32, 0x37, 0x3b];
    let slash = seq![0x26u8, 0x23, 0x78, 0x32, 0x66, 0x3b];
    assert(quot[0] == 0x26 && quot[1] == 0x71);
    assert(amp[0] == 0x26 && amp[1] == 0x61);
    assert(lt[0] == 0x26 && lt[1] == 0x6c);
    assert(gt[0] == 0x26 && gt[1] == 0x67);
    assert(apos[0] == 0x26 && apos[1] == 0x23 && apos[4] == 0x37);
    assert(slash[0] == 0x26 && slash[1] == 0x23 && slash[4] == 0x66);
    assert(client::begins(s, e));
}

proof fn lemma_html_front(b: u8, rest: Seq<u8>)
    ensures
        encoding::html_text(seq![b] + rest) == encoding::html_escape(b) + encoding::html_text(rest),
    decreases rest.len(),
{
    let s = seq![b] + rest;
    if rest.len() == 0 {
        assert(s.drop_last() =~= Seq::empty());
        assert(s.last() == b);
        assert(encoding::html_text(s.drop_last()) =~= Seq::empty());
        assert(encoding::html_text(s) =~= encoding::html_escape(b) + encoding::html_text(rest));
    } else {
        lemma_html_front(b, rest.drop_last());
        assert(s.drop_last() =~= seq![b] + rest.drop_last());
        assert(encoding::html_text(s) =~= encoding::html_escape(b) + encoding::html_text(rest));
    }
}

/// A name written in a page is shown as that name.
pub proof fn law_name_shown(name: Seq<u8>)
    ensures
        client::page_text(encoding::html_text(name)) == name,
    decreases name.len(),
{
    if name.len() > 0 {
        let b = name[0];
        let rest = name.drop_first();
        let e = encoding::html_escape(b);
        assert(name =~= seq![b] + rest);
        lemma_html_front(b, rest);
        lemma_page_byte(b, encoding::html_text(rest));
        law_name_shown(rest);
        let t = encoding::html_text(name);
        assert(t == e + encoding::html_text(rest));
        assert(t.skip(e.len() as int) =~= encoding::html_text(rest));
    }
}

/// A dot and a slash before percent-encoded bytes stand for themselves.
proof fn lemma_decode_front(s: Seq<u8>)
    ensures
        encoding::percent_decoded(seq![0x2eu8, 0x2f] + s) == seq![0x2eu8, 0x2f]
            + encoding::percent_decoded(s),
{
    let t = seq![0x2eu8, 0x2f] + s;
    let u = seq![0x2fu8] + s;
    assert(t.skip(1) =~= u);
    assert(u.skip(1) =~= s);
    assert(encoding::percent_decoded(u) =~= seq![0x2fu8] + encoding::percent_decoded(s));
    assert(encoding::percent_decoded(t) =~= seq![0x2eu8] + encoding::percent_decoded(u));
    assert(seq![0x2eu8] + (seq![0x2fu8] + encoding::percent_decoded(s)) =~= seq![0x2eu8, 0x2f]
        + encoding::percent_decoded(s));
}

proof fn lemma_file_line<E>(child: Tree<E>)
    requires
        child is File,
    ensures
        is_line_of(listing::file_line(child.name()), child),
{
    literals::lemma_file_start();
    literals::lemma_file_middle();
    literals::lemma_line_tail();
    let name = child.name();
    let line = listing::file_line(name);
    let open = seq![0x3cu8, 0x6c, 0x69];
    let front = seq![0x3cu8, 0x61, 0x20, 0x68, 0x72, 0x65, 0x66, 0x3d];
    let link = seq![0x2eu8, 0x2f] + encoding::uri_text(name);
    let text = encoding::html_text(name);
    let rest = seq![0x2fu8, 0x61, 0x3e, 0x0a];
    assert(bytes::text("<li><a href=\"./"@) =~= open + seq![0x3eu8] + front + seq![0x22u8]
        + seq![0x2eu8, 0x2f]);
    assert(bytes::text("</a>\n"@) =~= seq![0x3cu8] + rest);
    lemma_line_glue(
        open + seq![0x3eu8] + front + seq![0x22u8],
        seq![0x2eu8, 0x2f],
        encoding::uri_text(name),
        Seq::empty(),
        seq![0x22u8, 0x3e],
        text,
        seq![0x3cu8],
        rest,
    );
    assert(seq![0x22u8, 0x3e] =~= Seq::<u8>::empty() + seq![0x22u8, 0x3e]);
    assert(link + Seq::<u8>::empty() =~= link);
    assert(seq![0x2eu8, 0x2f] + name + Seq::<u8>::empty() =~= seq![0x2eu8, 0x2f] + name);
    lemma_link_plain(name, Seq::empty());
    encoding_laws::law_html_text_plain(name);
    lemma_line_parts(open, front, link, text, rest, line);
    law_name_shown(name);
    lemma_decode_front(encoding::uri_text(name));
    assert(client::begins(line, open)) by {
        assert(line[0] == 0x3c && line[1] == 0x6c && line[2] == 0x69);
    }
    if !encoding_laws::holds_percent_escape(name) {
        encoding_laws::law_uri_round_trip(name);
    }
}

proof fn lemma_dir_line<E>(child: Tree<E>)
    requires
        child is Dir,
    ensures
        is_line_of(listing::dir_line(child.name()), child),
{
    literals::lemma_dir_start();
    literals::lemma_dir_middle();
    literals::lemma_line_tail();
    let name = child.name();
    let line = listing::dir_line(name);
    let open = seq![0x3cu8, 0x6c, 0x69, 0x20, 0x63, 0x6c, 0x61, 0x73, 0x73, 0x3d, 0x64, 0x69, 0x72];
    let front = seq![0x3cu8, 0x61, 0x20, 0x68, 0x72, 0x65, 0x66, 0x3d];
    let slash = seq![0x2fu8];
    let link = seq![0x2eu8, 0x2f] + encoding::uri_text(name) + slash;
    let text = encoding::html_text(name);
    let rest = seq![0x2fu8, 0x61, 0x3e, 0x0a];
    assert(bytes::text("<li class=dir><a href=\"./"@) =~= open + seq![0x3eu8] + front
        + seq![0x22u8] + seq![0x2eu8, 0x2f]);
    assert(bytes::text("/\">"@) =~= slash + seq![0x22u8, 0x3e]);
    assert(bytes::text("</a>\n"@) =~= seq![0x3cu8] + rest);
    lemma_line_glue(
        open + seq![0x3eu8] + front + seq![0x22u8],
        seq![0x2eu8, 0x2f],
        encoding::uri_text(name),
        slash,
        seq![0x22u8, 0x3e],
        text,
        seq![0x3cu8],
        rest,
    );
    lemma_link_plain(name, slash);
    encoding_laws::law_html_text_plain(name);
    lemma_line_parts(open, front, link, text, rest, line);
    law_name_shown(name);
    let uri = encoding::uri_text(name);
    listing_laws::lemma_decode_slash(uri);
    assert(uri + slash =~= uri.push(0x2f));
    lemma_decode_front(uri + slash);
    assert(link =~= seq![0x2eu8, 0x2f] + (uri + slash));
    assert(client::begins(line, seq![0x3cu8, 0x6c, 0x69])) by {
        assert(line[0] == 0x3c && line[1] == 0x6c && line[2] == 0x69);
    }
    if !encoding_laws::holds_percent_escape(name) {
        encoding_laws::law_uri_round_trip(name);
        assert(seq![0x2eu8, 0x2f] + name.push(0x2f) =~= seq![0x2eu8, 0x2f] + name + slash);
    }
}

proof fn lemma_line_glue(
    a: Seq<u8>,
    dot: Seq<u8>,
    uri: Seq<u8>,
    slash: Seq<u8>,
    close: Seq<u8>,
    text: Seq<u8>,
    lt: Seq<u8>,
    rest: Seq<u8>,
)
    ensures
        (a + dot) + uri + (slash + close) + text + (lt + rest) == a + (dot + uri + slash) + close
            + text + lt + rest,
{
    assert((a + dot) + uri + (slash + close) =~= a + (dot + uri + slash) + close);
    assert(a + (dot + uri + slash) + close + text + (lt + rest) =~= a + (dot + uri + slash) + close
        + text + lt + rest);
}

/// A link holds only what can stand in one.
proof fn lemma_link_plain(name: Seq<u8>, behind: Seq<u8>)
    requires
        behind == Seq::<u8>::empty() || behind == seq![0x2fu8],
    ensures
        ({
            let link = seq![0x2eu8, 0x2f] + encoding::uri_text(name) + behind;
            &&& all_plain(link)
            &&& all_plain(name) ==> link == seq![0x2eu8, 0x2f] + name + behind
        }),
{
    encoding_laws::law_uri_text_plain(name);
    let uri = encoding::uri_text(name);
    let link = seq![0x2eu8, 0x2f] + uri + behind;
    assert forall|i: int| 0 <= i < link.len() implies is_plain(#[trigger] link[i]) by {
        if 2 <= i < 2 + uri.len() {
            assert(link[i] == uri[i - 2]);
            assert(!encoding::escaped_in_uri(uri[i - 2]));
        }
    }
    if all_plain(name) {
        lemma_plain_kept(name);
    }
}

proof fn lemma_plain_kept(name: Seq<u8>)
    requires
        all_plain(name),
    ensures
        encoding::uri_text(name) == name,
    decreases name.len(),
{
    if name.len() > 0 {
        let init = name.drop_last();
        assert forall|i: int| 0 <= i < init.len() implies is_plain(#[trigger] init[i]) by {
            assert(init[i] == name[i]);
        }
        lemma_plain_kept(init);
        assert(is_plain(name[name.len() - 1]));
        assert(name =~= init + seq![name.last()]);
    }
}

/// The line that leads to the parent directory does.
proof fn lemma_parent_line()
    ensures
        is_parent_line(listing::parent_line()),
{
    literals::lemma_parent_line();
    let line = listing::parent_line();
    let open = seq![0x3cu8, 0x6c, 0x69, 0x20, 0x63, 0x6c, 0x61, 0x73, 0x73, 0x3d, 0x74, 0x6f, 0x70];
    let front = seq![0x3cu8, 0x61, 0x20, 0x68, 0x72, 0x65, 0x66, 0x3d];
    let dots = seq![0x2eu8, 0x2e];
    let rest = seq![0x2fu8, 0x61, 0x3e, 0x0a];
    assert(line =~= open + seq![0x3eu8] + front + seq![0x22u8] + dots + seq![0x22u8, 0x3e] + dots
        + seq![0x3cu8] + rest);
    lemma_line_parts(open, front, dots, dots, rest, line);
    assert(line[0] == 0x3c && line[1] == 0x6c && line[2] == 0x69);
}

/// What a listing shows of a directory, in order: the directories in it, then the files.
pub open spec fn listed<E>(children: Seq<Tree<E>>) -> Seq<Tree<E>> {
    children.filter(|t: Tree<E>| t is Dir) + children.filter(|t: Tree<E>| t is File)
}

proof fn lemma_lines<E>(nodes: Seq<Tree<E>>)
    ensures
        ({
            let dirs = nodes.filter(|t: Tree<E>| t is Dir);
            let lines = listing::dir_lines(nodes);
            &&& lines.len() == dirs.len()
            &&& forall|i: int| 0 <= i < lines.len() ==> is_line_of(#[trigger] lines[i], dirs[i])
        }),
        ({
            let files = nodes.filter(|t: Tree<E>| t is File);
            let lines = listing::file_lines(nodes);
            &&& lines.len() == files.len()
            &&& forall|i: int| 0 <= i < lines.len() ==> is_line_of(#[trigger] lines[i], files[i])
        }),
    decreases nodes.len(),
{
    reveal(Seq::filter);
    if nodes.len() > 0 {
        lemma_lines(nodes.drop_last());
        let node = nodes.last();
        if node is Dir {
            lemma_dir_line(node);
        } else {
            lemma_file_line(node);
        }
    }
}

/// The lines of a listing behind its top are those of the children of the directory, one for
/// each: first the directories, then the files, each of these in the order of the children.
pub proof fn law_lines_of_children<E>(nodes: Seq<Tree<E>>)
    ensures
        ({
            let lines = listing::dir_lines(nodes) + listing::file_lines(nodes);
            &&& lines.len() == nodes.len()
            &&& lines.len() == listed(nodes).len()
            &&& forall|i: int|
                0 <= i < lines.len() ==> is_line_of(#[trigger] lines[i], listed(nodes)[i])
        }),
{
    lemma_lines(nodes);
    lemma_each_listed(nodes);
    let dirs = listing::dir_lines(nodes);
    let files = listing::file_lines(nodes);
    let lines = dirs + files;
    assert forall|i: int| 0 <= i < lines.len() implies is_line_of(
        #[trigger] lines[i],
        listed(nodes)[i],
    ) by {
        if i < dirs.len() {
            assert(lines[i] == dirs[i]);
        } else {
            assert(lines[i] == files[i - dirs.len()]);
        }
    }
}

proof fn lemma_each_listed<E>(nodes: Seq<Tree<E>>)
    ensures
        listed(nodes).len() == nodes.len(),
    decreases nodes.len(),
{
    reveal(Seq::filter);
    if nodes.len() > 0 {
        lemma_each_listed(nodes.drop_last());
    }
}

/// The link in a line of a listing leads from the directory to the first child of the name that
/// the line is for, where that is a name that a path can hold: without a slash, without what reads
/// as an escape, and in a directory's case with one byte for each character.
pub proof fn law_line_leads_to_child<E>(t: Tree<E>, line: Seq<u8>, child: Tree<E>)
    requires
        t matches Tree::Dir { children, .. } && children.contains(child),
        is_line_of(line, child),
        name_of(child).len() > 0,
        forall|i: int| 0 <= i < name_of(child).len() ==> #[trigger] name_of(child)[i] != 0x2f,
        !encoding_laws::holds_percent_escape(name_of(child)),
        child is Dir ==> path::last_part_plain(name_of(child)),
    ensures
        ({
            let asked = encoding::percent_decoded(client::quoted_part(line)->0).skip(2);
            &&& t.find(asked) == t.find(name_of(child))
            &&& t.find(asked) matches Some(found) && name_of(found) == name_of(child)
        }),
{
    let name = name_of(child);
    let asked = encoding::percent_decoded(client::quoted_part(line)->0).skip(2);
    answer_laws::law_find_name(t, name);
    let i = choose|i: int| 0 <= i < t->children.len() && t->children[i] == child;
    assert(t->children[i].name() == name);
    if child is Dir {
        assert(asked =~= name.push(0x2f));
        tree_laws::law_trailing_slash(t, name);
    } else {
        assert(asked =~= name);
    }
}

proof fn lemma_hex_value(s: Seq<u8>)
    requires
        forall|i: int| 0 <= i < s.len() ==> encoding::hex_digit(#[trigger] s[i]) is Some,
    ensures
        encoding_laws::hex_number(s) >= 0,
        client::hex_value(s) == Some(encoding_laws::hex_number(s) as nat),
    decreases s.len(),
{
    if s.len() > 0 {
        let init = s.drop_last();
        assert forall|i: int| 0 <= i < init.len() implies encoding::hex_digit(
            #[trigger] init[i],
        ) is Some by {
            assert(init[i] == s[i]);
        }
        lemma_hex_value(init);
        assert(encoding::hex_digit(s[s.len() - 1]) is Some);
    }
}

/// The digits of a chunk's length.
proof fn lemma_chunk_digits(data: Seq<u8>)
    requires
        data.len() <= usize::MAX,
    ensures
        ({
            let count = (usize::BITS / 8) as nat;
            let digits = encoding::hex_text(encoding::be_bytes(data.len(), count));
            &&& digits.len() > 0
            &&& client::one_line(digits)
            &&& client::hex_value(digits) == Some(data.len())
        }),
{
    let count = (usize::BITS / 8) as nat;
    let bytes = encoding::be_bytes(data.len(), count);
    let digits = encoding::hex_text(bytes);
    encoding::lemma_be_bytes_len(data.len(), count);
    encoding_laws::law_chunk_length(data);
    assert(listing::chunk(data).take(listing::CHUNK_DIGIT_COUNT as int) =~= digits);
    assert forall|i: int| 0 <= i < digits.len() implies encoding::hex_digit(
        #[trigger] digits[i],
    ) is Some && digits[i] != 0x0d by {
        let x = bytes[i / 2] as int;
        assert(0 <= x / 16 < 16 && 0 <= x % 16 < 16);
    }
    lemma_hex_value(digits);
}

/// A client reads one chunk, and then the rest.
proof fn lemma_chunk_read(data: Seq<u8>, rest: Seq<u8>)
    requires
        0 < data.len() <= usize::MAX,
    ensures
        client::dechunked(listing::chunk(data) + rest) == match client::dechunked(rest) {
            Some(more) => Some(data + more),
            None => None,
        },
{
    literals::lemma_line_break();
    let b = seq![0x0du8, 0x0au8];
    let digits = encoding::hex_text(encoding::be_bytes(data.len(), (usize::BITS / 8) as nat));
    lemma_chunk_digits(data);
    let s = listing::chunk(data) + rest;
    let behind = data + b + rest;
    assert(s =~= digits + b + behind);
    client::lemma_line_end(digits, behind);
    let k = digits.len() as int;
    assert(s.take(k) =~= digits);
    assert(s.skip(k + 2) =~= behind);
    let n = data.len() as int;
    assert(behind[n] == 0x0d && behind[n + 1] == 0x0a);
    assert(behind.take(n) =~= data);
    assert(behind.skip(n + 2) =~= rest);
}

proof fn lemma_last_chunk_read()
    ensures
        client::dechunked(listing::last_chunk()) == Some(Seq::<u8>::empty()),
{
    literals::lemma_last_chunk();
    let s = listing::last_chunk();
    let b = seq![0x0du8, 0x0au8];
    let zero = seq![0x30u8];
    assert(s =~= zero + b + b);
    client::lemma_line_end(zero, b);
    assert(s.take(1) =~= zero);
    assert(zero.drop_last() =~= Seq::empty());
    reveal_with_fuel(client::hex_value, 2);
    assert(client::hex_value(zero) == Some(0nat));
    assert(s.skip(3) =~= b);
}

proof fn lemma_chunks_front(pieces: Seq<Seq<u8>>)
    requires
        pieces.len() > 0,
    ensures
        listing_laws::chunks(pieces) == listing::chunk(pieces[0]) + listing_laws::chunks(
            pieces.drop_first(),
        ),
        listing_laws::concat(pieces) == pieces[0] + listing_laws::concat(pieces.drop_first()),
    decreases pieces.len(),
{
    let rest = pieces.drop_first();
    if pieces.len() == 1 {
        assert(pieces.drop_last() =~= Seq::empty());
        assert(rest =~= Seq::empty());
        assert(listing_laws::chunks(pieces) =~= listing::chunk(pieces[0]) + listing_laws::chunks(
            rest,
        ));
        assert(listing_laws::concat(pieces) =~= pieces[0] + listing_laws::concat(rest));
    } else {
        let init = pieces.drop_last();
        lemma_chunks_front(init);
        assert(rest.drop_last() =~= init.drop_first());
        assert(rest.last() == pieces.last());
        assert(listing_laws::chunks(pieces) =~= listing::chunk(pieces[0]) + listing_laws::chunks(
            rest,
        ));
        assert(listing_laws::concat(pieces) =~= pieces[0] + listing_laws::concat(rest));
    }
}

/// A client puts the pieces of a body in chunks together.
proof fn lemma_chunks_read(pieces: Seq<Seq<u8>>)
    requires
        forall|i: int| 0 <= i < pieces.len() ==> 0 < (#[trigger] pieces[i]).len() <= usize::MAX,
    ensures
        client::dechunked(listing_laws::chunks(pieces) + listing::last_chunk()) == Some(
            listing_laws::concat(pieces),
        ),
    decreases pieces.len(),
{
    let end = listing::last_chunk();
    if pieces.len() == 0 {
        lemma_last_chunk_read();
        assert(listing_laws::chunks(pieces) + end =~= end);
    } else {
        let rest = pieces.drop_first();
        assert forall|i: int| 0 <= i < rest.len() implies 0 < (#[trigger] rest[i]).len()
            <= usize::MAX by {
            assert(rest[i] == pieces[i + 1]);
        }
        lemma_chunks_read(rest);
        lemma_chunks_front(pieces);
        lemma_chunk_read(pieces[0], listing_laws::chunks(rest) + end);
        assert(listing_laws::chunks(pieces) + end =~= listing::chunk(pieces[0]) + (
        listing_laws::chunks(rest) + end));
    }
}

/// The text that some lines make, one behind the other.
pub open spec fn text_of(lines: Seq<Seq<u8>>) -> Seq<u8>
    decreases lines.len(),
{
    if lines.len() == 0 {
        Seq::empty()
    } else {
        lines[0] + text_of(lines.drop_first())
    }
}

proof fn lemma_text_of(lines: Seq<Seq<u8>>)
    ensures
        text_of(lines) == listing_laws::concat(lines),
    decreases lines.len(),
{
    if lines.len() > 0 {
        lemma_text_of(lines.drop_first());
        lemma_chunks_front(lines);
    }
}

/// Whether lines are those of a listing of a directory: one that leads to its parent, except in
/// the root, and one for each of its children.
pub open spec fn lines_list<E>(lines: Seq<Seq<u8>>, dir: Tree<E>) -> bool {
    let top: int = if dir->is_root {
        0
    } else {
        1
    };
    &&& lines.len() == top + dir->children.len()
    &&& !dir->is_root ==> is_parent_line(lines[0])
    &&& forall|i: int|
        top <= i < lines.len() ==> is_line_of(#[trigger] lines[i], listed(dir->children)[i - top])
}

/// Whether a response is a listing of a directory: a page in chunks that holds the preamble and
/// the lines of the listing.
pub open spec fn is_listing<E>(out: Seq<u8>, preamble: Seq<u8>, dir: Tree<E>) -> bool {
    &&& client::status(out) == Some(200nat)
    &&& client::header(out, bytes::text("Content-Type"@)) == Some(answer_laws::html_type_word())
    &&& client::header(out, bytes::text("Transfer-Encoding"@)) == Some(answer_laws::chunked_word())
    &&& client::header(out, bytes::text("Content-Encoding"@)) is None
    &&& client::header(out, bytes::text("Content-Length"@)) is None
    &&& exists|lines: Seq<Seq<u8>>|
        {
            &&& #[trigger] lines_list(lines, dir)
            &&& client::dechunked(client::body(out)) == Some(preamble + text_of(lines))
        }
}

proof fn lemma_page_lines<E>(preamble: Seq<u8>, dir: Tree<E>) -> (lines: Seq<Seq<u8>>)
    requires
        dir is Dir,
    ensures
        lines_list(lines, dir),
        listing_laws::page(preamble, dir->is_root, dir->children) == preamble + text_of(lines),
{
    let kids = listing::dir_lines(dir->children) + listing::file_lines(dir->children);
    law_lines_of_children(dir->children);
    listing_laws::lemma_concat_add(
        listing::dir_lines(dir->children),
        listing::file_lines(dir->children),
    );
    let page = listing_laws::page(preamble, dir->is_root, dir->children);
    if dir->is_root {
        lemma_text_of(kids);
        assert(page =~= preamble + text_of(kids));
        kids
    } else {
        lemma_parent_line();
        let parent = listing::parent_line();
        let lines = seq![parent] + kids;
        assert(lines.drop_first() =~= kids);
        lemma_text_of(kids);
        assert forall|i: int| 1 <= i < lines.len() implies is_line_of(
            #[trigger] lines[i],
            listed(dir->children)[i - 1],
        ) by {
            assert(lines[i] == kids[i - 1]);
        }
        assert(page =~= preamble + text_of(lines));
        lines
    }
}

/// What a listing that did not fail is to a client.
proof fn lemma_listing_read(preamble: Seq<u8>, dir: Tree<Entry>, room: int, out: Seq<u8>)
    requires
        dir is Dir,
        preamble.len() > 0,
        room <= usize::MAX,
        ({
            let p = listing::listing(
                Seq::empty() + listing::listing_head(),
                preamble,
                dir->is_root,
                dir->children,
                room,
            );
            !p.failed && out == listing::listing_output(p)
        }),
    ensures
        is_listing(out, preamble, dir),
{
    let head = listing::listing_head();
    assert(Seq::<u8>::empty() + head =~= head);
    listing_laws::law_chunks_are_page(head, preamble, dir->is_root, dir->children, room);
    let groups = choose|groups: Seq<Seq<Seq<u8>>>|
        {
            &&& #[trigger] listing_laws::valid_pieces(listing_laws::texts(groups), room)
            &&& listing_laws::ungrouped(groups) == listing_laws::page_lines(
                preamble,
                dir->is_root,
                dir->children,
            )
            &&& listing_laws::concat(listing_laws::texts(groups)) == listing_laws::page(
                preamble,
                dir->is_root,
                dir->children,
            )
            &&& listing::listing_output(
                listing::listing(head, preamble, dir->is_root, dir->children, room),
            ) == head + listing_laws::chunks(listing_laws::texts(groups)) + listing::last_chunk()
        };
    let pieces = listing_laws::texts(groups);
    let more = listing_laws::chunks(pieces) + listing::last_chunk();
    assert(out =~= head + more);
    answer_laws::lemma_listing_head(more);
    lemma_chunks_read(pieces);
    let lines = lemma_page_lines(preamble, dir);
    assert(client::dechunked(client::body(out)) == Some(preamble + text_of(lines)));
}

/// A path that leads to a directory of an archive in which `index.html` leads to no file is
/// answered with a listing of the directory, where each of its lines fits into the buffer of the
/// connection.
pub proof fn law_listing_answered(
    entries: Seq<Entry>,
    request: Request,
    preamble: Seq<u8>,
    answer: Response,
)
    requires
        entries.len() <= usize::MAX,
        preamble.len() > 0,
        response::answers(request, archive::archive_tree(entries), preamble, answer),
        request matches Request::Get { path, headers } && {
            &&& vstd::utf8::valid_utf8(path.part())
            &&& archive::archive_tree(entries).find(path.part()) matches Some(node)
            &&& node is Dir
            &&& !(node.find(answer_laws::index_word()) matches Some(Tree::File { .. }))
            &&& !response::up_to_date(node, headers.if_none_match)
        },
    ensures
        request matches Request::Get { path, .. } && {
            let dir = archive::archive_tree(entries).find(path.part())->0;
            &&& answer.left is Ok ==> {
                &&& answer.left->Ok_0 is Finished
                &&& is_listing(answer.stream.out@, preamble, dir)
            }
            &&& preamble.len() + 80 <= path.buf@.len() && (forall|i: int|
                0 <= i < dir->children.len() ==> 9 * name_of(#[trigger] dir->children[i]).len() + 80
                    <= path.buf@.len()) ==> answer.left is Ok
        },
{
    if let Request::Get { path, .. } = request {
        let dir = archive::archive_tree(entries).find(path.part())->0;
        let out = answer.stream.out@;
        let room = listing::chunk_room(path.buf@.len() as int);
        answer_laws::lemma_dir_target(entries, path.part());
        if answer.left is Ok {
            assert(path.buf.len() == path.buf@.len());
            lemma_listing_read(preamble, dir, room, out);
        } else {
            lemma_listing_fits(
                Seq::empty() + listing::listing_head(),
                preamble,
                dir->is_root,
                dir->children,
                path.buf@.len() as int,
            );
        }
    }
}

proof fn lemma_text_lens(name: Seq<u8>)
    ensures
        encoding::uri_text(name).len() <= 3 * name.len(),
        encoding::html_text(name).len() <= 6 * name.len(),
    decreases name.len(),
{
    if name.len() > 0 {
        lemma_text_lens(name.drop_last());
        literals::lemma_quot();
        literals::lemma_amp();
        literals::lemma_apos();
        literals::lemma_slash();
        literals::lemma_lt();
        literals::lemma_gt();
    }
}

proof fn lemma_line_lens<E>(nodes: Seq<Tree<E>>, most: int)
    requires
        forall|i: int|
            0 <= i < nodes.len() ==> 9 * name_of(#[trigger] nodes[i]).len() + 40 <= most,
    ensures
        forall|i: int|
            0 <= i < listing::dir_lines(nodes).len() ==> (#[trigger] listing::dir_lines(
                nodes,
            )[i]).len() <= most,
        forall|i: int|
            0 <= i < listing::file_lines(nodes).len() ==> (#[trigger] listing::file_lines(
                nodes,
            )[i]).len() <= most,
    decreases nodes.len(),
{
    if nodes.len() > 0 {
        let init = nodes.drop_last();
        assert forall|i: int| 0 <= i < init.len() implies 9 * name_of(#[trigger] init[i]).len() + 40
            <= most by {
            assert(init[i] == nodes[i]);
        }
        lemma_line_lens(init, most);
        assert(9 * name_of(nodes[nodes.len() - 1]).len() + 40 <= most);
        let name = nodes.last().name();
        lemma_line_len(name);
        let dirs = listing::dir_lines(nodes);
        assert forall|i: int| 0 <= i < dirs.len() implies (#[trigger] dirs[i]).len() <= most by {
            if i < listing::dir_lines(init).len() {
                assert(dirs[i] == listing::dir_lines(init)[i]);
            } else {
                assert(dirs[i] == listing::dir_line(name));
            }
        }
        let files = listing::file_lines(nodes);
        assert forall|i: int| 0 <= i < files.len() implies (#[trigger] files[i]).len() <= most by {
            if i < listing::file_lines(init).len() {
                assert(files[i] == listing::file_lines(init)[i]);
            } else {
                assert(files[i] == listing::file_line(name));
            }
        }
    }
}

proof fn lemma_line_len(name: Seq<u8>)
    ensures
        listing::dir_line(name).len() <= 9 * name.len() + 40,
        listing::file_line(name).len() <= 9 * name.len() + 40,
{
    lemma_text_lens(name);
    literals::lemma_dir_start();
    literals::lemma_dir_middle();
    literals::lemma_file_start();
    literals::lemma_file_middle();
    literals::lemma_line_tail();
}

/// A listing does not fail where there is room for each of its lines.
proof fn lemma_listing_fits<E>(
    sent: Seq<u8>,
    preamble: Seq<u8>,
    is_root: bool,
    nodes: Seq<Tree<E>>,
    len: int,
)
    ensures
        preamble.len() + 80 <= len && (forall|i: int|
            0 <= i < nodes.len() ==> 9 * name_of(#[trigger] nodes[i]).len() + 80 <= len)
            ==> !listing::listing(
            sent,
            preamble,
            is_root,
            nodes,
            listing::chunk_room(len),
        ).failed,
{
    let room = listing::chunk_room(len);
    if preamble.len() + 80 <= len && (forall|i: int|
        0 <= i < nodes.len() ==> 9 * name_of(#[trigger] nodes[i]).len() + 80 <= len) {
        literals::lemma_parent_line();
        assert(room >= len - 20);
        assert forall|i: int| 0 <= i < nodes.len() implies 9 * name_of(#[trigger] nodes[i]).len()
            + 40 <= room by {}
        lemma_line_lens(nodes, room);
        listing_laws::law_listing_fails_iff(sent, preamble, is_root, nodes, room);
    }
}

} // verus!
