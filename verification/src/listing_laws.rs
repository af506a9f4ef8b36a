//! What the chunks of a directory listing add up to.
use vstd::prelude::*;

use crate::encoding;
use crate::encoding_laws;
use crate::listing;
use crate::listing::Progress;
use crate::path;
use crate::tree;
use crate::tree::Tree;
use crate::tree_laws;

verus! {

/// The pieces, one behind the other.
pub open spec fn concat(pieces: Seq<Seq<u8>>) -> Seq<u8>
    decreases pieces.len(),
{
    if pieces.len() == 0 {
        Seq::empty()
    } else {
        concat(pieces.drop_last()) + pieces.last()
    }
}

/// The chunks of the pieces, one behind the other.
pub open spec fn chunks(pieces: Seq<Seq<u8>>) -> Seq<u8>
    decreases pieces.len(),
{
    if pieces.len() == 0 {
        Seq::empty()
    } else {
        chunks(pieces.drop_last()) + listing::chunk(pieces.last())
    }
}

/// What a listing begins with: the preamble, and the parent's line except in the root.
pub open spec fn page_top(preamble: Seq<u8>, is_root: bool) -> Seq<u8> {
    if is_root {
        preamble
    } else {
        preamble + listing::parent_line()
    }
}

/// A listing as one page: directories first, then files.
pub open spec fn page<E>(preamble: Seq<u8>, is_root: bool, nodes: Seq<Tree<E>>) -> Seq<u8> {
    page_top(preamble, is_root) + concat(listing::dir_lines(nodes)) + concat(
        listing::file_lines(nodes),
    )
}

/// Whether pieces can be chunks of one body: none is empty, and each fits into the buffer.
pub open spec fn valid_pieces(pieces: Seq<Seq<u8>>, room: int) -> bool {
    forall|i: int| 0 <= i < pieces.len() ==> 0 < (#[trigger] pieces[i]).len() <= room
}

/// The text of each of some groups of lines.
pub open spec fn texts(groups: Seq<Seq<Seq<u8>>>) -> Seq<Seq<u8>> {
    Seq::new(groups.len(), |i: int| concat(groups[i]))
}

/// The lines of some groups, one group behind the other.
pub open spec fn ungrouped(groups: Seq<Seq<Seq<u8>>>) -> Seq<Seq<u8>>
    decreases groups.len(),
{
    if groups.len() == 0 {
        Seq::empty()
    } else {
        ungrouped(groups.drop_last()) + groups.last()
    }
}

/// The lines of a listing: its top, which is kept together, then a line for each directory, then
/// one for each file.
pub open spec fn page_lines<E>(
    preamble: Seq<u8>,
    is_root: bool,
    nodes: Seq<Tree<E>>,
) -> Seq<Seq<u8>> {
    seq![page_top(preamble, is_root)] + listing::dir_lines(nodes) + listing::file_lines(nodes)
}

proof fn lemma_concat_push(pieces: Seq<Seq<u8>>, piece: Seq<u8>)
    ensures
        concat(pieces.push(piece)) == concat(pieces) + piece,
{
    assert(pieces.push(piece).drop_last() =~= pieces);
}

pub(crate) proof fn lemma_concat_add(a: Seq<Seq<u8>>, b: Seq<Seq<u8>>)
    ensures
        concat(a + b) == concat(a) + concat(b),
    decreases b.len(),
{
    if b.len() == 0 {
        assert(a + b =~= a);
        assert(concat(a) + concat(b) =~= concat(a));
    } else {
        lemma_concat_add(a, b.drop_last());
        assert((a + b).drop_last() =~= a + b.drop_last());
        assert(concat(a) + (concat(b.drop_last()) + b.last()) =~= concat(a) + concat(b.drop_last())
            + b.last());
    }
}

proof fn lemma_texts_push(groups: Seq<Seq<Seq<u8>>>, group: Seq<Seq<u8>>)
    ensures
        texts(groups.push(group)) == texts(groups).push(concat(group)),
        ungrouped(groups.push(group)) == ungrouped(groups) + group,
{
    assert(groups.push(group).drop_last() =~= groups);
    assert(texts(groups.push(group)) =~= texts(groups).push(concat(group)));
}

/// The texts of groups add up to the text of their lines.
proof fn lemma_ungrouped_text(groups: Seq<Seq<Seq<u8>>>)
    ensures
        concat(texts(groups)) == concat(ungrouped(groups)),
    decreases groups.len(),
{
    if groups.len() > 0 {
        let init = groups.drop_last();
        lemma_ungrouped_text(init);
        assert(groups =~= init.push(groups.last()));
        lemma_texts_push(init, groups.last());
        lemma_concat_push(texts(init), concat(groups.last()));
        lemma_concat_add(ungrouped(init), groups.last());
    }
}

proof fn lemma_chunks_push(pieces: Seq<Seq<u8>>, piece: Seq<u8>)
    ensures
        chunks(pieces.push(piece)) == chunks(pieces) + listing::chunk(piece),
{
    assert(pieces.push(piece).drop_last() =~= pieces);
}

/// Whether a listing on its way has sent some groups of lines, each as one chunk, and these with
/// the group that is pending make up the lines so far.
spec fn adds_up(
    p: Progress,
    before: Seq<u8>,
    groups: Seq<Seq<Seq<u8>>>,
    group: Seq<Seq<u8>>,
    lines: Seq<Seq<u8>>,
    room: int,
) -> bool {
    &&& valid_pieces(texts(groups), room)
    &&& p.pending == concat(group)
    &&& 0 < p.pending.len() <= room
    &&& p.sent == before + chunks(texts(groups))
    &&& ungrouped(groups) + group == lines
}

proof fn lemma_valid_push(pieces: Seq<Seq<u8>>, piece: Seq<u8>, room: int)
    requires
        valid_pieces(pieces, room),
        0 < piece.len() <= room,
    ensures
        valid_pieces(pieces.push(piece), room),
{
    let r = pieces.push(piece);
    assert forall|i: int| 0 <= i < r.len() implies 0 < (#[trigger] r[i]).len() <= room by {
        if i < pieces.len() {
            assert(r[i] == pieces[i]);
        }
    }
}

proof fn lemma_line_adds_up(
    p: Progress,
    line: Seq<u8>,
    before: Seq<u8>,
    groups: Seq<Seq<Seq<u8>>>,
    group: Seq<Seq<u8>>,
    lines: Seq<Seq<u8>>,
    room: int,
) -> (r: (Seq<Seq<Seq<u8>>>, Seq<Seq<u8>>))
    requires
        adds_up(p, before, groups, group, lines, room),
        !p.with_line(line, room).failed,
    ensures
        adds_up(p.with_line(line, room), before, r.0, r.1, lines.push(line), room),
{
    if p.pending.len() + line.len() <= room {
        lemma_concat_push(group, line);
        assert(ungrouped(groups) + group.push(line) =~= lines.push(line));
        (groups, group.push(line))
    } else {
        let sent = groups.push(group);
        let next = Seq::<Seq<u8>>::empty().push(line);
        lemma_texts_push(groups, group);
        lemma_chunks_push(texts(groups), p.pending);
        lemma_valid_push(texts(groups), p.pending, room);
        assert(before + chunks(texts(groups)) + listing::chunk(p.pending) =~= before + chunks(
            texts(sent),
        ));
        lemma_concat_push(Seq::empty(), line);
        assert(concat(next) =~= line);
        assert(ungrouped(sent) + next =~= lines.push(line));
        (sent, next)
    }
}

proof fn lemma_lines_add_up(
    p: Progress,
    more: Seq<Seq<u8>>,
    before: Seq<u8>,
    groups: Seq<Seq<Seq<u8>>>,
    group: Seq<Seq<u8>>,
    lines: Seq<Seq<u8>>,
    room: int,
) -> (r: (Seq<Seq<Seq<u8>>>, Seq<Seq<u8>>))
    requires
        adds_up(p, before, groups, group, lines, room),
        !p.with_lines(more, room).failed,
    ensures
        adds_up(p.with_lines(more, room), before, r.0, r.1, lines + more, room),
    decreases more.len(),
{
    if more.len() == 0 {
        assert(lines + more =~= lines);
        (groups, group)
    } else {
        let init = more.drop_last();
        let mid = lemma_lines_add_up(p, init, before, groups, group, lines, room);
        let r = lemma_line_adds_up(
            p.with_lines(init, room),
            more.last(),
            before,
            mid.0,
            mid.1,
            lines + init,
            room,
        );
        assert((lines + init).push(more.last()) =~= lines + more);
        r
    }
}

proof fn lemma_lines_fail_iff(p: Progress, lines: Seq<Seq<u8>>, room: int)
    ensures
        p.with_lines(lines, room).failed <==> p.failed || exists|i: int|
            0 <= i < lines.len() && (#[trigger] lines[i]).len() > room,
    decreases lines.len(),
{
    if lines.len() > 0 {
        let init = lines.drop_last();
        lemma_lines_fail_iff(p, init, room);
        assert forall|i: int| 0 <= i < init.len() implies init[i] == lines[i] by {}
        if lines.last().len() > room {
            assert(lines[lines.len() - 1].len() > room);
        }
        if exists|i: int| 0 <= i < init.len() && (#[trigger] init[i]).len() > room {
            let i = choose|i: int| 0 <= i < init.len() && (#[trigger] init[i]).len() > room;
            assert(lines[i].len() > room);
        }
        if exists|i: int| 0 <= i < lines.len() && (#[trigger] lines[i]).len() > room {
            let i = choose|i: int| 0 <= i < lines.len() && (#[trigger] lines[i]).len() > room;
            if i < init.len() {
                assert(init[i].len() > room);
            }
        }
    }
}

/// A listing fails exactly where its top or one of its lines is longer than a chunk can be.
pub proof fn law_listing_fails_iff<E>(
    sent: Seq<u8>,
    preamble: Seq<u8>,
    is_root: bool,
    nodes: Seq<Tree<E>>,
    room: int,
)
    ensures
        listing::listing(sent, preamble, is_root, nodes, room).failed <==> {
            ||| page_top(preamble, is_root).len() > room
            ||| exists|i: int|
                0 <= i < listing::dir_lines(nodes).len() && (#[trigger] listing::dir_lines(
                    nodes,
                )[i]).len() > room
            ||| exists|i: int|
                0 <= i < listing::file_lines(nodes).len() && (#[trigger] listing::file_lines(
                    nodes,
                )[i]).len() > room
        },
{
    let start = Progress { sent, pending: page_top(preamble, is_root), failed: false };
    lemma_lines_fail_iff(start, listing::dir_lines(nodes), room);
    lemma_lines_fail_iff(
        start.with_lines(listing::dir_lines(nodes), room),
        listing::file_lines(nodes),
        room,
    );
}

/// The chunks of a listing, put together, are its page. Each holds whole lines, so that no line
/// is split over two. None of them is empty, so that only the last chunk ends the body, and none
/// is larger than the buffer has room for.
pub proof fn law_chunks_are_page<E>(
    sent: Seq<u8>,
    preamble: Seq<u8>,
    is_root: bool,
    nodes: Seq<Tree<E>>,
    room: int,
)
    requires
        preamble.len() > 0,
        !listing::listing(sent, preamble, is_root, nodes, room).failed,
    ensures
        exists|groups: Seq<Seq<Seq<u8>>>|
            {
                &&& #[trigger] valid_pieces(texts(groups), room)
                &&& ungrouped(groups) == page_lines(preamble, is_root, nodes)
                &&& concat(texts(groups)) == page(preamble, is_root, nodes)
                &&& listing::listing_output(
                    listing::listing(sent, preamble, is_root, nodes, room),
                ) == sent + chunks(texts(groups)) + listing::last_chunk()
            },
{
    let top = page_top(preamble, is_root);
    let start = Progress { sent, pending: top, failed: false };
    let none = Seq::<Seq<Seq<u8>>>::empty();
    let first = Seq::<Seq<u8>>::empty().push(top);
    assert(sent + chunks(texts(none)) =~= sent);
    lemma_concat_push(Seq::empty(), top);
    assert(concat(first) =~= top);
    assert(ungrouped(none) + first =~= first);
    let dirs = listing::dir_lines(nodes);
    let files = listing::file_lines(nodes);
    lemma_lines_fail_iff(start.with_lines(dirs, room), files, room);
    let mid = lemma_lines_add_up(start, dirs, sent, none, first, first, room);
    let end = lemma_lines_add_up(
        start.with_lines(dirs, room),
        files,
        sent,
        mid.0,
        mid.1,
        first + dirs,
        room,
    );
    let p = listing::listing(sent, preamble, is_root, nodes, room);
    let groups = end.0.push(end.1);
    lemma_texts_push(end.0, end.1);
    lemma_chunks_push(texts(end.0), p.pending);
    lemma_valid_push(texts(end.0), p.pending, room);
    assert(sent + chunks(texts(end.0)) + listing::chunk(p.pending) =~= sent + chunks(
        texts(groups),
    ));
    assert(first =~= seq![top]);
    assert(ungrouped(groups) == page_lines(preamble, is_root, nodes));
    lemma_ungrouped_text(groups);
    lemma_concat_add(first + dirs, files);
    lemma_concat_add(first, dirs);
    assert(valid_pieces(texts(groups), room));
}

/// A slash behind percent-encoded bytes stands for itself.
pub(crate) proof fn lemma_decode_slash(s: Seq<u8>)
    ensures
        encoding::percent_decoded(s.push(0x2f)) == encoding::percent_decoded(s).push(0x2f),
    decreases s.len(),
{
    let t = s.push(0x2f);
    if s.len() == 0 {
        assert(t.skip(1) =~= Seq::empty());
        assert(encoding::percent_decoded(t.skip(1)) =~= Seq::empty());
        assert(encoding::percent_decoded(t) =~= encoding::percent_decoded(s).push(0x2f));
    } else if s.len() >= 3 && s[0] == 0x25 && encoding::hex_digit(s[1]) is Some
        && encoding::hex_digit(s[2]) is Some {
        lemma_decode_slash(s.skip(3));
        assert(t.skip(3) =~= s.skip(3).push(0x2f));
        assert(encoding::percent_decoded(t) =~= encoding::percent_decoded(s).push(0x2f));
    } else {
        lemma_decode_slash(s.skip(1));
        assert(t.skip(1) =~= s.skip(1).push(0x2f));
        assert(encoding::hex_digit(0x2f) is None);
        assert(encoding::percent_decoded(t) =~= encoding::percent_decoded(s).push(0x2f));
    }
}

/// The links of a listing lead to what is listed: that of a file to the first of that name, and
/// that of a directory too, where its name has one byte for each character.
///
/// A name that holds a slash, or what reads as an escape, is no name that a link leads to.
pub proof fn law_links_lead_back<E>(t: Tree<E>, name: Seq<u8>)
    requires
        t matches Tree::Dir { children, .. } && tree::child_index(children, name)
            < children.len(),
        name.len() > 0,
        path::first_slash(name) is None,
        !encoding_laws::holds_percent_escape(name),
    ensures
        ({
            let child = t->children[tree::child_index(t->children, name)];
            let link = encoding::uri_text(name);
            &&& t.find(encoding::percent_decoded(link)) == Some(child)
            &&& path::chars_within(name, name.len() as int) == name.len() ==> t.find(
                encoding::percent_decoded(link.push(0x2f)),
            ) == Some(child)
        }),
{
    let child = t->children[tree::child_index(t->children, name)];
    encoding_laws::law_uri_round_trip(name);
    lemma_decode_slash(encoding::uri_text(name));
    path::lemma_separator(name);
    assert(name != seq![0x2fu8]) by {
        if name == seq![0x2fu8] {
            assert(name[0] == 0x2f);
        }
    }
    assert(child.find(path::split_path(name).1) == Some(child));
    if path::chars_within(name, name.len() as int) == name.len() {
        tree_laws::law_trailing_slash(t, name);
    }
}

} // verus!
