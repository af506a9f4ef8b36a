//! Which paths can be walked, and which requests can be answered.
use vstd::prelude::*;

use crate::answer_laws;
use crate::archive;
use crate::archive_laws;
use crate::bytes;
use crate::connection;
use crate::entry::Entry;
use crate::insert_laws;
use crate::origin_laws;
use crate::outside;
use crate::path;
use crate::request::{AcceptedEncodings, Request};
use crate::response;
use crate::stream;
use crate::stream::{BufferFull, Transfer};
use crate::tree::Tree;
use crate::tree_laws;

verus! {

/// Whether no slash stands in a text.
pub open spec fn no_slash(p: Seq<u8>) -> bool {
    forall|i: int| 0 <= i < p.len() ==> #[trigger] p[i] != 0x2f
}

/// Whether a text does not begin within a character.
pub open spec fn begins_whole(p: Seq<u8>) -> bool {
    p.len() > 0 ==> !(0x80 <= p[0] < 0xc0)
}

/// A path can be divided exactly where neither end of the byte that is left out lies within a
/// character: the byte at the number of characters before the first slash.
pub proof fn law_divisible(chars: Seq<char>)
    ensures
        path::divisible(bytes::text(chars)) <==> (path::slash_position(chars) matches Some(n) ==> {
            &&& vstd::utf8::is_char_boundary(bytes::text(chars), n)
            &&& vstd::utf8::is_char_boundary(bytes::text(chars), n + 1)
        }),
{
    let p = bytes::text(chars);
    path::law_separator_counts_chars(chars);
    path::lemma_separator(p);
    vstd::utf8::encode_utf8_valid_utf8(chars);
    vstd::utf8::is_char_boundary_start_end_of_seq(p);
    if let Some(n) = path::slash_position(chars) {
        vstd::utf8::is_char_boundary_iff_not_is_continuation_byte(p, n);
        if n + 1 < p.len() {
            vstd::utf8::is_char_boundary_iff_not_is_continuation_byte(p, n + 1);
        }
    }
}

/// A name can be inserted, whatever its characters, and so can a name behind a path of ASCII
/// names.
pub proof fn law_insertable(a: Seq<u8>, b: Seq<u8>)
    requires
        no_slash(b),
        begins_whole(b),
        insert_laws::ascii(a),
    ensures
        path::insertable(b),
        path::insertable(a + seq![0x2fu8] + b),
    decreases a.len(),
{
    path::lemma_separator(b);
    let p = a + seq![0x2fu8] + b;
    path::lemma_separator(a);
    path::lemma_separator(p);
    insert_laws::lemma_ascii_separator(a);
    match path::first_slash(a) {
        Some(k) => {
            path::lemma_first_slash_is(p, k);
            path::lemma_chars_within_prefix(a, p, k);
            let tail = path::split_path(a).1;
            assert(path::split_path(p).1 =~= tail + seq![0x2fu8] + b);
            law_insertable(tail, b);
            assert(p[k] == 0x2f);
            if k + 1 < a.len() {
                assert(p[k + 1] == a[k + 1]);
            } else {
                assert(p[k + 1] == 0x2f);
            }
        },
        None => {
            let k = a.len() as int;
            path::lemma_first_slash_is(p, k);
            path::lemma_chars_within_prefix(a, p, k);
            insert_laws::lemma_ascii_chars(a, k);
            assert(path::split_path(p).1 =~= b);
            assert(p[k] == 0x2f);
            if b.len() > 0 {
                assert(p[k + 1] == b[0]);
            }
        },
    }
}

/// A name can be looked up in any tree, and so can a name behind a path of ASCII names.
pub proof fn law_findable<E>(t: Tree<E>, a: Seq<u8>, b: Seq<u8>)
    requires
        no_slash(b),
        begins_whole(b),
        insert_laws::ascii(a),
    ensures
        t.findable(b),
        t.findable(a + seq![0x2fu8] + b),
{
    law_insertable(a, b);
    tree_laws::law_insertable_findable(t, b);
    tree_laws::law_insertable_findable(t, a + seq![0x2fu8] + b);
}

proof fn lemma_ascii_insertable(p: Seq<u8>)
    requires
        insert_laws::ascii(p),
    ensures
        path::insertable(p),
    decreases p.len(),
{
    path::lemma_separator(p);
    insert_laws::lemma_ascii_separator(p);
    if let Some(sep) = path::separator(p) {
        lemma_ascii_insertable(path::split_path(p).1);
    }
}

proof fn lemma_first_char(p: Seq<u8>, k: int)
    requires
        0 < k <= p.len(),
        begins_whole(p),
    ensures
        path::chars_within(p, k) > 0,
    decreases k,
{
    path::lemma_chars_within(p, k - 1);
    if k > 1 {
        lemma_first_char(p, k - 1);
    }
}

/// Below a file there is nothing: no path that begins with a name leads on from it.
pub proof fn law_nothing_below_file<E>(name: Seq<u8>, entry: E, p: Seq<u8>)
    requires
        p.len() > 0,
        p[0] != 0x2f,
        begins_whole(p),
    ensures
        (Tree::File { name, entry }).find(p) is None,
{
    path::lemma_separator(p);
    assert(p != seq![0x2fu8]) by {
        if p == seq![0x2fu8] {
            assert(p[0] == 0x2f);
        }
    }
    if let Some(k) = path::first_slash(p) {
        lemma_first_char(p, k);
    }
}

/// A request with an ASCII path can be answered from the tree of an archive, where the sizes that
/// its entries have can be handled and the buffer of the connection has some room.
pub proof fn law_answerable(entries: Seq<Entry>, request: Request)
    requires
        entries.len() <= usize::MAX,
        forall|k: int|
            0 <= k < entries.len() ==> (#[trigger] entries[k]).compressed_size + 18 <= u64::MAX
                && entries[k].compressed_size <= usize::MAX,
        request matches Request::Get { path, .. } ==> insert_laws::ascii(path.part())
            && path.buf@.len() >= 48,
    ensures
        response::answerable(request, archive::archive_tree(entries)),
{
    if let Request::Get { path, headers } = request {
        let t = archive::archive_tree(entries);
        let p = path.part();
        lemma_ascii_insertable(p);
        tree_laws::law_insertable_findable(t, p);
        if let Some(node) = response::lookup(t, p) {
            archive_laws::law_archive_well_indexed(entries, p);
            origin_laws::law_nothing_else(entries);
            origin_laws::lemma_found_stems(t, p, entries);
            if let stream::Target::Contents(entry) = stream::target(node) {
                if let Tree::Dir { children, index_html_index: Some(i), .. } = node {
                    assert(origin_laws::stems_from(children[i as int], entries));
                }
                assert(entries.contains(entry));
                let k = choose|k: int| 0 <= k < entries.len() && entries[k] == entry;
                assert(entries[k].compressed_size + 18 <= u64::MAX);
            }
        }
    }
}

/// The head of a response fits into the buffer of a connection, unless the media type is of an
/// extraordinary length.
pub proof fn law_head_fits(
    entry: Entry,
    accepted: AcceptedEncodings,
    out: Seq<u8>,
    left: Result<Transfer, BufferFull>,
)
    requires
        answer_laws::sends(entry, accepted, connection::BUFFER_LEN as int, out, left),
    ensures
        bytes::text(outside::mime_essence(entry.name@)).len() <= 864 ==> left is Ok,
{
}

} // verus!
