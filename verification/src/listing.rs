//! Directory listings, as pages and as chunked response bodies.
use vstd::prelude::*;

use crate::bytes;
use crate::encoding;
use crate::entry::Entry;
use crate::fstree;
use crate::fstree::FsTreeNode;
use crate::outside;
use crate::tree::Tree;

verus! {

/// How many hexadecimal digits the length of a chunk is written with.
pub const CHUNK_DIGIT_COUNT: usize = usize::BITS as usize / 4;

/// How many bytes the length line of a chunk takes.
pub const CHUNK_SIZE_LEN: usize = CHUNK_DIGIT_COUNT + 2;

/// A chunk of a response body: its length, a line break, the data, a line break.
pub open spec fn chunk(data: Seq<u8>) -> Seq<u8> {
    encoding::hex_text(encoding::be_bytes(data.len(), (usize::BITS / 8) as nat)) + bytes::text(
        "\r\n"@,
    ) + data + bytes::text("\r\n"@)
}

/// The line of a listing that leads to the parent directory.
pub open spec fn parent_line() -> Seq<u8> {
    bytes::text("<li class=top><a href=\"..\">..</a>\n"@)
}

/// The line of a listing for a directory.
pub open spec fn dir_line(name: Seq<u8>) -> Seq<u8> {
    bytes::text("<li class=dir><a href=\"./"@) + encoding::uri_text(name) + bytes::text("/\">"@)
        + encoding::html_text(name) + bytes::text("</a>\n"@)
}

/// The line of a listing for a file.
pub open spec fn file_line(name: Seq<u8>) -> Seq<u8> {
    bytes::text("<li><a href=\"./"@) + encoding::uri_text(name) + bytes::text("\">"@)
        + encoding::html_text(name) + bytes::text("</a>\n"@)
}

/// The lines for the directories among some nodes.
pub open spec fn dir_lines<E>(nodes: Seq<Tree<E>>) -> Seq<Seq<u8>>
    decreases nodes.len(),
{
    if nodes.len() == 0 {
        Seq::empty()
    } else if nodes.last() is Dir {
        dir_lines(nodes.drop_last()).push(dir_line(nodes.last().name()))
    } else {
        dir_lines(nodes.drop_last())
    }
}

/// The lines for the files among some nodes.
pub open spec fn file_lines<E>(nodes: Seq<Tree<E>>) -> Seq<Seq<u8>>
    decreases nodes.len(),
{
    if nodes.len() == 0 {
        Seq::empty()
    } else if nodes.last() is File {
        file_lines(nodes.drop_last()).push(file_line(nodes.last().name()))
    } else {
        file_lines(nodes.drop_last())
    }
}

/// A listing on its way: the chunks that were sent, the text that waits for its chunk, and
/// whether a line was met that no chunk has room for.
pub struct Progress {
    pub sent: Seq<u8>,
    pub pending: Seq<u8>,
    pub failed: bool,
}

impl Progress {
    /// One line more. Where it does not fit behind what is pending, that is sent first.
    pub open spec fn with_line(self, line: Seq<u8>, room: int) -> Progress {
        if self.failed {
            self
        } else if self.pending.len() + line.len() <= room {
            Progress { pending: self.pending + line, ..self }
        } else if self.pending.len() == 0 {
            Progress { failed: true, ..self }
        } else if line.len() <= room {
            Progress { sent: self.sent + chunk(self.pending), pending: line, failed: false }
        } else {
            Progress {
                sent: self.sent + chunk(self.pending),
                pending: Seq::empty(),
                failed: true,
            }
        }
    }

    /// Some lines more, as long as none fails.
    pub open spec fn with_lines(self, lines: Seq<Seq<u8>>, room: int) -> Progress
        decreases lines.len(),
    {
        if lines.len() == 0 {
            self
        } else {
            self.with_lines(lines.drop_last(), room).with_line(lines.last(), room)
        }
    }
}

/// The head of the response that a listing is.
pub open spec fn listing_head() -> Seq<u8> {
    bytes::text(
        "HTTP/1.1 200 OK\r\nContent-Type: text/html; charset=utf-8\r\nTransfer-Encoding: chunked\r\n\r\n"@,
    )
}

/// The chunk that ends a response body.
pub open spec fn last_chunk() -> Seq<u8> {
    bytes::text("0\r\n\r\n"@)
}

/// How a listing stands once all lines have been taken, behind what was sent before.
///
/// What comes before the lines has to fit into the first chunk.
pub open spec fn listing<E>(
    sent: Seq<u8>,
    preamble: Seq<u8>,
    is_root: bool,
    nodes: Seq<Tree<E>>,
    room: int,
) -> Progress {
    let top = if is_root {
        preamble
    } else {
        preamble + parent_line()
    };
    if top.len() > room {
        Progress { sent, pending: Seq::empty(), failed: true }
    } else {
        Progress { sent, pending: top, failed: false }.with_lines(
            dir_lines(nodes),
            room,
        ).with_lines(file_lines(nodes), room)
    }
}

/// The line of a listing for a node.
fn write_line(node: &FsTreeNode<Entry>) -> (r: Vec<u8>)
    ensures
        node@ is Dir ==> r@ == dir_line(node@.name()),
        node@ is File ==> r@ == file_line(node@.name()),
{
    let mut line: Vec<u8> = Vec::new();
    match node {
        FsTreeNode::Dir { name, .. } => {
            bytes::append(&mut line, "<li class=dir><a href=\"./".as_bytes());
            encoding::write_uri(&mut line, name.as_str());
            bytes::append(&mut line, "/\">".as_bytes());
            bytes::append(&mut line, outside::escape_html(name.as_str()).as_str().as_bytes());
            bytes::append(&mut line, "</a>\n".as_bytes());
            assert(line@ =~= dir_line(node@.name()));
        },
        FsTreeNode::File { name, .. } => {
            bytes::append(&mut line, "<li><a href=\"./".as_bytes());
            encoding::write_uri(&mut line, name.as_str());
            bytes::append(&mut line, "\">".as_bytes());
            bytes::append(&mut line, outside::escape_html(name.as_str()).as_str().as_bytes());
            bytes::append(&mut line, "</a>\n".as_bytes());
            assert(line@ =~= file_line(node@.name()));
        },
    }
    line
}

/// Puts the length and the line breaks around the data that stands behind the room for them in
/// `buf`, and sends the chunk.
fn flush_chunk(out: &mut Vec<u8>, buf: &mut Vec<u8>, len: usize)
    requires
        CHUNK_SIZE_LEN + len + 2 <= old(buf)@.len(),
    ensures
        final(buf)@.len() == old(buf)@.len(),
        final(out)@ == old(out)@ + chunk(pending_in(old(buf)@, len as int)),
        final(buf)@ == bytes::overwrite(old(buf)@, 0, chunk(pending_in(old(buf)@, len as int))),
{
    let ghost data = pending_in(buf@, len as int);
    assert(buf@.len() == buf.len());
    proof {
        lemma_line_break();
    }
    bytes::copy_into(buf, CHUNK_SIZE_LEN + len, "\r\n".as_bytes());
    let size = encoding::to_be_bytes(len, usize::BITS as usize / 8);
    let mut digits: Vec<u8> = Vec::new();
    digits.resize(CHUNK_DIGIT_COUNT, 0);
    proof {
        encoding::lemma_be_bytes_len(len as nat, (usize::BITS / 8) as nat);
    }
    outside::encode_hex(size.as_slice(), digits.as_mut_slice());
    bytes::copy_into(buf, 0, digits.as_slice());
    bytes::copy_into(buf, CHUNK_DIGIT_COUNT, "\r\n".as_bytes());
    let end: usize = CHUNK_SIZE_LEN + len + 2;
    bytes::append(out, &buf.as_slice()[0..end]);
    assert(buf@.subrange(0, end as int) =~= chunk(data));
    assert(buf@ =~= bytes::overwrite(old(buf)@, 0, chunk(data)));
}

proof fn lemma_line_break()
    ensures
        bytes::text("\r\n"@) == seq![0x0du8, 0x0au8],
{
    reveal_strlit("\r\n");
    let s = "\r\n"@;
    assert(s =~= seq!['\r', '\n']);
    vstd::utf8::is_ascii_chars_encode_utf8(s);
    assert(bytes::text(s) =~= seq![0x0du8, 0x0au8]);
}

/// What is sent of a listing: the chunks, and the last of them where no line failed.
pub open spec fn listing_output(p: Progress) -> Seq<u8> {
    if p.failed {
        p.sent
    } else {
        p.sent + chunk(p.pending) + last_chunk()
    }
}

/// The room for data in a buffer that holds a chunk.
pub open spec fn chunk_room(buf_len: int) -> int {
    buf_len - CHUNK_SIZE_LEN - 2
}

/// The pending text, which stands in a buffer behind the room for the length of its chunk.
pub open spec fn pending_in(buf: Seq<u8>, len: int) -> Seq<u8> {
    buf.subrange(CHUNK_SIZE_LEN as int, CHUNK_SIZE_LEN + len)
}

/// The buffer of a listing on its way, with the length of the text that waits in it.
pub struct Filling {
    pub buf: Seq<u8>,
    pub len: int,
}

impl Filling {
    /// With text behind what is pending.
    pub open spec fn with_text(self, text: Seq<u8>) -> Filling {
        Filling {
            buf: bytes::overwrite(self.buf, CHUNK_SIZE_LEN + self.len, text),
            len: self.len + text.len(),
        }
    }

    /// Once what is pending has been sent: its chunk stands at the front.
    pub open spec fn flushed(self) -> Filling {
        Filling {
            buf: bytes::overwrite(self.buf, 0, chunk(pending_in(self.buf, self.len))),
            len: 0,
        }
    }

    /// With one line more. Where it does not fit behind what is pending, it is written there as
    /// far as it goes, before that is sent and the line put in its place.
    pub open spec fn with_line(self, line: Seq<u8>) -> Filling {
        let free = chunk_room(self.buf.len() as int) - self.len;
        if line.len() <= free {
            self.with_text(line)
        } else {
            (Filling { buf: self.with_text(line.take(free)).buf, ..self }).flushed().with_text(line)
        }
    }

    /// With some lines more.
    pub open spec fn with_lines(self, lines: Seq<Seq<u8>>) -> Filling
        decreases lines.len(),
    {
        if lines.len() == 0 {
            self
        } else {
            self.with_lines(lines.drop_last()).with_line(lines.last())
        }
    }
}

/// What a listing with room for every line leaves in the buffer.
pub open spec fn listing_buffer<E>(
    buf: Seq<u8>,
    preamble: Seq<u8>,
    is_root: bool,
    nodes: Seq<Tree<E>>,
) -> Seq<u8> {
    let start = Filling { buf, len: 0 }.with_text(preamble);
    let top = if is_root {
        start
    } else {
        start.with_text(parent_line())
    };
    top.with_lines(dir_lines(nodes)).with_lines(file_lines(nodes)).flushed().buf
}

/// Puts text behind what is pending, where there is room.
fn put(buf: &mut Vec<u8>, len: usize, new: &[u8]) -> (r: Option<usize>)
    requires
        0 <= len <= chunk_room(old(buf)@.len() as int),
    ensures
        final(buf)@.len() == old(buf)@.len(),
        match r {
            Some(n) => {
                &&& n == len + new@.len()
                &&& n <= chunk_room(old(buf)@.len() as int)
                &&& pending_in(final(buf)@, n as int) == pending_in(old(buf)@, len as int) + new@
                &&& final(buf)@ == (Filling { buf: old(buf)@, len: len as int }).with_text(new@).buf
            },
            None => {
                &&& len + new@.len() > chunk_room(old(buf)@.len() as int)
                &&& final(buf)@ == old(buf)@
            },
        },
{
    let ghost before = pending_in(buf@, len as int);
    let room: usize = buf.len() - CHUNK_SIZE_LEN - 2;
    if new.len() > room - len {
        return None;
    }
    bytes::copy_into(buf, CHUNK_SIZE_LEN + len, new);
    assert(pending_in(buf@, len + new@.len()) =~= before + new@);
    Some(len + new.len())
}

/// Takes one line, sending what is pending where there is no room behind it.
fn add_line(out: &mut Vec<u8>, buf: &mut Vec<u8>, len: usize, line: &[u8]) -> (r: Option<usize>)
    requires
        0 <= len <= chunk_room(old(buf)@.len() as int),
    ensures
        final(buf)@.len() == old(buf)@.len(),
        ({
            let before = Progress {
                sent: old(out)@,
                pending: pending_in(old(buf)@, len as int),
                failed: false,
            };
            let after = before.with_line(line@, chunk_room(old(buf)@.len() as int));
            &&& final(out)@ == after.sent
            &&& r is None == after.failed
            &&& r matches Some(n) ==> {
                &&& n <= chunk_room(old(buf)@.len() as int)
                &&& pending_in(final(buf)@, n as int) == after.pending
                &&& (Filling { buf: final(buf)@, len: n as int }) == (Filling {
                    buf: old(buf)@,
                    len: len as int,
                }).with_line(line@)
            }
        }),
{
    match put(buf, len, line) {
        Some(n) => Some(n),
        None => {
            if len == 0 {
                return None;
            }
            let free: usize = buf.len() - CHUNK_SIZE_LEN - 2 - len;
            let ghost pending = pending_in(buf@, len as int);
            bytes::copy_into(buf, CHUNK_SIZE_LEN + len, &line[0..free]);
            assert(line@.subrange(0, free as int) =~= line@.take(free as int));
            assert(pending_in(buf@, len as int) =~= pending);
            flush_chunk(out, buf, len);
            let r = put(buf, 0, line);
            assert(pending_in(buf@, line@.len() as int) =~= Seq::empty() + pending_in(
                buf@,
                line@.len() as int,
            ));
            r
        },
    }
}

/// Takes the lines of the directories, or those of the files, among some nodes.
fn add_lines(
    out: &mut Vec<u8>,
    buf: &mut Vec<u8>,
    len: usize,
    nodes: &[FsTreeNode<Entry>],
    dirs: bool,
) -> (r: Option<usize>)
    requires
        0 <= len <= chunk_room(old(buf)@.len() as int),
    ensures
        final(buf)@.len() == old(buf)@.len(),
        ({
            let before = Progress {
                sent: old(out)@,
                pending: pending_in(old(buf)@, len as int),
                failed: false,
            };
            let lines = if dirs {
                dir_lines(fstree::trees_of(nodes@))
            } else {
                file_lines(fstree::trees_of(nodes@))
            };
            let after = before.with_lines(lines, chunk_room(old(buf)@.len() as int));
            &&& final(out)@ == after.sent
            &&& r is None == after.failed
            &&& r matches Some(n) ==> {
                &&& n <= chunk_room(old(buf)@.len() as int)
                &&& pending_in(final(buf)@, n as int) == after.pending
                &&& (Filling { buf: final(buf)@, len: n as int }) == (Filling {
                    buf: old(buf)@,
                    len: len as int,
                }).with_lines(lines)
            }
        }),
{
    let ghost trees = fstree::trees_of(nodes@);
    let ghost filled = Filling { buf: buf@, len: len as int };
    let ghost room = chunk_room(buf@.len() as int);
    let ghost before = Progress {
        sent: out@,
        pending: pending_in(buf@, len as int),
        failed: false,
    };
    let mut at: usize = len;
    let mut i: usize = 0;
    assert(trees.take(0) =~= Seq::empty());
    while i < nodes.len()
        invariant
            i <= nodes@.len(),
            trees == fstree::trees_of(nodes@),
            room == chunk_room(buf@.len() as int),
            buf@.len() == old(buf)@.len(),
            0 <= at <= room,
            before == (Progress {
                sent: old(out)@,
                pending: pending_in(old(buf)@, len as int),
                failed: false,
            }),
            ({
                let lines = if dirs {
                    dir_lines(trees.take(i as int))
                } else {
                    file_lines(trees.take(i as int))
                };
                &&& before.with_lines(lines, room) == Progress {
                    sent: out@,
                    pending: pending_in(buf@, at as int),
                    failed: false,
                }
                &&& filled.with_lines(lines) == Filling { buf: buf@, len: at as int }
            }),
            filled == (Filling { buf: old(buf)@, len: len as int }),
        decreases nodes@.len() - i,
    {
        proof {
            assert(trees.take(i + 1).drop_last() =~= trees.take(i as int));
            assert(trees.take(i + 1).last() == nodes@[i as int]@);
        }
        let is_dir = match &nodes[i] {
            FsTreeNode::Dir { .. } => true,
            FsTreeNode::File { .. } => false,
        };
        if is_dir == dirs {
            let line = write_line(&nodes[i]);
            let ghost lines = if dirs {
                dir_lines(trees.take(i as int))
            } else {
                file_lines(trees.take(i as int))
            };
            assert(lines.push(line@).drop_last() =~= lines);
            match add_line(out, buf, at, line.as_slice()) {
                Some(n) => {
                    at = n;
                },
                None => {
                    proof {
                        lemma_failed_stays(trees, dirs, before, room, i + 1);
                    }
                    return None;
                },
            }
        }
        i += 1;
    }
    assert(trees.take(trees.len() as int) =~= trees);
    Some(at)
}

/// Once a line has failed, no later line changes anything.
proof fn lemma_failed_stays<E>(
    trees: Seq<Tree<E>>,
    dirs: bool,
    before: Progress,
    room: int,
    k: int,
)
    requires
        0 <= k <= trees.len(),
        ({
            let lines = if dirs {
                dir_lines(trees.take(k))
            } else {
                file_lines(trees.take(k))
            };
            before.with_lines(lines, room).failed
        }),
    ensures
        ({
            let some = if dirs {
                dir_lines(trees.take(k))
            } else {
                file_lines(trees.take(k))
            };
            let all = if dirs {
                dir_lines(trees)
            } else {
                file_lines(trees)
            };
            before.with_lines(all, room) == before.with_lines(some, room)
        }),
    decreases trees.len() - k,
{
    if k == trees.len() {
        assert(trees.take(k) =~= trees);
    } else {
        let d = trees.take(k);
        let e = trees.take(k + 1);
        assert(e.drop_last() =~= d);
        assert(dir_lines(d).push(dir_line(e.last().name())).drop_last() =~= dir_lines(d));
        assert(file_lines(d).push(file_line(e.last().name())).drop_last() =~= file_lines(d));
        lemma_failed_stays(trees, dirs, before, room, k + 1);
    }
}

/// Sends a listing in chunks, and tells whether there was room for every line.
pub fn write_listing(
    out: &mut Vec<u8>,
    buf: &mut Vec<u8>,
    preamble: &str,
    is_root: bool,
    nodes: &[FsTreeNode<Entry>],
) -> (r: bool)
    requires
        CHUNK_SIZE_LEN + 2 <= old(buf)@.len(),
    ensures
        final(buf)@.len() == old(buf)@.len(),
        ({
            let p = listing(
                old(out)@ + listing_head(),
                bytes::text(preamble@),
                is_root,
                fstree::trees_of(nodes@),
                chunk_room(old(buf)@.len() as int),
            );
            &&& r == !p.failed
            &&& final(out)@ == listing_output(p)
            &&& r ==> final(buf)@ == listing_buffer(
                old(buf)@,
                bytes::text(preamble@),
                is_root,
                fstree::trees_of(nodes@),
            )
        }),
{
    bytes::append(
        out,
        "HTTP/1.1 200 OK\r\nContent-Type: text/html; charset=utf-8\r\nTransfer-Encoding: chunked\r\n\r\n".as_bytes(),
    );
    let ghost trees = fstree::trees_of(nodes@);
    let ghost room = chunk_room(buf@.len() as int);
    let ghost start = pending_in(buf@, 0);
    assert(start =~= Seq::empty());
    let len = match put(buf, 0, preamble.as_bytes()) {
        Some(n) => n,
        None => return false,
    };
    assert(start + bytes::text(preamble@) =~= bytes::text(preamble@));
    let len = if is_root {
        len
    } else {
        match put(buf, len, "<li class=top><a href=\"..\">..</a>\n".as_bytes()) {
            Some(n) => n,
            None => return false,
        }
    };
    let len = match add_lines(out, buf, len, nodes, true) {
        Some(n) => n,
        None => {
            proof {
                lemma_failed_skips(
                    Progress {
                        sent: old(out)@ + listing_head(),
                        pending: if is_root {
                            bytes::text(preamble@)
                        } else {
                            bytes::text(preamble@) + parent_line()
                        },
                        failed: false,
                    }.with_lines(dir_lines(trees), room),
                    file_lines(trees),
                    room,
                );
            }
            return false
        },
    };
    let len = match add_lines(out, buf, len, nodes, false) {
        Some(n) => n,
        None => return false,
    };
    flush_chunk(out, buf, len);
    bytes::append(out, "0\r\n\r\n".as_bytes());
    true
}

proof fn lemma_failed_skips(p: Progress, lines: Seq<Seq<u8>>, room: int)
    requires
        p.failed,
    ensures
        p.with_lines(lines, room) == p,
    decreases lines.len(),
{
    if lines.len() > 0 {
        lemma_failed_skips(p, lines.drop_last(), room);
    }
}

} // verus!
