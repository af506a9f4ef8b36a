//! Answering requests.
use vstd::prelude::*;

use crate::bytes;
use crate::encoding;
use crate::entry::Entry;
use crate::fstree::FsTreeNode;
use crate::outside;
use crate::request;
use crate::request::Request;
use crate::status::HttpStatus;
use crate::stream;
use crate::stream::{BufferFull, ResponseStream, Transfer, NOT_MODIFIED_LEN};
use crate::tree::Tree;

verus! {

/// The number that is read from the entity tag of an entry.
pub open spec fn tag_value(crc32: u32) -> u32 {
    request::big_endian(encoding::le_bytes(crc32)) as u32
}

/// What a path leads to; a path that is not UTF-8 leads nowhere.
pub open spec fn lookup(tree: Tree<Entry>, path: Seq<u8>) -> Option<Tree<Entry>> {
    if vstd::utf8::valid_utf8(path) {
        tree.find(path)
    } else {
        None
    }
}

/// Whether a client that holds a copy with a tag holds the entry of a node.
pub open spec fn up_to_date(node: Tree<Entry>, if_none_match: Option<u32>) -> bool {
    match node.entry() {
        Some(entry) => if_none_match == Some(tag_value(entry.crc32)),
        None => false,
    }
}

/// A response, and what is left to be sent behind it.
pub struct Response {
    pub stream: ResponseStream,
    pub left: Result<Transfer, BufferFull>,
}

/// Whether a request can be answered.
pub open spec fn answerable(request: Request, tree: Tree<Entry>) -> bool {
    match request {
        Request::Get { path, headers } => {
            &&& vstd::utf8::valid_utf8(path.part()) ==> tree.findable(path.part())
            &&& match lookup(tree, path.part()) {
                Some(node) => if up_to_date(node, headers.if_none_match) {
                    NOT_MODIFIED_LEN <= path.buf@.len()
                } else {
                    stream::servable(node, headers.accepted_encodings, path.buf@.len() as int)
                },
                None => true,
            }
        },
        Request::Bad { .. } => true,
    }
}

/// Whether a response is that to a request.
pub open spec fn answers(
    request: Request,
    tree: Tree<Entry>,
    preamble: Seq<u8>,
    response: Response,
) -> bool {
    match request {
        Request::Get { path, headers } => {
            &&& response.stream.buf@.len() == path.buf@.len()
            &&& match lookup(tree, path.part()) {
                Some(node) => if up_to_date(node, headers.if_none_match) {
                    let sent = stream::not_modified_response(node.entry()->0.crc32);
                    &&& response.stream.out@ == sent
                    &&& response.stream.buf@ == bytes::overwrite(path.buf@, 0, sent)
                    &&& response.left matches Ok(Transfer::Finished)
                } else {
                    &&& stream::leaves_buffer(
                        node,
                        headers.accepted_encodings,
                        preamble,
                        Seq::empty(),
                        path.buf@,
                        response.stream.buf@,
                    )
                    &&& stream::serves(
                        node,
                        headers.accepted_encodings,
                        preamble,
                        path.buf@.len() as int,
                        Seq::empty(),
                        response.stream.out@,
                        response.left,
                    )
                },
                None => {
                    &&& response.stream.buf == path.buf
                    &&& response.stream.out@ == stream::status_response(
                        HttpStatus::NotFound.text(),
                    )
                    &&& response.left matches Ok(Transfer::Finished)
                },
            }
        },
        Request::Bad { status, buf } => {
            &&& response.stream.buf == buf
            &&& response.stream.out@ == stream::status_response(status.text())
            &&& response.left matches Ok(Transfer::Finished)
        },
    }
}

/// The number that is read from the entity tag of an entry.
fn entry_tag(crc32: u32) -> (r: u32)
    ensures
        r == tag_value(crc32),
{
    request::from_be_bytes(encoding::to_le_bytes(crc32))
}

fn is_up_to_date(node: &FsTreeNode<Entry>, if_none_match: Option<u32>) -> (r: Option<u32>)
    ensures
        match r {
            Some(crc32) => up_to_date(node@, if_none_match) && crc32 == node@.entry()->0.crc32,
            None => !up_to_date(node@, if_none_match),
        },
{
    match (if_none_match, node.entry()) {
        (Some(tag), Some(entry)) => if entry_tag(entry.crc32) == tag {
            Some(entry.crc32)
        } else {
            None
        },
        _ => None,
    }
}

/// What a path leads to.
fn look_up<'a>(tree: &'a FsTreeNode<Entry>, path: &[u8]) -> (r: Option<&'a FsTreeNode<Entry>>)
    requires
        vstd::utf8::valid_utf8(path@) ==> tree@.findable(path@),
    ensures
        match r {
            Some(node) => lookup(tree@, path@) == Some(node@),
            None => lookup(tree@, path@) is None,
        },
{
    match outside::from_utf8(path) {
        Some(path) => tree.find(path),
        None => None,
    }
}

/// Answers a request, as far as that does not need the archive.
///
/// `preamble` is what a directory listing begins with.
pub fn respond(request: Request, tree: &FsTreeNode<Entry>, preamble: &str) -> (r: Response)
    requires
        request.wf(),
        answerable(request, tree@),
    ensures
        answers(request, tree@, bytes::text(preamble@), r),
{
    match request {
        Request::Get { path, headers } => {
            let node = look_up(tree, path.as_slice());
            let mut s = ResponseStream::new(path.into_inner());
            match node {
                None => {
                    s.serve_status(HttpStatus::NotFound);
                    assert(s.out@ =~= stream::status_response(HttpStatus::NotFound.text()));
                    Response { stream: s, left: Ok(Transfer::Finished) }
                },
                Some(node) => {
                    if let Some(crc32) = is_up_to_date(node, headers.if_none_match) {
                        s.serve_not_modified(crc32);
                        assert(s.out@ =~= stream::not_modified_response(crc32));
                        Response { stream: s, left: Ok(Transfer::Finished) }
                    } else {
                        let left = s.serve_node(preamble, node, headers.accepted_encodings);
                        Response { stream: s, left }
                    }
                },
            }
        },
        Request::Bad { status, buf } => {
            let mut s = ResponseStream::new(buf);
            s.serve_status(status);
            assert(s.out@ =~= stream::status_response(status.text()));
            Response { stream: s, left: Ok(Transfer::Finished) }
        },
    }
}

/// Whether a request can be answered.
pub fn can_respond(request: &Request, tree: &FsTreeNode<Entry>) -> (r: bool)
    requires
        request.wf(),
    ensures
        r == answerable(*request, tree@),
{
    match request {
        Request::Get { path, headers } => {
            let node = match outside::from_utf8(path.as_slice()) {
                Some(name) => {
                    if !tree.can_find(name) {
                        return false;
                    }
                    tree.find(name)
                },
                None => None,
            };
            match node {
                Some(node) => {
                    if is_up_to_date(node, headers.if_none_match).is_some() {
                        path.buf.len() >= NOT_MODIFIED_LEN
                    } else {
                        stream::can_serve(node, headers.accepted_encodings, path.buf.len())
                    }
                },
                None => true,
            }
        },
        Request::Bad { .. } => true,
    }
}

} // verus!
