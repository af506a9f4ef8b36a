//! The data of an entry in an archive: where it stands, and what its decoder does.
use vstd::prelude::*;

use crate::outside;

verus! {

/// The number in two bytes from an index on, the least significant first.
pub open spec fn le_u16(s: Seq<u8>, at: int) -> int {
    s[at] + 256 * s[at + 1]
}

/// The lengths of the name and of the extra field in the local header at the front of a buffer,
/// where it holds one whole.
///
/// Behind the header of an LZMA entry stand four bytes of properties: the version, of which 2.0
/// is known, and the size of what follows, which is 5.
pub open spec fn local_header(s: Seq<u8>) -> Option<(int, int)> {
    if s.len() >= 30 && s.subrange(0, 4) == seq![0x50u8, 0x4b, 0x03, 0x04] {
        let name_len = le_u16(s, 26);
        let extra_len = le_u16(s, 28);
        let end = 30 + name_len + extra_len;
        if s.len() < end {
            None
        } else if le_u16(s, 8) != 14 {
            Some((name_len, extra_len))
        } else if s.len() >= end + 4 && s[end] == 2 && s[end + 1] == 0 && le_u16(s, end + 2)
            == 5 {
            Some((name_len, extra_len))
        } else {
            None
        }
    } else {
        None
    }
}

/// Where the data of an entry begins, where its local header is whole.
pub open spec fn data_offset(header_offset: u64, s: Seq<u8>) -> Option<int> {
    match local_header(s) {
        Some((name_len, extra_len)) => Some(header_offset + 30 + name_len + extra_len),
        None => None,
    }
}

/// Where the data of an entry begins. `buf` holds what stands in the archive from the local
/// header on.
pub fn find_entry_compressed_data(header_offset: u64, buf: &[u8]) -> (r: Option<u64>)
    requires
        data_offset(header_offset, buf@) matches Some(offset) ==> offset <= u64::MAX,
    ensures
        match r {
            Some(offset) => data_offset(header_offset, buf@) == Some(offset as int),
            None => data_offset(header_offset, buf@) is None,
        },
{
    match outside::parse_local_header(buf) {
        Some((name_len, extra_len)) => Some(header_offset + 30 + name_len as u64 + extra_len as u64),
        None => None,
    }
}

/// Something done with a decoder.
pub enum FsmEvent {
    /// It was asked for room for data.
    SpaceAsked,
    /// It was given data.
    Fed(Seq<u8>),
    /// It was given an output buffer of a length.
    Processed(nat),
}

/// What a decoder does with an output buffer.
pub enum FsmStep {
    /// It puts out some bytes, and there is more to do.
    Continue { output: Seq<u8> },
    /// The whole entry was decoded, and its checksum is right.
    Done,
    /// The data cannot be decoded.
    Failed,
}

/// What a decoder did with an output buffer.
pub enum Processed {
    /// It wrote as many bytes, and is to be used further.
    Continue(rc_zip::fsm::EntryFsm, usize),
    /// It came to the end of the entry.
    Done,
    /// It failed.
    Failed(rc_zip::error::Error),
}

} // verus!
