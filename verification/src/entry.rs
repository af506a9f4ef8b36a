//! Archive entries.
use vstd::prelude::*;

use crate::bytes;

verus! {

/// How an entry is compressed.
#[derive(Clone, Copy, Debug, PartialEq, Eq, Structural)]
pub enum Method {
    Store,
    Deflate,
    Deflate64,
    Bzip2,
    Lzma,
    Zstd,
    Mp3,
    Xz,
    Jpeg,
    WavPack,
    Ppmd,
    Aex,
    /// A method without a name, with its number in the archive.
    Unrecognized(u16),
}

impl Method {
    /// Whether there is a decoder for the method.
    pub open spec fn supported(self) -> bool {
        self is Store || self is Deflate || self is Deflate64 || self is Bzip2 || self is Lzma
            || self is Zstd
    }
}

/// The method of a number in an archive.
pub open spec fn method_of(number: u16) -> Method {
    if number == 0 {
        Method::Store
    } else if number == 8 {
        Method::Deflate
    } else if number == 9 {
        Method::Deflate64
    } else if number == 12 {
        Method::Bzip2
    } else if number == 14 {
        Method::Lzma
    } else if number == 93 {
        Method::Zstd
    } else if number == 94 {
        Method::Mp3
    } else if number == 95 {
        Method::Xz
    } else if number == 96 {
        Method::Jpeg
    } else if number == 97 {
        Method::WavPack
    } else if number == 98 {
        Method::Ppmd
    } else if number == 99 {
        Method::Aex
    } else {
        Method::Unrecognized(number)
    }
}

/// The method of a number in an archive.
pub fn method_from_number(number: u16) -> (r: Method)
    ensures
        r == method_of(number),
{
    match number {
        0 => Method::Store,
        8 => Method::Deflate,
        9 => Method::Deflate64,
        12 => Method::Bzip2,
        14 => Method::Lzma,
        93 => Method::Zstd,
        94 => Method::Mp3,
        95 => Method::Xz,
        96 => Method::Jpeg,
        97 => Method::WavPack,
        98 => Method::Ppmd,
        99 => Method::Aex,
        _ => Method::Unrecognized(number),
    }
}

/// Whether there is a decoder for a method.
pub fn is_method_supported(method: Method) -> (r: bool)
    ensures
        r == method.supported(),
{
    match method {
        Method::Store => true,
        Method::Deflate => true,
        Method::Zstd => true,
        Method::Deflate64 => true,
        Method::Bzip2 => true,
        Method::Lzma => true,
        _ => false,
    }
}

/// What the server reads of an archive entry.
#[derive(Debug)]
pub struct Entry {
    /// Path within the archive; that of a directory ends in a slash.
    pub name: String,
    pub method: Method,
    /// Offset of the local file header in the archive.
    pub header_offset: u64,
    pub crc32: u32,
    pub compressed_size: u64,
    pub uncompressed_size: u64,
}

/// An archive entry, with its name as UTF-8 bytes.
pub struct EntryView {
    pub name: Seq<u8>,
    pub method: Method,
    pub header_offset: u64,
    pub crc32: u32,
    pub compressed_size: u64,
    pub uncompressed_size: u64,
}

impl View for Entry {
    type V = EntryView;

    open spec fn view(&self) -> EntryView {
        EntryView {
            name: bytes::text(self.name@),
            method: self.method,
            header_offset: self.header_offset,
            crc32: self.crc32,
            compressed_size: self.compressed_size,
            uncompressed_size: self.uncompressed_size,
        }
    }
}

/// The views of entries.
pub open spec fn entry_views(entries: Seq<Entry>) -> Seq<EntryView> {
    entries.map_values(|e: Entry| e@)
}

} // verus!
