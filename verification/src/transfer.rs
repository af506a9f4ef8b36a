//! Sending the contents of an entry, piece by piece, as they are read from the archive.
use vstd::prelude::*;

use crate::bytes;
use crate::encoding;
use crate::entry::{Entry, Method};
use crate::outside;
use crate::stream::ResponseStream;
use crate::zip;
use crate::zip::Processed;

verus! {

/// A part of the archive that is to be read into the front of a buffer.
#[derive(Debug, Clone, Copy, PartialEq, Eq, Structural)]
pub struct ReadAt {
    pub offset: u64,
    pub len: usize,
}

/// How much of the archive is read to find where the data of an entry begins.
pub const HEADER_READ_LEN: usize = 1024;

/// What a gzip file begins with that holds deflated data and nothing else: no name, no time, no
/// known system.
pub open spec fn gzip_head() -> Seq<u8> {
    seq![0x1fu8, 0x8b, 0x08, 0x00, 0x00, 0x00, 0x00, 0x00, 0x00, 0xff]
}

/// What a gzip file ends with: the checksum, and the low bytes of the size.
pub open spec fn gzip_tail(entry: Entry) -> Seq<u8> {
    encoding::le_bytes(entry.crc32) + encoding::le_bytes(
        (entry.uncompressed_size % 0x1_0000_0000) as u32,
    )
}

/// What is sent before the compressed data of an entry.
pub open spec fn body_head(entry: Entry) -> Seq<u8> {
    if entry.method is Deflate {
        gzip_head()
    } else {
        Seq::empty()
    }
}

/// What is sent behind the compressed data of an entry.
pub open spec fn body_tail(entry: Entry) -> Seq<u8> {
    if entry.method is Deflate {
        gzip_tail(entry)
    } else {
        Seq::empty()
    }
}

/// How far a transfer of compressed data has come.
#[derive(Debug, Clone, Copy, PartialEq, Eq, Structural)]
pub enum Phase {
    /// The local header is to be read.
    Locate,
    /// The data is being read.
    Data,
}

/// Sends the data of an entry as it stands in the archive.
#[derive(Debug)]
pub struct CompressedTransfer {
    pub phase: Phase,
    /// Where the archive is read next.
    pub offset: u64,
    /// How much of the data has not been read yet.
    pub remaining: usize,
    /// What is sent behind the data.
    pub tail: Vec<u8>,
}

/// What a transfer of compressed data needs.
#[derive(Debug, Clone, Copy, PartialEq, Eq, Structural)]
pub enum Action {
    /// A part of the archive is to be read, and handed to `located`.
    ReadHeader(ReadAt),
    /// A part of the archive is to be read, and handed to `received`.
    ReadData(ReadAt),
    /// Nothing is left to be read; `finish` is to be called.
    Finish,
}

/// The smaller of two numbers.
pub open spec fn least(a: int, b: int) -> int {
    if a < b {
        a
    } else {
        b
    }
}

/// The part of the archive that is read from an offset on, where the reader has room for `space`
/// bytes and the buffer for `room`.
pub fn read_within(offset: u64, space: usize, room: usize) -> (r: ReadAt)
    ensures
        r.offset == offset,
        r.len == least(space as int, room as int),
{
    let len: usize = if space < room {
        space
    } else {
        room
    };
    ReadAt { offset, len }
}

impl CompressedTransfer {
    /// What is done next, with a buffer of a length.
    pub open spec fn action(self, buf_len: usize) -> Action {
        match self.phase {
            Phase::Locate => Action::ReadHeader(
                ReadAt { offset: self.offset, len: HEADER_READ_LEN },
            ),
            Phase::Data => if self.remaining == 0 {
                Action::Finish
            } else {
                Action::ReadData(
                    ReadAt {
                        offset: self.offset,
                        len: least(self.remaining as int, buf_len as int) as usize,
                    },
                )
            },
        }
    }

    /// How the transfer goes on once the beginning of the data is known.
    pub open spec fn at_data(self, offset: u64) -> CompressedTransfer {
        CompressedTransfer { phase: Phase::Data, offset, ..self }
    }

    /// How the transfer goes on once some of the data has been read.
    pub open spec fn after(self, n: int) -> CompressedTransfer {
        CompressedTransfer {
            offset: (self.offset + n) as u64,
            remaining: (self.remaining - n) as usize,
            ..self
        }
    }

    /// Begins the transfer of an entry, and sends what comes before its data.
    pub fn start(entry: &Entry, stream: &mut ResponseStream) -> (r: Self)
        requires
            entry.compressed_size <= usize::MAX,
        ensures
            r.phase is Locate,
            r.offset == entry.header_offset,
            r.remaining == entry.compressed_size,
            r.tail@ == body_tail(*entry),
            final(stream).out@ == old(stream).out@ + body_head(*entry),
            final(stream).buf == old(stream).buf,
    {
        let mut tail: Vec<u8> = Vec::new();
        if let Method::Deflate = entry.method {
            let head = [0x1fu8, 0x8b, 0x08, 0x00, 0x00, 0x00, 0x00, 0x00, 0x00, 0xff];
            assert(head@ =~= gzip_head());
            bytes::append(&mut stream.out, &head);
            let crc = encoding::to_le_bytes(entry.crc32);
            let size = encoding::to_le_bytes((entry.uncompressed_size % 0x1_0000_0000) as u32);
            bytes::append(&mut tail, &crc);
            bytes::append(&mut tail, &size);
            assert(tail@ =~= gzip_tail(*entry));
        } else {
            assert(stream.out@ =~= old(stream).out@ + body_head(*entry));
            assert(tail@ =~= body_tail(*entry));
        }
        CompressedTransfer {
            phase: Phase::Locate,
            offset: entry.header_offset,
            remaining: entry.compressed_size as usize,
            tail,
        }
    }

    /// What is to be done next.
    pub fn next_action(&self, stream: &ResponseStream) -> (r: Action)
        ensures
            r == self.action(stream.buf@.len() as usize),
    {
        match self.phase {
            Phase::Locate => Action::ReadHeader(
                ReadAt { offset: self.offset, len: HEADER_READ_LEN },
            ),
            Phase::Data => {
                if self.remaining == 0 {
                    Action::Finish
                } else {
                    Action::ReadData(read_within(self.offset, self.remaining, stream.buf.len()))
                }
            },
        }
    }

    /// Takes the local header, which has been read into the buffer of the connection, and tells
    /// whether it was whole.
    pub fn located(&mut self, stream: &ResponseStream) -> (r: bool)
        requires
            old(self).phase is Locate,
            zip::data_offset(old(self).offset, stream.buf@) matches Some(offset) ==> offset
                <= u64::MAX,
        ensures
            match zip::data_offset(old(self).offset, stream.buf@) {
                Some(offset) => r && *final(self) == old(self).at_data(offset as u64),
                None => !r && *final(self) == *old(self),
            },
    {
        match zip::find_entry_compressed_data(self.offset, stream.buf.as_slice()) {
            Some(offset) => {
                self.phase = Phase::Data;
                self.offset = offset;
                true
            },
            None => false,
        }
    }

    /// Sends the data that has been read into the buffer of the connection.
    pub fn received(&mut self, stream: &mut ResponseStream, n: usize)
        requires
            old(self).phase is Data,
            n <= old(self).remaining,
            n <= old(stream).buf@.len(),
            old(self).offset + n <= u64::MAX,
        ensures
            *final(self) == old(self).after(n as int),
            final(stream).out@ == old(stream).out@ + old(stream).buf@.take(n as int),
            final(stream).buf == old(stream).buf,
    {
        self.offset = self.offset + n as u64;
        self.remaining = self.remaining - n;
        bytes::append(&mut stream.out, &stream.buf.as_slice()[0..n]);
        assert(stream.buf@.subrange(0, n as int) =~= stream.buf@.take(n as int));
    }

    /// Sends what comes behind the data, from the front of the buffer of the connection.
    pub fn finish(self, stream: &mut ResponseStream)
        requires
            self.tail@.len() <= old(stream).buf@.len(),
        ensures
            final(stream).out@ == old(stream).out@ + self.tail@,
            final(stream).buf@ == bytes::overwrite(old(stream).buf@, 0, self.tail@),
    {
        let n: usize = self.tail.len();
        bytes::copy_into(&mut stream.buf, 0, self.tail.as_slice());
        assert(stream.buf@.subrange(0, n as int) =~= self.tail@);
        bytes::append(&mut stream.out, &stream.buf.as_slice()[0..n]);
    }
}

/// Sends the contents of an entry, decoded.
pub struct DecompressedTransfer {
    pub fsm: rc_zip::fsm::EntryFsm,
    /// Where the archive is read next.
    pub offset: u64,
}

/// What came of a step of decoding.
pub enum Decoded {
    /// As many bytes were put into the buffer, and there is more to do.
    More(DecompressedTransfer, usize),
    /// The whole entry was decoded.
    Done,
    /// The entry cannot be decoded.
    Failed(rc_zip::error::Error),
}

/// A decoding of an entry: what has been done with the decoder, and where the archive is read
/// next.
pub struct Decoding {
    pub history: Seq<zip::FsmEvent>,
    pub offset: int,
}

impl Decoding {
    /// The decoding of an entry at its beginning.
    pub open spec fn of(entry: Entry) -> Decoding {
        Decoding { history: Seq::empty(), offset: entry.header_offset as int }
    }

    /// Whether the decoder asks for data.
    pub open spec fn wants_read(self) -> bool {
        outside::fsm_wants_read(self.history)
    }

    /// How much data the decoder has room for.
    pub open spec fn space(self) -> nat {
        outside::fsm_space(self.history)
    }

    /// What the decoder does with an output buffer of a length.
    pub open spec fn step(self, out_len: nat) -> zip::FsmStep {
        outside::fsm_step(self.history, out_len)
    }

    /// Once the decoder has been asked for room.
    pub open spec fn asked(self) -> Decoding {
        Decoding { history: self.history.push(zip::FsmEvent::SpaceAsked), ..self }
    }

    /// Once the decoder has been given data.
    pub open spec fn fed(self, data: Seq<u8>) -> Decoding {
        Decoding {
            history: self.history.push(zip::FsmEvent::Fed(data)),
            offset: self.offset + data.len(),
        }
    }

    /// Once the decoder has been given an output buffer of a length.
    pub open spec fn processed(self, out_len: nat) -> Decoding {
        Decoding { history: self.history.push(zip::FsmEvent::Processed(out_len)), ..self }
    }
}

impl View for DecompressedTransfer {
    type V = Decoding;

    open spec fn view(&self) -> Decoding {
        Decoding { history: outside::fsm_history(self.fsm), offset: self.offset as int }
    }
}

impl DecompressedTransfer {
    /// Begins the transfer of an entry.
    pub fn start(entry: &Entry) -> (r: Self)
        ensures
            r@ == Decoding::of(*entry),
    {
        DecompressedTransfer { fsm: outside::new_fsm(), offset: entry.header_offset }
    }

    /// The part of the archive that is to be read next, where the decoder asks for data: as much
    /// as it and the buffer of the connection have room for.
    pub fn next_read(&mut self, stream: &ResponseStream) -> (r: Option<ReadAt>)
        ensures
            match r {
                Some(read) => {
                    &&& old(self)@.wants_read()
                    &&& read.offset == old(self)@.offset
                    &&& read.len == least(
                        old(self)@.space() as int,
                        stream.buf@.len() as int,
                    )
                    &&& final(self)@ == old(self)@.asked()
                    &&& final(self)@.space() == old(self)@.space()
                },
                None => !old(self)@.wants_read() && *final(self) == *old(self),
            },
    {
        if !self.fsm.wants_read() {
            return None;
        }
        let space: usize = outside::space_len(&mut self.fsm);
        Some(read_within(self.offset, space, stream.buf.len()))
    }

    /// Takes data that has been read from the archive, and tells whether the decoder had room
    /// for it.
    pub fn received(&mut self, data: &[u8]) -> (r: bool)
        requires
            old(self).offset + data@.len() <= u64::MAX,
        ensures
            r == (data@.len() <= old(self)@.space()),
            final(self)@ == if r {
                old(self)@.asked().fed(data@)
            } else {
                old(self)@.asked()
            },
    {
        let space: usize = outside::space_len(&mut self.fsm);
        if data.len() > space {
            return false;
        }
        outside::feed(&mut self.fsm, data);
        self.offset = self.offset + data.len() as u64;
        true
    }

    /// Decodes some of the data, and sends what comes of it.
    pub fn process(self, stream: &mut ResponseStream) -> (r: Decoded)
        ensures
            final(stream).buf@.len() == old(stream).buf@.len(),
            match self@.step(old(stream).buf@.len()) {
                zip::FsmStep::Continue { output } => {
                    &&& r matches Decoded::More(next, written)
                    &&& written == output.len()
                    &&& next@ == self@.processed(old(stream).buf@.len())
                    &&& final(stream).out@ == old(stream).out@ + output
                    &&& output.len() <= final(stream).buf@.len()
                    &&& final(stream).buf@.take(output.len() as int) == output
                },
                zip::FsmStep::Done => r is Done && final(stream).out@ == old(stream).out@,
                zip::FsmStep::Failed => r is Failed && final(stream).out@ == old(stream).out@,
            },
    {
        let processed = outside::process(self.fsm, stream.buf.as_mut_slice());
        DecompressedTransfer::send_processed(processed, self.offset, stream)
    }

    /// Sends what a decoder has put into the buffer of the connection.
    pub fn send_processed(
        processed: Processed,
        offset: u64,
        stream: &mut ResponseStream,
    ) -> (r: Decoded)
        requires
            processed matches Processed::Continue(_, written) ==> written <= old(
                stream,
            ).buf@.len(),
        ensures
            final(stream).buf == old(stream).buf,
            match processed {
                Processed::Continue(fsm, written) => {
                    &&& r == Decoded::More(DecompressedTransfer { fsm, offset }, written)
                    &&& final(stream).out@ == old(stream).out@ + old(stream).buf@.take(
                        written as int,
                    )
                },
                Processed::Done => r is Done && final(stream).out@ == old(stream).out@,
                Processed::Failed(error) => r == Decoded::Failed(error) && final(stream).out@
                    == old(stream).out@,
            },
    {
        match processed {
            Processed::Continue(fsm, written) => {
                bytes::append(&mut stream.out, &stream.buf.as_slice()[0..written]);
                assert(stream.buf@.subrange(0, written as int) =~= stream.buf@.take(
                    written as int,
                ));
                Decoded::More(DecompressedTransfer { fsm, offset }, written)
            },
            Processed::Done => Decoded::Done,
            Processed::Failed(error) => Decoded::Failed(error),
        }
    }
}

} // verus!
