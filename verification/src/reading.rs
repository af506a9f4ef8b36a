//! Reading the directory of an archive.
use vstd::prelude::*;

use crate::bytes;
use crate::entry;
use crate::entry::{Entry, EntryView};
use crate::outside;
use crate::transfer;
use crate::transfer::{read_within, ReadAt};

verus! {

/// Something done with a reader.
pub enum ArchiveEvent {
    /// It was asked for room for data.
    SpaceAsked,
    /// It was given data.
    Fed(Seq<u8>),
    /// It was made to work on its data.
    Processed,
}

/// What a reader makes of its data.
pub enum ArchiveStep {
    /// There is more to read.
    Continue,
    /// The whole directory was read, and lists these entries.
    Done(Seq<ListedView>),
    /// There is no directory, or it cannot be read.
    Failed,
}

/// An entry as the directory of an archive lists it.
#[derive(Debug)]
pub struct ListedEntry {
    pub name: String,
    /// The number of the compression method.
    pub method: u16,
    pub header_offset: u64,
    pub crc32: u32,
    pub compressed_size: u64,
    pub uncompressed_size: u64,
}

/// A listed entry, with its name as UTF-8 bytes.
pub struct ListedView {
    pub name: Seq<u8>,
    pub method: u16,
    pub header_offset: u64,
    pub crc32: u32,
    pub compressed_size: u64,
    pub uncompressed_size: u64,
}

impl View for ListedEntry {
    type V = ListedView;

    open spec fn view(&self) -> ListedView {
        ListedView {
            name: bytes::text(self.name@),
            method: self.method,
            header_offset: self.header_offset,
            crc32: self.crc32,
            compressed_size: self.compressed_size,
            uncompressed_size: self.uncompressed_size,
        }
    }
}

/// The views of listed entries.
pub open spec fn listed_views(listed: Seq<ListedEntry>) -> Seq<ListedView> {
    listed.map_values(|l: ListedEntry| l@)
}

impl ListedView {
    /// The entry that is listed.
    pub open spec fn entry(self) -> EntryView {
        EntryView {
            name: self.name,
            method: entry::method_of(self.method),
            header_offset: self.header_offset,
            crc32: self.crc32,
            compressed_size: self.compressed_size,
            uncompressed_size: self.uncompressed_size,
        }
    }
}

/// The entries that are listed.
pub open spec fn entries_listed(listed: Seq<ListedView>) -> Seq<EntryView> {
    listed.map_values(|l: ListedView| l.entry())
}

/// What a reader did with its data.
pub enum ArchiveProcessed {
    /// It is to be used further.
    Continue(rc_zip::fsm::ArchiveFsm),
    /// It came to the end of the directory.
    Done(Vec<ListedEntry>),
    /// It failed.
    Failed(rc_zip::error::Error),
}

/// The number in eight bytes from an index on, the least significant first.
pub open spec fn le_u64(s: Seq<u8>, at: int) -> int {
    s[at] + 0x100 * s[at + 1] + 0x1_0000 * s[at + 2] + 0x100_0000 * s[at + 3] + 0x1_0000_0000 * s[at
        + 4] + 0x100_0000_0000 * s[at + 5] + 0x1_0000_0000_0000 * s[at + 6]
        + 0x100_0000_0000_0000 * s[at + 7]
}

/// The length of the fixed part of a ZIP64 end record.
pub const END64_LEN: usize = 56;

/// Whether the difference between where the directory of an archive is and where its ZIP64 end
/// record says that it is, is out of the range of a signed number of 64 bits.
///
/// `s` is what stands in the archive from `offset` on. The directory ends there, and the record
/// holds its size and its offset, which counts as a signed number too.
pub open spec fn end64_out_of_range(size: u64, offset: u64, s: Seq<u8>) -> bool {
    let directory_size = le_u64(s, 40);
    let directory_offset = le_u64(s, 48);
    &&& s.len() >= END64_LEN
    &&& s.subrange(0, 4) == seq![0x50u8, 0x4b, 0x06, 0x06]
    &&& directory_size <= offset
    &&& offset - directory_size < size
    &&& directory_offset > i64::MAX
    &&& offset - directory_size - (directory_offset - 0x1_0000_0000_0000_0000) > i64::MAX
}

/// The length of the locator of a ZIP64 end record.
pub const LOCATOR_LEN: usize = 20;

/// How much of the end of an archive is looked through for its end record.
pub const HAYSTACK_LEN: u64 = 66560;

/// Where the ZIP64 end record is that a locator leads to, where there is a locator.
pub open spec fn located_end64(s: Seq<u8>) -> Option<u64> {
    if s.len() >= LOCATOR_LEN && s.subrange(0, 4) == seq![0x50u8, 0x4b, 0x06, 0x07] {
        Some(le_u64(s, 8) as u64)
    } else {
        None
    }
}

/// How far a reader has come.
pub enum Stage {
    /// It looks for the end record, and so much of the end of the archive is missing.
    Haystack { missing: nat },
    /// It was given this of what may be the locator of a ZIP64 end record.
    Locator { given: Seq<u8> },
    /// It was given this of the ZIP64 end record, which is at an offset.
    Record { offset: u64, given: Seq<u8> },
    /// It reads the directory.
    Directory,
}

impl Stage {
    /// How far a reader has come at its beginning.
    pub open spec fn first(size: u64) -> Stage {
        Stage::Haystack {
            missing: if size < HAYSTACK_LEN {
                size as nat
            } else {
                HAYSTACK_LEN as nat
            },
        }
    }

    /// How far it has come once it was given data.
    pub open spec fn fed(self, data: Seq<u8>) -> Stage {
        match self {
            Stage::Haystack { missing } => Stage::Haystack {
                missing: if data.len() < missing {
                    (missing - data.len()) as nat
                } else {
                    0
                },
            },
            Stage::Locator { given } => Stage::Locator { given: given + data },
            Stage::Record { offset, given } => Stage::Record { offset, given: given + data },
            Stage::Directory => Stage::Directory,
        }
    }

    /// How far it has come once it has worked on its data.
    pub open spec fn processed(self) -> Stage {
        match self {
            Stage::Haystack { missing } => if missing == 0 {
                Stage::Locator { given: Seq::empty() }
            } else {
                self
            },
            Stage::Locator { given } => if given.len() < LOCATOR_LEN {
                self
            } else {
                match located_end64(given) {
                    Some(offset) => Stage::Record { offset, given: Seq::empty() },
                    None => Stage::Directory,
                }
            },
            Stage::Record { given, .. } => if given.len() < END64_LEN {
                self
            } else {
                Stage::Directory
            },
            Stage::Directory => Stage::Directory,
        }
    }

    /// How far it has come after an event.
    pub open spec fn after(self, event: ArchiveEvent) -> Stage {
        match event {
            ArchiveEvent::SpaceAsked => self,
            ArchiveEvent::Fed(data) => self.fed(data),
            ArchiveEvent::Processed => self.processed(),
        }
    }
}

/// How far a reader has come. One that finds no locator reads the directory; that is told here
/// once it was given as much as a locator is long.
pub open spec fn stage(size: u64, h: Seq<ArchiveEvent>) -> Stage
    decreases h.len(),
{
    if h.len() == 0 {
        Stage::first(size)
    } else {
        stage(size, h.drop_last()).after(h.last())
    }
}

/// Whether a reader does not have before it a ZIP64 end record that would put its numbers out of
/// range.
pub open spec fn in_range(size: u64, h: Seq<ArchiveEvent>) -> bool {
    stage(size, h) matches Stage::Record { offset, given } ==> !end64_out_of_range(
        size,
        offset,
        given,
    )
}

/// A reading of the directory of an archive: its size, and what has been done with the reader.
pub struct ArchiveRun {
    pub size: u64,
    pub history: Seq<ArchiveEvent>,
}

impl ArchiveRun {
    /// Where data is asked for.
    pub open spec fn offset(self) -> Option<u64> {
        outside::archive_offset(self.size, self.history)
    }

    /// How much data there is room for.
    pub open spec fn space(self) -> nat {
        outside::archive_space(self.size, self.history)
    }

    /// What comes of working on the data.
    pub open spec fn step(self) -> ArchiveStep {
        outside::archive_step(self.size, self.history)
    }

    /// With one event more.
    pub open spec fn and(self, event: ArchiveEvent) -> ArchiveRun {
        ArchiveRun { history: self.history.push(event), ..self }
    }
}

/// How far a reader has come, kept beside it.
#[derive(Debug)]
pub enum Progress {
    Haystack { missing: u64 },
    Locator { given: Vec<u8> },
    Record { offset: u64, given: Vec<u8> },
    Directory,
}

impl View for Progress {
    type V = Stage;

    open spec fn view(&self) -> Stage {
        match *self {
            Progress::Haystack { missing } => Stage::Haystack { missing: missing as nat },
            Progress::Locator { given } => Stage::Locator { given: given@ },
            Progress::Record { offset, given } => Stage::Record { offset, given: given@ },
            Progress::Directory => Stage::Directory,
        }
    }
}

/// Reads the directory of an archive, as its parts are handed to it.
pub struct ArchiveReading {
    pub fsm: rc_zip::fsm::ArchiveFsm,
    pub size: u64,
    pub progress: Progress,
}

impl View for ArchiveReading {
    type V = ArchiveRun;

    open spec fn view(&self) -> ArchiveRun {
        ArchiveRun { size: self.size, history: outside::archive_history(self.fsm) }
    }
}

/// What came of a step of reading.
pub enum ArchiveRead {
    /// There is more to read.
    More(ArchiveReading),
    /// The archive has these entries.
    Done(Vec<Entry>),
    /// There is no directory, or it cannot be read.
    Failed(rc_zip::error::Error),
    /// An end record names an offset that is out of range.
    OutOfRange,
}

/// One event more.
proof fn lemma_stage_push(size: u64, h: Seq<ArchiveEvent>, e: ArchiveEvent)
    ensures
        stage(size, h.push(e)) == stage(size, h).after(e),
{
    assert(h.push(e).drop_last() =~= h);
}

/// The number in eight bytes from an index on, the least significant first.
fn read_le_u64(s: &[u8], at: usize) -> (r: u64)
    requires
        at + 8 <= s@.len(),
    ensures
        r == le_u64(s@, at as int),
{
    let low: u64 = s[at] as u64 + 0x100 * (s[at + 1] as u64) + 0x1_0000 * (s[at + 2] as u64)
        + 0x100_0000 * (s[at + 3] as u64);
    let high: u64 = s[at + 4] as u64 + 0x100 * (s[at + 5] as u64) + 0x1_0000 * (s[at + 6] as u64)
        + 0x100_0000 * (s[at + 7] as u64);
    low + 0x1_0000_0000 * high
}

/// Whether an end record would put the reader's numbers out of range.
pub fn is_end64_out_of_range(size: u64, offset: u64, s: &[u8]) -> (r: bool)
    requires
        size <= i64::MAX,
    ensures
        r == end64_out_of_range(size, offset, s@),
{
    if s.len() < END64_LEN {
        return false;
    }
    if !has_signature(s, 0x06, 0x06) {
        return false;
    }
    let directory_size = read_le_u64(s, 40);
    let directory_offset = read_le_u64(s, 48);
    if directory_size > offset {
        return false;
    }
    let directory: u64 = offset - directory_size;
    let most: u64 = i64::MAX as u64;
    directory < size && directory_offset > most && directory + (u64::MAX - directory_offset)
        >= most
}

/// The entries that are listed.
pub fn listed_entries(listed: Vec<ListedEntry>) -> (r: Vec<Entry>)
    ensures
        entry::entry_views(r@) == entries_listed(listed_views(listed@)),
{
    let ghost all = listed@;
    let mut r: Vec<Entry> = Vec::new();
    for l in it: listed
        invariant
            it.seq() == all,
            r@.len() == it.index(),
            forall|i: int| 0 <= i < r@.len() ==> (#[trigger] r@[i])@ == all[i]@.entry(),
    {
        r.push(
            Entry {
                name: l.name,
                method: entry::method_from_number(l.method),
                header_offset: l.header_offset,
                crc32: l.crc32,
                compressed_size: l.compressed_size,
                uncompressed_size: l.uncompressed_size,
            },
        );
    }
    assert(entry::entry_views(r@) =~= entries_listed(listed_views(all)));
    r
}

/// Whether a byte string begins with `PK` and two numbers.
fn has_signature(s: &[u8], third: u8, fourth: u8) -> (r: bool)
    requires
        s@.len() >= 4,
    ensures
        r == (s@.subrange(0, 4) == seq![0x50u8, 0x4b, third, fourth]),
{
    let signature = [0x50u8, 0x4b, third, fourth];
    assert(signature@ =~= seq![0x50u8, 0x4b, third, fourth]);
    bytes::equal(&s[0..4], &signature)
}

/// Where the ZIP64 end record is that a locator leads to, where there is a locator.
pub fn locate_end64(s: &[u8]) -> (r: Option<u64>)
    ensures
        r == located_end64(s@),
{
    if s.len() >= LOCATOR_LEN && has_signature(s, 0x06, 0x07) {
        Some(read_le_u64(s, 8))
    } else {
        None
    }
}

impl Progress {
    /// How far a reader has come at its beginning.
    pub fn start(size: u64) -> (r: Self)
        ensures
            r@ == Stage::first(size),
    {
        Progress::Haystack {
            missing: if size < HAYSTACK_LEN {
                size
            } else {
                HAYSTACK_LEN
            },
        }
    }

    /// Takes note of data that the reader was given.
    pub fn feed(self, data: &[u8]) -> (r: Self)
        ensures
            r@ == self@.fed(data@),
    {
        match self {
            Progress::Haystack { missing } => Progress::Haystack {
                missing: if (data.len() as u64) < missing {
                    missing - data.len() as u64
                } else {
                    0
                },
            },
            Progress::Locator { given } => {
                let mut given = given;
                bytes::append(&mut given, data);
                Progress::Locator { given }
            },
            Progress::Record { offset, given } => {
                let mut given = given;
                bytes::append(&mut given, data);
                Progress::Record { offset, given }
            },
            Progress::Directory => Progress::Directory,
        }
    }

    /// Takes note of the reader's work on its data.
    pub fn process(self) -> (r: Self)
        ensures
            r@ == self@.processed(),
    {
        match self {
            Progress::Haystack { missing } => {
                if missing == 0 {
                    let given: Vec<u8> = Vec::new();
                    assert(given@ =~= Seq::empty());
                    Progress::Locator { given }
                } else {
                    Progress::Haystack { missing }
                }
            },
            Progress::Locator { given } => {
                if given.len() < LOCATOR_LEN {
                    return Progress::Locator { given };
                }
                match locate_end64(given.as_slice()) {
                    Some(offset) => {
                        let given: Vec<u8> = Vec::new();
                        assert(given@ =~= Seq::empty());
                        Progress::Record { offset, given }
                    },
                    None => Progress::Directory,
                }
            },
            Progress::Record { offset, given } => {
                if given.len() < END64_LEN {
                    Progress::Record { offset, given }
                } else {
                    Progress::Directory
                }
            },
            Progress::Directory => Progress::Directory,
        }
    }
}

impl ArchiveReading {
    /// Whether what is kept beside the reader is how far it has come.
    pub open spec fn wf(self) -> bool {
        &&& self.size <= i64::MAX
        &&& outside::archive_size(self.fsm) == self.size
        &&& self.progress@ == stage(self.size, self@.history)
    }

    /// Begins to read an archive of a size.
    pub fn start(size: u64) -> (r: Self)
        requires
            size <= i64::MAX,
        ensures
            r.wf(),
            r@ == (ArchiveRun { size, history: Seq::empty() }),
    {
        ArchiveReading { fsm: outside::new_archive(size), size, progress: Progress::start(size) }
    }

    /// The part of the archive that is to be read next: as much as the reader and a buffer have
    /// room for, from where the reader asks for data.
    pub fn next_read(&mut self, room: usize) -> (r: Option<ReadAt>)
        requires
            old(self).wf(),
        ensures
            final(self).wf(),
            match r {
                Some(read) => {
                    &&& old(self)@.offset() == Some(read.offset)
                    &&& read.len == transfer::least(old(self)@.space() as int, room as int)
                    &&& final(self)@ == old(self)@.and(ArchiveEvent::SpaceAsked)
                    &&& final(self)@.offset() == old(self)@.offset()
                    &&& final(self)@.space() == old(self)@.space()
                },
                None => old(self)@.offset() is None && *final(self) == *old(self),
            },
    {
        match self.fsm.wants_read() {
            Some(offset) => {
                proof {
                    lemma_stage_push(self.size, self@.history, ArchiveEvent::SpaceAsked);
                }
                let space: usize = outside::archive_space_len(&mut self.fsm);
                Some(read_within(offset, space, room))
            },
            None => None,
        }
    }

    /// Takes data that has been read from the archive, and tells whether the reader had asked for
    /// data and had room for it. What is asked for next stands behind that data.
    pub fn received(&mut self, data: &[u8]) -> (r: bool)
        requires
            old(self).wf(),
        ensures
            final(self).wf(),
            r == {
                &&& data@.len() <= old(self)@.space()
                &&& old(self)@.offset() matches Some(offset)
                &&& offset + data@.len() <= u64::MAX
            },
            final(self)@ == if r {
                old(self)@.and(ArchiveEvent::SpaceAsked).and(ArchiveEvent::Fed(data@))
            } else {
                old(self)@.and(ArchiveEvent::SpaceAsked)
            },
            r ==> final(self)@.offset() == Some((old(self)@.offset()->0 + data@.len()) as u64),
            !r ==> final(self)@.offset() == old(self)@.offset(),
    {
        proof {
            lemma_stage_push(self.size, self@.history, ArchiveEvent::SpaceAsked);
        }
        let space: usize = outside::archive_space_len(&mut self.fsm);
        if data.len() > space {
            return false;
        }
        match self.fsm.wants_read() {
            Some(offset) => {
                if data.len() as u64 > u64::MAX - offset {
                    return false;
                }
            },
            None => return false,
        }
        proof {
            lemma_stage_push(self.size, self@.history, ArchiveEvent::Fed(data@));
        }
        outside::feed_archive(&mut self.fsm, data);
        let mut progress = Progress::Directory;
        std::mem::swap(&mut progress, &mut self.progress);
        self.progress = progress.feed(data);
        true
    }

    /// Makes the reader work on its data.
    pub fn process(self) -> (r: ArchiveRead)
        requires
            self.wf(),
        ensures
            if !in_range(self@.size, self@.history) {
                r is OutOfRange
            } else {
                match self@.step() {
                    ArchiveStep::Continue => {
                        &&& r matches ArchiveRead::More(next)
                        &&& next.wf()
                        &&& next@ == self@.and(ArchiveEvent::Processed)
                    },
                    ArchiveStep::Done(listed) => {
                        &&& r matches ArchiveRead::Done(entries)
                        &&& entry::entry_views(entries@) == entries_listed(listed)
                    },
                    ArchiveStep::Failed => r is Failed,
                }
            },
    {
        if let Progress::Record { offset, given } = &self.progress {
            if is_end64_out_of_range(self.size, *offset, given.as_slice()) {
                return ArchiveRead::OutOfRange;
            }
        }
        proof {
            lemma_stage_push(self.size, self@.history, ArchiveEvent::Processed);
        }
        match outside::process_archive(self.fsm) {
            ArchiveProcessed::Continue(fsm) => {
                let progress = self.progress.process();
                ArchiveRead::More(ArchiveReading { fsm, size: self.size, progress })
            },
            ArchiveProcessed::Done(listed) => ArchiveRead::Done(listed_entries(listed)),
            ArchiveProcessed::Failed(error) => ArchiveRead::Failed(error),
        }
    }
}

} // verus!
