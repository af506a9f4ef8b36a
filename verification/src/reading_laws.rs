//! What the reader of an archive is given.
use vstd::prelude::*;

use crate::outside;
use crate::reading;
use crate::reading::{ArchiveEvent, ArchiveReading, ArchiveRun, Stage};
use crate::transfer::ReadAt;

verus! {

/// A turn of reading the directory of an archive: data is read and handed on, or the reader is
/// made to work on its data.
pub enum ArchiveTurn {
    Read(Seq<u8>),
    Process,
}

/// How a reading stands after a turn. A read asks the reader for room twice: for how much is to
/// be read, and for whether what was read fits.
pub open spec fn after_turn(run: ArchiveRun, turn: ArchiveTurn) -> ArchiveRun {
    match turn {
        ArchiveTurn::Read(data) => run.and(ArchiveEvent::SpaceAsked).and(
            ArchiveEvent::SpaceAsked,
        ).and(ArchiveEvent::Fed(data)),
        ArchiveTurn::Process => run.and(ArchiveEvent::Processed),
    }
}

/// How a reading stands after some turns.
pub open spec fn after_turns(run: ArchiveRun, turns: Seq<ArchiveTurn>) -> ArchiveRun
    decreases turns.len(),
{
    if turns.len() == 0 {
        run
    } else {
        after_turn(after_turns(run, turns.drop_last()), turns.last())
    }
}

/// Whether a turn is right: what is read stands in the archive where the reader asks for data,
/// and what it asks for next stands behind that.
pub open spec fn right_turn(archive: Seq<u8>, run: ArchiveRun, turn: ArchiveTurn) -> bool {
    turn matches ArchiveTurn::Read(data) ==> {
        &&& run.offset() matches Some(at)
        &&& at + data.len() <= archive.len()
        &&& data == archive.subrange(at as int, at + data.len())
        &&& after_turn(run, turn).offset() == Some((at + data.len()) as u64)
    }
}

/// Whether all turns are right.
pub open spec fn right_turns(
    archive: Seq<u8>,
    run: ArchiveRun,
    turns: Seq<ArchiveTurn>,
) -> bool
    decreases turns.len(),
{
    turns.len() == 0 || {
        &&& right_turns(archive, run, turns.drop_last())
        &&& right_turn(archive, after_turns(run, turns.drop_last()), turns.last())
    }
}

/// The data that a reader was given from the `k`th event on.
pub open spec fn fed_from(h: Seq<ArchiveEvent>, k: int) -> Seq<u8>
    decreases h.len(),
{
    if h.len() == 0 || h.len() <= k {
        Seq::empty()
    } else {
        match h.last() {
            ArchiveEvent::Fed(data) => fed_from(h.drop_last(), k) + data,
            _ => fed_from(h.drop_last(), k),
        }
    }
}

/// How many events there are up to the last time that the reader worked on its data.
pub open spec fn worked_off(h: Seq<ArchiveEvent>) -> int
    decreases h.len(),
{
    if h.len() == 0 || h.last() is Processed {
        h.len() as int
    } else {
        worked_off(h.drop_last())
    }
}

proof fn lemma_worked_off(h: Seq<ArchiveEvent>)
    ensures
        0 <= worked_off(h) <= h.len(),
    decreases h.len(),
{
    if h.len() > 0 && !(h.last() is Processed) {
        lemma_worked_off(h.drop_last());
    }
}

/// Without work, the data that comes is added to what the reader was given.
proof fn lemma_push(h: Seq<ArchiveEvent>, e: ArchiveEvent)
    requires
        !(e is Processed),
    ensures
        worked_off(h.push(e)) == worked_off(h),
        h.push(e).take(worked_off(h)) == h.take(worked_off(h)),
        fed_from(h.push(e), worked_off(h)) == match e {
            ArchiveEvent::Fed(data) => fed_from(h, worked_off(h)) + data,
            _ => fed_from(h, worked_off(h)),
        },
{
    lemma_worked_off(h);
    assert(h.push(e).drop_last() =~= h);
    assert(h.push(e).take(worked_off(h)) =~= h.take(worked_off(h)));
}

/// However reads divide it, what the reader of an archive is given since it last worked on its
/// data is what stands in the archive from where it asked then: nothing is left out, repeated or
/// taken from elsewhere.
pub proof fn law_reader_given(archive: Seq<u8>, size: u64, turns: Seq<ArchiveTurn>)
    requires
        archive.len() <= u64::MAX,
        right_turns(archive, ArchiveRun { size, history: Seq::empty() }, turns),
    ensures
        ({
            let end = after_turns(ArchiveRun { size, history: Seq::empty() }, turns);
            let k = worked_off(end.history);
            let given = fed_from(end.history, k);
            &&& end.size == size
            &&& outside::archive_offset(size, end.history.take(k)) matches Some(at) ==> {
                &&& end.offset() == Some((at + given.len()) as u64)
                &&& at + given.len() <= u64::MAX
                &&& given.len() > 0 ==> at + given.len() <= archive.len() && given
                    == archive.subrange(at as int, at + given.len())
            }
        }),
    decreases turns.len(),
{
    let start = ArchiveRun { size, history: Seq::empty() };
    let end = after_turns(start, turns);
    lemma_worked_off(end.history);
    if turns.len() == 0 {
        assert(end.history.take(0) =~= end.history);
    } else {
        let init = turns.drop_last();
        law_reader_given(archive, size, init);
        let before = after_turns(start, init);
        let h = before.history;
        match turns.last() {
            ArchiveTurn::Read(data) => {
                let asked = ArchiveEvent::SpaceAsked;
                lemma_worked_off(h);
                lemma_push(h, asked);
                lemma_push(h.push(asked), asked);
                lemma_push(h.push(asked).push(asked), ArchiveEvent::Fed(data));
                let k = worked_off(h);
                let given = fed_from(h, k);
                assert(end.history.take(k) == h.take(k));
                assert(fed_from(end.history, k) == given + data);
                if let Some(at) = outside::archive_offset(size, h.take(k)) {
                    if given.len() == 0 {
                        assert(given + data =~= data);
                    } else {
                        assert(given + data =~= archive.subrange(
                            at as int,
                            at + given.len() + data.len(),
                        ));
                    }
                }
            },
            ArchiveTurn::Process => {
                let n = end.history.len() as int;
                assert(end.history.take(n) =~= end.history);
                assert(fed_from(end.history, n) =~= Seq::<u8>::empty());
            },
        }
    }
}

/// The number in some bytes, the least significant first.
pub open spec fn le_value(b: Seq<u8>) -> int
    decreases b.len(),
{
    if b.len() == 0 {
        0
    } else {
        b[0] + 0x100 * le_value(b.drop_first())
    }
}

proof fn lemma_le_value(s: Seq<u8>, at: int)
    requires
        0 <= at,
        at + 8 <= s.len(),
    ensures
        reading::le_u64(s, at) == le_value(s.subrange(at, at + 8)),
        0 <= reading::le_u64(s, at) <= u64::MAX,
{
    let b = s.subrange(at, at + 8);
    assert(b.drop_first() =~= s.subrange(at + 1, at + 8));
    assert(s.subrange(at + 1, at + 8).drop_first() =~= s.subrange(at + 2, at + 8));
    assert(s.subrange(at + 2, at + 8).drop_first() =~= s.subrange(at + 3, at + 8));
    assert(s.subrange(at + 3, at + 8).drop_first() =~= s.subrange(at + 4, at + 8));
    assert(s.subrange(at + 4, at + 8).drop_first() =~= s.subrange(at + 5, at + 8));
    assert(s.subrange(at + 5, at + 8).drop_first() =~= s.subrange(at + 6, at + 8));
    assert(s.subrange(at + 6, at + 8).drop_first() =~= s.subrange(at + 7, at + 8));
    assert(s.subrange(at + 7, at + 8).drop_first() =~= Seq::empty());
    reveal_with_fuel(le_value, 9);
}

/// A number of 64 bits that counts as signed.
pub open spec fn signed(n: int) -> int {
    if n > i64::MAX {
        n - 0x1_0000_0000_0000_0000
    } else {
        n
    }
}

/// Whether a ZIP64 end record that stands at an offset of an archive says of the directory before
/// it that it is where the difference to where it is cannot be held as a signed number.
pub open spec fn is_far_off(size: u64, offset: u64, record: Seq<u8>) -> bool {
    let start = offset - le_value(record.subrange(40, 48));
    let said = signed(le_value(record.subrange(48, 56)));
    &&& record.len() >= 56
    &&& record[0] == 0x50 && record[1] == 0x4b && record[2] == 6 && record[3] == 6
    &&& 0 <= start < size
    &&& !(i64::MIN <= start - said <= i64::MAX)
}

proof fn lemma_far_off(size: u64, offset: u64, record: Seq<u8>)
    requires
        size <= i64::MAX,
    ensures
        reading::end64_out_of_range(size, offset, record) <==> is_far_off(size, offset, record),
{
    if record.len() >= 56 {
        lemma_le_value(record, 40);
        lemma_le_value(record, 48);
        let signature = seq![0x50u8, 0x4b, 0x06, 0x06];
        if record[0] == 0x50 && record[1] == 0x4b && record[2] == 6 && record[3] == 6 {
            assert(record.subrange(0, 4) =~= signature);
        }
        if record.subrange(0, 4) == signature {
            assert(record[0] == signature[0] && record[1] == signature[1]);
            assert(record[2] == signature[2] && record[3] == signature[3]);
        }
    }
}

/// Whether the reader only waits for data during some events.
pub open spec fn only_fed(h: Seq<ArchiveEvent>) -> bool {
    forall|i: int| 0 <= i < h.len() ==> !(#[trigger] h[i] is Processed)
}

/// How far a reader has come that only was given data.
proof fn lemma_stage_fed(size: u64, h: Seq<ArchiveEvent>, more: Seq<ArchiveEvent>)
    requires
        only_fed(more),
    ensures
        ({
            let data = fed_from(more, 0);
            reading::stage(size, h + more) == match reading::stage(size, h) {
                Stage::Haystack { missing } => Stage::Haystack {
                    missing: if data.len() < missing {
                        (missing - data.len()) as nat
                    } else {
                        0
                    },
                },
                Stage::Locator { given } => Stage::Locator { given: given + data },
                Stage::Record { offset, given } => Stage::Record { offset, given: given + data },
                Stage::Directory => Stage::Directory,
            }
        }),
    decreases more.len(),
{
    let none = Seq::<u8>::empty();
    if more.len() == 0 {
        assert(h + more =~= h);
        match reading::stage(size, h) {
            Stage::Locator { given } => {
                assert(given + none =~= given);
            },
            Stage::Record { offset, given } => {
                assert(given + none =~= given);
            },
            _ => {},
        }
    } else {
        let init = more.drop_last();
        assert forall|i: int| 0 <= i < init.len() implies !(#[trigger] init[i] is Processed) by {
            assert(init[i] == more[i]);
        }
        lemma_stage_fed(size, h, init);
        assert((h + more).drop_last() =~= h + init);
        assert(!(more[more.len() - 1] is Processed));
        let data = fed_from(init, 0);
        if let ArchiveEvent::Fed(new) = more.last() {
            match reading::stage(size, h) {
                Stage::Locator { given } => {
                    assert(given + data + new =~= given + (data + new));
                },
                Stage::Record { offset, given } => {
                    assert(given + data + new =~= given + (data + new));
                },
                _ => {},
            }
        }
    }
}

/// When the reading of an archive is given up because of where a ZIP64 end record says that the
/// directory is: once so much of the end of the archive was given as can hold the end record, then
/// a locator, and then the record that it leads to, one that is far off; and not otherwise.
///
/// `a`, `b` and `c` are what happens before, between and behind the first two times that the
/// reader works on its data.
pub proof fn law_given_up(
    size: u64,
    a: Seq<ArchiveEvent>,
    b: Seq<ArchiveEvent>,
    c: Seq<ArchiveEvent>,
)
    requires
        size <= i64::MAX,
        only_fed(a),
        only_fed(b),
        only_fed(c),
    ensures
        ({
            let end = fed_from(a, 0);
            let locator = fed_from(b, 0);
            let record = fed_from(c, 0);
            let h = a.push(ArchiveEvent::Processed) + b.push(ArchiveEvent::Processed) + c;
            let offset = le_value(locator.subrange(8, 16)) as u64;
            &&& reading::in_range(size, a)
            &&& reading::in_range(size, a.push(ArchiveEvent::Processed) + b)
            &&& !reading::in_range(size, h) <==> {
                &&& end.len() >= size || end.len() >= 66560
                &&& locator.len() >= 20
                &&& locator[0] == 0x50 && locator[1] == 0x4b && locator[2] == 6 && locator[3] == 7
                &&& is_far_off(size, offset, record)
            }
        }),
{
    let none = Seq::<ArchiveEvent>::empty();
    let worked = ArchiveEvent::Processed;
    let end = fed_from(a, 0);
    let locator = fed_from(b, 0);
    let record = fed_from(c, 0);
    let first = a.push(worked);
    let second = first + b.push(worked);
    assert(none + a =~= a);
    lemma_stage_fed(size, none, a);
    assert(first.drop_last() =~= a);
    lemma_stage_fed(size, first, b);
    assert(second =~= (first + b).push(worked));
    assert(second.drop_last() =~= first + b);
    lemma_stage_fed(size, second, c);
    assert(Seq::<u8>::empty() + locator =~= locator);
    assert(Seq::<u8>::empty() + record =~= record);
    if locator.len() >= 20 {
        lemma_le_value(locator, 8);
        let signature = seq![0x50u8, 0x4b, 0x06, 0x07];
        if locator[0] == 0x50 && locator[1] == 0x4b && locator[2] == 6 && locator[3] == 7 {
            assert(locator.subrange(0, 4) =~= signature);
        }
        if locator.subrange(0, 4) == signature {
            assert(locator[0] == signature[0] && locator[1] == signature[1]);
            assert(locator[2] == signature[2] && locator[3] == signature[3]);
        }
    }
    let offset = le_value(locator.subrange(8, 16)) as u64;
    lemma_far_off(size, offset, record);
}

/// The reader of an archive reads from where it asks for data, and no more than it and the buffer
/// have room for.
pub proof fn law_reader_read(r: &mut ArchiveReading, room: usize, read: Option<ReadAt>)
    requires
        old(r).wf(),
        call_ensures(ArchiveReading::next_read, (r, room), read),
    ensures
        match read {
            Some(at) => {
                &&& outside::archive_offset(old(r)@.size, old(r)@.history) == Some(at.offset)
                &&& at.len <= room
                &&& at.len <= outside::archive_space(old(r)@.size, old(r)@.history)
                &&& at.len == room || at.len == outside::archive_space(
                    old(r)@.size,
                    old(r)@.history,
                )
            },
            None => outside::archive_offset(old(r)@.size, old(r)@.history) is None,
        },
{
}

/// Data that has been read for the reader of an archive is taken exactly where the reader asked
/// for data and has room for it, and the next data that it asks for stands behind it.
pub proof fn law_reader_received(r: &mut ArchiveReading, data: &[u8], taken: bool)
    requires
        old(r).wf(),
        call_ensures(ArchiveReading::received, (r, data), taken),
    ensures
        ({
            let asked = outside::archive_offset(old(r)@.size, old(r)@.history);
            let space = outside::archive_space(old(r)@.size, old(r)@.history);
            &&& taken <==> asked is Some && data@.len() <= space && asked->0 + data@.len()
                <= u64::MAX
            &&& taken ==> {
                &&& final(r)@.history.last() == ArchiveEvent::Fed(data@)
                &&& outside::archive_offset(final(r)@.size, final(r)@.history) matches Some(next)
                &&& next == asked->0 + data@.len()
            }
        }),
{
}

} // verus!
