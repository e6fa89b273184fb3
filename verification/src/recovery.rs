//! Replay of the segments that exist when the store is opened.
//!
//! The caller decodes each segment into the commands that it holds, with
//! the byte offset at which each command ends, and hands them over as a
//! `SegmentLog`. Replaying a segment brings the index up to date and counts
//! the bytes of the commands that have become stale.

use crate::command::{Command, CommandPosition};
use crate::index::Index;
use crate::log::{
    lemma_replay_segment_offset, lemma_size_of_take, replay_segment, size_of, Record, Replay,
    SegmentView,
};
use vstd::prelude::*;

verus! {

/// A command of a segment and the number of bytes that it takes there.
pub struct LogEntry {
    command: Command,
    length: u64,
}

/// The decoded contents of one segment.
pub struct SegmentLog {
    id: u64,
    entries: Vec<LogEntry>,
    size: u64,
}

impl View for SegmentLog {
    type V = SegmentView;

    closed spec fn view(&self) -> SegmentView {
        SegmentView {
            id: self.id,
            records: Seq::new(
                self.entries@.len(),
                |i: int|
                    Record { command: self.entries@[i].command@, length: self.entries@[i].length },
            ),
        }
    }
}

impl SegmentLog {
    /// The number of bytes that the decoded commands take.
    pub closed spec fn spec_size(&self) -> u64 {
        self.size
    }

    /// The number of decoded commands.
    pub closed spec fn spec_len(&self) -> usize {
        self.entries@.len() as usize
    }

    /// The recorded size is the size of the records.
    pub open spec fn wf(&self) -> bool {
        self.size() == size_of(self@.records)
    }

    /// The log of segment `id` before any command of it is decoded.
    pub fn new(id: u64) -> (segment: SegmentLog)
        ensures
            segment.wf(),
            segment@ == (SegmentView { id, records: Seq::empty() }),
            segment.size() == 0,
    {
        let segment = SegmentLog { id, entries: Vec::new(), size: 0 };
        assert(segment@.records =~= Seq::<Record>::empty());
        segment
    }

    /// The id of the segment.
    pub fn id(&self) -> (id: u64)
        ensures
            id == self@.id,
    {
        self.id
    }

    /// The number of bytes that the decoded commands take.
    #[verifier::when_used_as_spec(spec_size)]
    pub fn size(&self) -> (bytes: u64)
        ensures
            bytes == self.size(),
    {
        self.size
    }

    /// The number of decoded commands.
    #[verifier::when_used_as_spec(spec_len)]
    pub fn len(&self) -> (n: usize)
        ensures
            n == self.len(),
            n == self@.records.len(),
    {
        self.entries.len()
    }

    /// Adds the next command of the segment, which ends at byte offset
    /// `end`. The command is refused, and nothing changes, if `end` lies
    /// before the end of the command before it.
    pub fn push(&mut self, command: Command, end: u64) -> (accepted: bool)
        requires
            old(self).wf(),
        ensures
            final(self).wf(),
            accepted == (old(self).size() <= end),
            accepted ==> final(self)@ == (SegmentView {
                id: old(self)@.id,
                records: old(self)@.records.push(
                    Record { command: command@, length: (end - old(self).size()) as u64 },
                ),
            }) && final(self).size() == end,
            !accepted ==> *final(self) == *old(self),
    {
        if end < self.size {
            return false;
        }
        let length: u64 = end - self.size;
        self.entries.push(LogEntry { command, length });
        self.size = end;
        proof {
            let records = old(self)@.records.push(Record { command: command@, length });
            assert(self@.records =~= records);
            assert(records.drop_last() =~= old(self)@.records);
        }
        true
    }
}

/// Replays one segment: brings `index` up to date with the commands of
/// `segment`, adds the segment to the reader pool and returns the number of
/// bytes of the commands that the segment has made stale.
pub fn load_segment(segment: &SegmentLog, index: &mut Index, readers: &mut Vec<u64>) -> (uncompacted:
    u64)
    requires
        segment.wf(),
        old(index).wf(),
        old(index).live_bytes() + segment.size() <= u64::MAX,
    ensures
        final(index).wf(),
        final(index)@ == replay_segment(
            Replay { index: old(index)@, uncompacted: 0, offset: 0 },
            segment@.id,
            segment@.records,
        ).index,
        uncompacted == replay_segment(
            Replay { index: old(index)@, uncompacted: 0, offset: 0 },
            segment@.id,
            segment@.records,
        ).uncompacted,
        uncompacted + final(index).live_bytes() <= old(index).live_bytes() + segment.size(),
        final(readers)@ == old(readers)@.push(segment@.id),
{
    let ghost begin = Replay { index: index@, uncompacted: 0, offset: 0 };
    let ghost records = segment@.records;
    let mut offset: u64 = 0;
    let mut uncompacted: u64 = 0;
    let mut i: usize = 0;
    while i < segment.entries.len()
        invariant
            segment.wf(),
            index.wf(),
            records == segment@.records,
            records.len() == segment.entries@.len(),
            begin == (Replay { index: old(index)@, uncompacted: 0, offset: 0 }),
            0 <= i <= records.len(),
            index@ == replay_segment(begin, segment@.id, records.take(i as int)).index,
            uncompacted == replay_segment(begin, segment@.id, records.take(i as int)).uncompacted,
            offset == size_of(records.take(i as int)),
            uncompacted + index.live_bytes() <= old(index).live_bytes() + offset,
            old(index).live_bytes() + segment.size() <= u64::MAX,
        decreases records.len() - i,
    {
        let entry = &segment.entries[i];
        proof {
            lemma_size_of_take(records, i as int);
            lemma_size_of_take(records, i as int + 1);
            lemma_replay_segment_offset(begin, segment@.id, records.take(i as int));
            assert(records.take(i as int + 1).drop_last() =~= records.take(i as int));
            assert(records.take(i as int + 1).last() == records[i as int]);
            assert(records[i as int].command == entry.command@);
            assert(records[i as int].length == entry.length);
        }
        let position = CommandPosition { segment: segment.id, offset, length: entry.length };
        let displaced = match &entry.command {
            Command::Remove { key } => index.remove(key.as_str()),
            Command::Put { key, value: _ } => index.insert(key.clone(), position),
        };
        if let Some(before) = displaced {
            uncompacted = uncompacted + before.length;
        }
        offset = offset + entry.length;
        i = i + 1;
    }
    assert(records.take(i as int) =~= records);
    readers.push(segment.id);
    uncompacted
}

} // verus!
