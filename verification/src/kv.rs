//! The store: the index over the log, the write path, the lookup path and
//! compaction.
//!
//! The store never touches a file. Each operation changes the store's own
//! state and tells the caller what to do to the segment files: where a
//! command has to be appended or read, and, when the log is compacted,
//! which byte ranges to copy and which segments to delete. A command is
//! appended to the segment that was active before the operation, and a
//! compaction is carried out after that. The store keeps a model of the
//! log that the files hold once the caller has done so, and its invariant
//! ties the index to that model.

use crate::command::{Command, CommandPosition, CommandView};
use crate::error::KvsError;
use crate::index::{displaced_length, lookup, relocated, total_length, Index};
use crate::log::{
    append, ascending, compacted, contents, effect, holds, ids, indexed, lemma_holds_segment,
    lemma_replay_agrees, lemma_replay_append, lemma_replay_compacted, lemma_replay_domains,
    lemma_replay_offset, lemma_replay_open_segment, lemma_replay_segment_uncompacted,
    lemma_stored_bytes_take, replay, rewound, stored_bytes, Record, SegmentView,
};
use crate::recovery::{load_segment, SegmentLog};
use vstd::prelude::*;

verus! {

/// The number of stale bytes above which the log is compacted.
pub const COMPACTION_THRESHOLD: u64 = 1024 * 1024;

/// What the caller has to do to the segment files when the log is
/// compacted, in this order: create segment `target` and copy to it the
/// byte ranges of `copies`, one after the other; create the empty segment
/// `active`, which takes the writes from now on; open both for reading;
/// delete the segments of `stale`.
pub struct CompactionPlan {
    pub target: u64,
    pub copies: Vec<CommandPosition>,
    pub active: u64,
    pub stale: Vec<u64>,
}

/// The logs that `segments` stand for.
pub open spec fn views(segments: Seq<SegmentLog>) -> Seq<SegmentView> {
    Seq::new(segments.len(), |i: int| segments[i]@)
}

/// The id that the active segment gets when the store is opened on `log`:
/// one more than the last id, and 1 for an empty log.
pub open spec fn first_active(log: Seq<SegmentView>) -> int {
    if log.len() == 0 {
        1
    } else {
        log.last().id + 1
    }
}

/// The store can be opened on `segments`: their ids ascend, and their
/// sizes and the id of the next segment fit in 64 bits.
pub open spec fn openable(segments: Seq<SegmentLog>) -> bool {
    &&& ascending(views(segments))
    &&& stored_bytes(views(segments)) <= u64::MAX
    &&& first_active(views(segments)) <= u64::MAX
}

/// Whether the store can be opened on `segments`.
pub fn is_openable(segments: &Vec<SegmentLog>) -> (ok: bool)
    requires
        forall|i: int| 0 <= i < segments@.len() ==> (#[trigger] segments@[i]).wf(),
    ensures
        ok == openable(segments@),
{
    let ghost log = views(segments@);
    let mut total: u64 = 0;
    let mut i: usize = 0;
    while i < segments.len()
        invariant
            forall|j: int| 0 <= j < segments@.len() ==> (#[trigger] segments@[j]).wf(),
            log == views(segments@),
            0 <= i <= segments@.len(),
            total == stored_bytes(log.take(i as int)),
            ascending(log.take(i as int)),
        decreases segments@.len() - i,
    {
        proof {
            lemma_stored_bytes_take(log, i as int);
            lemma_stored_bytes_take(log, i as int + 1);
            assert(segments@[i as int].wf());
            assert(log[i as int] == segments@[i as int]@);
        }
        if i > 0 && segments[i - 1].id() >= segments[i].id() {
            assert(!(log[i - 1].id < log[i as int].id));
            return false;
        }
        let size: u64 = segments[i].size();
        if size > u64::MAX - total {
            return false;
        }
        total = total + size;
        proof {
            let next = log.take(i as int + 1);
            assert forall|a: int, b: int| 0 <= a < b < next.len() implies (#[trigger] next[a]).id < (
            #[trigger] next[b]).id by {
                if b < i {
                    assert(log.take(i as int)[a].id < log.take(i as int)[b].id);
                } else if a < i - 1 {
                    assert(log.take(i as int)[a].id < log.take(i as int)[i - 1].id);
                }
            }
        }
        i = i + 1;
    }
    assert(log.take(i as int) =~= log);
    segments.len() == 0 || segments[segments.len() - 1].id() < u64::MAX
}

/// The store of key-value pairs.
pub struct KvStore {
    offset: u64,
    segment: u64,
    uncompacted: u64,
    stored: u64,
    index: Index,
    readers: Vec<u64>,
    log: Ghost<Seq<SegmentView>>,
}

impl View for KvStore {
    type V = Map<Seq<char>, Seq<char>>;

    /// The key-value pairs of the store.
    open spec fn view(&self) -> Map<Seq<char>, Seq<char>> {
        contents(self.log())
    }
}

impl KvStore {
    /// The log that the segment files hold.
    pub closed spec fn log(&self) -> Seq<SegmentView> {
        self.log@
    }

    /// The index from each live key to the position of its command.
    pub closed spec fn index(&self) -> Map<Seq<char>, CommandPosition> {
        self.index@
    }

    /// The live keys, in the order in which compaction copies their
    /// commands.
    pub closed spec fn key_order(&self) -> Seq<Seq<char>> {
        self.index.keys()
    }

    /// The positions of the live keys, in the order of `key_order`.
    pub closed spec fn positions(&self) -> Seq<CommandPosition> {
        self.index.positions()
    }

    /// The number of bytes that the commands of the live keys take.
    pub open spec fn live_bytes(&self) -> nat {
        total_length(self.positions())
    }

    /// The id of the active segment.
    pub closed spec fn spec_segment(&self) -> u64 {
        self.segment
    }

    /// The size of the active segment.
    pub closed spec fn spec_offset(&self) -> u64 {
        self.offset
    }

    /// The number of stale bytes in the log.
    pub closed spec fn spec_uncompacted(&self) -> u64 {
        self.uncompacted
    }

    /// The number of bytes in all segments of the log.
    pub closed spec fn spec_stored(&self) -> u64 {
        self.stored
    }

    /// The ids of the segments that can be read.
    pub closed spec fn reader_ids(&self) -> Seq<u64> {
        self.readers@
    }

    /// The index is a sound data structure.
    pub closed spec fn index_wf(&self) -> bool {
        self.index.wf()
    }

    /// The invariant of the store: its fields are what a replay of its log
    /// gives.
    pub open spec fn wf(&self) -> bool {
        &&& self.index_wf()
        &&& self.log().len() > 0
        &&& ascending(self.log())
        &&& self.reader_ids() == ids(self.log())
        &&& self.segment() == self.log().last().id
        &&& self.stored() == stored_bytes(self.log())
        &&& self.index() == replay(self.log()).index
        &&& self.uncompacted() == replay(self.log()).uncompacted
        &&& self.offset() == replay(self.log()).offset
        &&& self.uncompacted() + self.live_bytes() <= self.stored()
    }

    /// The store `self` is what compaction makes of a store with the log
    /// `log`, and `plan` is what compaction asks of the caller.
    pub open spec fn follows_compaction(&self, log: Seq<SegmentView>, plan: CompactionPlan) -> bool {
        let order = self.key_order();
        &&& plan.target == log.last().id + 1
        &&& plan.active == log.last().id + 2
        &&& plan.stale@ == ids(log)
        &&& order.no_duplicates()
        &&& forall|k: Seq<char>| #[trigger] replay(log).index.contains_key(k) <==> order.contains(k)
        &&& plan.copies@ == Seq::new(order.len(), |i: int| replay(log).index[order[i]])
        &&& self.positions() == relocated(plan.copies@, plan.target)
        &&& self.log() == compacted(log, order, plan.target, plan.active)
        &&& self.segment() == plan.active
        &&& self.reader_ids() == seq![plan.target, plan.active]
        &&& self.offset() == 0
        &&& self.uncompacted() == 0
        &&& self.stored() == total_length(plan.copies@)
    }

    /// The store `self` is what `before` becomes when `command`, encoded in
    /// `length` bytes, is appended to the log, and `plan` is the compaction
    /// that the append has set off, if it has.
    pub open spec fn applied(
        &self,
        before: KvStore,
        command: CommandView,
        length: u64,
        plan: Option<CompactionPlan>,
    ) -> bool {
        let record = Record { command, length };
        let position = CommandPosition {
            segment: before.segment(),
            offset: before.offset(),
            length,
        };
        let stale = before.uncompacted() + displaced_length(before.index(), command.key());
        &&& self.wf()
        &&& self@ == effect(before@, command)
        &&& plan is Some <==> stale > COMPACTION_THRESHOLD
        &&& match plan {
            None => {
                &&& self.log() == append(before.log(), record)
                &&& self.index() == indexed(before.index(), command, position)
                &&& self.segment() == before.segment()
                &&& self.reader_ids() == before.reader_ids()
                &&& self.offset() == before.offset() + length
                &&& self.uncompacted() == stale
                &&& self.stored() == before.stored() + length
            },
            Some(plan) => self.follows_compaction(append(before.log(), record), plan),
        }
    }

    /// The index and the contents hold the same keys, each key once in
    /// `key_order`, and the index points to where the log holds the key's
    /// value.
    pub proof fn lemma_index_agrees(&self)
        requires
            self.wf(),
        ensures
            self.index().dom() =~= self@.dom(),
            self.key_order().no_duplicates(),
            self.key_order().len() == self.positions().len(),
            forall|k: Seq<char>| #[trigger] self.index().contains_key(k) <==> self.key_order().contains(k),
            forall|i: int|
                0 <= i < self.key_order().len() ==> self.index()[#[trigger] self.key_order()[i]]
                    == self.positions()[i],
            forall|k: Seq<char>| #[trigger]
                self.index().contains_key(k) ==> holds(self.log(), self.index()[k], k, self@[k])
                    && self.reader_ids().contains(self.index()[k].segment),
    {
        lemma_replay_domains(self.log());
        lemma_replay_agrees(self.log());
        self.index.lemma_keys();
        assert forall|k: Seq<char>| #[trigger] self.index().contains_key(k) implies self.reader_ids().contains(
            self.index()[k].segment,
        ) by {
            lemma_holds_segment(self.log(), self.index()[k], k, self@[k]);
        }
    }

    /// Opens the store on the segments that exist, given in ascending
    /// order of their ids: replays them and starts a new active segment
    /// after the last one. The caller creates that segment and opens every
    /// segment of the reader pool for reading.
    pub fn open(segments: &Vec<SegmentLog>) -> (store: KvStore)
        requires
            forall|i: int| 0 <= i < segments@.len() ==> (#[trigger] segments@[i]).wf(),
            openable(segments@),
        ensures
            store.wf(),
            store.log() == views(segments@).push(
                SegmentView {
                    id: first_active(views(segments@)) as u64,
                    records: Seq::empty(),
                },
            ),
            store@ == contents(views(segments@)),
            store.index() == replay(views(segments@)).index,
            store.uncompacted() == replay(views(segments@)).uncompacted,
            store.stored() == stored_bytes(views(segments@)),
            store.offset() == 0,
            store.segment() == first_active(views(segments@)),
    {
        let ghost log = views(segments@);
        let mut index = Index::new();
        let mut readers: Vec<u64> = Vec::new();
        let mut uncompacted: u64 = 0;
        let mut stored: u64 = 0;
        let mut i: usize = 0;
        assert(ids(log.take(0)) =~= Seq::<u64>::empty());
        while i < segments.len()
            invariant
                forall|j: int| 0 <= j < segments@.len() ==> (#[trigger] segments@[j]).wf(),
                log == views(segments@),
                stored_bytes(log) <= u64::MAX,
                0 <= i <= segments@.len(),
                index.wf(),
                index@ == replay(log.take(i as int)).index,
                uncompacted == replay(log.take(i as int)).uncompacted,
                stored == stored_bytes(log.take(i as int)),
                readers@ == ids(log.take(i as int)),
                uncompacted + index.live_bytes() <= stored,
            decreases segments@.len() - i,
        {
            let ghost before = replay(log.take(i as int));
            proof {
                lemma_stored_bytes_take(log, i as int);
                lemma_stored_bytes_take(log, i as int + 1);
                assert(segments@[i as int].wf());
                assert(log[i as int] == segments@[i as int]@);
                assert(log.take(i as int + 1).drop_last() =~= log.take(i as int));
                assert(log.take(i as int + 1).last() == log[i as int]);
                lemma_replay_segment_uncompacted(
                    rewound(before),
                    log[i as int].id,
                    log[i as int].records,
                );
            }
            let stale: u64 = load_segment(&segments[i], &mut index, &mut readers);
            uncompacted = uncompacted + stale;
            stored = stored + segments[i].size();
            proof {
                assert(readers@ =~= ids(log.take(i as int + 1)));
            }
            i = i + 1;
        }
        assert(log.take(i as int) =~= log);
        let active: u64 = if segments.len() == 0 {
            1
        } else {
            segments[segments.len() - 1].id() + 1
        };
        readers.push(active);
        let ghost opened = log.push(SegmentView { id: active, records: Seq::empty() });
        proof {
            lemma_replay_open_segment(log, active);
            assert forall|a: int, b: int| 0 <= a < b < opened.len() implies (#[trigger] opened[a]).id < (
            #[trigger] opened[b]).id by {
                if b < log.len() {
                    assert(log[a].id < log[b].id);
                } else if a < log.len() - 1 {
                    assert(log[a].id < log[log.len() - 1].id);
                }
            }
        }
        KvStore {
            offset: 0,
            segment: active,
            uncompacted,
            stored,
            index,
            readers,
            log: Ghost(opened),
        }
    }

    /// The id of the active segment.
    #[verifier::when_used_as_spec(spec_segment)]
    pub fn segment(&self) -> (id: u64)
        ensures
            id == self.segment(),
    {
        self.segment
    }

    /// The size of the active segment, which is the offset of the next
    /// command.
    #[verifier::when_used_as_spec(spec_offset)]
    pub fn offset(&self) -> (bytes: u64)
        ensures
            bytes == self.offset(),
    {
        self.offset
    }

    /// The number of stale bytes in the log.
    #[verifier::when_used_as_spec(spec_uncompacted)]
    pub fn uncompacted(&self) -> (bytes: u64)
        ensures
            bytes == self.uncompacted(),
    {
        self.uncompacted
    }

    /// The number of bytes in all segments of the log.
    #[verifier::when_used_as_spec(spec_stored)]
    pub fn stored(&self) -> (bytes: u64)
        ensures
            bytes == self.stored(),
    {
        self.stored
    }

    /// The ids of the segments that can be read, in ascending order. The
    /// last one is the active segment.
    pub fn readers(&self) -> (pool: &Vec<u64>)
        ensures
            pool@ == self.reader_ids(),
    {
        &self.readers
    }

    /// Rewrites the live commands into a fresh segment and starts another
    /// one for the writes to come. Every segment that the store has had so
    /// far becomes stale.
    pub fn compact(&mut self) -> (plan: CompactionPlan)
        requires
            old(self).wf(),
            old(self).segment() + 2 <= u64::MAX,
        ensures
            final(self).wf(),
            final(self).follows_compaction(old(self).log(), plan),
            final(self)@ == old(self)@,
            final(self).key_order() == old(self).key_order(),
            plan.copies@ == old(self).positions(),
            final(self).stored() == old(self).live_bytes(),
            forall|k: Seq<char>| #[trigger] final(self).index().contains_key(k) <==> old(self).index().contains_key(k),
            forall|i: int| 0 <= i < plan.stale@.len() ==> #[trigger] plan.stale@[i] < plan.target,
    {
        let ghost log = self.log@;
        let ghost order = self.index.keys();
        let ghost sources = self.index.positions();
        proof {
            self.lemma_index_agrees();
            assert(sources =~= Seq::new(order.len(), |i: int| replay(log).index[order[i]]));
            lemma_replay_compacted(log, order, sources, (self.segment + 1) as u64, (self.segment + 2) as u64);
        }
        let target: u64 = self.segment + 1;
        let active: u64 = self.segment + 2;
        let (copies, size) = self.index.relocate(target);
        let mut pool: Vec<u64> = Vec::new();
        pool.push(target);
        pool.push(active);
        std::mem::swap(&mut self.readers, &mut pool);
        self.offset = 0;
        self.segment = active;
        self.uncompacted = 0;
        self.stored = size;
        self.log = Ghost(compacted(log, order, target, active));
        proof {
            self.index.lemma_keys();
            assert(self.readers@ =~= seq![target, active]);
            assert(self.index@ =~= replay(self.log@).index) by {
                assert forall|k: Seq<char>| self.index@.contains_key(k) implies #[trigger] self.index@[k]
                    == replay(self.log@).index[k] by {
                    assert(self.index.keys().contains(k));
                    let i = choose|i: int| 0 <= i < order.len() && order[i] == k;
                    assert(self.index@[self.index.keys()[i]] == self.index.positions()[i]);
                }
            }
            assert(self.log@.last().id == active);
            assert forall|i: int| 0 <= i < pool@.len() implies #[trigger] pool@[i] < target by {
                assert(log[i].id <= log.last().id);
            }
        }
        CompactionPlan { target, copies, active, stale: pool }
    }

    /// Appends `command`, which takes `length` bytes when encoded, to the
    /// log: gives it its position at the end of the active segment, brings
    /// the index and the count of stale bytes up to date, and compacts the
    /// log if more bytes are stale now than the threshold allows.
    pub fn apply(&mut self, command: Command, length: u64) -> (plan: Option<CompactionPlan>)
        requires
            old(self).wf(),
            old(self).stored() + length <= u64::MAX,
            old(self).segment() + 2 <= u64::MAX,
        ensures
            final(self).applied(*old(self), command@, length, plan),
    {
        let ghost record = Record { command: command@, length };
        let ghost log = self.log@;
        proof {
            lemma_replay_append(log, record);
            lemma_replay_offset(log);
        }
        let displaced = match command {
            Command::Remove { key } => self.index.remove(key.as_str()),
            Command::Put { key, value: _ } => self.index.insert(
                key,
                CommandPosition { segment: self.segment, offset: self.offset, length },
            ),
        };
        if let Some(position) = displaced {
            self.uncompacted = self.uncompacted + position.length;
        }
        self.offset = self.offset + length;
        self.stored = self.stored + length;
        self.log = Ghost(append(log, record));
        assert(self.wf());
        if self.uncompacted > COMPACTION_THRESHOLD {
            Some(self.compact())
        } else {
            None
        }
    }

    /// Sets the value of `key` to `value`, by a command that takes `length`
    /// bytes when encoded.
    pub fn set(&mut self, key: String, value: String, length: u64) -> (plan: Option<
        CompactionPlan,
    >)
        requires
            old(self).wf(),
            old(self).stored() + length <= u64::MAX,
            old(self).segment() + 2 <= u64::MAX,
        ensures
            final(self).applied(
                *old(self),
                CommandView::Put { key: key@, value: value@ },
                length,
                plan,
            ),
    {
        self.apply(Command::Put { key, value }, length)
    }

    /// Removes `key`, by a command that takes `length` bytes when encoded.
    /// Fails, and changes nothing, if the key has no value; nothing is
    /// appended to the log then.
    pub fn remove(&mut self, key: String, length: u64) -> (outcome: Result<
        Option<CompactionPlan>,
        KvsError,
    >)
        requires
            old(self).wf(),
            old(self).stored() + length <= u64::MAX,
            old(self).segment() + 2 <= u64::MAX,
        ensures
            outcome is Ok <==> old(self)@.contains_key(key@),
            match outcome {
                Ok(plan) => final(self).applied(
                    *old(self),
                    CommandView::Remove { key: key@ },
                    length,
                    plan,
                ),
                Err(e) => e is KeyNotFound && *final(self) == *old(self),
            },
    {
        proof {
            self.lemma_index_agrees();
        }
        if !self.index.contains_key(key.as_str()) {
            return Err(KvsError::KeyNotFound);
        }
        Ok(self.apply(Command::Remove { key }, length))
    }

    /// Where the command that defines the value of `key` lies, or `None` if
    /// the key has no value.
    pub fn get(&self, key: &str) -> (found: Option<CommandPosition>)
        requires
            self.wf(),
        ensures
            found is Some <==> self@.contains_key(key@),
            found == lookup(self.index(), key@),
            found matches Some(position) ==> holds(self.log(), position, key@, self@[key@])
                && self.reader_ids().contains(position.segment),
    {
        proof {
            self.lemma_index_agrees();
        }
        match self.index.get(key) {
            None => None,
            Some(position) => {
                if has_reader(&self.readers, position.segment) {
                    Some(position)
                } else {
                    None
                }
            },
        }
    }
}

/// The value that a lookup gives, from what the caller has decoded at the
/// position that `get` returned: the value of a `Put`, nothing for another
/// command or at the end of the segment, and the error of a failed decoding.
pub fn read_value(decoded: Option<Result<Command, serde_json::Error>>) -> (value: Result<
    Option<String>,
    KvsError,
>)
    ensures
        value == (match decoded {
            Some(Ok(Command::Put { key, value })) => Ok::<Option<String>, KvsError>(Some(value)),
            Some(Ok(Command::Remove { key })) => Ok(None),
            Some(Err(e)) => Err(KvsError::Serde(e)),
            None => Ok(None),
        }),
{
    match decoded {
        Some(Ok(Command::Put { key: _, value })) => Ok(Some(value)),
        Some(Ok(Command::Remove { key: _ })) => Ok(None),
        Some(Err(e)) => Err(KvsError::from(e)),
        None => Ok(None),
    }
}

/// Whether the reader pool `readers` has a reader for `segment`.
pub fn has_reader(readers: &Vec<u64>, segment: u64) -> (found: bool)
    ensures
        found == readers@.contains(segment),
{
    let mut i: usize = 0;
    while i < readers.len()
        invariant
            0 <= i <= readers@.len(),
            forall|j: int| 0 <= j < i ==> readers@[j] != segment,
        decreases readers@.len() - i,
    {
        if readers[i] == segment {
            return true;
        }
        i = i + 1;
    }
    false
}

} // verus!
