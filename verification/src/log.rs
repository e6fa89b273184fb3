//! The mathematical model of the segmented command log and of its replay.
//!
//! A log is a sequence of segments, each a sequence of records. Replaying a
//! log visits the segments in order and, within a segment, the records in
//! order. The functions of the store are specified against this model.

use crate::command::{CommandPosition, CommandView};
use crate::index::{displaced_length, relocated, total_length};
use vstd::prelude::*;

verus! {

/// One encoded command as it lies in a segment.
pub struct Record {
    pub command: CommandView,
    /// The number of bytes that the encoded command takes.
    pub length: u64,
}

/// One segment of the log: its id and the records that it holds, in order.
pub struct SegmentView {
    pub id: u64,
    pub records: Seq<Record>,
}

/// The number of bytes that `records` take together.
pub open spec fn size_of(records: Seq<Record>) -> nat
    decreases records.len(),
{
    if records.len() == 0 {
        0
    } else {
        size_of(records.drop_last()) + records.last().length as nat
    }
}

/// The number of bytes that the segments of `log` take together.
pub open spec fn stored_bytes(log: Seq<SegmentView>) -> nat
    decreases log.len(),
{
    if log.len() == 0 {
        0
    } else {
        stored_bytes(log.drop_last()) + size_of(log.last().records)
    }
}

/// The ids of the segments of `log`, in order.
pub open spec fn ids(log: Seq<SegmentView>) -> Seq<u64> {
    Seq::new(log.len(), |i: int| log[i].id)
}

/// The segment ids grow strictly along the log.
pub open spec fn ascending(log: Seq<SegmentView>) -> bool {
    forall|i: int, j: int| 0 <= i < j < log.len() ==> (#[trigger] log[i]).id < (#[trigger] log[j]).id
}

/// `log` with `record` added at the end of its last segment.
pub open spec fn append(log: Seq<SegmentView>, record: Record) -> Seq<SegmentView>
    recommends
        log.len() > 0,
{
    log.update(
        log.len() - 1,
        SegmentView { id: log.last().id, records: log.last().records.push(record) },
    )
}

/// What a command does to the contents of the store.
pub open spec fn effect(contents: Map<Seq<char>, Seq<char>>, command: CommandView) -> Map<
    Seq<char>,
    Seq<char>,
> {
    match command {
        CommandView::Put { key, value } => contents.insert(key, value),
        CommandView::Remove { key } => contents.remove(key),
    }
}

/// The contents after the commands of `records` have taken effect in order.
pub open spec fn contents_after(contents: Map<Seq<char>, Seq<char>>, records: Seq<Record>) -> Map<
    Seq<char>,
    Seq<char>,
>
    decreases records.len(),
{
    if records.len() == 0 {
        contents
    } else {
        effect(contents_after(contents, records.drop_last()), records.last().command)
    }
}

/// The contents that `log` defines: each key with the value of the last
/// command that affects it, if that command is a `Put`.
pub open spec fn contents(log: Seq<SegmentView>) -> Map<Seq<char>, Seq<char>>
    decreases log.len(),
{
    if log.len() == 0 {
        Map::empty()
    } else {
        contents_after(contents(log.drop_last()), log.last().records)
    }
}

/// The state of a replay.
pub struct Replay {
    /// Each live key with the position of the command that defines it.
    pub index: Map<Seq<char>, CommandPosition>,
    /// The bytes of the commands that a later command has made stale.
    pub uncompacted: nat,
    /// The bytes of the current segment that have been replayed.
    pub offset: nat,
}

/// The state before anything is replayed.
pub open spec fn start() -> Replay {
    Replay { index: Map::empty(), uncompacted: 0, offset: 0 }
}

/// The state at the start of the next segment.
pub open spec fn rewound(state: Replay) -> Replay {
    Replay { offset: 0, ..state }
}

/// What a command that lies at `position` does to the index.
pub open spec fn indexed(
    index: Map<Seq<char>, CommandPosition>,
    command: CommandView,
    position: CommandPosition,
) -> Map<Seq<char>, CommandPosition> {
    match command {
        CommandView::Put { key, .. } => index.insert(key, position),
        CommandView::Remove { key } => index.remove(key),
    }
}

/// Replays one record of segment `segment`.
pub open spec fn step(state: Replay, segment: u64, record: Record) -> Replay {
    let key = record.command.key();
    Replay {
        index: indexed(
            state.index,
            record.command,
            CommandPosition { segment, offset: state.offset as u64, length: record.length },
        ),
        uncompacted: state.uncompacted + displaced_length(state.index, key),
        offset: state.offset + record.length as nat,
    }
}

/// Replays the records of segment `segment` in order.
pub open spec fn replay_segment(state: Replay, segment: u64, records: Seq<Record>) -> Replay
    decreases records.len(),
{
    if records.len() == 0 {
        state
    } else {
        step(replay_segment(state, segment, records.drop_last()), segment, records.last())
    }
}

/// Replays the segments of `log` in order.
pub open spec fn replay(log: Seq<SegmentView>) -> Replay
    decreases log.len(),
{
    if log.len() == 0 {
        start()
    } else {
        replay_segment(rewound(replay(log.drop_last())), log.last().id, log.last().records)
    }
}

/// The offset at which record `i` of `records` starts.
pub open spec fn record_start(records: Seq<Record>, i: int) -> nat {
    size_of(records.take(i))
}

/// `log` holds at `position` a `Put` of `value` for `key`.
pub open spec fn holds(
    log: Seq<SegmentView>,
    position: CommandPosition,
    key: Seq<char>,
    value: Seq<char>,
) -> bool {
    exists|j: int, i: int|
        0 <= j < log.len() && 0 <= i < log[j].records.len() && log[j].id == position.segment
            && record_start(log[j].records, i) == position.offset && #[trigger] log[j].records[i]
            == (Record { command: CommandView::Put { key, value }, length: position.length })
}

/// The records that compaction writes: for each key of `keys` a `Put` of
/// its current value, as long as the command that `index` points to.
pub open spec fn compacted_records(
    keys: Seq<Seq<char>>,
    index: Map<Seq<char>, CommandPosition>,
    contents: Map<Seq<char>, Seq<char>>,
) -> Seq<Record> {
    Seq::new(
        keys.len(),
        |i: int|
            Record {
                command: CommandView::Put { key: keys[i], value: contents[keys[i]] },
                length: index[keys[i]].length,
            },
    )
}

/// The log after compaction: segment `target` holds the live commands of
/// `log` in the order of `keys`, and segment `active` is empty.
pub open spec fn compacted(
    log: Seq<SegmentView>,
    keys: Seq<Seq<char>>,
    target: u64,
    active: u64,
) -> Seq<SegmentView> {
    seq![
        SegmentView { id: target, records: compacted_records(keys, replay(log).index, contents(log)) },
        SegmentView { id: active, records: Seq::empty() },
    ]
}

/// Appending a record to the log replays as one more step.
pub proof fn lemma_replay_append(log: Seq<SegmentView>, record: Record)
    requires
        log.len() > 0,
    ensures
        replay(append(log, record)) == step(replay(log), log.last().id, record),
        contents(append(log, record)) == effect(contents(log), record.command),
        stored_bytes(append(log, record)) == stored_bytes(log) + record.length,
        ids(append(log, record)) == ids(log),
        ascending(log) ==> ascending(append(log, record)),
{
    let after = append(log, record);
    assert(after.drop_last() =~= log.drop_last());
    assert(after.last().records.drop_last() =~= log.last().records);
    assert(ids(after) =~= ids(log));
}

/// Opening an empty segment leaves the replayed index and the contents as
/// they are.
pub proof fn lemma_replay_open_segment(log: Seq<SegmentView>, id: u64)
    ensures
        replay(log.push(SegmentView { id, records: Seq::empty() })) == rewound(replay(log)),
        contents(log.push(SegmentView { id, records: Seq::empty() })) == contents(log),
        stored_bytes(log.push(SegmentView { id, records: Seq::empty() })) == stored_bytes(log),
        ids(log.push(SegmentView { id, records: Seq::empty() })) == ids(log).push(id),
{
    let after = log.push(SegmentView { id, records: Seq::empty() });
    assert(after.drop_last() =~= log);
    assert(ids(after) =~= ids(log).push(id));
}

/// A prefix of a segment is no larger than the segment.
pub proof fn lemma_size_of_take(records: Seq<Record>, i: int)
    requires
        0 <= i <= records.len(),
    ensures
        size_of(records.take(i)) <= size_of(records),
        i < records.len() ==> size_of(records.take(i + 1)) == size_of(records.take(i))
            + records[i].length,
    decreases records.len(),
{
    if i < records.len() {
        assert(records.take(i + 1).drop_last() =~= records.take(i));
        assert(records.drop_last().take(i) =~= records.take(i));
        lemma_size_of_take(records.drop_last(), i);
    } else {
        assert(records.take(i) =~= records);
    }
}

/// A prefix of a log takes no more bytes than the log.
pub proof fn lemma_stored_bytes_take(log: Seq<SegmentView>, i: int)
    requires
        0 <= i <= log.len(),
    ensures
        stored_bytes(log.take(i)) <= stored_bytes(log),
        i < log.len() ==> stored_bytes(log.take(i + 1)) == stored_bytes(log.take(i)) + size_of(
            log[i].records,
        ),
    decreases log.len(),
{
    if i < log.len() {
        assert(log.take(i + 1).drop_last() =~= log.take(i));
        assert(log.drop_last().take(i) =~= log.take(i));
        lemma_stored_bytes_take(log.drop_last(), i);
    } else {
        assert(log.take(i) =~= log);
    }
}

/// Replay tracks the size of the segment that it is in.
pub proof fn lemma_replay_segment_offset(state: Replay, segment: u64, records: Seq<Record>)
    ensures
        replay_segment(state, segment, records).offset == state.offset + size_of(records),
    decreases records.len(),
{
    if records.len() > 0 {
        lemma_replay_segment_offset(state, segment, records.drop_last());
    }
}

/// After a replay the offset is the size of the last segment.
pub proof fn lemma_replay_offset(log: Seq<SegmentView>)
    requires
        log.len() > 0,
    ensures
        replay(log).offset == size_of(log.last().records),
        size_of(log.last().records) <= stored_bytes(log),
{
    lemma_replay_segment_offset(rewound(replay(log.drop_last())), log.last().id, log.last().records);
}

/// The bytes that a segment makes stale add to those counted before it.
pub proof fn lemma_replay_segment_uncompacted(state: Replay, segment: u64, records: Seq<Record>)
    ensures
        replay_segment(state, segment, records).index == replay_segment(
            Replay { uncompacted: 0, ..state },
            segment,
            records,
        ).index,
        replay_segment(state, segment, records).uncompacted == state.uncompacted + replay_segment(
            Replay { uncompacted: 0, ..state },
            segment,
            records,
        ).uncompacted,
    decreases records.len(),
{
    if records.len() > 0 {
        lemma_replay_segment_uncompacted(state, segment, records.drop_last());
        lemma_replay_segment_offset(state, segment, records.drop_last());
        lemma_replay_segment_offset(Replay { uncompacted: 0, ..state }, segment, records.drop_last());
    }
}

proof fn lemma_domains_segment(
    state: Replay,
    before: Map<Seq<char>, Seq<char>>,
    segment: u64,
    records: Seq<Record>,
)
    requires
        state.index.dom() =~= before.dom(),
    ensures
        replay_segment(state, segment, records).index.dom() =~= contents_after(
            before,
            records,
        ).dom(),
    decreases records.len(),
{
    if records.len() > 0 {
        lemma_domains_segment(state, before, segment, records.drop_last());
    }
}

/// The replayed index holds exactly the keys that have a value.
pub proof fn lemma_replay_domains(log: Seq<SegmentView>)
    ensures
        replay(log).index.dom() =~= contents(log).dom(),
    decreases log.len(),
{
    if log.len() > 0 {
        lemma_replay_domains(log.drop_last());
        lemma_domains_segment(
            rewound(replay(log.drop_last())),
            contents(log.drop_last()),
            log.last().id,
            log.last().records,
        );
    }
}

/// `after` holds every record of `log` at the place where `log` holds it.
pub open spec fn extends(after: Seq<SegmentView>, log: Seq<SegmentView>) -> bool {
    &&& log.len() <= after.len()
    &&& forall|j: int|
        0 <= j < log.len() ==> (#[trigger] after[j]).id == log[j].id && log[j].records.len()
            <= after[j].records.len() && after[j].records.take(log[j].records.len() as int)
            == log[j].records
}

/// What a log holds, every log that extends it holds too.
pub proof fn lemma_holds_extends(
    after: Seq<SegmentView>,
    log: Seq<SegmentView>,
    position: CommandPosition,
    key: Seq<char>,
    value: Seq<char>,
)
    requires
        extends(after, log),
        holds(log, position, key, value),
    ensures
        holds(after, position, key, value),
{
    let (j, i) = choose|j: int, i: int|
        0 <= j < log.len() && 0 <= i < log[j].records.len() && log[j].id == position.segment
            && record_start(log[j].records, i) == position.offset && #[trigger] log[j].records[i]
            == (Record { command: CommandView::Put { key, value }, length: position.length });
    let n = log[j].records.len() as int;
    assert(after[j].id == log[j].id);
    assert(after[j].records.take(n)[i] == after[j].records[i]);
    assert(after[j].records.take(n).take(i) =~= after[j].records.take(i));
    assert(after[j].records[i] == (Record {
        command: CommandView::Put { key, value },
        length: position.length,
    }));
}

proof fn lemma_agrees_segment(
    prefix: Seq<SegmentView>,
    state: Replay,
    before: Map<Seq<char>, Seq<char>>,
    id: u64,
    records: Seq<Record>,
)
    requires
        state.offset == 0,
        state.index.dom() =~= before.dom(),
        forall|k: Seq<char>| #[trigger]
            state.index.contains_key(k) ==> holds(prefix, state.index[k], k, before[k]),
        size_of(records) <= u64::MAX,
    ensures
        forall|k: Seq<char>| #[trigger]
            replay_segment(state, id, records).index.contains_key(k) ==> holds(
                prefix.push(SegmentView { id, records }),
                replay_segment(state, id, records).index[k],
                k,
                contents_after(before, records)[k],
            ),
    decreases records.len(),
{
    let log = prefix.push(SegmentView { id, records });
    let after = replay_segment(state, id, records);
    if records.len() == 0 {
        assert forall|j: int| 0 <= j < prefix.len() implies (#[trigger] log[j]).id == prefix[j].id
            && prefix[j].records.len() <= log[j].records.len() && log[j].records.take(
            prefix[j].records.len() as int,
        ) == prefix[j].records by {
            assert(log[j].records.take(prefix[j].records.len() as int) =~= prefix[j].records);
        }
        assert(extends(log, prefix));
        assert forall|k: Seq<char>| #[trigger] after.index.contains_key(k) implies holds(
            log,
            after.index[k],
            k,
            contents_after(before, records)[k],
        ) by {
            lemma_holds_extends(log, prefix, state.index[k], k, before[k]);
        }
    } else {
        let init = records.drop_last();
        let last = records.last();
        let mid = replay_segment(state, id, init);
        let log_mid = prefix.push(SegmentView { id, records: init });
        let values_mid = contents_after(before, init);
        lemma_agrees_segment(prefix, state, before, id, init);
        lemma_replay_segment_offset(state, id, init);
        lemma_domains_segment(state, before, id, init);
        assert forall|j: int| 0 <= j < log_mid.len() implies (#[trigger] log[j]).id
            == log_mid[j].id && log_mid[j].records.len() <= log[j].records.len()
            && log[j].records.take(log_mid[j].records.len() as int) == log_mid[j].records by {
            assert(log[j].records.take(log_mid[j].records.len() as int) =~= log_mid[j].records);
        }
        assert(extends(log, log_mid));
        assert forall|k: Seq<char>| #[trigger] after.index.contains_key(k) implies holds(
            log,
            after.index[k],
            k,
            contents_after(before, records)[k],
        ) by {
            if last.command is Put && k == last.command.key() {
                let j = prefix.len() as int;
                let i = init.len() as int;
                assert(records.take(i) =~= init);
                assert(log[j].records[i] == last);
                assert(record_start(log[j].records, i) == mid.offset);
            } else {
                assert(mid.index.contains_key(k));
                lemma_holds_extends(log, log_mid, mid.index[k], k, values_mid[k]);
            }
        }
    }
}

/// The index agrees with the log: the position replayed for a key is that
/// of a `Put` of the key's current value.
pub proof fn lemma_replay_agrees(log: Seq<SegmentView>)
    requires
        stored_bytes(log) <= u64::MAX,
    ensures
        forall|k: Seq<char>| #[trigger]
            replay(log).index.contains_key(k) ==> holds(
                log,
                replay(log).index[k],
                k,
                contents(log)[k],
            ),
    decreases log.len(),
{
    if log.len() > 0 {
        let prefix = log.drop_last();
        lemma_replay_agrees(prefix);
        lemma_replay_domains(prefix);
        lemma_agrees_segment(
            prefix,
            rewound(replay(prefix)),
            contents(prefix),
            log.last().id,
            log.last().records,
        );
        assert(prefix.push(SegmentView { id: log.last().id, records: log.last().records })
            =~= log);
    }
}

/// A position that the log holds names one of its segments.
pub proof fn lemma_holds_segment(
    log: Seq<SegmentView>,
    position: CommandPosition,
    key: Seq<char>,
    value: Seq<char>,
)
    requires
        holds(log, position, key, value),
    ensures
        ids(log).contains(position.segment),
{
    let (j, i) = choose|j: int, i: int|
        0 <= j < log.len() && 0 <= i < log[j].records.len() && log[j].id == position.segment
            && record_start(log[j].records, i) == position.offset && #[trigger] log[j].records[i]
            == (Record { command: CommandView::Put { key, value }, length: position.length });
    assert(ids(log)[j] == position.segment);
}

proof fn lemma_compacted_prefix(
    keys: Seq<Seq<char>>,
    index: Map<Seq<char>, CommandPosition>,
    values: Map<Seq<char>, Seq<char>>,
    positions: Seq<CommandPosition>,
    target: u64,
    n: int,
)
    requires
        0 <= n <= keys.len(),
        keys.no_duplicates(),
        keys.len() == positions.len(),
        forall|i: int| 0 <= i < keys.len() ==> index[#[trigger] keys[i]] == positions[i],
        total_length(positions) <= u64::MAX,
    ensures
        forall|k: Seq<char>| #[trigger]
            replay_segment(
                start(),
                target,
                compacted_records(keys, index, values).take(n),
            ).index.contains_key(k) <==> keys.take(n).contains(k),
        forall|i: int|
            0 <= i < n ==> replay_segment(
                start(),
                target,
                compacted_records(keys, index, values).take(n),
            ).index[#[trigger] keys[i]] == relocated(positions, target)[i],
        replay_segment(
            start(),
            target,
            compacted_records(keys, index, values).take(n),
        ).uncompacted == 0,
        replay_segment(start(), target, compacted_records(keys, index, values).take(n)).offset
            == total_length(positions.take(n)),
        size_of(compacted_records(keys, index, values).take(n)) == total_length(
            positions.take(n),
        ),
        forall|k: Seq<char>| #[trigger]
            contents_after(
                Map::empty(),
                compacted_records(keys, index, values).take(n),
            ).contains_key(k) <==> keys.take(n).contains(k),
        forall|i: int|
            0 <= i < n ==> contents_after(
                Map::empty(),
                compacted_records(keys, index, values).take(n),
            )[#[trigger] keys[i]] == values[keys[i]],
    decreases n,
{
    let all = compacted_records(keys, index, values);
    let records = all.take(n);
    let state = replay_segment(start(), target, records);
    let after = contents_after(Map::empty(), records);
    if n == 0 {
        assert(positions.take(0) =~= Seq::<CommandPosition>::empty());
        assert(records.len() == 0);
        assert(state == start());
        assert(after == Map::<Seq<char>, Seq<char>>::empty());
        assert(keys.take(0).len() == 0);
    } else {
        let m = n - 1;
        lemma_compacted_prefix(keys, index, values, positions, target, m);
        crate::index::lemma_total_length_take(positions, m);
        crate::index::lemma_total_length_take(positions, n);
        assert(records.drop_last() =~= all.take(m));
        assert(records.last() == all[m]);
        let before = replay_segment(start(), target, all.take(m));
        let values_before = contents_after(Map::empty(), all.take(m));
        assert(state == step(before, target, all[m]));
        assert(after == effect(values_before, all[m].command));
        assert(all[m].command.key() == keys[m]);
        assert(all[m].length == positions[m].length);
        assert(!keys.take(m).contains(keys[m])) by {
            if keys.take(m).contains(keys[m]) {
                let i = choose|i: int| 0 <= i < m && keys.take(m)[i] == keys[m];
                assert(keys[i] == keys[m]);
            }
        }
        assert forall|k: Seq<char>| #[trigger]
            keys.take(n).contains(k) <==> (keys.take(m).contains(k) || k == keys[m]) by {
            if keys.take(n).contains(k) {
                let i = choose|i: int| 0 <= i < n && keys.take(n)[i] == k;
                if i < m {
                    assert(keys.take(m)[i] == k);
                }
            }
            if keys.take(m).contains(k) {
                let i = choose|i: int| 0 <= i < m && keys.take(m)[i] == k;
                assert(keys.take(n)[i] == k);
            }
            if k == keys[m] {
                assert(keys.take(n)[m] == k);
            }
        }
        assert(!before.index.contains_key(keys[m]));
        assert(state.uncompacted == 0);
        assert(state.offset == total_length(positions.take(n)));
        assert(size_of(records) == total_length(positions.take(n)));
        assert forall|k: Seq<char>| #[trigger]
            state.index.contains_key(k) <==> keys.take(n).contains(k) by {
            assert(state.index.contains_key(k) <==> (before.index.contains_key(k) || k
                == keys[m]));
        }
        assert forall|k: Seq<char>| #[trigger] after.contains_key(k) <==> keys.take(n).contains(
            k,
        ) by {
            assert(after.contains_key(k) <==> (values_before.contains_key(k) || k == keys[m]));
        }
        assert forall|i: int| 0 <= i < n implies state.index[#[trigger] keys[i]] == relocated(
            positions,
            target,
        )[i] by {
            if i < m {
                assert(keys[i] != keys[m]);
                assert(state.index[keys[i]] == before.index[keys[i]]);
            } else {
                assert(before.offset == total_length(positions.take(m)));
            }
        }
        assert forall|i: int| 0 <= i < n implies after[#[trigger] keys[i]] == values[keys[i]] by {
            if i < m {
                assert(keys[i] != keys[m]);
                assert(after[keys[i]] == values_before[keys[i]]);
            }
        }
    }
}

/// Replaying a compacted log gives every live key its place in the target
/// segment and leaves the contents as they were; nothing in it is stale.
pub proof fn lemma_replay_compacted(
    log: Seq<SegmentView>,
    keys: Seq<Seq<char>>,
    positions: Seq<CommandPosition>,
    target: u64,
    active: u64,
)
    requires
        keys.no_duplicates(),
        keys.len() == positions.len(),
        forall|k: Seq<char>| #[trigger] replay(log).index.contains_key(k) <==> keys.contains(k),
        forall|i: int|
            0 <= i < keys.len() ==> replay(log).index[#[trigger] keys[i]] == positions[i],
        total_length(positions) <= u64::MAX,
    ensures
        forall|k: Seq<char>| #[trigger]
            replay(compacted(log, keys, target, active)).index.contains_key(k) <==> keys.contains(
                k,
            ),
        forall|i: int|
            0 <= i < keys.len() ==> replay(compacted(log, keys, target, active)).index[#[trigger] keys[i]]
                == relocated(positions, target)[i],
        replay(compacted(log, keys, target, active)).uncompacted == 0,
        replay(compacted(log, keys, target, active)).offset == 0,
        contents(compacted(log, keys, target, active)) == contents(log),
        stored_bytes(compacted(log, keys, target, active)) == total_length(positions),
        ids(compacted(log, keys, target, active)) == seq![target, active],
        target < active ==> ascending(compacted(log, keys, target, active)),
{
    let after = compacted(log, keys, target, active);
    let records = compacted_records(keys, replay(log).index, contents(log));
    let first = seq![SegmentView { id: target, records }];
    lemma_compacted_prefix(keys, replay(log).index, contents(log), positions, target, keys.len() as int);
    assert(records.take(keys.len() as int) =~= records);
    assert(keys.take(keys.len() as int) =~= keys);
    assert(positions.take(keys.len() as int) =~= positions);
    assert(after.drop_last() =~= first);
    assert(first.drop_last() =~= Seq::<SegmentView>::empty());
    assert(replay(first.drop_last()) == start());
    assert(contents(first.drop_last()) == Map::<Seq<char>, Seq<char>>::empty());
    assert(rewound(start()) == start());
    assert(replay(first) == replay_segment(start(), target, records));
    assert(replay(after) == rewound(replay(first)));
    assert(contents(first) == contents_after(Map::empty(), records));
    assert(contents(after) == contents(first));
    lemma_replay_domains(log);
    assert(contents(after) =~= contents(log)) by {
        assert forall|k: Seq<char>| contents(after).contains_key(k) implies #[trigger] contents(
            after,
        )[k] == contents(log)[k] by {
            let i = choose|i: int| 0 <= i < keys.len() && keys[i] == k;
            assert(contents(after)[keys[i]] == contents(log)[keys[i]]);
        }
        assert forall|k: Seq<char>| contents(after).contains_key(k) <==> contents(
            log,
        ).contains_key(k) by {
            assert(replay(log).index.dom().contains(k) <==> contents(log).dom().contains(k));
        }
    }
    assert(stored_bytes(first.drop_last()) == 0);
    assert(stored_bytes(first) == size_of(records));
    assert(stored_bytes(after) == stored_bytes(first) + size_of(Seq::<Record>::empty()));
    assert(ids(after) =~= seq![target, active]);
}

} // verus!
