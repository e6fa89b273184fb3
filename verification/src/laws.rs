//! Laws of the store, stated over the model of the log.

use crate::command::{CommandPosition, CommandView};
use crate::index::total_length;
use crate::kv::KvStore;
use crate::log::{
    append, compacted, contents, contents_after, effect, holds, lemma_replay_append,
    lemma_replay_compacted, lemma_replay_open_segment, replay, stored_bytes, Record, SegmentView,
};
use vstd::prelude::*;

verus! {

/// The contents after the commands of `commands` have taken effect, in
/// order, on `contents`.
pub open spec fn run(contents: Map<Seq<char>, Seq<char>>, commands: Seq<CommandView>) -> Map<
    Seq<char>,
    Seq<char>,
>
    decreases commands.len(),
{
    if commands.len() == 0 {
        contents
    } else {
        effect(run(contents, commands.drop_last()), commands.last())
    }
}

/// The last command of `commands` that affects `key`, if there is one.
pub open spec fn last_write(commands: Seq<CommandView>, key: Seq<char>) -> Option<CommandView>
    decreases commands.len(),
{
    if commands.len() == 0 {
        None
    } else if commands.last().key() == key {
        Some(commands.last())
    } else {
        last_write(commands.drop_last(), key)
    }
}

/// Round trip: after any sequence of commands a key has the value of the
/// last `Put` for it, unless a `Remove` for it came later; a key that no
/// command affects is as it was.
pub proof fn law_round_trip(
    contents: Map<Seq<char>, Seq<char>>,
    commands: Seq<CommandView>,
    key: Seq<char>,
)
    ensures
        match last_write(commands, key) {
            Some(CommandView::Put { key: _, value }) => run(contents, commands).contains_key(key)
                && run(contents, commands)[key] == value,
            Some(CommandView::Remove { key: _ }) => !run(contents, commands).contains_key(key),
            None => run(contents, commands).contains_key(key) == contents.contains_key(key) && (
            contents.contains_key(key) ==> run(contents, commands)[key] == contents[key]),
        },
    decreases commands.len(),
{
    if commands.len() > 0 {
        law_round_trip(contents, commands.drop_last(), key);
    }
}

/// The commands of `records`, in order.
pub open spec fn commands_of(records: Seq<Record>) -> Seq<CommandView> {
    Seq::new(records.len(), |i: int| records[i].command)
}

/// The commands of `log` in log order: by segment, and within a segment by
/// offset.
pub open spec fn commands(log: Seq<SegmentView>) -> Seq<CommandView>
    decreases log.len(),
{
    if log.len() == 0 {
        Seq::empty()
    } else {
        commands(log.drop_last()) + commands_of(log.last().records)
    }
}

/// Running two sequences of commands one after the other is running their
/// concatenation.
pub proof fn lemma_run_concat(
    contents: Map<Seq<char>, Seq<char>>,
    first: Seq<CommandView>,
    second: Seq<CommandView>,
)
    ensures
        run(contents, first + second) == run(run(contents, first), second),
    decreases second.len(),
{
    if second.len() == 0 {
        assert(first + second =~= first);
    } else {
        lemma_run_concat(contents, first, second.drop_last());
        assert((first + second).drop_last() =~= first + second.drop_last());
        assert((first + second).last() == second.last());
    }
}

proof fn lemma_contents_after_run(contents: Map<Seq<char>, Seq<char>>, records: Seq<Record>)
    ensures
        contents_after(contents, records) == run(contents, commands_of(records)),
    decreases records.len(),
{
    if records.len() > 0 {
        lemma_contents_after_run(contents, records.drop_last());
        assert(commands_of(records).drop_last() =~= commands_of(records.drop_last()));
    }
}

/// The contents of a log are what its commands give when they are run in
/// log order on an empty store.
pub proof fn lemma_contents_run(log: Seq<SegmentView>)
    ensures
        contents(log) == run(Map::empty(), commands(log)),
    decreases log.len(),
{
    if log.len() > 0 {
        lemma_contents_run(log.drop_last());
        lemma_contents_after_run(contents(log.drop_last()), log.last().records);
        lemma_run_concat(
            Map::empty(),
            commands(log.drop_last()),
            commands_of(log.last().records),
        );
    }
}

/// The invariant of the index: a key is in the index if and only if the
/// last command of the log that affects it is a `Put`, and the index then
/// points to where the log holds a `Put` of that value for the key.
pub proof fn law_index_follows_log(store: KvStore, key: Seq<char>)
    requires
        store.wf(),
    ensures
        match last_write(commands(store.log()), key) {
            Some(CommandView::Put { key: _, value }) => store.index().contains_key(key)
                && store@[key] == value && holds(store.log(), store.index()[key], key, value),
            _ => !store.index().contains_key(key),
        },
{
    store.lemma_index_agrees();
    lemma_contents_run(store.log());
    law_round_trip(Map::empty(), commands(store.log()), key);
    assert(store.index().dom().contains(key) <==> store@.dom().contains(key));
}

/// Persistence: a store that is opened on the log of another store has the
/// contents, the index and the count of stale bytes of that store.
pub proof fn law_persistence(store: KvStore, reopened: KvStore, active: u64)
    requires
        store.wf(),
        reopened.wf(),
        reopened.log() == store.log().push(SegmentView { id: active, records: Seq::empty() }),
    ensures
        reopened@ == store@,
        reopened.index() == store.index(),
        reopened.uncompacted() == store.uncompacted(),
{
    lemma_replay_open_segment(store.log(), active);
}

/// Compaction transparency: compaction changes neither the contents nor
/// the keys of the index, whatever the order in which it copies the live
/// commands, and the index then points into the compacted log.
pub proof fn law_compaction_transparent(store: KvStore, compact: KvStore, target: u64, active: u64)
    requires
        store.wf(),
        compact.wf(),
        compact.log() == compacted(store.log(), compact.key_order(), target, active),
        compact.key_order().no_duplicates(),
        forall|k: Seq<char>| #[trigger]
            store.index().contains_key(k) <==> compact.key_order().contains(k),
    ensures
        compact@ == store@,
        compact.index().dom() =~= store.index().dom(),
{
    store.lemma_index_agrees();
    compact.lemma_index_agrees();
    let order = compact.key_order();
    let positions = Seq::new(order.len(), |i: int| store.index()[order[i]]);
    lemma_live_positions_fit(store, order);
    lemma_replay_compacted(store.log(), order, positions, target, active);
}

/// The commands of a choice of distinct live keys take no more bytes than
/// the live commands do.
proof fn lemma_live_positions_fit(store: KvStore, order: Seq<Seq<char>>)
    requires
        store.wf(),
        order.no_duplicates(),
        forall|k: Seq<char>| #[trigger] store.index().contains_key(k) <==> order.contains(k),
    ensures
        total_length(Seq::new(order.len(), |i: int| store.index()[order[i]]))
            <= u64::MAX,
{
    store.lemma_index_agrees();
    let keys = store.key_order();
    let positions = Seq::new(order.len(), |i: int| store.index()[order[i]]);
    assert(store.positions() =~= Seq::new(keys.len(), |i: int| store.index()[keys[i]]));
    assert forall|k: Seq<char>| order.contains(k) <==> keys.contains(k) by {
        assert(store.index().contains_key(k) <==> order.contains(k));
        assert(store.index().contains_key(k) <==> keys.contains(k));
    }
    lemma_total_length_permuted(store.index(), order, keys);
}

/// The total length of the positions of distinct keys depends on the keys
/// only, not on their order.
proof fn lemma_total_length_permuted(
    index: Map<Seq<char>, CommandPosition>,
    a: Seq<Seq<char>>,
    b: Seq<Seq<char>>,
)
    requires
        a.no_duplicates(),
        b.no_duplicates(),
        forall|k: Seq<char>| a.contains(k) <==> b.contains(k),
    ensures
        total_length(Seq::new(a.len(), |i: int| index[a[i]]))
            == total_length(Seq::new(b.len(), |i: int| index[b[i]])),
    decreases a.len(),
{
    let pa = Seq::new(a.len(), |i: int| index[a[i]]);
    let pb = Seq::new(b.len(), |i: int| index[b[i]]);
    if a.len() == 0 {
        if b.len() > 0 {
            assert(b.contains(b[0]));
            assert(a.contains(b[0]));
        }
    } else {
        let k = a.last();
        assert(a.contains(k));
        assert(b.contains(k));
        let j = choose|j: int| 0 <= j < b.len() && b[j] == k;
        let a1 = a.drop_last();
        let b1 = b.remove(j);
        assert(a1.no_duplicates());
        assert(b1.no_duplicates()) by {
            assert forall|x: int, y: int| 0 <= x < b1.len() && 0 <= y < b1.len() && x != y implies b1[x]
                != b1[y] by {
                let x0 = if x < j { x } else { x + 1 };
                let y0 = if y < j { y } else { y + 1 };
                assert(b1[x] == b[x0] && b1[y] == b[y0]);
            }
        }
        assert forall|q: Seq<char>| a1.contains(q) <==> b1.contains(q) by {
            if a1.contains(q) {
                let x = choose|x: int| 0 <= x < a1.len() && a1[x] == q;
                assert(a[x] == q);
                assert(a.contains(q));
                assert(q != k);
                let y = choose|y: int| 0 <= y < b.len() && b[y] == q;
                let y1 = if y < j { y } else { y - 1 };
                assert(b1[y1] == q);
            }
            if b1.contains(q) {
                let y = choose|y: int| 0 <= y < b1.len() && b1[y] == q;
                let y0 = if y < j { y } else { y + 1 };
                assert(b[y0] == q);
                assert(b.contains(q));
                assert(q != k);
                let x = choose|x: int| 0 <= x < a.len() && a[x] == q;
                assert(a1[x] == q);
            }
        }
        lemma_total_length_permuted(index, a1, b1);
        let pa1 = Seq::new(a1.len(), |i: int| index[a1[i]]);
        let pb1 = Seq::new(b1.len(), |i: int| index[b1[i]]);
        assert(pa.drop_last() =~= pa1);
        assert(pb.remove(j) =~= pb1);
        lemma_total_length_remove(pb, j);
    }
}

/// Taking one position out takes its length off the total.
proof fn lemma_total_length_remove(positions: Seq<CommandPosition>, j: int)
    requires
        0 <= j < positions.len(),
    ensures
        total_length(positions) == total_length(positions.remove(j))
            + positions[j].length,
    decreases positions.len(),
{
    if j == positions.len() - 1 {
        assert(positions.remove(j) =~= positions.drop_last());
    } else {
        assert(positions.remove(j).drop_last() =~= positions.drop_last().remove(j));
        assert(positions.remove(j).last() == positions.last());
        lemma_total_length_remove(positions.drop_last(), j);
    }
}

/// Space reclamation: a compacted log takes exactly the bytes of the live
/// commands; no stale byte is left.
pub proof fn law_space_reclaimed(store: KvStore, compact: KvStore, target: u64, active: u64)
    requires
        store.wf(),
        compact.wf(),
        compact.log() == compacted(store.log(), compact.key_order(), target, active),
        compact.key_order().no_duplicates(),
        forall|k: Seq<char>| #[trigger]
            store.index().contains_key(k) <==> compact.key_order().contains(k),
    ensures
        stored_bytes(compact.log()) == store.live_bytes(),
        stored_bytes(compact.log()) + store.uncompacted() <= stored_bytes(store.log()),
        compact.uncompacted() == 0,
{
    store.lemma_index_agrees();
    let order = compact.key_order();
    let keys = store.key_order();
    let positions = Seq::new(order.len(), |i: int| store.index()[order[i]]);
    lemma_live_positions_fit(store, order);
    assert(store.positions() =~= Seq::new(keys.len(), |i: int| store.index()[keys[i]]));
    assert forall|k: Seq<char>| order.contains(k) <==> keys.contains(k) by {
        assert(store.index().contains_key(k) <==> order.contains(k));
        assert(store.index().contains_key(k) <==> keys.contains(k));
    }
    lemma_total_length_permuted(store.index(), order, keys);
    lemma_replay_compacted(store.log(), order, positions, target, active);
}

/// Remove semantics: a `Remove` of a key without a value leaves the
/// contents as they are.
pub proof fn law_remove_absent(contents: Map<Seq<char>, Seq<char>>, key: Seq<char>)
    requires
        !contents.contains_key(key),
    ensures
        effect(contents, CommandView::Remove { key }) == contents,
{
    assert(contents.remove(key) =~= contents);
}

/// A key that has been removed has no value, so that a second `Remove` of
/// it finds none.
pub proof fn law_remove_once(contents: Map<Seq<char>, Seq<char>>, key: Seq<char>)
    ensures
        !effect(contents, CommandView::Remove { key }).contains_key(key),
{
}

/// Idempotent duplicate set: putting the same value twice gives the
/// contents that putting it once gives.
pub proof fn law_put_twice(contents: Map<Seq<char>, Seq<char>>, key: Seq<char>, value: Seq<char>)
    ensures
        effect(effect(contents, CommandView::Put { key, value }), CommandView::Put { key, value })
            == effect(contents, CommandView::Put { key, value }),
{
    assert(contents.insert(key, value).insert(key, value) =~= contents.insert(key, value));
}

/// The second of two equal `Put`s makes the first one stale: the count of
/// stale bytes grows by the length of the first.
pub proof fn law_put_twice_stale(
    log: Seq<SegmentView>,
    key: Seq<char>,
    value: Seq<char>,
    first: u64,
    second: u64,
)
    requires
        log.len() > 0,
    ensures
        ({
            let command = CommandView::Put { key, value };
            let once = append(log, Record { command, length: first });
            let twice = append(once, Record { command, length: second });
            &&& replay(twice).uncompacted == replay(once).uncompacted + first
            &&& contents(twice) == contents(once)
        }),
{
    let command = CommandView::Put { key, value };
    let once = append(log, Record { command, length: first });
    lemma_replay_append(log, Record { command, length: first });
    lemma_replay_append(once, Record { command, length: second });
    assert(contents(log).insert(key, value).insert(key, value) =~= contents(log).insert(
        key,
        value,
    ));
}

} // verus!
