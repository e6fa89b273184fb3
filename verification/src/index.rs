//! The in-memory index: a map from each live key to the position of the
//! command that defines its current value.
//!
//! Keys are looked up through a hash map and are also kept in a dense
//! vector, so that every entry can be visited in turn when the log is
//! compacted. Removing a key moves the last entry into the freed slot.

use crate::command::CommandPosition;
use vstd::hash_map::StringHashMap;
use vstd::prelude::*;

verus! {

/// The sum of the lengths of the commands at `positions`.
pub open spec fn total_length(positions: Seq<CommandPosition>) -> nat
    decreases positions.len(),
{
    if positions.len() == 0 {
        0
    } else {
        total_length(positions.drop_last()) + positions.last().length as nat
    }
}

/// Where the commands at `positions` lie once they have been copied, in
/// order and without gaps, to the start of `segment`.
pub open spec fn relocated(positions: Seq<CommandPosition>, segment: u64) -> Seq<CommandPosition> {
    Seq::new(
        positions.len(),
        |i: int|
            CommandPosition {
                segment,
                offset: total_length(positions.take(i)) as u64,
                length: positions[i].length,
            },
    )
}

/// The position that `index` holds for `key`, if any.
pub open spec fn lookup(index: Map<Seq<char>, CommandPosition>, key: Seq<char>) -> Option<
    CommandPosition,
> {
    if index.contains_key(key) {
        Some(index[key])
    } else {
        None
    }
}

/// The number of bytes taken by the command that `index` holds for `key`,
/// and 0 if it holds none.
pub open spec fn displaced_length(index: Map<Seq<char>, CommandPosition>, key: Seq<char>) -> nat {
    if index.contains_key(key) {
        index[key].length as nat
    } else {
        0
    }
}

pub proof fn lemma_total_length_take(positions: Seq<CommandPosition>, i: int)
    requires
        0 <= i <= positions.len(),
    ensures
        total_length(positions.take(i)) <= total_length(positions),
        i < positions.len() ==> total_length(positions.take(i + 1)) == total_length(
            positions.take(i),
        ) + positions[i].length,
    decreases positions.len(),
{
    if i < positions.len() {
        assert(positions.take(i + 1).drop_last() =~= positions.take(i));
        assert(positions.take(i + 1).last() == positions[i]);
        assert(positions.drop_last().take(i) =~= positions.take(i));
        lemma_total_length_take(positions.drop_last(), i);
    } else {
        assert(positions.take(i) =~= positions);
    }
}

pub proof fn lemma_total_length_update(
    positions: Seq<CommandPosition>,
    i: int,
    position: CommandPosition,
)
    requires
        0 <= i < positions.len(),
    ensures
        total_length(positions.update(i, position)) + positions[i].length == total_length(
            positions,
        ) + position.length,
    decreases positions.len(),
{
    let updated = positions.update(i, position);
    if i == positions.len() - 1 {
        assert(updated.drop_last() =~= positions.drop_last());
    } else {
        assert(updated.drop_last() =~= positions.drop_last().update(i, position));
        lemma_total_length_update(positions.drop_last(), i, position);
    }
}

/// A map from keys to command positions.
pub struct Index {
    slots: StringHashMap<usize>,
    keys: Vec<String>,
    positions: Vec<CommandPosition>,
}

impl View for Index {
    type V = Map<Seq<char>, CommandPosition>;

    closed spec fn view(&self) -> Map<Seq<char>, CommandPosition> {
        Map::new(
            |k: Seq<char>| self.slots@.contains_key(k),
            |k: Seq<char>| self.positions@[self.slots@[k] as int],
        )
    }
}

impl Index {
    /// The keys of the index, in the order in which compaction visits them.
    pub closed spec fn keys(&self) -> Seq<Seq<char>> {
        Seq::new(self.keys@.len(), |i: int| self.keys@[i]@)
    }

    /// The positions of the index, each at the place of its key in `keys`.
    pub closed spec fn positions(&self) -> Seq<CommandPosition> {
        self.positions@
    }

    /// The number of bytes that the indexed commands take in the log.
    pub open spec fn live_bytes(&self) -> nat {
        total_length(self.positions())
    }

    /// The slots and the dense vectors describe the same entries.
    pub closed spec fn wf(&self) -> bool {
        &&& self.keys@.len() == self.positions@.len()
        &&& forall|i: int|
            0 <= i < self.keys@.len() ==> self.slots@.contains_key(#[trigger] self.keys@[i]@)
                && self.slots@[self.keys@[i]@] == i
        &&& forall|k: Seq<char>| #[trigger]
            self.slots@.contains_key(k) ==> self.slots@[k] < self.keys@.len()
                && self.keys@[self.slots@[k] as int]@ == k
    }

    /// `keys` lists every key of the index once, and `positions` holds at
    /// each place the position of the key at that place.
    pub proof fn lemma_keys(&self)
        requires
            self.wf(),
        ensures
            self.keys().len() == self.positions().len(),
            self.keys().no_duplicates(),
            forall|k: Seq<char>| #[trigger] self@.contains_key(k) <==> self.keys().contains(k),
            forall|i: int|
                0 <= i < self.keys().len() ==> self@.contains_key(#[trigger] self.keys()[i])
                    && self@[self.keys()[i]] == self.positions()[i],
    {
        assert forall|k: Seq<char>| self@.contains_key(k) implies self.keys().contains(k) by {
            assert(self.keys()[self.slots@[k] as int] == k);
        }
    }

    /// An index without keys.
    pub fn new() -> (index: Index)
        ensures
            index.wf(),
            index@ == Map::<Seq<char>, CommandPosition>::empty(),
            index.keys() == Seq::<Seq<char>>::empty(),
            index.positions() == Seq::<CommandPosition>::empty(),
    {
        let index = Index { slots: StringHashMap::new(), keys: Vec::new(), positions: Vec::new() };
        assert(index@ =~= Map::<Seq<char>, CommandPosition>::empty());
        assert(index.keys() =~= Seq::<Seq<char>>::empty());
        index
    }

    /// The number of keys.
    pub fn len(&self) -> (n: usize)
        requires
            self.wf(),
        ensures
            n == self.keys().len(),
    {
        self.keys.len()
    }

    /// Whether the index holds `key`.
    pub fn contains_key(&self, key: &str) -> (found: bool)
        ensures
            found == self@.contains_key(key@),
    {
        self.slots.contains_key(key)
    }

    /// The position held for `key`.
    pub fn get(&self, key: &str) -> (found: Option<CommandPosition>)
        requires
            self.wf(),
        ensures
            found == lookup(self@, key@),
    {
        match self.slots.get(key) {
            Some(slot) => Some(self.positions[*slot]),
            None => None,
        }
    }

    /// Sets the position of `key` and returns the one it had before.
    pub fn insert(&mut self, key: String, position: CommandPosition) -> (displaced: Option<
        CommandPosition,
    >)
        requires
            old(self).wf(),
        ensures
            final(self).wf(),
            final(self)@ == old(self)@.insert(key@, position),
            displaced == lookup(old(self)@, key@),
            final(self).live_bytes() + displaced_length(old(self)@, key@) == old(self).live_bytes()
                + position.length,
            old(self)@.contains_key(key@) ==> final(self).keys() == old(self).keys(),
            !old(self)@.contains_key(key@) ==> final(self).keys() == old(self).keys().push(key@),
    {
        let found = match self.slots.get(key.as_str()) {
            Some(slot) => Some(*slot),
            None => None,
        };
        match found {
            Some(i) => {
                let before = self.positions[i];
                self.positions.set(i, position);
                proof {
                    lemma_total_length_update(old(self).positions@, i as int, position);
                }
                assert(self@ =~= old(self)@.insert(key@, position));
                Some(before)
            },
            None => {
                let n: usize = self.keys.len();
                self.slots.insert(key.clone(), n);
                self.keys.push(key);
                self.positions.push(position);
                assert(self.positions@.drop_last() =~= old(self).positions@);
                assert(self@ =~= old(self)@.insert(key@, position));
                assert(self.keys() =~= old(self).keys().push(key@));
                None
            },
        }
    }

    /// Drops `key` and returns the position it had.
    pub fn remove(&mut self, key: &str) -> (displaced: Option<CommandPosition>)
        requires
            old(self).wf(),
        ensures
            final(self).wf(),
            final(self)@ == old(self)@.remove(key@),
            displaced == lookup(old(self)@, key@),
            final(self).live_bytes() + displaced_length(old(self)@, key@) == old(self).live_bytes(),
    {
        let found = match self.slots.get(key) {
            Some(slot) => Some(*slot),
            None => None,
        };
        match found {
            None => {
                assert(self@ =~= old(self)@.remove(key@));
                None
            },
            Some(i) => {
                self.slots.remove(key);
                self.keys.swap_remove(i);
                let before = self.positions.swap_remove(i);
                proof {
                    let was = old(self).positions@;
                    lemma_total_length_update(was, i as int, was.last());
                    assert(was.update(i as int, was.last()).last() == was.last());
                }
                if i < self.keys.len() {
                    let moved = self.keys[i].clone();
                    self.slots.insert(moved, i);
                }
                assert(self@ =~= old(self)@.remove(key@));
                Some(before)
            },
        }
    }

    /// Gives every entry its place in `segment`, where the indexed commands
    /// follow one another from offset 0 in the order of `keys`. Returns the
    /// positions that the entries had and the number of bytes that the
    /// commands take together.
    pub fn relocate(&mut self, segment: u64) -> (moved: (Vec<CommandPosition>, u64))
        requires
            old(self).wf(),
            old(self).live_bytes() <= u64::MAX,
        ensures
            final(self).wf(),
            final(self).keys() == old(self).keys(),
            moved.0@ == old(self).positions(),
            moved.1 == old(self).live_bytes(),
            final(self).positions() == relocated(old(self).positions(), segment),
            final(self).live_bytes() == old(self).live_bytes(),
    {
        let mut sources: Vec<CommandPosition> = Vec::new();
        let mut offset: u64 = 0;
        let mut i: usize = 0;
        let ghost was = self.positions@;
        while i < self.positions.len()
            invariant
                self.wf(),
                self.keys == old(self).keys,
                self.slots == old(self).slots,
                was == old(self).positions@,
                total_length(was) <= u64::MAX,
                self.positions@.len() == was.len(),
                0 <= i <= was.len(),
                offset == total_length(was.take(i as int)),
                sources@ == was.take(i as int),
                forall|j: int| 0 <= j < i ==> self.positions@[j] == relocated(was, segment)[j],
                forall|j: int| i <= j < was.len() ==> self.positions@[j] == was[j],
                total_length(self.positions@.take(i as int)) == total_length(was.take(i as int)),
            decreases was.len() - i,
        {
            let source = self.positions[i];
            proof {
                lemma_total_length_take(was, i as int);
                lemma_total_length_take(was, i as int + 1);
                lemma_total_length_take(self.positions@, i as int);
            }
            let ghost before = self.positions@;
            let target = CommandPosition { segment, offset, length: source.length };
            self.positions.set(i, target);
            sources.push(source);
            offset = offset + source.length;
            proof {
                assert(sources@ =~= was.take(i as int + 1));
                assert(self.positions@.take(i as int) =~= before.take(i as int));
                lemma_total_length_take(self.positions@, i as int);
            }
            i = i + 1;
        }
        proof {
            assert(was.take(i as int) =~= was);
            assert(self.positions@.take(i as int) =~= self.positions@);
            assert(self.positions@ =~= relocated(was, segment));
        }
        (sources, offset)
    }
}

} // verus!
