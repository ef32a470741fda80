//! The in-memory index: where the newest record of each key lies.
use crate::engines::locator::Locator;
use vstd::hash_map::StringHashMap;
use vstd::prelude::*;

verus! {

/// One key with the locator of its record.
#[derive(Debug, Clone, PartialEq, Eq)]
pub struct IndexEntry {
    pub key: String,
    pub locator: Locator,
}

/// The bytes of the records that `entries` point at in the segment of
/// `epoch`.
pub open spec fn live_in(entries: Seq<IndexEntry>, epoch: u64) -> nat
    decreases entries.len(),
{
    if entries.len() == 0 {
        0
    } else {
        live_in(entries.drop_last(), epoch) + if entries.last().locator.epoch == epoch {
            entries.last().locator.length as nat
        } else {
            0
        }
    }
}

/// The bytes of the records that `entries` point at.
pub open spec fn live_total(entries: Seq<IndexEntry>) -> nat
    decreases entries.len(),
{
    if entries.len() == 0 {
        0
    } else {
        live_total(entries.drop_last()) + entries.last().locator.length as nat
    }
}

/// The bytes in the segment of `epoch` that are live after `locator` was
/// offered for `key`, if `live` of them were before.
pub open spec fn live_after(
    live: nat,
    epoch: u64,
    index: Map<Seq<char>, Locator>,
    key: Seq<char>,
    locator: Locator,
) -> int {
    if index.contains_key(key) && index[key].epoch > locator.epoch {
        live as int
    } else {
        live + (if locator.epoch == epoch {
            locator.length as int
        } else {
            0
        }) - (if index.contains_key(key) && index[key].epoch == epoch {
            index[key].length as int
        } else {
            0
        })
    }
}

/// Another locator in one entry moves the bytes of its record between the
/// epochs.
proof fn lemma_live_update(entries: Seq<IndexEntry>, at: int, entry: IndexEntry, epoch: u64)
    requires
        0 <= at < entries.len(),
    ensures
        live_in(entries.update(at, entry), epoch) + (if entries[at].locator.epoch == epoch {
            entries[at].locator.length as int
        } else {
            0
        }) == live_in(entries, epoch) + (if entry.locator.epoch == epoch {
            entry.locator.length as int
        } else {
            0
        }),
        live_total(entries.update(at, entry)) + entries[at].locator.length == live_total(entries)
            + entry.locator.length,
    decreases entries.len(),
{
    let front = entries.drop_last();
    if at == entries.len() - 1 {
        assert(entries.update(at, entry).drop_last() == front);
    } else {
        lemma_live_update(front, at, entry, epoch);
        assert(entries.update(at, entry).drop_last() == front.update(at, entry));
    }
}

/// Entries of which none points into `epoch` have no live bytes there.
proof fn lemma_live_none(entries: Seq<IndexEntry>, epoch: u64)
    requires
        forall|i: int| 0 <= i < entries.len() ==> (#[trigger] entries[i]).locator.epoch != epoch,
    ensures
        live_in(entries, epoch) == 0,
    decreases entries.len(),
{
    if entries.len() > 0 {
        let front = entries.drop_last();
        assert forall|i: int| 0 <= i < front.len() implies (#[trigger] front[i]).locator.epoch
            != epoch by {
            assert(front[i] == entries[i]);
        }
        lemma_live_none(front, epoch);
        assert(entries[entries.len() - 1].locator.epoch != epoch);
    }
}

/// Entries with the same locators have the same live bytes.
proof fn lemma_live_same(a: Seq<IndexEntry>, b: Seq<IndexEntry>)
    requires
        a.len() == b.len(),
        forall|i: int| 0 <= i < a.len() ==> (#[trigger] a[i]).locator == b[i].locator,
    ensures
        live_total(a) == live_total(b),
    decreases a.len(),
{
    if a.len() > 0 {
        assert forall|i: int| 0 <= i < a.drop_last().len() implies (#[trigger] a.drop_last()[i]).locator
            == b.drop_last()[i].locator by {
            assert(a.drop_last()[i] == a[i]);
            assert(b.drop_last()[i] == b[i]);
        }
        lemma_live_same(a.drop_last(), b.drop_last());
        assert(a[a.len() - 1].locator == b[b.len() - 1].locator);
    }
}

/// Whether `sizes` names `epoch`.
pub open spec fn names_epoch(sizes: Seq<(u64, nat)>, epoch: u64) -> bool {
    exists|j: int| 0 <= j < sizes.len() && (#[trigger] sizes[j]).0 == epoch
}

/// The live bytes in the epochs of `sizes` are all the live bytes, if each
/// entry points into one of these epochs and no epoch comes twice.
proof fn lemma_live_sum(entries: Seq<IndexEntry>, sizes: Seq<(u64, nat)>)
    requires
        forall|i: int, j: int|
            0 <= i < j < sizes.len() ==> (#[trigger] sizes[i]).0 != (#[trigger] sizes[j]).0,
        forall|i: int|
            0 <= i < entries.len() ==> names_epoch(sizes, (#[trigger] entries[i]).locator.epoch),
    ensures
        live_over(entries, sizes) == live_total(entries),
    decreases entries.len(),
{
    if entries.len() == 0 {
        assert(entries =~= Seq::<IndexEntry>::empty());
        lemma_live_over_empty(sizes);
    } else {
        let front = entries.drop_last();
        let last = entries.last();
        assert forall|i: int| 0 <= i < front.len() implies names_epoch(
            sizes,
            (#[trigger] front[i]).locator.epoch,
        ) by {
            assert(front[i] == entries[i]);
        }
        lemma_live_sum(front, sizes);
        assert(names_epoch(sizes, entries[entries.len() - 1].locator.epoch));
        let j = choose|j: int| 0 <= j < sizes.len() && (#[trigger] sizes[j]).0 == last.locator.epoch;
        lemma_live_over_push(front, last, sizes, j);
        assert(front.push(last) == entries);
    }
}

/// The live bytes of `entries` in the epochs of `sizes`, summed.
pub open spec fn live_over(entries: Seq<IndexEntry>, sizes: Seq<(u64, nat)>) -> nat
    decreases sizes.len(),
{
    if sizes.len() == 0 {
        0
    } else {
        live_over(entries, sizes.drop_last()) + live_in(entries, sizes.last().0)
    }
}

/// No entries, no live bytes.
proof fn lemma_live_over_empty(sizes: Seq<(u64, nat)>)
    ensures
        live_over(Seq::<IndexEntry>::empty(), sizes) == 0,
    decreases sizes.len(),
{
    if sizes.len() > 0 {
        lemma_live_over_empty(sizes.drop_last());
    }
}

/// One more entry adds the bytes of its record to the sum over the epochs,
/// if it points into the epoch at `at` and no epoch comes twice; it adds
/// nothing if it points into none of the epochs.
proof fn lemma_live_over_push(
    entries: Seq<IndexEntry>,
    entry: IndexEntry,
    sizes: Seq<(u64, nat)>,
    at: int,
)
    requires
        forall|i: int, j: int|
            0 <= i < j < sizes.len() ==> (#[trigger] sizes[i]).0 != (#[trigger] sizes[j]).0,
        at < sizes.len(),
        0 <= at ==> sizes[at].0 == entry.locator.epoch,
        at < 0 ==> forall|i: int|
            0 <= i < sizes.len() ==> (#[trigger] sizes[i]).0 != entry.locator.epoch,
    ensures
        live_over(entries.push(entry), sizes) == live_over(entries, sizes) + if 0 <= at {
            entry.locator.length as nat
        } else {
            0
        },
    decreases sizes.len(),
{
    assert(entries.push(entry).drop_last() == entries);
    if sizes.len() > 0 {
        let front = sizes.drop_last();
        assert forall|i: int, j: int| 0 <= i < j < front.len() implies (#[trigger] front[i]).0 != (
        #[trigger] front[j]).0 by {
            assert(front[i] == sizes[i] && front[j] == sizes[j]);
        }
        if at == sizes.len() - 1 {
            assert forall|i: int| 0 <= i < front.len() implies (#[trigger] front[i]).0
                != entry.locator.epoch by {
                assert(front[i] == sizes[i]);
                assert(sizes[i].0 != sizes[at].0);
            }
            lemma_live_over_push(entries, entry, front, -1);
        } else {
            if at < 0 {
                assert forall|i: int| 0 <= i < front.len() implies (#[trigger] front[i]).0
                    != entry.locator.epoch by {
                    assert(front[i] == sizes[i]);
                }
                assert(sizes[sizes.len() - 1].0 != entry.locator.epoch);
            } else {
                assert(front[at] == sizes[at]);
                assert(sizes[at].0 != sizes[sizes.len() - 1].0);
            }
            lemma_live_over_push(entries, entry, front, at);
        }
    }
}

/// The sum over the epochs of the live bytes is at most the sum of the
/// sizes, if that holds of each epoch.
proof fn lemma_live_over_bound(entries: Seq<IndexEntry>, sizes: Seq<(u64, nat)>)
    requires
        forall|i: int| 0 <= i < sizes.len() ==> live_in(entries, (#[trigger] sizes[i]).0) <= sizes[i].1,
    ensures
        live_over(entries, sizes) <= crate::engines::segment::total_size(sizes),
    decreases sizes.len(),
{
    if sizes.len() > 0 {
        let front = sizes.drop_last();
        assert forall|i: int| 0 <= i < front.len() implies live_in(entries, (#[trigger] front[i]).0)
            <= front[i].1 by {
            assert(front[i] == sizes[i]);
        }
        lemma_live_over_bound(entries, front);
        assert(live_in(entries, sizes[sizes.len() - 1].0) <= sizes[sizes.len() - 1].1);
    }
}

/// A map from keys to locators. A key that has entered the index stays in
/// it: a removal is a record like any other, and the index points at it.
pub struct Index {
    entries: Vec<IndexEntry>,
    slots: StringHashMap<usize>,
}

impl View for Index {
    type V = Map<Seq<char>, Locator>;

    closed spec fn view(&self) -> Map<Seq<char>, Locator> {
        Map::new(
            |key: Seq<char>| self.slots@.contains_key(key),
            |key: Seq<char>| self.entries@[self.slots@[key] as int].locator,
        )
    }
}

impl Index {
    /// The invariant of the index: each key has one entry, and the slot of
    /// the key is where that entry stands.
    pub closed spec fn wf(&self) -> bool {
        &&& forall|key: Seq<char>| #[trigger]
            self.slots@.contains_key(key) ==> self.slots@[key] < self.entries@.len()
                && self.entries@[self.slots@[key] as int].key@ == key
        &&& forall|i: int|
            0 <= i < self.entries@.len() ==> self.slots@.contains_key(
                (#[trigger] self.entries@[i]).key@,
            ) && self.slots@[self.entries@[i].key@] == i
    }

    /// The keys of the index in the order in which they entered it.
    pub closed spec fn keys(&self) -> Seq<Seq<char>> {
        Seq::new(self.entries@.len(), |i: int| self.entries@[i].key@)
    }

    /// The keys in order of entry are the keys of the map, each once.
    pub proof fn lemma_keys(&self)
        requires
            self.wf(),
        ensures
            forall|i: int| 0 <= i < self.keys().len() ==> self@.contains_key(#[trigger] self.keys()[i]),
            forall|key: Seq<char>| self@.contains_key(key) ==> self.keys().contains(key),
            forall|i: int, j: int|
                0 <= i < j < self.keys().len() ==> #[trigger] self.keys()[i] != #[trigger] self.keys()[j],
    {
        assert forall|i: int| 0 <= i < self.keys().len() implies self@.contains_key(
            #[trigger] self.keys()[i],
        ) by {
            assert(self.slots@.contains_key(self.entries@[i].key@));
        }
        assert forall|key: Seq<char>| self@.contains_key(key) implies self.keys().contains(key) by {
            assert(self.slots@.contains_key(key));
            assert(self.keys()[self.slots@[key] as int] == key);
        }
        assert forall|i: int, j: int| 0 <= i < j < self.keys().len() implies #[trigger] self.keys()[i]
            != #[trigger] self.keys()[j] by {
            assert(self.slots@[self.entries@[i].key@] == i);
            assert(self.slots@[self.entries@[j].key@] == j);
        }
    }

    /// The index has as many keys as entries.
    pub proof fn lemma_len(&self)
        requires
            self.wf(),
        ensures
            self@.dom().finite(),
            self@.dom().len() == self.keys().len(),
    {
        self.lemma_keys();
        lemma_distinct_count(self.keys(), self@.dom());
    }

    /// The bytes of the records that the index points at in the segment of
    /// `epoch`.
    pub closed spec fn live(&self, epoch: u64) -> nat {
        live_in(self.entries@, epoch)
    }

    /// The bytes of the records that the index points at.
    pub closed spec fn live_bytes(&self) -> nat {
        live_total(self.entries@)
    }

    /// An index that points at no record of `epoch` has no live bytes there.
    pub proof fn lemma_live_none(&self, epoch: u64)
        requires
            self.wf(),
            forall|key: Seq<char>| self@.contains_key(key) ==> self@[key].epoch != epoch,
        ensures
            self.live(epoch) == 0,
    {
        assert forall|i: int| 0 <= i < self.entries@.len() implies (
        #[trigger] self.entries@[i]).locator.epoch != epoch by {
            let key = self.entries@[i].key@;
            assert(self.slots@.contains_key(key));
            assert(self@.contains_key(key));
        }
        lemma_live_none(self.entries@, epoch);
    }

    /// The live bytes fit the segments: they are at most the sum of `sizes`,
    /// if `sizes` names each epoch once, the index points into these epochs
    /// only, and the live bytes of each epoch are at most its size.
    pub proof fn lemma_live_fits(&self, sizes: Seq<(u64, nat)>)
        requires
            self.wf(),
            forall|i: int, j: int|
                0 <= i < j < sizes.len() ==> (#[trigger] sizes[i]).0 != (#[trigger] sizes[j]).0,
            forall|key: Seq<char>| #[trigger]
                self@.contains_key(key) ==> names_epoch(sizes, self@[key].epoch),
            forall|i: int| 0 <= i < sizes.len() ==> self.live((#[trigger] sizes[i]).0) <= sizes[i].1,
        ensures
            self.live_bytes() <= crate::engines::segment::total_size(sizes),
    {
        assert forall|i: int| 0 <= i < self.entries@.len() implies names_epoch(
            sizes,
            (#[trigger] self.entries@[i]).locator.epoch,
        ) by {
            let key = self.entries@[i].key@;
            assert(self.slots@.contains_key(key));
            assert(self@.contains_key(key));
        }
        lemma_live_sum(self.entries@, sizes);
        lemma_live_over_bound(self.entries@, sizes);
    }

    /// The live bytes are the bytes of the records of the keys, summed over
    /// the keys.
    pub proof fn lemma_live_bytes(&self)
        requires
            self.wf(),
        ensures
            self.live_bytes() == crate::engines::space::index_bytes(self@, self.keys()),
    {
        lemma_live_is_index_bytes(self.entries@, self@, self.keys());
    }

    /// The empty index.
    pub fn new() -> (index: Index)
        ensures
            index.wf(),
            index@ == Map::<Seq<char>, Locator>::empty(),
            index.keys() == Seq::<Seq<char>>::empty(),
            index.live_bytes() == 0,
            forall|epoch: u64| index.live(epoch) == 0,
    {
        let index = Index { entries: Vec::new(), slots: StringHashMap::new() };
        assert(index@ =~= Map::<Seq<char>, Locator>::empty());
        assert(index.keys() =~= Seq::<Seq<char>>::empty());
        index
    }

    /// The number of keys.
    pub fn len(&self) -> (n: usize)
        ensures
            n == self.keys().len(),
    {
        self.entries.len()
    }

    /// The locator of `key`, if the index has the key.
    pub fn lookup(&self, key: &str) -> (r: Option<Locator>)
        requires
            self.wf(),
        ensures
            match r {
                Some(locator) => self@.contains_key(key@) && self@[key@] == locator,
                None => !self@.contains_key(key@),
            },
    {
        match self.slots.get(key) {
            Some(slot) => Some(self.entries[*slot].locator),
            None => None,
        }
    }

    /// The key that entered the index as number `i`, with its locator.
    pub fn entry(&self, i: usize) -> (r: (&str, Locator))
        requires
            self.wf(),
            i < self.keys().len(),
        ensures
            r.0@ == self.keys()[i as int],
            self@.contains_key(r.0@),
            self@[r.0@] == r.1,
    {
        assert(self.slots@.contains_key(self.entries@[i as int].key@));
        (self.entries[i].key.as_str(), self.entries[i].locator)
    }

    /// A copy of the entries, in the order in which their keys entered the
    /// index.
    pub fn snapshot(&self) -> (entries: Vec<IndexEntry>)
        requires
            self.wf(),
        ensures
            entries@.len() == self.keys().len(),
            forall|i: int|
                0 <= i < entries@.len() ==> (#[trigger] entries@[i]).key@ == self.keys()[i]
                    && entries@[i].locator == self@[self.keys()[i]],
            live_total(entries@) == self.live_bytes(),
    {
        let mut entries: Vec<IndexEntry> = Vec::new();
        let mut i: usize = 0;
        while i < self.entries.len()
            invariant
                self.wf(),
                i <= self.entries.len(),
                entries@.len() == i,
                forall|j: int|
                    0 <= j < i ==> (#[trigger] entries@[j]).key@ == self.keys()[j]
                        && entries@[j].locator == self@[self.keys()[j]],
                forall|j: int|
                    0 <= j < i ==> (#[trigger] entries@[j]).locator == self.entries@[j].locator,
            decreases self.entries.len() - i,
        {
            assert(self.slots@.contains_key(self.entries@[i as int].key@));
            let key = self.entries[i].key.clone();
            entries.push(IndexEntry { key, locator: self.entries[i].locator });
            i = i + 1;
        }
        proof {
            lemma_live_same(entries@, self.entries@);
        }
        entries
    }

    /// Installs `locator` for `key` unless the index holds a locator of a
    /// later epoch for it. Returns the length of the record that is dead
    /// afterwards: that of the locator replaced, or that of `locator` itself
    /// where the index kept its own; `None` if the key is new.
    pub fn compare_or_install(&mut self, key: String, locator: Locator) -> (dead: Option<u32>)
        requires
            old(self).wf(),
        ensures
            final(self).wf(),
            final(self)@ == install(old(self)@, key@, locator),
            dead == dead_length(old(self)@, key@, locator),
            final(self).keys() == if old(self)@.contains_key(key@) {
                old(self).keys()
            } else {
                old(self).keys().push(key@)
            },
            forall|epoch: u64| #[trigger]
                final(self).live(epoch) == live_after(
                    old(self).live(epoch),
                    epoch,
                    old(self)@,
                    key@,
                    locator,
                ),
            final(self).live_bytes() == old(self).live_bytes() + if old(self)@.contains_key(key@) {
                if old(self)@[key@].epoch > locator.epoch {
                    0
                } else {
                    locator.length - old(self)@[key@].length
                }
            } else {
                locator.length as int
            },
    {
        let found = match self.slots.get(key.as_str()) {
            Some(slot) => Some(*slot),
            None => None,
        };
        match found {
            Some(slot) => {
                let held = self.entries[slot].locator;
                if held.epoch > locator.epoch {
                    assert(self@ =~= install(old(self)@, key@, locator));
                    Some(locator.length)
                } else {
                    let ghost before = self.entries@;
                    self.entries[slot].locator = locator;
                    proof {
                        assert(forall|i: int|
                            0 <= i < before.len() ==> (#[trigger] self.entries@[i]).key
                                == before[i].key);
                        assert(self.entries@ =~= before.update(
                            slot as int,
                            self.entries@[slot as int],
                        ));
                        assert forall|epoch: u64| #[trigger]
                            self.live(epoch) == live_after(
                                old(self).live(epoch),
                                epoch,
                                old(self)@,
                                key@,
                                locator,
                            ) by {
                            lemma_live_update(
                                before,
                                slot as int,
                                self.entries@[slot as int],
                                epoch,
                            );
                        }
                        lemma_live_update(before, slot as int, self.entries@[slot as int], 0);
                        assert(self@ =~= install(old(self)@, key@, locator));
                        assert(self.keys() =~= old(self).keys());
                    }
                    Some(held.length)
                }
            },
            None => {
                let slot = self.entries.len();
                let ghost before = self.entries@;
                self.entries.push(IndexEntry { key: key.clone(), locator });
                self.slots.insert(key, slot);
                proof {
                    assert(self.entries@.drop_last() =~= before);
                    assert(forall|i: int|
                        0 <= i < before.len() ==> (#[trigger] self.entries@[i]) == before[i]);
                    assert(self@ =~= install(old(self)@, key@, locator));
                    assert(self.keys() =~= old(self).keys().push(key@));
                }
                None
            },
        }
    }
}

/// The index after `locator` was offered for `key`: the locator is installed
/// unless the index holds one of a later epoch for the key.
pub open spec fn install(index: Map<Seq<char>, Locator>, key: Seq<char>, locator: Locator) -> Map<
    Seq<char>,
    Locator,
> {
    if index.contains_key(key) && index[key].epoch > locator.epoch {
        index
    } else {
        index.insert(key, locator)
    }
}

/// The length of the record that is dead after `locator` was offered for
/// `key`, if the key was in the index.
pub open spec fn dead_length(index: Map<Seq<char>, Locator>, key: Seq<char>, locator: Locator)
    -> Option<u32> {
    if !index.contains_key(key) {
        None
    } else if index[key].epoch > locator.epoch {
        Some(locator.length)
    } else {
        Some(index[key].length)
    }
}

/// A set whose members are exactly the entries of a list without repetition
/// is finite and has as many members as the list has entries.
pub proof fn lemma_distinct_count<A>(list: Seq<A>, set: Set<A>)
    requires
        forall|i: int| 0 <= i < list.len() ==> set.contains(#[trigger] list[i]),
        forall|a: A| set.contains(a) ==> list.contains(a),
        forall|i: int, j: int| 0 <= i < j < list.len() ==> #[trigger] list[i] != #[trigger] list[j],
    ensures
        set.finite(),
        set.len() == list.len(),
    decreases list.len(),
{
    if list.len() == 0 {
        assert(set =~= Set::<A>::empty());
    } else {
        let last = list.last();
        let front = list.drop_last();
        let rest = set.remove(last);
        assert forall|a: A| rest.contains(a) implies front.contains(a) by {
            assert(list.contains(a));
            let i = choose|i: int| 0 <= i < list.len() && list[i] == a;
            assert(front[i] == a);
        }
        assert forall|i: int| 0 <= i < front.len() implies rest.contains(#[trigger] front[i]) by {
            assert(front[i] == list[i]);
            assert(list[i] != list[list.len() - 1]);
        }
        assert forall|i: int, j: int| 0 <= i < j < front.len() implies #[trigger] front[i]
            != #[trigger] front[j] by {
            assert(front[i] == list[i] && front[j] == list[j]);
        }
        lemma_distinct_count(front, rest);
        assert(set =~= rest.insert(last));
    }
}

/// The bytes that entries point at are the bytes of the records of their
/// keys, if the index holds for each key the locator of its entry.
proof fn lemma_live_is_index_bytes(
    entries: Seq<IndexEntry>,
    index: Map<Seq<char>, Locator>,
    keys: Seq<Seq<char>>,
)
    requires
        keys.len() == entries.len(),
        forall|i: int|
            0 <= i < entries.len() ==> keys[i] == (#[trigger] entries[i]).key@ && index[keys[i]]
                == entries[i].locator,
    ensures
        live_total(entries) == crate::engines::space::index_bytes(index, keys),
    decreases entries.len(),
{
    if entries.len() > 0 {
        let front = entries.drop_last();
        assert forall|i: int| 0 <= i < front.len() implies keys.drop_last()[i] == (
        #[trigger] front[i]).key@ && index[keys.drop_last()[i]] == front[i].locator by {
            assert(front[i] == entries[i]);
        }
        lemma_live_is_index_bytes(front, index, keys.drop_last());
        assert(keys[keys.len() - 1] == entries[entries.len() - 1].key@);
    }
}

} // verus!
