//! Where stored content lies: from a hash to the segment that holds it.

use std::collections::HashMap;

use vstd::prelude::*;

use crate::hash_set::Blake3HashSet;
use crate::ids::{ContentHash, Ulid};
use crate::segment::{Codec, DeltaOption};

verus! {

/// Where a body lies.
#[derive(Clone, Copy, Debug, PartialEq, Eq, Structural)]
pub struct ExtentLocation {
    pub segment_id: Ulid,
    pub body_offset: u64,
    pub body_length: u32,
    pub codec: Codec,
    /// The body rides in the index rather than the body section.
    pub inline: bool,
}

/// Where a delta lies, and the sources it can be decoded against.
#[derive(Clone, Debug)]
pub struct DeltaLocation {
    pub segment_id: Ulid,
    pub options: Vec<DeltaOption>,
}

/// What a table is keyed by: a hash, and the segment where the slot is that
/// segment's own.
#[derive(Clone, Copy, Debug, PartialEq, Eq, Structural)]
pub struct SlotKey {
    pub owner: Option<Ulid>,
    pub hash: ContentHash,
}

/// Slots in the order they were added, with an index on the hash.
pub struct SlotTable<V> {
    slots: Vec<(SlotKey, V)>,
    index: HashMap<u128, Vec<usize>>,
}

impl<V> SlotTable<V> {
    /// The slots, in the order they were added.
    pub closed spec fn slots(&self) -> Seq<(SlotKey, V)> {
        self.slots@
    }

    /// No key has two slots, and the index names every slot by its hash.
    pub closed spec fn wf(&self) -> bool {
        &&& forall|i: int, j: int|
            0 <= i < j < self.slots@.len() ==> (#[trigger] self.slots@[i]).0 != (
            #[trigger] self.slots@[j]).0
        &&& forall|i: int|
            0 <= i < self.slots@.len() ==> self.index@.contains_key(
                (#[trigger] self.slots@[i]).0.hash.head,
            ) && self.index@[self.slots@[i].0.hash.head]@.contains(i as usize)
        &&& forall|h: u128, n: int|
            #![trigger self.index@[h]@[n]]
            self.index@.contains_key(h) && 0 <= n < self.index@[h]@.len() ==> self.index@[h]@[n]
                < self.slots@.len()
    }

    /// The value at `key`.
    pub open spec fn find(&self, key: SlotKey) -> Option<V> {
        if exists|i: int| 0 <= i < self.slots().len() && (#[trigger] self.slots()[i]).0 == key {
            let i = choose|i: int|
                0 <= i < self.slots().len() && (#[trigger] self.slots()[i]).0 == key;
            Some(self.slots()[i].1)
        } else {
            None
        }
    }

    /// A slot is what its key finds.
    pub proof fn lemma_find(&self, i: int)
        requires
            self.wf(),
            0 <= i < self.slots().len(),
        ensures
            self.find(self.slots()[i].0) == Some(self.slots()[i].1),
    {
    }

    /// An empty table.
    pub fn new() -> (table: Self)
        ensures
            table.wf(),
            table.slots() == Seq::<(SlotKey, V)>::empty(),
    {
        broadcast use vstd::std_specs::hash::group_hash_axioms;

        SlotTable { slots: Vec::new(), index: HashMap::new() }
    }

    /// Whether the table has no slot.
    pub fn is_empty(&self) -> (b: bool)
        ensures
            b == (self.slots().len() == 0),
    {
        self.slots.len() == 0
    }

    fn position(&self, key: SlotKey) -> (found: Option<usize>)
        requires
            self.wf(),
        ensures
            match found {
                Some(i) => i < self.slots().len() && self.slots()[i as int].0 == key,
                None => forall|i: int|
                    0 <= i < self.slots().len() ==> (#[trigger] self.slots()[i]).0 != key,
            },
    {
        broadcast use vstd::std_specs::hash::group_hash_axioms;

        match self.index.get(&key.hash.head) {
            Some(places) => {
                let mut n: usize = 0;
                while n < places.len()
                    invariant
                        self.wf(),
                        self.index@.contains_key(key.hash.head),
                        *places == self.index@[key.hash.head],
                        n <= places.len(),
                        forall|x: int|
                            0 <= x < n ==> self.slots@[#[trigger] places@[x] as int].0 != key,
                    decreases places.len() - n,
                {
                    assert(self.index@[key.hash.head]@[n as int] < self.slots@.len());
                    let i: usize = places[n];
                    if self.slots[i].0 == key {
                        return Some(i);
                    }
                    n += 1;
                }
                proof {
                    assert forall|i: int| 0 <= i < self.slots().len() implies (
                    #[trigger] self.slots()[i]).0 != key by {
                        if self.slots()[i].0 == key {
                            assert(self.slots.len() == self.slots@.len());
                            assert(self.slots@[i].0.hash.head == key.hash.head);
                            assert(places@.contains(i as usize));
                            let x = choose|x: int|
                                0 <= x < places@.len() && places@[x] == i as usize;
                            assert(self.slots@[places@[x] as int].0 != key);
                        }
                    }
                }
                None
            },
            None => None,
        }
    }

    /// The value at `key`.
    pub fn get(&self, key: SlotKey) -> (found: Option<&V>)
        requires
            self.wf(),
        ensures
            match found {
                Some(v) => self.find(key) == Some(*v),
                None => self.find(key) is None,
            },
    {
        match self.position(key) {
            Some(i) => {
                proof {
                    self.lemma_find(i as int);
                }
                Some(&self.slots[i].1)
            },
            None => None,
        }
    }

    /// Add a slot for `key` unless it has one.
    pub fn insert_if_absent(&mut self, key: SlotKey, value: V)
        requires
            old(self).wf(),
        ensures
            final(self).wf(),
            final(self).slots() == (if old(self).find(key) is Some {
                old(self).slots()
            } else {
                old(self).slots().push((key, value))
            }),
            forall|k: SlotKey| #[trigger]
                final(self).find(k) == (if k == key && old(self).find(key) is None {
                    Some(value)
                } else {
                    old(self).find(k)
                }),
    {
        broadcast use vstd::std_specs::hash::group_hash_axioms;

        if let Some(i) = self.position(key) {
            proof {
                self.lemma_find(i as int);
            }
            return;
        }
        let ghost before = *self;
        let at: usize = self.slots.len();
        let mut places: Vec<usize> = match self.index.remove(&key.hash.head) {
            Some(places) => places,
            None => Vec::new(),
        };
        let ghost old_places = places@;
        places.push(at);
        let ghost new_places = places@;
        self.index.insert(key.hash.head, places);
        self.slots.push((key, value));
        proof {
            let h = key.hash.head;
            assert(self.slots.len() == self.slots@.len());
            assert(self.index@[h]@ == new_places);
            assert(before.index@.contains_key(h) ==> old_places == before.index@[h]@);
            assert(!before.index@.contains_key(h) ==> old_places.len() == 0);
            assert forall|i: int| 0 <= i < self.slots@.len() implies self.index@.contains_key(
                (#[trigger] self.slots@[i]).0.hash.head,
            ) && self.index@[self.slots@[i].0.hash.head]@.contains(i as usize) by {
                let hh = self.slots@[i].0.hash.head;
                if i == at {
                    assert(new_places[old_places.len() as int] == at);
                } else {
                    assert(before.slots@[i] == self.slots@[i]);
                    assert(before.index@[hh]@.contains(i as usize));
                    if hh == h {
                        let x = choose|x: int|
                            0 <= x < old_places.len() && old_places[x] == i as usize;
                        assert(new_places[x] == i as usize);
                    }
                }
            }
            assert forall|hh: u128, n: int|
                #![trigger self.index@[hh]@[n]]
                self.index@.contains_key(hh) && 0 <= n < self.index@[hh]@.len() implies
                self.index@[hh]@[n] < self.slots@.len() by {
                if hh == h {
                    if n < old_places.len() {
                        assert(before.index@[h]@[n] < before.slots@.len());
                    }
                } else {
                    assert(before.index@[hh]@[n] < before.slots@.len());
                }
            }
            assert(self.wf());
            assert forall|k: SlotKey| #[trigger]
                self.find(k) == (if k == key {
                    Some(value)
                } else {
                    before.find(k)
                }) by {
                if k == key {
                    assert(self.slots()[at as int].0 == key);
                    self.lemma_find(at as int);
                } else if before.find(k) is Some {
                    let i = choose|i: int|
                        0 <= i < before.slots().len() && (#[trigger] before.slots()[i]).0 == k;
                    assert(self.slots()[i].0 == k);
                    self.lemma_find(i);
                    before.lemma_find(i);
                } else if self.find(k) is Some {
                    let i = choose|i: int|
                        0 <= i < self.slots().len() && (#[trigger] self.slots()[i]).0 == k;
                    assert(before.slots()[i].0 == k);
                }
            }
        }
    }

    /// The slots in the order they were added.
    pub fn as_slice(&self) -> (list: &[(SlotKey, V)])
        ensures
            list@ == self.slots(),
    {
        self.slots.as_slice()
    }
}

impl SlotTable<ExtentLocation> {
    /// A table with the same slots.
    pub fn duplicate(&self) -> (copy: Self)
        requires
            self.wf(),
        ensures
            copy.wf(),
            copy.slots() == self.slots(),
    {
        let mut copy: SlotTable<ExtentLocation> = SlotTable::new();
        let mut i: usize = 0;
        while i < self.slots.len()
            invariant
                self.wf(),
                copy.wf(),
                i <= self.slots.len(),
                copy.slots() =~= self.slots().take(i as int),
            decreases self.slots.len() - i,
        {
            let (key, value) = self.slots[i];
            copy.insert_if_absent(key, value);
            i += 1;
        }
        assert(self.slots().take(self.slots().len() as int) =~= self.slots());
        copy
    }
}

impl SlotTable<DeltaLocation> {
    /// A table with the same slots, in the same order.
    pub fn duplicate(&self) -> (copy: Self)
        requires
            self.wf(),
        ensures
            copy.wf(),
            same_deltas(copy.slots(), self.slots()),
    {
        let mut copy: SlotTable<DeltaLocation> = SlotTable::new();
        let mut i: usize = 0;
        while i < self.slots.len()
            invariant
                self.wf(),
                copy.wf(),
                i <= self.slots.len(),
                same_deltas(copy.slots(), self.slots().take(i as int)),
            decreases self.slots.len() - i,
        {
            let slot = &self.slots[i];
            let options: Vec<DeltaOption> = slot.1.options.clone();
            assert(options@ =~= slot.1.options@);
            copy.insert_if_absent(
                slot.0,
                DeltaLocation { segment_id: slot.1.segment_id, options },
            );
            i += 1;
        }
        assert(self.slots().take(self.slots().len() as int) =~= self.slots());
        copy
    }
}

/// The two lists of deltas agree slot by slot.
pub open spec fn same_deltas(
    a: Seq<(SlotKey, DeltaLocation)>,
    b: Seq<(SlotKey, DeltaLocation)>,
) -> bool {
    &&& a.len() == b.len()
    &&& forall|i: int|
        #![trigger a[i]]
        #![trigger b[i]]
        0 <= i < a.len() ==> a[i].0 == b[i].0 && a[i].1.segment_id == b[i].1.segment_id
            && a[i].1.options@ == b[i].1.options@
}

/// The key of a hash's one slot.
pub open spec fn hash_key(hash: ContentHash) -> SlotKey {
    SlotKey { owner: None, hash }
}

/// The key of a hash's slot in one segment.
pub open spec fn journal_key(segment: Ulid, hash: ContentHash) -> SlotKey {
    SlotKey { owner: Some(segment), hash }
}

/// From a hash to where its content lies. A body and a delta each have one
/// slot per hash; a journal body has one per hash and segment, apart from
/// those.
pub struct ExtentIndex {
    bodies: SlotTable<ExtentLocation>,
    deltas: SlotTable<DeltaLocation>,
    journal: SlotTable<ExtentLocation>,
}

impl ExtentIndex {
    /// The tables are well formed, and only journal slots have an owner.
    pub closed spec fn wf(&self) -> bool {
        &&& self.bodies.wf()
        &&& self.deltas.wf()
        &&& self.journal.wf()
        &&& forall|i: int|
            0 <= i < self.body_slots().len() ==> (#[trigger] self.body_slots()[i]).0.owner is None
        &&& forall|i: int|
            0 <= i < self.journal_slots().len() ==> (
            #[trigger] self.journal_slots()[i]).0.owner is Some
    }

    /// The body slots, in the order they were added.
    pub closed spec fn body_slots(&self) -> Seq<(SlotKey, ExtentLocation)> {
        self.bodies.slots()
    }

    /// The delta slots, in the order they were added.
    pub closed spec fn delta_slots(&self) -> Seq<(SlotKey, DeltaLocation)> {
        self.deltas.slots()
    }

    /// The journal slots, in the order they were added.
    pub closed spec fn journal_slots(&self) -> Seq<(SlotKey, ExtentLocation)> {
        self.journal.slots()
    }

    /// Where the body of `hash` lies.
    pub closed spec fn body(&self, hash: ContentHash) -> Option<ExtentLocation> {
        self.bodies.find(hash_key(hash))
    }

    /// Where the delta of `hash` lies.
    pub closed spec fn delta(&self, hash: ContentHash) -> Option<DeltaLocation> {
        self.deltas.find(hash_key(hash))
    }

    /// Where the journal body of `hash` in `segment` lies.
    pub closed spec fn journal(&self, segment: Ulid, hash: ContentHash) -> Option<ExtentLocation> {
        self.journal.find(journal_key(segment, hash))
    }

    /// Some registered delta can be decoded against `hash`.
    pub open spec fn names_source(&self, hash: ContentHash) -> bool {
        exists|i: int, j: int|
            0 <= i < self.delta_slots().len() && 0 <= j < self.delta_slots()[i].1.options@.len()
                && (#[trigger] self.delta_slots()[i].1.options@[j]).source_hash == hash
    }

    /// An empty index.
    pub fn new() -> (index: Self)
        ensures
            index.wf(),
            index.body_slots().len() == 0,
            index.delta_slots().len() == 0,
            index.journal_slots().len() == 0,
            forall|h: ContentHash| #[trigger] index.body(h) is None,
            forall|h: ContentHash| #[trigger] index.delta(h) is None,
            forall|u: Ulid, h: ContentHash| #[trigger] index.journal(u, h) is None,
    {
        ExtentIndex { bodies: SlotTable::new(), deltas: SlotTable::new(), journal: SlotTable::new() }
    }

    /// Where the body of `hash` lies.
    pub fn lookup(&self, hash: &ContentHash) -> (found: Option<&ExtentLocation>)
        requires
            self.wf(),
        ensures
            match found {
                Some(loc) => self.body(*hash) == Some(*loc),
                None => self.body(*hash) is None,
            },
    {
        self.bodies.get(SlotKey { owner: None, hash: *hash })
    }

    /// Where the delta of `hash` lies.
    pub fn lookup_delta(&self, hash: &ContentHash) -> (found: Option<&DeltaLocation>)
        requires
            self.wf(),
        ensures
            match found {
                Some(loc) => self.delta(*hash) == Some(*loc),
                None => self.delta(*hash) is None,
            },
    {
        self.deltas.get(SlotKey { owner: None, hash: *hash })
    }

    /// Where the journal body of `hash` in `segment` lies.
    pub fn lookup_journal(&self, segment: Ulid, hash: &ContentHash) -> (found: Option<
        &ExtentLocation,
    >)
        requires
            self.wf(),
        ensures
            match found {
                Some(loc) => self.journal(segment, *hash) == Some(*loc),
                None => self.journal(segment, *hash) is None,
            },
    {
        self.journal.get(SlotKey { owner: Some(segment), hash: *hash })
    }

    /// Whether the index has neither a body nor a delta.
    pub fn is_empty(&self) -> (b: bool)
        ensures
            b == (self.body_slots().len() == 0 && self.delta_slots().len() == 0),
    {
        self.bodies.is_empty() && self.deltas.is_empty()
    }

    /// Whether the index has no journal body.
    pub fn journal_is_empty(&self) -> (b: bool)
        ensures
            b == (self.journal_slots().len() == 0),
    {
        self.journal.is_empty()
    }

    /// Register the body of `hash` at `location`, unless it has one.
    pub fn insert_if_absent(&mut self, hash: ContentHash, location: ExtentLocation)
        requires
            old(self).wf(),
        ensures
            final(self).wf(),
            final(self).delta_slots() == old(self).delta_slots(),
            final(self).journal_slots() == old(self).journal_slots(),
            final(self).body_slots() == (if old(self).body(hash) is Some {
                old(self).body_slots()
            } else {
                old(self).body_slots().push((hash_key(hash), location))
            }),
            forall|h: ContentHash| #[trigger]
                final(self).body(h) == (if h == hash && old(self).body(hash) is None {
                    Some(location)
                } else {
                    old(self).body(h)
                }),
            forall|h: ContentHash| #[trigger] final(self).delta(h) == old(self).delta(h),
            forall|u: Ulid, h: ContentHash| #[trigger]
                final(self).journal(u, h) == old(self).journal(u, h),
    {
        self.bodies.insert_if_absent(SlotKey { owner: None, hash }, location);
    }

    /// Register the delta of `hash` at `location`, unless it has one.
    pub fn insert_delta_if_absent(&mut self, hash: ContentHash, location: DeltaLocation)
        requires
            old(self).wf(),
        ensures
            final(self).wf(),
            final(self).body_slots() == old(self).body_slots(),
            final(self).journal_slots() == old(self).journal_slots(),
            final(self).delta_slots() == (if old(self).delta(hash) is Some {
                old(self).delta_slots()
            } else {
                old(self).delta_slots().push((hash_key(hash), location))
            }),
            forall|h: ContentHash| #[trigger]
                final(self).delta(h) == (if h == hash && old(self).delta(hash) is None {
                    Some(location)
                } else {
                    old(self).delta(h)
                }),
            forall|h: ContentHash| #[trigger] final(self).body(h) == old(self).body(h),
            forall|u: Ulid, h: ContentHash| #[trigger]
                final(self).journal(u, h) == old(self).journal(u, h),
    {
        self.deltas.insert_if_absent(SlotKey { owner: None, hash }, location);
    }

    /// Register the journal body of `hash` in `segment` at `location`, unless
    /// it has one.
    pub fn insert_journal_if_absent(
        &mut self,
        segment: Ulid,
        hash: ContentHash,
        location: ExtentLocation,
    )
        requires
            old(self).wf(),
        ensures
            final(self).wf(),
            final(self).body_slots() == old(self).body_slots(),
            final(self).delta_slots() == old(self).delta_slots(),
            final(self).journal_slots() == (if old(self).journal(segment, hash) is Some {
                old(self).journal_slots()
            } else {
                old(self).journal_slots().push((journal_key(segment, hash), location))
            }),
            forall|u: Ulid, h: ContentHash| #[trigger]
                final(self).journal(u, h) == (if u == segment && h == hash && old(self).journal(
                    segment,
                    hash,
                ) is None {
                    Some(location)
                } else {
                    old(self).journal(u, h)
                }),
            forall|h: ContentHash| #[trigger] final(self).body(h) == old(self).body(h),
            forall|h: ContentHash| #[trigger] final(self).delta(h) == old(self).delta(h),
    {
        self.journal.insert_if_absent(SlotKey { owner: Some(segment), hash }, location);
    }

    /// Every hash some registered delta can be decoded against. A source must
    /// stay resolvable as long as an encoding names it.
    pub fn named_delta_sources(&self) -> (sources: Blake3HashSet)
        ensures
            forall|h: ContentHash| #[trigger] sources@.contains(h) <==> self.names_source(h),
    {
        let mut sources = Blake3HashSet::new();
        self.add_named_delta_sources(&mut sources);
        sources
    }

    /// Add those hashes to `sources`.
    pub fn add_named_delta_sources(&self, sources: &mut Blake3HashSet)
        ensures
            forall|h: ContentHash| #[trigger]
                final(sources)@.contains(h) <==> old(sources)@.contains(h) || self.names_source(h),
    {
        let ghost given = sources@;
        let slots = self.deltas.as_slice();
        let mut i: usize = 0;
        while i < slots.len()
            invariant
                slots@ == self.delta_slots(),
                i <= slots.len(),
                forall|h: ContentHash| #[trigger]
                    sources@.contains(h) <==> given.contains(h) || exists|a: int, b: int|
                        0 <= a < i && 0 <= b < slots@[a].1.options@.len() && (
                        #[trigger] slots@[a].1.options@[b]).source_hash == h,
            decreases slots.len() - i,
        {
            let options = &slots[i].1.options;
            let mut j: usize = 0;
            while j < options.len()
                invariant
                    slots@ == self.delta_slots(),
                    i < slots.len(),
                    *options == slots@[i as int].1.options,
                    j <= options.len(),
                    forall|h: ContentHash| #[trigger]
                        sources@.contains(h) <==> given.contains(h) || exists|a: int, b: int|
                            (0 <= a < i || (a == i && b < j)) && 0 <= b
                                < slots@[a].1.options@.len() && (
                            #[trigger] slots@[a].1.options@[b]).source_hash == h,
                decreases options.len() - j,
            {
                let ghost before = sources@;
                sources.insert(options[j].source_hash);
                proof {
                    assert forall|h: ContentHash| #[trigger]
                        sources@.contains(h) <==> given.contains(h) || exists|a: int, b: int|
                            (0 <= a < i || (a == i && b < j + 1)) && 0 <= b
                                < slots@[a].1.options@.len() && (
                            #[trigger] slots@[a].1.options@[b]).source_hash == h by {
                        if h == options@[j as int].source_hash {
                            assert(slots@[i as int].1.options@[j as int].source_hash == h);
                        } else if before.contains(h) && !given.contains(h) {
                            let (a, b) = choose|a: int, b: int|
                                (0 <= a < i || (a == i && b < j)) && 0 <= b
                                    < slots@[a].1.options@.len() && (
                                #[trigger] slots@[a].1.options@[b]).source_hash == h;
                            assert(slots@[a].1.options@[b].source_hash == h);
                        }
                    }
                }
                j += 1;
            }
            i += 1;
        }
    }

    /// The body slots in the order they were added.
    pub fn body_list(&self) -> (list: &[(SlotKey, ExtentLocation)])
        ensures
            list@ == self.body_slots(),
    {
        self.bodies.as_slice()
    }

    /// The journal slots in the order they were added.
    pub fn journal_list(&self) -> (list: &[(SlotKey, ExtentLocation)])
        ensures
            list@ == self.journal_slots(),
    {
        self.journal.as_slice()
    }

    /// Every body slot is found by its hash, and every found body has a slot.
    pub proof fn lemma_bodies(&self)
        requires
            self.wf(),
        ensures
            forall|i: int|
                0 <= i < self.body_slots().len() ==> (#[trigger] self.body_slots()[i]).0
                    == hash_key(self.body_slots()[i].0.hash) && self.body(
                    self.body_slots()[i].0.hash,
                ) == Some(self.body_slots()[i].1),
            forall|h: ContentHash| #[trigger]
                self.body(h) is Some <==> exists|i: int|
                    0 <= i < self.body_slots().len() && (#[trigger] self.body_slots()[i]).0
                        == hash_key(h),
    {
        assert forall|i: int|
            0 <= i < self.body_slots().len() implies (#[trigger] self.body_slots()[i]).0
                == hash_key(self.body_slots()[i].0.hash) && self.body(
            self.body_slots()[i].0.hash,
        ) == Some(self.body_slots()[i].1) by {
            self.bodies.lemma_find(i);
        }
    }

    /// Every journal slot is found by its segment and hash, and the other way
    /// round.
    pub proof fn lemma_journals(&self)
        requires
            self.wf(),
        ensures
            forall|i: int|
                0 <= i < self.journal_slots().len() ==> (
                #[trigger] self.journal_slots()[i]).0.owner is Some && self.journal(
                    self.journal_slots()[i].0.owner->0,
                    self.journal_slots()[i].0.hash,
                ) == Some(self.journal_slots()[i].1),
            forall|u: Ulid, h: ContentHash| #[trigger]
                self.journal(u, h) is Some <==> exists|i: int|
                    0 <= i < self.journal_slots().len() && (#[trigger] self.journal_slots()[i]).0
                        == journal_key(u, h),
    {
        assert forall|i: int|
            0 <= i < self.journal_slots().len() implies (
            #[trigger] self.journal_slots()[i]).0.owner is Some && self.journal(
            self.journal_slots()[i].0.owner->0,
            self.journal_slots()[i].0.hash,
        ) == Some(self.journal_slots()[i].1) by {
            self.journal.lemma_find(i);
        }
    }

    /// An index without delta slots finds no delta.
    pub proof fn lemma_deltas(&self)
        ensures
            self.delta_slots().len() == 0 ==> forall|h: ContentHash| #[trigger]
                self.delta(h) is None,
    {
    }

    /// An index with the same slots.
    pub fn duplicate(&self) -> (copy: Self)
        requires
            self.wf(),
        ensures
            copy.wf(),
            copy.same_as(*self),
    {
        let copy = ExtentIndex {
            bodies: self.bodies.duplicate(),
            deltas: self.deltas.duplicate(),
            journal: self.journal.duplicate(),
        };
        proof {
            copy.lemma_bodies();
            self.lemma_bodies();
            copy.lemma_journals();
            self.lemma_journals();
            assert forall|h: ContentHash| #[trigger] copy.body(h) == self.body(h) by {
                if self.body(h) is Some {
                    let i = choose|i: int|
                        0 <= i < self.body_slots().len() && (#[trigger] self.body_slots()[i]).0
                            == hash_key(h);
                    assert(copy.body_slots()[i].0 == hash_key(h));
                } else if copy.body(h) is Some {
                    let i = choose|i: int|
                        0 <= i < copy.body_slots().len() && (#[trigger] copy.body_slots()[i]).0
                            == hash_key(h);
                    assert(self.body_slots()[i].0 == hash_key(h));
                }
            }
            assert forall|u: Ulid, h: ContentHash| #[trigger]
                copy.journal(u, h) == self.journal(u, h) by {
                if self.journal(u, h) is Some {
                    let i = choose|i: int|
                        0 <= i < self.journal_slots().len() && (
                        #[trigger] self.journal_slots()[i]).0 == journal_key(u, h);
                    assert(copy.journal_slots()[i].0 == journal_key(u, h));
                } else if copy.journal(u, h) is Some {
                    let i = choose|i: int|
                        0 <= i < copy.journal_slots().len() && (
                        #[trigger] copy.journal_slots()[i]).0 == journal_key(u, h);
                    assert(self.journal_slots()[i].0 == journal_key(u, h));
                }
            }
            assert forall|h: ContentHash|
                {
                    &&& #[trigger] copy.delta(h) is Some == self.delta(h) is Some
                    &&& copy.delta(h) is Some ==> copy.delta(h)->0.segment_id
                        == self.delta(h)->0.segment_id && copy.delta(h)->0.options@
                        == self.delta(h)->0.options@
                } by {
                if self.delta(h) is Some {
                    let i = choose|i: int|
                        0 <= i < self.deltas.slots().len() && (#[trigger] self.deltas.slots()[i]).0
                            == hash_key(h);
                    self.deltas.lemma_find(i);
                    assert(copy.deltas.slots()[i].0 == hash_key(h));
                    copy.deltas.lemma_find(i);
                } else if copy.delta(h) is Some {
                    let i = choose|i: int|
                        0 <= i < copy.deltas.slots().len() && (#[trigger] copy.deltas.slots()[i]).0
                            == hash_key(h);
                    assert(self.deltas.slots()[i].0 == hash_key(h));
                }
            }
        }
        copy
    }

    /// Both indexes answer every lookup alike.
    pub open spec fn same_as(&self, other: ExtentIndex) -> bool {
        &&& self.body_slots() == other.body_slots()
        &&& self.journal_slots() == other.journal_slots()
        &&& same_deltas(self.delta_slots(), other.delta_slots())
        &&& forall|h: ContentHash| #[trigger] self.body(h) == other.body(h)
        &&& forall|u: Ulid, h: ContentHash| #[trigger] self.journal(u, h) == other.journal(u, h)
        &&& forall|h: ContentHash|
            {
                &&& #[trigger] self.delta(h) is Some == other.delta(h) is Some
                &&& self.delta(h) is Some ==> self.delta(h)->0.segment_id
                    == other.delta(h)->0.segment_id && self.delta(h)->0.options@
                    == other.delta(h)->0.options@
            }
    }
}

impl ExtentIndex {
    /// Every source that a registered delta can be decoded against is named,
    /// whichever of its options it stands in, and no other hash is.
    pub proof fn law_every_option_names_its_source(&self, hash: ContentHash)
        ensures
            forall|i: int, j: int|
                0 <= i < self.delta_slots().len() && 0 <= j
                    < self.delta_slots()[i].1.options@.len() ==> self.names_source(
                    (#[trigger] self.delta_slots()[i].1.options@[j]).source_hash,
                ),
            (forall|i: int, j: int|
                0 <= i < self.delta_slots().len() && 0 <= j
                    < self.delta_slots()[i].1.options@.len() ==> (
                #[trigger] self.delta_slots()[i].1.options@[j]).source_hash != hash)
                ==> !self.names_source(hash),
    {
    }
}

} // verus!
