//! The passes that turn the bodies of one segment into deltas.
//!
//! A pass goes over the pendings in order and stops wherever it needs bytes:
//! the plaintext of a source, the plaintext of a body, the candidates that
//! resemble it. The caller fetches them and hands them in. What a pass made of
//! its pendings can be read back: every delta it made decodes, against the
//! source it was made of, to the plaintext it was made from.

use vstd::prelude::*;

use crate::delta_codec::{earns_place, reads_back, DeltaError};
use crate::delta_compute::{
    conversion_fails, conversion_loses, convert_against, count_source, counted, is_converted, next_candidate,
    next_candidate_of, one_block_body, prior_choice, prior_choice_of, reserved_delta_sources,
    reserved_in, resemblance_choice, resemblance_choice_of, unreferenced_between, PendingEntry,
    PriorChoice, ResemblanceChoice, ResemblanceStats, SegmentDeltaStats, SnapshotSourceMap,
};
use crate::extent_index::{SlotKey, SlotTable};
use crate::hash_set::Blake3HashSet;
use crate::ids::ContentHash;
use crate::lbamap::ReferencedHashes;
use crate::repack::clamped;
use crate::segment::{EntryKind, SegmentEntry};

verus! {

// ---------------------------------------------------------------------------
// A batch of pendings
// ---------------------------------------------------------------------------

/// The pendings of one segment on their way through a pass, with the delta
/// section they share.
pub struct DeltaBatch {
    pendings: Vec<PendingEntry>,
    at: usize,
    delta_body: Vec<u8>,
    given: Ghost<Seq<PendingEntry>>,
    opening: Ghost<Seq<u8>>,
    fetched: Ghost<Map<int, (Seq<u8>, Seq<u8>)>>,
}

impl DeltaBatch {
    /// The pendings as they stand.
    pub closed spec fn pendings(&self) -> Seq<PendingEntry> {
        self.pendings@
    }

    /// The pendings as they were handed in.
    pub closed spec fn given(&self) -> Seq<PendingEntry> {
        self.given@
    }

    /// The pending the pass has come to.
    pub closed spec fn place(&self) -> int {
        self.at as int
    }

    /// The delta section.
    pub closed spec fn section(&self) -> Seq<u8> {
        self.delta_body@
    }

    /// What the delta section held when it was handed in.
    pub closed spec fn opening(&self) -> Seq<u8> {
        self.opening@
    }

    /// The plaintexts of the source and of the body that pending `i` became a
    /// delta of.
    pub closed spec fn fetched(&self, i: int) -> (Seq<u8>, Seq<u8>) {
        self.fetched@[i]
    }

    /// Pending `i` became a delta.
    pub open spec fn changed(&self, i: int) -> bool {
        self.pendings()[i] != self.given()[i]
    }

    /// How many of the first `n` pendings became deltas.
    pub open spec fn changed_before(&self, n: int) -> int
        decreases n,
    {
        if n <= 0 {
            0
        } else {
            self.changed_before(n - 1) + (if self.changed(n - 1) {
                1int
            } else {
                0
            })
        }
    }

    /// What pending `i` became a delta of.
    pub open spec fn source(&self, i: int) -> ContentHash {
        self.pendings()[i].entry.delta_options@.last().source_hash
    }

    /// The delta of pending `i`.
    pub open spec fn blob(&self, i: int) -> Seq<u8> {
        let option = self.pendings()[i].entry.delta_options@.last();
        self.section().subrange(
            option.delta_offset as int,
            option.delta_offset + option.delta_length,
        )
    }

    /// Pending `i` is as it was handed in, or a delta that reads back.
    pub open spec fn sound(&self, i: int) -> bool {
        self.changed(i) ==> {
            let option = self.pendings()[i].entry.delta_options@.last();
            &&& option.delta_offset + option.delta_length <= self.section().len()
            &&& is_converted(
                self.given()[i],
                self.pendings()[i],
                self.source(i),
                self.blob(i),
                option.delta_offset as int,
            )
            &&& reads_back(self.fetched(i).0, self.blob(i), self.fetched(i).1)
        }
    }

    /// No pending is lost, those ahead are untouched, every delta reads back,
    /// and the section still begins as it was handed in.
    pub open spec fn wf(&self) -> bool {
        &&& self.opening().is_prefix_of(self.section())
        &&& self.pendings().len() == self.given().len()
        &&& 0 <= self.place() <= self.given().len()
        &&& forall|i: int|
            self.place() <= i < self.given().len() ==> #[trigger] self.pendings()[i]
                == self.given()[i]
        &&& forall|i: int| 0 <= i < self.place() ==> #[trigger] self.sound(i)
    }

    /// Only the place may differ.
    pub open spec fn same_but_place(&self, other: DeltaBatch) -> bool {
        &&& self.pendings() == other.pendings()
        &&& self.given() == other.given()
        &&& self.section() == other.section()
        &&& self.opening() == other.opening()
        &&& forall|i: int| #[trigger] self.fetched(i) == other.fetched(i)
    }

    /// What the section of `after` has more than this.
    pub open spec fn grown_by(&self, after: DeltaBatch) -> Seq<u8> {
        after.section().skip(self.section().len() as int)
    }

    /// The pending at the batch's place became a delta of `source_hash`, made
    /// from these plaintexts and worth storing, and nothing else changed.
    pub open spec fn converts(
        &self,
        after: DeltaBatch,
        source_hash: ContentHash,
        source_plain: Seq<u8>,
        child_plain: Seq<u8>,
    ) -> bool {
        let at = self.place();
        let blob = self.grown_by(after);
        &&& after.place() == at + 1
        &&& after.given() == self.given()
        &&& after.opening() == self.opening()
        &&& after.section() == self.section() + blob
        &&& reads_back(source_plain, blob, child_plain)
        &&& earns_place(
            blob.len() as int,
            self.pendings()[at].entry.stored_length as int,
            child_plain,
        ) == Some(true)
        &&& is_converted(
            self.pendings()[at],
            after.pendings()[at],
            source_hash,
            blob,
            self.section().len() as int,
        )
        &&& after.pendings() == self.pendings().update(at, after.pendings()[at])
        &&& after.fetched(at) == (source_plain, child_plain)
        &&& forall|i: int| i != at ==> #[trigger] after.fetched(i) == self.fetched(i)
    }

    proof fn lemma_same(&self, other: DeltaBatch)
        requires
            other.wf(),
            self.same_but_place(other),
            self.place() == other.place(),
        ensures
            self.wf(),
    {
        assert forall|i: int| 0 <= i < self.place() implies #[trigger] self.sound(i) by {
            assert(other.sound(i));
            assert(self.fetched(i) == other.fetched(i));
        }
    }

    /// The count is of the pendings alone.
    proof fn lemma_changed_before(&self, other: DeltaBatch, n: int)
        requires
            forall|i: int|
                0 <= i < n ==> #[trigger] self.pendings()[i] == other.pendings()[i]
                    && self.given()[i] == other.given()[i],
        ensures
            self.changed_before(n) == other.changed_before(n),
            0 <= self.changed_before(n),
            n >= 0 ==> self.changed_before(n) <= n,
        decreases n,
    {
        if n > 0 {
            self.lemma_changed_before(other, n - 1);
            assert(self.pendings()[n - 1] == other.pendings()[n - 1]);
        }
    }

    /// Passing a pending as it is counts none.
    proof fn lemma_passed_uncounted(&self, mid: DeltaBatch)
        requires
            mid.wf(),
            self.same_but_place(mid),
            mid.place() < mid.given().len(),
            self.place() == mid.place() + 1,
        ensures
            self.changed_before(self.place()) == mid.changed_before(mid.place()),
    {
        let at = mid.place();
        assert(mid.pendings()[at] == mid.given()[at]);
        assert(!self.changed(at));
        self.lemma_changed_before(mid, at);
    }

    /// A pending that became a delta counts one.
    proof fn lemma_converted_counted(
        &self,
        mid: DeltaBatch,
        source_hash: ContentHash,
        source_plain: Seq<u8>,
        child_plain: Seq<u8>,
    )
        requires
            mid.wf(),
            mid.place() < mid.given().len(),
            mid.converts(*self, source_hash, source_plain, child_plain),
        ensures
            self.changed_before(self.place()) == mid.changed_before(mid.place()) + 1,
            0 <= mid.changed_before(mid.place()),
    {
        let at = mid.place();
        assert(mid.pendings()[at] == mid.given()[at]);
        assert(self.changed(at)) by {
            assert(self.pendings()[at].entry.delta_options@.len()
                == mid.pendings()[at].entry.delta_options@.len() + 1);
        }
        self.lemma_changed_before(mid, at);
    }

    /// A batch at its first pending. `delta_body` is what the section already
    /// holds.
    pub fn new(pendings: Vec<PendingEntry>, delta_body: Vec<u8>) -> (batch: Self)
        ensures
            batch.wf(),
            batch.given() == pendings@,
            batch.pendings() == pendings@,
            batch.section() == delta_body@,
            batch.opening() == delta_body@,
            batch.place() == 0,
    {
        let ghost given = pendings@;
        let ghost opening = delta_body@;
        DeltaBatch {
            pendings,
            at: 0,
            delta_body,
            given: Ghost(given),
            opening: Ghost(opening),
            fetched: Ghost(Map::empty()),
        }
    }

    /// Whether every pending has been passed.
    fn at_end(&self) -> (b: bool)
        requires
            self.wf(),
        ensures
            b == (self.place() == self.given().len()),
    {
        self.at >= self.pendings.len()
    }

    /// The pending the pass has come to.
    pub fn current(&self) -> (pending: &PendingEntry)
        requires
            self.wf(),
            self.place() < self.given().len(),
        ensures
            *pending == self.given()[self.place()],
    {
        assert(self.pendings@[self.at as int] == self.given()[self.at as int]);
        &self.pendings[self.at]
    }

    /// Leave the pending as it is.
    fn pass(&mut self)
        requires
            old(self).wf(),
            old(self).place() < old(self).given().len(),
        ensures
            final(self).wf(),
            final(self).same_but_place(*old(self)),
            final(self).place() == old(self).place() + 1,
    {
        assert(self.at < self.pendings.len());
        self.at += 1;
        proof {
            assert forall|i: int| 0 <= i < self.place() implies #[trigger] self.sound(i) by {
                if i < old(self).place() {
                    assert(old(self).sound(i));
                } else {
                    assert(self.pendings()[i] == self.given()[i]);
                }
            }
        }
    }

    /// Make the pending a delta of `source_hash` where that is worth storing,
    /// and pass it either way. Where the codec fails, the batch stays put.
    fn convert(
        &mut self,
        source_hash: ContentHash,
        source_plain: &[u8],
        child_plain: &[u8],
        stats: &mut SegmentDeltaStats,
    ) -> (converted: Result<bool, DeltaError>)
        requires
            old(self).wf(),
            old(self).place() < old(self).given().len(),
        ensures
            final(self).wf(),
            ({
                let stored = old(self).given()[old(self).place()].entry.stored_length as int;
                match converted {
                    Ok(true) => old(self).converts(
                        *final(self),
                        source_hash,
                        source_plain@,
                        child_plain@,
                    ) && *final(stats) == counted(
                        *old(stats),
                        stored,
                        old(self).grown_by(*final(self)).len() as int,
                    ),
                    Ok(false) => final(self).same_but_place(*old(self))
                        && final(self).place() == old(self).place() + 1
                        && *final(stats) == *old(stats) && conversion_loses(
                        source_plain@,
                        child_plain@,
                        stored,
                    ),
                    Err(e) => final(self).same_but_place(*old(self))
                        && final(self).place() == old(self).place()
                        && *final(stats) == *old(stats) && conversion_fails(
                        e,
                        source_plain@,
                        child_plain@,
                        stored,
                    ),
                }
            }),
    {
        let at: usize = self.at;
        let ghost before = *self;
        assert(self.pendings@[at as int] == self.given()[at as int]);
        let made = convert_against(
            &mut self.pendings[at],
            source_hash,
            source_plain,
            child_plain,
            &mut self.delta_body,
            stats,
        );
        match made {
            Ok(true) => {
                proof {
                    self.fetched@ = self.fetched@.insert(at as int, (source_plain@, child_plain@));
                }
                assert(at < self.pendings.len());
                self.at += 1;
                proof {
                    let blob = before.grown_by(*self);
                    assert(self.pendings() =~= before.pendings().update(
                        at as int,
                        self.pendings()[at as int],
                    ));
                    assert forall|i: int| 0 <= i < self.place() implies #[trigger] self.sound(i) by {
                        if i < at {
                            assert(before.sound(i));
                            assert(self.pendings()[i] == before.pendings()[i]);
                            assert(self.fetched(i) == before.fetched(i));
                            if self.changed(i) {
                                assert(self.blob(i) =~= before.blob(i));
                            }
                        } else {
                            assert(self.blob(i) =~= blob);
                        }
                    }
                    assert forall|i: int|
                        self.place() <= i < self.given().len() implies #[trigger] self.pendings()[i]
                        == self.given()[i] by {
                        assert(before.pendings()[i] == before.given()[i]);
                    }
                }
                Ok(true)
            },
            Ok(false) => {
                proof {
                    assert(self.pendings@ =~= before.pendings@);
                    self.lemma_same(before);
                }
                self.pass();
                Ok(false)
            },
            Err(e) => {
                proof {
                    assert(self.pendings@ =~= before.pendings@);
                    self.lemma_same(before);
                }
                Err(e)
            },
        }
    }

    /// The pendings and the delta section, for the writer.
    pub fn finish(self) -> (parts: (Vec<PendingEntry>, Vec<u8>))
        ensures
            parts.0@ == self.pendings(),
            parts.1@ == self.section(),
    {
        (self.pendings, self.delta_body)
    }
}

// ---------------------------------------------------------------------------
// The same-block pass
// ---------------------------------------------------------------------------

/// How many of the pendings of `[from, to)` the same-block tier keeps as
/// sources.
pub open spec fn kept_between(
    pendings: Seq<PendingEntry>,
    prior: SnapshotSourceMap,
    reserved: Set<ContentHash>,
    from: int,
    to: int,
) -> int
    decreases to - from,
{
    if from >= to {
        0
    } else {
        kept_between(pendings, prior, reserved, from, to - 1) + (if prior_choice_of(
            pendings[to - 1],
            prior,
            reserved,
        ) is Reserved {
            1int
        } else {
            0
        })
    }
}

/// The stats with `n` more entries kept as sources.
pub open spec fn with_kept(before: SegmentDeltaStats, n: int) -> SegmentDeltaStats {
    SegmentDeltaStats {
        entries_reserved_as_sources: clamped(before.entries_reserved_as_sources + n) as u64,
        ..before
    }
}

/// One-block bodies as deltas of what a sealed snapshot holds at the block.
pub struct PriorPass {
    batch: DeltaBatch,
    prior: SnapshotSourceMap,
    reserved: Blake3HashSet,
    stats: SegmentDeltaStats,
}

impl PriorPass {
    pub closed spec fn batch(&self) -> DeltaBatch {
        self.batch
    }

    pub closed spec fn prior(&self) -> SnapshotSourceMap {
        self.prior
    }

    /// The hashes kept as sources.
    pub closed spec fn reserved(&self) -> Set<ContentHash> {
        self.reserved@
    }

    pub closed spec fn stats(&self) -> SegmentDeltaStats {
        self.stats
    }

    /// What the tier does with pending `i`.
    pub open spec fn choice(&self, i: int) -> PriorChoice {
        prior_choice_of(self.batch().given()[i], self.prior(), self.reserved())
    }

    /// Every delta is of the content the snapshot holds at the block, and the
    /// hashes kept are those a delta of the batch may name. The stats count the
    /// deltas made.
    pub open spec fn wf(&self) -> bool {
        &&& self.batch().wf()
        &&& self.prior().wf()
        &&& forall|h: ContentHash| #[trigger]
            self.reserved().contains(h) <==> reserved_in(self.batch().given(), self.prior(), h)
        &&& forall|i: int|
            0 <= i < self.batch().place() && #[trigger] self.batch().changed(i) ==> self.choice(i)
                == PriorChoice::Try(self.batch().source(i))
        &&& self.stats().entries_converted == clamped(
            self.batch().changed_before(self.batch().place()),
        )
    }

    /// Snapshot and hashes kept are the same.
    pub open spec fn same_terms(&self, other: PriorPass) -> bool {
        &&& self.prior() == other.prior()
        &&& self.reserved() == other.reserved()
    }

    /// The pass stands at a pending to try.
    pub open spec fn trying(&self) -> bool {
        self.batch().place() < self.batch().given().len() && self.choice(
            self.batch().place(),
        ) is Try
    }

    pub fn new(pendings: Vec<PendingEntry>, prior: SnapshotSourceMap) -> (pass: Self)
        requires
            prior.wf(),
        ensures
            pass.wf(),
            pass.batch().given() == pendings@,
            pass.batch().place() == 0,
            pass.batch().section().len() == 0,
            pass.prior() == prior,
            pass.stats() == (SegmentDeltaStats {
                entries_converted: 0,
                original_body_bytes: 0,
                delta_body_bytes: 0,
                entries_reserved_as_sources: 0,
            }),
    {
        let reserved = reserved_delta_sources(&pendings, &prior);
        PriorPass {
            batch: DeltaBatch::new(pendings, Vec::new()),
            prior,
            reserved,
            stats: SegmentDeltaStats::default(),
        }
    }

    /// Go on to the next pending to try, and say which source it is tried
    /// against. `None` at the end.
    pub fn next(&mut self) -> (source: Option<ContentHash>)
        requires
            old(self).wf(),
        ensures
            final(self).wf(),
            final(self).same_terms(*old(self)),
            final(self).batch().same_but_place(old(self).batch()),
            old(self).batch().place() <= final(self).batch().place(),
            forall|i: int|
                old(self).batch().place() <= i < final(self).batch().place() ==> !((
                #[trigger] final(self).choice(i)) is Try),
            match source {
                Some(h) => final(self).trying() && final(self).choice(final(self).batch().place())
                    == PriorChoice::Try(h),
                None => final(self).batch().place() == final(self).batch().given().len(),
            },
            final(self).stats() == with_kept(
                old(self).stats(),
                kept_between(
                    old(self).batch().given(),
                    old(self).prior(),
                    old(self).reserved(),
                    old(self).batch().place(),
                    final(self).batch().place(),
                ),
            ),
    {
        let ghost before = *self;
        while !self.batch.at_end()
            invariant
                before == *old(self),
                before.wf(),
                self.wf(),
                self.same_terms(before),
                self.batch().same_but_place(before.batch()),
                before.batch().place() <= self.batch().place(),
                forall|i: int|
                    before.batch().place() <= i < self.batch().place() ==> !((#[trigger] self.choice(
                        i,
                    )) is Try),
                kept_between(
                    before.batch().given(),
                    before.prior(),
                    before.reserved(),
                    before.batch().place(),
                    self.batch().place(),
                ) >= 0,
                self.stats() == with_kept(
                    before.stats(),
                    kept_between(
                        before.batch().given(),
                        before.prior(),
                        before.reserved(),
                        before.batch().place(),
                        self.batch().place(),
                    ),
                ),
            decreases self.batch().given().len() - self.batch().place(),
        {
            let ghost mid = *self;
            let choice = prior_choice(
                self.batch.current(),
                &self.prior,
                &self.reserved,
                &mut self.stats,
            );
            match choice {
                PriorChoice::Try(source) => {
                    return Some(source);
                },
                _ => {
                    self.batch.pass();
                    proof {
                        self.lemma_passed(mid);
                        assert forall|i: int|
                            before.batch().place() <= i < self.batch().place() implies !((
                        #[trigger] self.choice(i)) is Try) by {
                            assert(self.choice(i) == mid.choice(i));
                        }
                    }
                },
            }
        }
        None
    }

    /// A pending more has been passed as it is.
    proof fn lemma_passed(&self, mid: PriorPass)
        requires
            mid.wf(),
            mid.batch().place() < mid.batch().given().len(),
            self.same_terms(mid),
            self.stats().entries_converted == mid.stats().entries_converted,
            self.batch().wf(),
            self.batch().same_but_place(mid.batch()),
            self.batch().place() == mid.batch().place() + 1,
        ensures
            self.wf(),
    {
        let at = mid.batch().place();
        assert(mid.batch().pendings()[at] == mid.batch().given()[at]);
        self.batch().lemma_passed_uncounted(mid.batch());
        assert forall|i: int|
            0 <= i < self.batch().place() && #[trigger] self.batch().changed(i) implies self.choice(i)
            == PriorChoice::Try(self.batch().source(i)) by {
            assert(mid.batch().changed(i));
        }
    }

    /// The pending to try.
    pub fn current(&self) -> (pending: &PendingEntry)
        requires
            self.wf(),
            self.trying(),
        ensures
            *pending == self.batch().given()[self.batch().place()],
    {
        self.batch.current()
    }

    /// Pass the pending: its source cannot be read.
    pub fn pass(&mut self)
        requires
            old(self).wf(),
            old(self).trying(),
        ensures
            final(self).wf(),
            final(self).same_terms(*old(self)),
            final(self).stats() == old(self).stats(),
            final(self).batch().same_but_place(old(self).batch()),
            final(self).batch().place() == old(self).batch().place() + 1,
    {
        let ghost mid = *self;
        self.batch.pass();
        proof {
            self.lemma_passed(mid);
        }
    }

    /// Make the pending a delta of its source where that is worth storing, and
    /// pass it either way.
    pub fn convert(&mut self, source_plain: &[u8], child_plain: &[u8]) -> (converted: Result<
        bool,
        DeltaError,
    >)
        requires
            old(self).wf(),
            old(self).trying(),
        ensures
            final(self).wf(),
            final(self).same_terms(*old(self)),
            ({
                let at = old(self).batch().place();
                let stored = old(self).batch().given()[at].entry.stored_length as int;
                match converted {
                    Ok(true) => old(self).batch().converts(
                        final(self).batch(),
                        old(self).choice(at)->Try_0,
                        source_plain@,
                        child_plain@,
                    ) && final(self).stats() == counted(
                        old(self).stats(),
                        stored,
                        old(self).batch().grown_by(final(self).batch()).len() as int,
                    ),
                    Ok(false) => final(self).batch().same_but_place(old(self).batch())
                        && final(self).batch().place() == at + 1
                        && final(self).stats() == old(self).stats() && conversion_loses(
                        source_plain@,
                        child_plain@,
                        stored,
                    ),
                    Err(e) => final(self).batch().same_but_place(old(self).batch())
                        && final(self).batch().place() == at
                        && final(self).stats() == old(self).stats() && conversion_fails(
                        e,
                        source_plain@,
                        child_plain@,
                        stored,
                    ),
                }
            }),
    {
        let ghost mid = *self;
        let source = match self.prior.hash_for_lba(self.batch.current().entry.start_lba) {
            Some(source) => source,
            None => {
                return Ok(false);
            },
        };
        let made = self.batch.convert(source, source_plain, child_plain, &mut self.stats);
        proof {
            match made {
                Ok(true) => {
                    let at = mid.batch().place();
                    self.batch().lemma_converted_counted(
                        mid.batch(),
                        source,
                        source_plain@,
                        child_plain@,
                    );
                    assert forall|i: int|
                        0 <= i < self.batch().place() && #[trigger] self.batch().changed(
                            i,
                        ) implies self.choice(i) == PriorChoice::Try(self.batch().source(i)) by {
                        if i != at {
                            assert(self.batch().pendings()[i] == mid.batch().pendings()[i]);
                            assert(mid.batch().changed(i));
                        }
                    }
                },
                Ok(false) => self.lemma_passed(mid),
                Err(_) => {
                    self.batch().lemma_changed_before(mid.batch(), mid.batch().place());
                    assert forall|i: int|
                        0 <= i < self.batch().place() && #[trigger] self.batch().changed(
                            i,
                        ) implies self.choice(i) == PriorChoice::Try(self.batch().source(i)) by {
                        assert(mid.batch().changed(i));
                    }
                },
            }
        }
        made
    }

    /// The pendings, the delta section, the stats and the hashes kept as
    /// sources.
    pub fn finish(self) -> (parts: (Vec<PendingEntry>, Vec<u8>, SegmentDeltaStats, Blake3HashSet))
        ensures
            parts.0@ == self.batch().pendings(),
            parts.1@ == self.batch().section(),
            parts.2 == self.stats(),
            parts.3@ == self.reserved(),
    {
        let (pendings, delta_body) = self.batch.finish();
        (pendings, delta_body, self.stats, self.reserved)
    }
}

// ---------------------------------------------------------------------------
// The resemblance pass
// ---------------------------------------------------------------------------

/// How many of the pendings of `[from, to)` the resemblance tier keeps as
/// sources.
pub open spec fn kept_from_probing(
    pendings: Seq<PendingEntry>,
    min_sketch_bytes: int,
    reserved: Set<ContentHash>,
    from: int,
    to: int,
) -> int
    decreases to - from,
{
    if from >= to {
        0
    } else {
        kept_from_probing(pendings, min_sketch_bytes, reserved, from, to - 1) + (
        if resemblance_choice_of(pendings[to - 1], min_sketch_bytes, reserved) is Reserved {
            1int
        } else {
            0
        })
    }
}

/// What becomes of the sketch that is advertised for a pending.
pub enum SketchMark {
    /// It is left.
    Untouched,
    /// The pending was probed and keeps its body: the sketch it was probed by.
    Probed(Vec<u8>),
    /// The pending became a delta, which is no source for others.
    Cleared,
}

/// The pending, with its sketch marked.
pub open spec fn marked(pending: PendingEntry, mark: SketchMark) -> PendingEntry {
    match mark {
        SketchMark::Untouched => pending,
        SketchMark::Probed(sketch) => PendingEntry { sketch: Some(sketch), ..pending },
        SketchMark::Cleared => PendingEntry { sketch: None, ..pending },
    }
}

/// Bodies as deltas of what resembles them.
pub struct ResemblancePass<'a> {
    batch: DeltaBatch,
    reserved: Blake3HashSet,
    referenced: &'a ReferencedHashes,
    min_sketch_bytes: u64,
    sketch: Vec<u8>,
    candidates: Vec<ContentHash>,
    from: usize,
    marks: Vec<SketchMark>,
    stats: ResemblanceStats,
}

impl<'a> ResemblancePass<'a> {
    pub closed spec fn batch(&self) -> DeltaBatch {
        self.batch
    }

    /// The hashes kept as sources.
    pub closed spec fn reserved(&self) -> Set<ContentHash> {
        self.reserved@
    }

    /// What may be made a source: the hashes that something references.
    pub closed spec fn referenced(&self) -> ReferencedHashes {
        *self.referenced
    }

    /// The shortest body that has a sketch.
    pub closed spec fn shortest(&self) -> u64 {
        self.min_sketch_bytes
    }

    /// The candidates for the pending, best first.
    pub closed spec fn candidates(&self) -> Seq<ContentHash> {
        self.candidates@
    }

    /// The sketch that the pending was probed by.
    pub closed spec fn sketch(&self) -> Vec<u8> {
        self.sketch
    }

    /// What becomes of the sketches of the pendings passed.
    pub closed spec fn marks(&self) -> Seq<SketchMark> {
        self.marks@
    }

    /// The candidate the pass has come to.
    pub closed spec fn rank(&self) -> int {
        self.from as int
    }

    pub closed spec fn stats(&self) -> ResemblanceStats {
        self.stats
    }

    /// What the tier does with pending `i`.
    pub open spec fn choice(&self, i: int) -> ResemblanceChoice {
        resemblance_choice_of(
            self.batch().given()[i],
            self.shortest() as int,
            self.reserved(),
        )
    }

    /// Only what the tier probes became a delta, and of other content that
    /// something references. A delta advertises no sketch, and only what was
    /// probed has a new one. The stats count the deltas made.
    pub open spec fn wf(&self) -> bool {
        &&& self.batch().wf()
        &&& 0 <= self.rank() <= self.candidates().len()
        &&& forall|i: int|
            0 <= i < self.batch().place() && #[trigger] self.batch().changed(i) ==> self.choice(
                i,
            ) is Probe && self.batch().source(i) != self.batch().given()[i].entry.hash
                && self.referenced().names(self.batch().source(i))
        &&& self.marks().len() == self.batch().place()
        &&& forall|i: int|
            0 <= i < self.batch().place() ==> match #[trigger] self.marks()[i] {
                SketchMark::Untouched => !self.batch().changed(i),
                SketchMark::Probed(_) => !self.batch().changed(i) && self.choice(i) is Probe,
                SketchMark::Cleared => self.batch().changed(i),
            }
        &&& self.stats().delta.entries_converted == clamped(
            self.batch().changed_before(self.batch().place()),
        )
    }

    pub open spec fn same_terms(&self, other: ResemblancePass<'a>) -> bool {
        &&& self.reserved() == other.reserved()
        &&& self.referenced() == other.referenced()
        &&& self.shortest() == other.shortest()
    }

    /// The pass stands at a pending to probe.
    pub open spec fn probing(&self) -> bool {
        self.batch().place() < self.batch().given().len() && self.choice(
            self.batch().place(),
        ) is Probe
    }

    /// The pass stands at a candidate that can be tried.
    pub open spec fn trying(&self) -> bool {
        &&& self.probing()
        &&& self.rank() < self.candidates().len()
        &&& self.candidates()[self.rank()] != self.batch().given()[self.batch().place()].entry.hash
        &&& self.referenced().names(self.candidates()[self.rank()])
    }

    pub fn new(
        pendings: Vec<PendingEntry>,
        delta_body: Vec<u8>,
        reserved: Blake3HashSet,
        referenced: &'a ReferencedHashes,
        min_sketch_bytes: u64,
    ) -> (pass: Self)
        ensures
            pass.wf(),
            pass.batch().given() == pendings@,
            pass.batch().place() == 0,
            pass.batch().section() == delta_body@,
            pass.batch().opening() == delta_body@,
            pass.referenced() == *referenced,
            pass.reserved() == reserved@,
            pass.shortest() == min_sketch_bytes,
            pass.stats() == (ResemblanceStats {
                delta: SegmentDeltaStats {
                    entries_converted: 0,
                    original_body_bytes: 0,
                    delta_body_bytes: 0,
                    entries_reserved_as_sources: 0,
                },
                targets_probed: 0,
                candidates_tried: 0,
                dictionary_bytes_read: 0,
                dictionary_cache_hits: 0,
                candidates_unreferenced: 0,
            }),
    {
        ResemblancePass {
            batch: DeltaBatch::new(pendings, delta_body),
            reserved,
            referenced,
            min_sketch_bytes,
            sketch: Vec::new(),
            candidates: Vec::new(),
            from: 0,
            marks: Vec::new(),
            stats: ResemblanceStats::default(),
        }
    }

    /// Go on to the next pending to probe. Whether there is one.
    pub fn next_target(&mut self) -> (found: bool)
        requires
            old(self).wf(),
        ensures
            final(self).wf(),
            final(self).same_terms(*old(self)),
            final(self).batch().same_but_place(old(self).batch()),
            old(self).batch().place() <= final(self).batch().place(),
            forall|i: int|
                old(self).batch().place() <= i < final(self).batch().place() ==> !((
                #[trigger] final(self).choice(i)) is Probe),
            final(self).marks().take(old(self).marks().len() as int) == old(self).marks(),
            forall|i: int|
                old(self).batch().place() <= i < final(self).batch().place() ==> (
                #[trigger] final(self).marks()[i]) is Untouched,
            found == final(self).probing(),
            !found ==> final(self).batch().place() == final(self).batch().given().len(),
            final(self).stats() == (ResemblanceStats {
                delta: with_kept(
                    old(self).stats().delta,
                    kept_from_probing(
                        old(self).batch().given(),
                        old(self).shortest() as int,
                        old(self).reserved(),
                        old(self).batch().place(),
                        final(self).batch().place(),
                    ),
                ),
                ..old(self).stats()
            }),
    {
        let ghost before = *self;
        while !self.batch.at_end()
            invariant
                before == *old(self),
                before.wf(),
                self.wf(),
                self.same_terms(before),
                self.batch().same_but_place(before.batch()),
                before.batch().place() <= self.batch().place(),
                forall|i: int|
                    before.batch().place() <= i < self.batch().place() ==> !((
                    #[trigger] self.choice(i)) is Probe),
                self.marks().take(before.marks().len() as int) == before.marks(),
                forall|i: int|
                    before.batch().place() <= i < self.batch().place() ==> (
                    #[trigger] self.marks()[i]) is Untouched,
                kept_from_probing(
                    before.batch().given(),
                    before.shortest() as int,
                    before.reserved(),
                    before.batch().place(),
                    self.batch().place(),
                ) >= 0,
                self.stats() == (ResemblanceStats {
                    delta: with_kept(
                        before.stats().delta,
                        kept_from_probing(
                            before.batch().given(),
                            before.shortest() as int,
                            before.reserved(),
                            before.batch().place(),
                            self.batch().place(),
                        ),
                    ),
                    ..before.stats()
                }),
            decreases self.batch().given().len() - self.batch().place(),
        {
            let ghost mid = *self;
            let choice = resemblance_choice(
                self.batch.current(),
                self.min_sketch_bytes,
                &self.reserved,
                &mut self.stats,
            );
            match choice {
                ResemblanceChoice::Probe => {
                    return true;
                },
                _ => {
                    self.batch.pass();
                    self.marks.push(SketchMark::Untouched);
                    proof {
                        self.lemma_passed(mid, SketchMark::Untouched);
                        assert(self.marks().take(before.marks().len() as int)
                            =~= mid.marks().take(before.marks().len() as int));
                        assert forall|i: int|
                            before.batch().place() <= i < self.batch().place() implies !((
                        #[trigger] self.choice(i)) is Probe) by {
                            assert(self.choice(i) == mid.choice(i));
                        }
                    }
                },
            }
        }
        false
    }

    /// A pending more has been passed as it is.
    proof fn lemma_passed(&self, mid: ResemblancePass<'a>, mark: SketchMark)
        requires
            mid.wf(),
            mid.batch().place() < mid.batch().given().len(),
            self.same_terms(mid),
            self.stats().delta.entries_converted == mid.stats().delta.entries_converted,
            self.marks() == mid.marks().push(mark),
            mark is Untouched || (mark is Probed && mid.choice(mid.batch().place()) is Probe),
            self.batch().wf(),
            0 <= self.rank() <= self.candidates().len(),
            self.batch().same_but_place(mid.batch()),
            self.batch().place() == mid.batch().place() + 1,
        ensures
            self.wf(),
    {
        let at = mid.batch().place();
        assert(mid.batch().pendings()[at] == mid.batch().given()[at]);
        self.batch().lemma_passed_uncounted(mid.batch());
        assert forall|i: int|
            0 <= i < self.batch().place() && #[trigger] self.batch().changed(i) implies self.choice(
            i,
        ) is Probe && self.batch().source(i) != self.batch().given()[i].entry.hash
            && self.referenced().names(self.batch().source(i)) by {
            assert(mid.batch().changed(i));
        }
        assert forall|i: int| 0 <= i < self.batch().place() implies match #[trigger] self.marks()[i] {
            SketchMark::Untouched => !self.batch().changed(i),
            SketchMark::Probed(_) => !self.batch().changed(i) && self.choice(i) is Probe,
            SketchMark::Cleared => self.batch().changed(i),
        } by {
            if i < at {
                assert(self.marks()[i] == mid.marks()[i]);
                assert(mid.batch().changed(i) == self.batch().changed(i));
            }
        }
    }

    /// Take the sketch out.
    fn take_sketch(&mut self) -> (sketch: Vec<u8>)
        ensures
            sketch == old(self).sketch,
            final(self).batch == old(self).batch,
            final(self).reserved == old(self).reserved,
            final(self).referenced == old(self).referenced,
            final(self).min_sketch_bytes == old(self).min_sketch_bytes,
            final(self).candidates == old(self).candidates,
            final(self).from == old(self).from,
            final(self).marks == old(self).marks,
            final(self).stats == old(self).stats,
    {
        let mut taken: Vec<u8> = Vec::new();
        std::mem::swap(&mut self.sketch, &mut taken);
        taken
    }

    /// The pending to probe.
    pub fn current(&self) -> (pending: &PendingEntry)
        requires
            self.wf(),
            self.probing(),
        ensures
            *pending == self.batch().given()[self.batch().place()],
    {
        self.batch.current()
    }

    /// Take the pending's sketch and the candidates that resemble it, or pass
    /// it where it has none.
    pub fn probed(&mut self, found: Option<(Vec<u8>, Vec<ContentHash>)>)
        requires
            old(self).wf(),
            old(self).probing(),
        ensures
            final(self).wf(),
            final(self).same_terms(*old(self)),
            final(self).batch().same_but_place(old(self).batch()),
            match found {
                Some((sketch, list)) => {
                    &&& final(self).sketch() == sketch
                    &&& final(self).marks() == old(self).marks()
                    &&& final(self).candidates() == list@
                    &&& final(self).rank() == 0
                    &&& final(self).batch().place() == old(self).batch().place()
                    &&& final(self).stats() == (ResemblanceStats {
                        targets_probed: clamped(old(self).stats().targets_probed + 1) as u64,
                        ..old(self).stats()
                    })
                },
                None => final(self).batch().place() == old(self).batch().place() + 1
                    && final(self).marks() == old(self).marks().push(SketchMark::Untouched)
                    && final(self).stats() == old(self).stats(),
            },
    {
        let ghost mid = *self;
        match found {
            Some((sketch, list)) => {
                self.sketch = sketch;
                self.candidates = list;
                self.from = 0;
                self.stats.targets_probed = self.stats.targets_probed.saturating_add(1);
            },
            None => {
                self.batch.pass();
                self.marks.push(SketchMark::Untouched);
                proof {
                    self.lemma_passed(mid, SketchMark::Untouched);
                }
            },
        }
    }

    /// Go on to the next candidate that something references, or pass the
    /// pending where there is none: it keeps its body and has its sketch.
    pub fn next_source(&mut self) -> (source: Option<ContentHash>)
        requires
            old(self).wf(),
            old(self).probing(),
        ensures
            final(self).wf(),
            final(self).same_terms(*old(self)),
            final(self).candidates() == old(self).candidates(),
            final(self).batch().same_but_place(old(self).batch()),
            ({
                let target = old(self).batch().given()[old(self).batch().place()].entry.hash;
                let rank = next_candidate_of(
                    target,
                    old(self).candidates(),
                    old(self).referenced(),
                    old(self).rank(),
                );
                &&& final(self).rank() == rank
                &&& final(self).stats() == (ResemblanceStats {
                    candidates_unreferenced: clamped(
                        old(self).stats().candidates_unreferenced + unreferenced_between(
                            target,
                            old(self).candidates(),
                            old(self).referenced(),
                            old(self).rank(),
                            rank,
                        ),
                    ) as u64,
                    ..old(self).stats()
                })
                &&& match source {
                    Some(h) => final(self).trying() && h == old(self).candidates()[rank]
                        && final(self).batch().place() == old(self).batch().place()
                        && final(self).sketch() == old(self).sketch() && final(self).marks()
                        == old(self).marks(),
                    None => rank == old(self).candidates().len() && final(self).batch().place()
                        == old(self).batch().place() + 1 && final(self).marks() == old(
                        self,
                    ).marks().push(SketchMark::Probed(old(self).sketch())),
                }
            }),
    {
        let ghost mid = *self;
        let target = self.batch.current().entry.hash;
        self.from = next_candidate(
            target,
            &self.candidates,
            self.referenced,
            self.from,
            &mut self.stats,
        );
        proof {
            lemma_next_candidate(target, self.candidates@, *self.referenced, mid.from as int);
        }
        if self.from < self.candidates.len() {
            return Some(self.candidates[self.from]);
        }
        self.batch.pass();
        let sketch = self.take_sketch();
        self.marks.push(SketchMark::Probed(sketch));
        proof {
            self.lemma_passed(mid, SketchMark::Probed(mid.sketch()));
        }
        None
    }

    /// Leave the candidate: it cannot be read.
    pub fn unreadable(&mut self)
        requires
            old(self).wf(),
            old(self).trying(),
        ensures
            final(self).wf(),
            final(self).same_terms(*old(self)),
            final(self).candidates() == old(self).candidates(),
            final(self).batch() == old(self).batch(),
            final(self).sketch() == old(self).sketch(),
            final(self).marks() == old(self).marks(),
            final(self).stats() == old(self).stats(),
            final(self).rank() == old(self).rank() + 1,
    {
        assert(self.from < self.candidates.len());
        self.from += 1;
    }

    /// Make the pending a delta of the candidate where that is worth storing,
    /// and pass it either way: where the best candidate loses, the others do.
    /// A delta advertises no sketch; what keeps its body has the one it was
    /// probed by. `hit` says that the source was already at hand.
    pub fn convert(&mut self, source_plain: &[u8], child_plain: &[u8], hit: bool) -> (converted:
        Result<bool, DeltaError>)
        requires
            old(self).wf(),
            old(self).trying(),
        ensures
            final(self).wf(),
            final(self).same_terms(*old(self)),
            ({
                let at = old(self).batch().place();
                let stored = old(self).batch().given()[at].entry.stored_length as int;
                let read = with_read(old(self).stats(), hit, source_plain@.len() as int);
                match converted {
                    Ok(true) => old(self).batch().converts(
                        final(self).batch(),
                        old(self).candidates()[old(self).rank()],
                        source_plain@,
                        child_plain@,
                    ) && final(self).stats() == (ResemblanceStats {
                        delta: counted(
                            read.delta,
                            stored,
                            old(self).batch().grown_by(final(self).batch()).len() as int,
                        ),
                        ..read
                    }) && final(self).marks() == old(self).marks().push(SketchMark::Cleared),
                    Ok(false) => final(self).batch().same_but_place(old(self).batch())
                        && final(self).batch().place() == at + 1 && final(self).stats() == read
                        && final(self).marks() == old(self).marks().push(
                        SketchMark::Probed(old(self).sketch()),
                    ) && conversion_loses(source_plain@, child_plain@, stored),
                    Err(e) => final(self).batch().same_but_place(old(self).batch())
                        && final(self).batch().place() == at && final(self).stats() == read
                        && final(self).sketch() == old(self).sketch() && final(self).marks()
                        == old(self).marks() && conversion_fails(
                        e,
                        source_plain@,
                        child_plain@,
                        stored,
                    ),
                }
            }),
    {
        let ghost mid = *self;
        count_source(&mut self.stats, hit, source_plain.len());
        let source = self.candidates[self.from];
        let made = self.batch.convert(source, source_plain, child_plain, &mut self.stats.delta);
        match made {
            Ok(true) => self.marks.push(SketchMark::Cleared),
            Ok(false) => {
                let sketch = self.take_sketch();
                self.marks.push(SketchMark::Probed(sketch));
            },
            Err(_) => {},
        }
        proof {
            match made {
                Ok(true) => {
                    let at = mid.batch().place();
                    self.batch().lemma_converted_counted(
                        mid.batch(),
                        source,
                        source_plain@,
                        child_plain@,
                    );
                    assert forall|i: int|
                        0 <= i < self.batch().place() && #[trigger] self.batch().changed(
                            i,
                        ) implies self.choice(i) is Probe && self.batch().source(i)
                        != self.batch().given()[i].entry.hash && self.referenced().names(
                            self.batch().source(i),
                        ) by {
                        if i != at {
                            assert(self.batch().pendings()[i] == mid.batch().pendings()[i]);
                            assert(mid.batch().changed(i));
                        }
                    }
                    assert forall|i: int| 0 <= i < self.batch().place() implies match
                    #[trigger] self.marks()[i] {
                        SketchMark::Untouched => !self.batch().changed(i),
                        SketchMark::Probed(_) => !self.batch().changed(i) && self.choice(i) is Probe,
                        SketchMark::Cleared => self.batch().changed(i),
                    } by {
                        if i < at {
                            assert(self.marks()[i] == mid.marks()[i]);
                            assert(self.batch().pendings()[i] == mid.batch().pendings()[i]);
                            assert(self.batch().changed(i) == mid.batch().changed(i));
                        } else {
                            assert(self.batch().pendings()[at].entry.delta_options@.len()
                                == mid.batch().pendings()[at].entry.delta_options@.len() + 1);
                        }
                    }
                },
                Ok(false) => self.lemma_passed(mid, SketchMark::Probed(mid.sketch())),
                Err(_) => {
                    self.batch().lemma_changed_before(mid.batch(), mid.batch().place());
                    assert forall|i: int|
                        0 <= i < self.batch().place() && #[trigger] self.batch().changed(
                            i,
                        ) implies self.choice(i) is Probe && self.batch().source(i)
                        != self.batch().given()[i].entry.hash && self.referenced().names(
                            self.batch().source(i),
                        ) by {
                        assert(mid.batch().changed(i));
                    }
                    assert forall|i: int| 0 <= i < self.batch().place() implies match
                    #[trigger] self.marks()[i] {
                        SketchMark::Untouched => !self.batch().changed(i),
                        SketchMark::Probed(_) => !self.batch().changed(i) && self.choice(i) is Probe,
                        SketchMark::Cleared => self.batch().changed(i),
                    } by {
                        assert(self.marks()[i] == mid.marks()[i]);
                        assert(self.batch().changed(i) == mid.batch().changed(i));
                    }
                },
            }
        }
        made
    }

    /// The pendings with their sketches, the delta section and the stats.
    pub fn finish(self) -> (parts: (Vec<PendingEntry>, Vec<u8>, ResemblanceStats))
        requires
            self.wf(),
        ensures
            parts.0@.len() == self.batch().given().len(),
            forall|i: int|
                0 <= i < self.batch().place() ==> #[trigger] parts.0@[i] == marked(
                    self.batch().pendings()[i],
                    self.marks()[i],
                ),
            forall|i: int|
                self.batch().place() <= i < self.batch().given().len() ==> #[trigger] parts.0@[i]
                    == self.batch().given()[i],
            parts.1@ == self.batch().section(),
            self.batch().opening().is_prefix_of(parts.1@),
            parts.2 == self.stats(),
    {
        let ghost pass = self;
        let (mut pendings, delta_body) = self.batch.finish();
        let mut marks = self.marks;
        while marks.len() > 0
            invariant
                pass.wf(),
                marks@.len() <= pass.batch().place(),
                marks@ == pass.marks().take(marks@.len() as int),
                pendings@.len() == pass.batch().given().len(),
                forall|i: int|
                    0 <= i < marks@.len() ==> #[trigger] pendings@[i] == pass.batch().pendings()[i],
                forall|i: int|
                    marks@.len() <= i < pass.batch().place() ==> #[trigger] pendings@[i] == marked(
                        pass.batch().pendings()[i],
                        pass.marks()[i],
                    ),
                forall|i: int|
                    pass.batch().place() <= i < pass.batch().given().len() ==> #[trigger] pendings@[i]
                        == pass.batch().given()[i],
            decreases marks@.len(),
        {
            if let Some(mark) = marks.pop() {
                let at: usize = marks.len();
                assert(mark == pass.marks()[at as int]);
                match mark {
                    SketchMark::Untouched => {},
                    SketchMark::Probed(sketch) => {
                        pendings[at].sketch = Some(sketch);
                    },
                    SketchMark::Cleared => {
                        pendings[at].sketch = None;
                    },
                }
            }
        }
        (pendings, delta_body, self.stats)
    }
}

/// The stats with one source of `len` bytes tried.
pub open spec fn with_read(before: ResemblanceStats, hit: bool, len: int) -> ResemblanceStats {
    ResemblanceStats {
        candidates_tried: clamped(before.candidates_tried + 1) as u64,
        dictionary_cache_hits: clamped(
            before.dictionary_cache_hits + (if hit {
                1int
            } else {
                0
            }),
        ) as u64,
        dictionary_bytes_read: clamped(
            before.dictionary_bytes_read + (if hit {
                0int
            } else {
                len
            }),
        ) as u64,
        ..before
    }
}

/// The candidate gone on to is another than the target, and referenced.
proof fn lemma_next_candidate(
    target: ContentHash,
    candidates: Seq<ContentHash>,
    referenced: ReferencedHashes,
    from: int,
)
    requires
        0 <= from <= candidates.len(),
    ensures
        ({
            let at = next_candidate_of(target, candidates, referenced, from);
            &&& from <= at <= candidates.len()
            &&& at < candidates.len() ==> candidates[at] != target && referenced.names(
                candidates[at],
            )
        }),
    decreases candidates.len() - from,
{
    if from < candidates.len() && !(candidates[from] != target && referenced.names(
        candidates[from],
    )) {
        lemma_next_candidate(target, candidates, referenced, from + 1);
    }
}

/// No delta of the resemblance tier is of its own content, which nothing could
/// resolve; its source is content that something references; and no body kept
/// as a source becomes one.
pub proof fn law_no_delta_of_itself(pass: ResemblancePass<'_>, i: int)
    requires
        pass.wf(),
        0 <= i < pass.batch().given().len(),
        pass.batch().changed(i),
    ensures
        pass.batch().source(i) != pass.batch().given()[i].entry.hash,
        pass.referenced().names(pass.batch().source(i)),
        !pass.reserved().contains(pass.batch().given()[i].entry.hash),
{
    if i >= pass.batch().place() {
        assert(pass.batch().pendings()[i] == pass.batch().given()[i]);
    }
}

// ---------------------------------------------------------------------------
// The import pass
// ---------------------------------------------------------------------------

/// What content of an import is tried against.
pub struct Conversion {
    pub source_hash: ContentHash,
    pub source_plain: Vec<u8>,
}

/// The sources of an import, by the content tried against them. The first
/// source found for some content stays.
pub struct Conversions {
    table: SlotTable<Conversion>,
}

/// The slot of a hash.
pub open spec fn slot_of(hash: ContentHash) -> SlotKey {
    SlotKey { owner: None, hash }
}

impl Conversions {
    /// Every slot is that of a hash.
    pub closed spec fn wf(&self) -> bool {
        &&& self.table.wf()
        &&& forall|i: int|
            0 <= i < self.table.slots().len() ==> (#[trigger] self.table.slots()[i]).0.owner is None
    }

    /// The source `hash` is tried against.
    pub closed spec fn of(&self, hash: ContentHash) -> Option<Conversion> {
        self.table.find(slot_of(hash))
    }

    pub fn new() -> (c: Self)
        ensures
            c.wf(),
            forall|h: ContentHash| #[trigger] c.of(h) is None,
    {
        Conversions { table: SlotTable::new() }
    }

    pub fn is_empty(&self) -> (b: bool)
        requires
            self.wf(),
        ensures
            b <==> forall|h: ContentHash| #[trigger] self.of(h) is None,
    {
        let empty = self.table.is_empty();
        proof {
            if !empty {
                self.table.lemma_find(0);
                assert(self.table.slots()[0].0 == slot_of(self.table.slots()[0].0.hash));
                assert(self.of(self.table.slots()[0].0.hash) is Some);
            }
        }
        empty
    }

    /// Whether `hash` has a source.
    pub fn contains(&self, hash: ContentHash) -> (b: bool)
        requires
            self.wf(),
        ensures
            b == self.of(hash) is Some,
    {
        self.table.get(SlotKey { owner: None, hash }).is_some()
    }

    /// Try `hash` against this source, unless it has one.
    pub fn add_source(&mut self, hash: ContentHash, conversion: Conversion)
        requires
            old(self).wf(),
        ensures
            final(self).wf(),
            forall|h: ContentHash| #[trigger]
                final(self).of(h) == (if h == hash && old(self).of(hash) is None {
                    Some(conversion)
                } else {
                    old(self).of(h)
                }),
    {
        self.table.insert_if_absent(SlotKey { owner: None, hash }, conversion);
    }

    fn get(&self, hash: ContentHash) -> (found: Option<&Conversion>)
        requires
            self.wf(),
        ensures
            match found {
                Some(c) => self.of(hash) == Some(*c),
                None => self.of(hash) is None,
            },
    {
        self.table.get(SlotKey { owner: None, hash })
    }

    /// Whether a stored body among `entries` has a source.
    pub fn any_match(&self, entries: &Vec<SegmentEntry>) -> (b: bool)
        requires
            self.wf(),
        ensures
            b == exists|i: int|
                0 <= i < entries@.len() && (#[trigger] entries@[i]).kind is Data && self.of(
                    entries@[i].hash,
                ) is Some,
    {
        let mut i: usize = 0;
        while i < entries.len()
            invariant
                self.wf(),
                i <= entries.len(),
                forall|j: int|
                    0 <= j < i ==> !((#[trigger] entries@[j]).kind is Data && self.of(
                        entries@[j].hash,
                    ) is Some),
            decreases entries.len() - i,
        {
            let data: bool = matches!(entries[i].kind, EntryKind::Data);
            if data && self.contains(entries[i].hash) {
                assert(entries@[i as int].kind is Data);
                return true;
            }
            i += 1;
        }
        false
    }
}

/// The pending is a stored body that has a source.
pub open spec fn has_source(pending: PendingEntry, conversions: Conversions) -> bool {
    pending.entry.kind is Data && pending.body is Some && conversions.of(pending.entry.hash) is Some
}

/// Stored bodies as deltas of what a parent volume holds in their place.
pub struct ImportPass<'a> {
    batch: DeltaBatch,
    conversions: &'a Conversions,
    stats: SegmentDeltaStats,
}

impl<'a> ImportPass<'a> {
    pub closed spec fn batch(&self) -> DeltaBatch {
        self.batch
    }

    pub closed spec fn conversions(&self) -> Conversions {
        *self.conversions
    }

    pub closed spec fn stats(&self) -> SegmentDeltaStats {
        self.stats
    }

    /// Every delta is of the source found for its content, and the stats count
    /// the deltas made.
    pub open spec fn wf(&self) -> bool {
        &&& self.batch().wf()
        &&& self.conversions().wf()
        &&& forall|i: int|
            0 <= i < self.batch().place() && #[trigger] self.batch().changed(i) ==> has_source(
                self.batch().given()[i],
                self.conversions(),
            ) && self.conversions().of(self.batch().given()[i].entry.hash)->0.source_hash
                == self.batch().source(i)
        &&& self.stats().entries_converted == clamped(
            self.batch().changed_before(self.batch().place()),
        )
    }

    /// The pass stands at a pending to try.
    pub open spec fn trying(&self) -> bool {
        self.batch().place() < self.batch().given().len() && has_source(
            self.batch().given()[self.batch().place()],
            self.conversions(),
        )
    }

    pub fn new(pendings: Vec<PendingEntry>, conversions: &'a Conversions) -> (pass: Self)
        requires
            conversions.wf(),
        ensures
            pass.wf(),
            pass.batch().given() == pendings@,
            pass.batch().place() == 0,
            pass.batch().section().len() == 0,
            pass.conversions() == *conversions,
            pass.stats() == (SegmentDeltaStats {
                entries_converted: 0,
                original_body_bytes: 0,
                delta_body_bytes: 0,
                entries_reserved_as_sources: 0,
            }),
    {
        ImportPass {
            batch: DeltaBatch::new(pendings, Vec::new()),
            conversions,
            stats: SegmentDeltaStats::default(),
        }
    }

    /// Go on to the next pending to try. Whether there is one.
    pub fn next_target(&mut self) -> (found: bool)
        requires
            old(self).wf(),
        ensures
            final(self).wf(),
            final(self).conversions() == old(self).conversions(),
            final(self).stats() == old(self).stats(),
            final(self).batch().same_but_place(old(self).batch()),
            old(self).batch().place() <= final(self).batch().place(),
            forall|i: int|
                old(self).batch().place() <= i < final(self).batch().place() ==> !has_source(
                    #[trigger] final(self).batch().given()[i],
                    final(self).conversions(),
                ),
            found == final(self).trying(),
            !found ==> final(self).batch().place() == final(self).batch().given().len(),
    {
        let ghost before = *self;
        while !self.batch.at_end()
            invariant
                before == *old(self),
                before.wf(),
                self.wf(),
                self.conversions() == before.conversions(),
                self.stats() == before.stats(),
                self.batch().same_but_place(before.batch()),
                before.batch().place() <= self.batch().place(),
                forall|i: int|
                    before.batch().place() <= i < self.batch().place() ==> !has_source(
                        #[trigger] self.batch().given()[i],
                        self.conversions(),
                    ),
            decreases self.batch().given().len() - self.batch().place(),
        {
            let ghost mid = *self;
            let pending = self.batch.current();
            let data: bool = matches!(pending.entry.kind, EntryKind::Data);
            if data && pending.body.is_some() && self.conversions.contains(pending.entry.hash) {
                return true;
            }
            self.batch.pass();
            proof {
                self.lemma_passed(mid);
            }
        }
        false
    }

    /// A pending more has been passed as it is.
    proof fn lemma_passed(&self, mid: ImportPass<'a>)
        requires
            mid.wf(),
            mid.batch().place() < mid.batch().given().len(),
            self.conversions() == mid.conversions(),
            self.stats().entries_converted == mid.stats().entries_converted,
            self.batch().wf(),
            self.batch().same_but_place(mid.batch()),
            self.batch().place() == mid.batch().place() + 1,
        ensures
            self.wf(),
    {
        let at = mid.batch().place();
        assert(mid.batch().pendings()[at] == mid.batch().given()[at]);
        self.batch().lemma_passed_uncounted(mid.batch());
        assert forall|i: int|
            0 <= i < self.batch().place() && #[trigger] self.batch().changed(i) implies has_source(
            self.batch().given()[i],
            self.conversions(),
        ) && self.conversions().of(self.batch().given()[i].entry.hash)->0.source_hash
            == self.batch().source(i) by {
            assert(mid.batch().changed(i));
        }
    }

    /// The pending to try.
    pub fn current(&self) -> (pending: &PendingEntry)
        requires
            self.wf(),
            self.trying(),
        ensures
            *pending == self.batch().given()[self.batch().place()],
    {
        self.batch.current()
    }

    /// Make the pending a delta of its source where that is worth storing, and
    /// pass it either way.
    pub fn convert(&mut self, child_plain: &[u8]) -> (converted: Result<bool, DeltaError>)
        requires
            old(self).wf(),
            old(self).trying(),
        ensures
            final(self).wf(),
            final(self).conversions() == old(self).conversions(),
            ({
                let at = old(self).batch().place();
                let entry = old(self).batch().given()[at].entry;
                let source = old(self).conversions().of(entry.hash)->0;
                match converted {
                    Ok(true) => old(self).batch().converts(
                        final(self).batch(),
                        source.source_hash,
                        source.source_plain@,
                        child_plain@,
                    ) && final(self).stats() == counted(
                        old(self).stats(),
                        entry.stored_length as int,
                        old(self).batch().grown_by(final(self).batch()).len() as int,
                    ),
                    Ok(false) => final(self).batch().same_but_place(old(self).batch())
                        && final(self).batch().place() == at + 1
                        && final(self).stats() == old(self).stats() && conversion_loses(
                        source.source_plain@,
                        child_plain@,
                        entry.stored_length as int,
                    ),
                    Err(e) => final(self).batch().same_but_place(old(self).batch())
                        && final(self).batch().place() == at
                        && final(self).stats() == old(self).stats() && conversion_fails(
                        e,
                        source.source_plain@,
                        child_plain@,
                        entry.stored_length as int,
                    ),
                }
            }),
    {
        let ghost mid = *self;
        let made = match self.conversions.get(self.batch.current().entry.hash) {
            Some(source) => self.batch.convert(
                source.source_hash,
                source.source_plain.as_slice(),
                child_plain,
                &mut self.stats,
            ),
            None => {
                return Ok(false);
            },
        };
        proof {
            match made {
                Ok(true) => {
                    let at = mid.batch().place();
                    self.batch().lemma_converted_counted(
                        mid.batch(),
                        mid.conversions().of(mid.batch().given()[at].entry.hash)->0.source_hash,
                        mid.conversions().of(mid.batch().given()[at].entry.hash)->0.source_plain@,
                        child_plain@,
                    );
                    assert forall|i: int|
                        0 <= i < self.batch().place() && #[trigger] self.batch().changed(
                            i,
                        ) implies has_source(self.batch().given()[i], self.conversions())
                        && self.conversions().of(
                        self.batch().given()[i].entry.hash,
                    )->0.source_hash == self.batch().source(i) by {
                        if i != at {
                            assert(self.batch().pendings()[i] == mid.batch().pendings()[i]);
                            assert(mid.batch().changed(i));
                        }
                    }
                },
                Ok(false) => self.lemma_passed(mid),
                Err(_) => {
                    self.batch().lemma_changed_before(mid.batch(), mid.batch().place());
                    assert forall|i: int|
                        0 <= i < self.batch().place() && #[trigger] self.batch().changed(
                            i,
                        ) implies has_source(self.batch().given()[i], self.conversions())
                        && self.conversions().of(
                        self.batch().given()[i].entry.hash,
                    )->0.source_hash == self.batch().source(i) by {
                        assert(mid.batch().changed(i));
                    }
                },
            }
        }
        made
    }

    /// The pendings, the delta section and the stats.
    pub fn finish(self) -> (parts: (Vec<PendingEntry>, Vec<u8>, SegmentDeltaStats))
        ensures
            parts.0@ == self.batch().pendings(),
            parts.1@ == self.batch().section(),
            parts.2 == self.stats(),
    {
        let (pendings, delta_body) = self.batch.finish();
        (pendings, delta_body, self.stats)
    }
}

// ---------------------------------------------------------------------------
// Laws
// ---------------------------------------------------------------------------

/// What a pass made can be read back: whatever pending became a delta, its
/// blob in the section decodes against the source's plaintext to the plaintext
/// of its body, and the option that names the blob gives its hash.
pub proof fn law_deltas_read_back(batch: DeltaBatch, i: int)
    requires
        batch.wf(),
        0 <= i < batch.given().len(),
        batch.changed(i),
    ensures
        reads_back(batch.fetched(i).0, batch.blob(i), batch.fetched(i).1),
        crate::ids::hashes_to(
            batch.blob(i),
            batch.pendings()[i].entry.delta_options@.last().delta_hash,
        ),
        batch.pendings()[i].entry.hash == batch.given()[i].entry.hash,
{
    if i >= batch.place() {
        assert(batch.pendings()[i] == batch.given()[i]);
    }
    assert(batch.sound(i));
}

/// Nothing in a batch becomes a delta of a delta: a pending whose content one
/// of the batch's deltas is made of keeps its body.
pub proof fn law_a_source_keeps_its_body(pass: PriorPass, i: int, j: int)
    requires
        pass.wf(),
        0 <= i < pass.batch().given().len(),
        0 <= j < pass.batch().given().len(),
        pass.batch().changed(i),
        pass.batch().given()[j].entry.hash == pass.batch().source(i),
    ensures
        pass.batch().pendings()[j] == pass.batch().given()[j],
{
    let batch = pass.batch();
    if i >= batch.place() {
        assert(batch.pendings()[i] == batch.given()[i]);
    }
    assert(pass.choice(i) == PriorChoice::Try(batch.source(i)));
    assert(one_block_body(batch.given()[i].entry));
    assert(reserved_in(batch.given(), pass.prior(), batch.source(i)));
    assert(pass.reserved().contains(batch.source(i)));
    if batch.changed(j) {
        if j >= batch.place() {
            assert(batch.pendings()[j] == batch.given()[j]);
        }
        assert(pass.choice(j) is Try);
    }
}

/// A delta advertises no sketch, so that nothing is made a delta of it; and
/// what the resemblance tier was not to probe keeps what it advertised.
pub proof fn law_a_delta_advertises_no_sketch(pass: ResemblancePass, i: int)
    requires
        pass.wf(),
        0 <= i < pass.batch().place(),
    ensures
        ({
            let left = marked(pass.batch().pendings()[i], pass.marks()[i]);
            &&& pass.batch().changed(i) ==> left.entry.kind is Delta && left.sketch is None
            &&& !(pass.choice(i) is Probe) ==> left == pass.batch().given()[i]
        }),
{
    assert(pass.batch().sound(i));
    if !(pass.choice(i) is Probe) {
        assert(!pass.batch().changed(i));
        assert(pass.marks()[i] is Untouched);
    } else {
        let mark = pass.marks()[i];
        assert(pass.batch().changed(i) ==> mark is Cleared);
    }
}

/// The pendings that the same-block tier keeps as sources are counted one by
/// one: a stretch keeps what its parts keep.
pub proof fn law_kept_sources_add_up(
    pendings: Seq<PendingEntry>,
    prior: SnapshotSourceMap,
    reserved: Set<ContentHash>,
    from: int,
    mid: int,
    to: int,
)
    requires
        0 <= from <= mid <= to <= pendings.len(),
    ensures
        kept_between(pendings, prior, reserved, from, to) == kept_between(
            pendings,
            prior,
            reserved,
            from,
            mid,
        ) + kept_between(pendings, prior, reserved, mid, to),
        from < to ==> kept_between(pendings, prior, reserved, from, from + 1) == (
        if prior_choice_of(pendings[from], prior, reserved) is Reserved {
            1int
        } else {
            0
        }),
        0 <= kept_between(pendings, prior, reserved, from, to) <= to - from,
    decreases to - mid,
{
    reveal_with_fuel(kept_between, 2);
    if mid < to {
        law_kept_sources_add_up(pendings, prior, reserved, from, mid, to - 1);
    }
    lemma_kept_bounds(pendings, prior, reserved, from, to);
}

proof fn lemma_kept_bounds(
    pendings: Seq<PendingEntry>,
    prior: SnapshotSourceMap,
    reserved: Set<ContentHash>,
    from: int,
    to: int,
)
    requires
        from <= to,
    ensures
        0 <= kept_between(pendings, prior, reserved, from, to) <= to - from,
    decreases to - from,
{
    if from < to {
        lemma_kept_bounds(pendings, prior, reserved, from, to - 1);
    }
}

/// A source that was tried is counted once, as a hit or by the bytes it took to
/// read, and nothing else is.
pub proof fn law_a_tried_source_is_counted(before: ResemblanceStats, hit: bool, len: int)
    requires
        0 <= len,
        before.candidates_tried < u64::MAX,
        before.dictionary_cache_hits < u64::MAX,
        before.dictionary_bytes_read + len <= u64::MAX,
    ensures
        with_read(before, hit, len).candidates_tried == before.candidates_tried + 1,
        hit ==> with_read(before, hit, len).dictionary_cache_hits == before.dictionary_cache_hits
            + 1 && with_read(before, hit, len).dictionary_bytes_read
            == before.dictionary_bytes_read,
        !hit ==> with_read(before, hit, len).dictionary_cache_hits == before.dictionary_cache_hits
            && with_read(before, hit, len).dictionary_bytes_read == before.dictionary_bytes_read
            + len,
        with_read(before, hit, len).delta == before.delta,
{
}

/// A pending that becomes a delta takes the place of a longer body, adds its
/// blob to the section behind all that was there, and leaves every other
/// pending alone.
pub proof fn law_a_conversion_only_appends(
    before: DeltaBatch,
    after: DeltaBatch,
    source_hash: ContentHash,
    source_plain: Seq<u8>,
    child_plain: Seq<u8>,
)
    requires
        before.wf(),
        before.place() < before.given().len(),
        before.converts(after, source_hash, source_plain, child_plain),
    ensures
        before.section().is_prefix_of(after.section()),
        after.section().len() < before.section().len()
            + before.pendings()[before.place()].entry.stored_length,
        reads_back(
            source_plain,
            after.section().skip(before.section().len() as int),
            child_plain,
        ),
        after.pendings().len() == before.pendings().len(),
        forall|i: int|
            0 <= i < before.pendings().len() && i != before.place() ==> #[trigger]
            after.pendings()[i] == before.pendings()[i],
        after.pendings()[before.place()].entry.hash
            == before.pendings()[before.place()].entry.hash,
        after.pendings()[before.place()].entry.kind is Delta,
        after.pendings()[before.place()].entry.delta_options@.last().source_hash == source_hash,
        after.pendings()[before.place()].entry.delta_options@.last().delta_offset
            == before.section().len(),
        after.place() == before.place() + 1,
{
    let at = before.place();
    let blob = before.grown_by(after);
    assert(after.section().take(before.section().len() as int) =~= before.section());
    assert(after.section().skip(before.section().len() as int) =~= blob);
}

} // verus!
