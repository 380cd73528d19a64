//! The entries of a segment index, as far as liveness, packing and reclaim
//! read them.

use vstd::prelude::*;

use crate::ids::ContentHash;

verus! {

/// How an entry's content is held.
#[derive(Clone, Copy, Debug, PartialEq, Eq, Structural)]
pub enum EntryKind {
    /// A body in the segment's body section.
    Data,
    /// A body small enough to ride in the index.
    Inline,
    /// A claim on content some other entry holds.
    DedupRef,
    /// A run of zero blocks.
    Zero,
    /// Content encoded against another extent.
    Delta,
    /// A body kept for resolution alone, without a claim.
    CanonicalData,
    /// An inline body kept for resolution alone.
    CanonicalInline,
    /// A delta kept for resolution alone.
    CanonicalDelta,
}

impl EntryKind {
    /// The kind makes no block claim.
    pub open spec fn canonical_only(self) -> bool {
        self is CanonicalData || self is CanonicalInline || self is CanonicalDelta
    }

    /// The kind holds a slot of the extent index under its hash.
    pub open spec fn owns_hash(self) -> bool {
        !(self is DedupRef || self is Zero)
    }

    /// The kind stores body bytes of its own.
    pub open spec fn bears_body(self) -> bool {
        self is Data || self is Inline || self is CanonicalData || self is CanonicalInline
    }

    /// Whether the kind makes no block claim.
    pub fn is_canonical_only(&self) -> (b: bool)
        ensures
            b == self.canonical_only(),
    {
        matches!(
            self,
            EntryKind::CanonicalData | EntryKind::CanonicalInline | EntryKind::CanonicalDelta
        )
    }

    /// Whether the kind holds a slot of the extent index under its hash.
    pub fn owns_extent_hash(&self) -> (b: bool)
        ensures
            b == self.owns_hash(),
    {
        !matches!(self, EntryKind::DedupRef | EntryKind::Zero)
    }

    /// Whether the kind stores body bytes of its own.
    pub fn has_body_bytes(&self) -> (b: bool)
        ensures
            b == self.bears_body(),
    {
        matches!(
            self,
            EntryKind::Data
                | EntryKind::Inline
                | EntryKind::CanonicalData
                | EntryKind::CanonicalInline
        )
    }
}

/// The form a stored body is held in.
#[derive(Clone, Copy, Debug, PartialEq, Eq, Structural)]
pub enum Codec {
    /// Stored as it is.
    Plain,
    Lz4,
    Zstd,
}

/// One way to decode a delta: the source it was encoded against and where
/// its blob lies in the segment's delta section.
#[derive(Clone, Copy, Debug, PartialEq, Eq, Structural)]
pub struct DeltaOption {
    pub source_hash: ContentHash,
    pub delta_offset: u64,
    pub delta_length: u32,
    pub delta_hash: ContentHash,
}

/// One entry of a segment index.
#[derive(Clone, Debug)]
pub struct SegmentEntry {
    pub hash: ContentHash,
    pub start_lba: u64,
    pub lba_length: u32,
    pub codec: Codec,
    pub kind: EntryKind,
    /// Place of the body in the body section.
    pub stored_offset: u64,
    /// Length of the body as stored.
    pub stored_length: u32,
    pub delta_options: Vec<DeltaOption>,
    /// The entry belongs to the journal tier.
    pub journal: bool,
}

impl SegmentEntry {
    /// The blocks the entry covers stay inside the block range.
    pub open spec fn in_range(&self) -> bool {
        self.start_lba + self.lba_length <= u64::MAX
    }

    /// A claim on content another entry holds.
    pub fn new_dedup_ref(hash: ContentHash, start_lba: u64, lba_length: u32) -> (e: Self)
        ensures
            e.hash == hash && e.start_lba == start_lba && e.lba_length == lba_length,
            e.codec is Plain && e.kind is DedupRef && !e.journal,
            e.stored_offset == 0 && e.stored_length == 0,
            e.delta_options@.len() == 0,
    {
        SegmentEntry {
            hash,
            start_lba,
            lba_length,
            codec: Codec::Plain,
            kind: EntryKind::DedupRef,
            stored_offset: 0,
            stored_length: 0,
            delta_options: Vec::new(),
            journal: false,
        }
    }

    /// Content encoded against another extent.
    pub fn new_delta(
        hash: ContentHash,
        start_lba: u64,
        lba_length: u32,
        delta_options: Vec<DeltaOption>,
    ) -> (e: Self)
        ensures
            e.hash == hash && e.start_lba == start_lba && e.lba_length == lba_length,
            e.codec is Plain && e.kind is Delta && !e.journal,
            e.stored_offset == 0 && e.stored_length == 0,
            e.delta_options@ == delta_options@,
    {
        SegmentEntry {
            hash,
            start_lba,
            lba_length,
            codec: Codec::Plain,
            kind: EntryKind::Delta,
            stored_offset: 0,
            stored_length: 0,
            delta_options,
            journal: false,
        }
    }
}

/// Every kind holds a body under its hash, a delta, or neither, and claims
/// blocks or is kept for resolution alone.
pub proof fn law_what_each_kind_holds(kind: EntryKind)
    ensures
        kind.bears_body() ==> kind.owns_hash(),
        kind.owns_hash() && !kind.bears_body() <==> kind is Delta || kind is CanonicalDelta,
        !kind.owns_hash() <==> kind is DedupRef || kind is Zero,
        kind.canonical_only() ==> kind.owns_hash(),
        !kind.canonical_only() <==> kind is Data || kind is Inline || kind is DedupRef || kind
            is Zero || kind is Delta,
{
}

} // verus!
