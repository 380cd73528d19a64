//! Turning stored bodies into deltas as a segment is formed.
//!
//! Three tiers share one conversion. The import tier pairs the fragments of
//! two file maps by path; the same-block tier takes what a sealed snapshot
//! holds at the block; the resemblance tier takes what a sketch index offers.
//! Each decides which source an entry is tried against; reading the source
//! lies between the decision and the conversion.

use vstd::prelude::*;

use crate::delta_codec::{
    delta_is_worth_storing, earns_place, make_delta, reads_back, DeltaError,
};
use crate::extent_index::ExtentIndex;
use crate::hash_set::Blake3HashSet;
use crate::ids::{content_hash, ContentHash, Ulid};
use crate::lbamap::ReferencedHashes;
use crate::repack::clamped;
use crate::segment::{Codec, DeltaOption, EntryKind, SegmentEntry};

verus! {

/// Bytes of one block.
pub const LBA_BYTES: u64 = 4096;

/// How far down the ranked candidates a readable source is looked for. Only
/// one is ever compressed against.
pub const MAX_RESEMBLANCE_CANDIDATES: usize = 4;

/// An entry about to be written, with its body as stored and, where one has
/// been made, the sketch that the segment advertises for it.
pub struct PendingEntry {
    pub entry: SegmentEntry,
    pub body: Option<Vec<u8>>,
    pub sketch: Option<Vec<u8>>,
}

/// What delta work came to over a volume.
#[derive(Clone, Copy, Debug, PartialEq, Eq, Structural)]
pub struct DeltaStats {
    pub segments_rewritten: u64,
    pub entries_converted: u64,
    pub original_body_bytes: u64,
    pub delta_body_bytes: u64,
}

/// What delta work came to over one segment.
#[derive(Clone, Copy, Debug, PartialEq, Eq, Structural)]
pub struct SegmentDeltaStats {
    pub entries_converted: u64,
    pub original_body_bytes: u64,
    pub delta_body_bytes: u64,
    /// Entries kept as they are because another of the batch is a delta
    /// against their content.
    pub entries_reserved_as_sources: u64,
}

/// What one resemblance pass came to.
#[derive(Clone, Copy, Debug, PartialEq, Eq, Structural)]
pub struct ResemblanceStats {
    pub delta: SegmentDeltaStats,
    pub targets_probed: u64,
    pub candidates_tried: u64,
    pub dictionary_bytes_read: u64,
    pub dictionary_cache_hits: u64,
    pub candidates_unreferenced: u64,
}

impl Default for DeltaStats {
    fn default() -> (s: Self)
        ensures
            s == (DeltaStats {
                segments_rewritten: 0,
                entries_converted: 0,
                original_body_bytes: 0,
                delta_body_bytes: 0,
            }),
    {
        DeltaStats {
            segments_rewritten: 0,
            entries_converted: 0,
            original_body_bytes: 0,
            delta_body_bytes: 0,
        }
    }
}

impl Default for SegmentDeltaStats {
    fn default() -> (s: Self)
        ensures
            s == (SegmentDeltaStats {
                entries_converted: 0,
                original_body_bytes: 0,
                delta_body_bytes: 0,
                entries_reserved_as_sources: 0,
            }),
    {
        SegmentDeltaStats {
            entries_converted: 0,
            original_body_bytes: 0,
            delta_body_bytes: 0,
            entries_reserved_as_sources: 0,
        }
    }
}

impl Default for ResemblanceStats {
    fn default() -> (s: Self)
        ensures
            s.delta == (SegmentDeltaStats {
                entries_converted: 0,
                original_body_bytes: 0,
                delta_body_bytes: 0,
                entries_reserved_as_sources: 0,
            }),
            s.targets_probed == 0 && s.candidates_tried == 0 && s.dictionary_bytes_read == 0,
            s.dictionary_cache_hits == 0 && s.candidates_unreferenced == 0,
    {
        ResemblanceStats {
            delta: SegmentDeltaStats::default(),
            targets_probed: 0,
            candidates_tried: 0,
            dictionary_bytes_read: 0,
            dictionary_cache_hits: 0,
            candidates_unreferenced: 0,
        }
    }
}

impl DeltaStats {
    /// Add what one segment came to. A segment nothing was converted in was
    /// not rewritten.
    pub fn add_segment(&mut self, seg: &SegmentDeltaStats)
        ensures
            seg.entries_converted == 0 ==> *final(self) == *old(self),
            seg.entries_converted > 0 ==> {
                &&& final(self).segments_rewritten == clamped(old(self).segments_rewritten + 1)
                &&& final(self).entries_converted == clamped(
                    old(self).entries_converted + seg.entries_converted,
                )
                &&& final(self).original_body_bytes == clamped(
                    old(self).original_body_bytes + seg.original_body_bytes,
                )
                &&& final(self).delta_body_bytes == clamped(
                    old(self).delta_body_bytes + seg.delta_body_bytes,
                )
            },
    {
        if seg.entries_converted > 0 {
            self.segments_rewritten = self.segments_rewritten.saturating_add(1);
            self.entries_converted = self.entries_converted.saturating_add(seg.entries_converted);
            self.original_body_bytes =
            self.original_body_bytes.saturating_add(seg.original_body_bytes);
            self.delta_body_bytes = self.delta_body_bytes.saturating_add(seg.delta_body_bytes);
        }
    }
}

// ---------------------------------------------------------------------------
// Conversion
// ---------------------------------------------------------------------------

/// `after` is `before` as a delta against `source`, with `blob` at `offset` of
/// the delta section: no body, and the source as one more option. What is
/// advertised for it is left.
pub open spec fn is_converted(
    before: PendingEntry,
    after: PendingEntry,
    source: ContentHash,
    blob: Seq<u8>,
    offset: int,
) -> bool {
    &&& after.body is None
    &&& after.sketch == before.sketch
    &&& after.entry.kind is Delta
    &&& after.entry.stored_offset == 0
    &&& after.entry.stored_length == 0
    &&& after.entry.codec is Plain
    &&& after.entry.hash == before.entry.hash
    &&& after.entry.start_lba == before.entry.start_lba
    &&& after.entry.lba_length == before.entry.lba_length
    &&& after.entry.journal == before.entry.journal
    &&& after.entry.delta_options@.len() == before.entry.delta_options@.len() + 1
    &&& after.entry.delta_options@.drop_last() == before.entry.delta_options@
    &&& ({
        let option = after.entry.delta_options@.last();
        &&& option.source_hash == source
        &&& option.delta_offset == offset
        &&& option.delta_length == blob.len()
        &&& crate::ids::hashes_to(blob, option.delta_hash)
    })
}

/// The stats with one conversion of a body of `stored` bytes into `made`
/// counted.
pub open spec fn counted(
    before: SegmentDeltaStats,
    stored: int,
    made: int,
) -> SegmentDeltaStats {
    SegmentDeltaStats {
        entries_converted: clamped(before.entries_converted + 1) as u64,
        original_body_bytes: clamped(before.original_body_bytes + stored) as u64,
        delta_body_bytes: clamped(before.delta_body_bytes + made) as u64,
        entries_reserved_as_sources: before.entries_reserved_as_sources,
    }
}

/// Make the entry a delta against `source_hash`, with `blob` appended to the
/// delta section.
pub fn convert_with_blob(
    pending: &mut PendingEntry,
    source_hash: ContentHash,
    blob: &Vec<u8>,
    delta_body: &mut Vec<u8>,
    stats: &mut SegmentDeltaStats,
)
    requires
        blob@.len() <= u32::MAX,
    ensures
        is_converted(
            *old(pending),
            *final(pending),
            source_hash,
            blob@,
            old(delta_body)@.len() as int,
        ),
        final(delta_body)@ == old(delta_body)@ + blob@,
        *final(stats) == counted(
            *old(stats),
            old(pending).entry.stored_length as int,
            blob@.len() as int,
        ),
{
    let delta_offset: u64 = delta_body.len() as u64;
    let delta_length: u32 = blob.len() as u32;
    let delta_hash = content_hash(blob.as_slice());
    let ghost section = delta_body@;
    delta_body.extend_from_slice(blob.as_slice());
    assert(delta_body@ =~= section + blob@);
    stats.original_body_bytes =
    stats.original_body_bytes.saturating_add(pending.entry.stored_length as u64);
    stats.delta_body_bytes = stats.delta_body_bytes.saturating_add(delta_length as u64);
    stats.entries_converted = stats.entries_converted.saturating_add(1);
    pending.entry.kind = EntryKind::Delta;
    pending.entry.stored_offset = 0;
    pending.entry.stored_length = 0;
    pending.entry.codec = Codec::Plain;
    let ghost options = pending.entry.delta_options@;
    pending.entry.delta_options.push(
        DeltaOption { source_hash, delta_offset, delta_length, delta_hash },
    );
    assert(pending.entry.delta_options@.drop_last() =~= options);
    pending.body = None;
}

/// Some delta of the child's plaintext against the source's is not worth
/// storing in place of a body stored in `stored` bytes.
pub open spec fn conversion_loses(source_plain: Seq<u8>, child_plain: Seq<u8>, stored: int) -> bool {
    exists|blob: Seq<u8>| #[trigger]
        reads_back(source_plain, blob, child_plain) && earns_place(
            blob.len() as int,
            stored,
            child_plain,
        ) == Some(false)
}

/// The codec failed at a conversion with `e`: at the delta, or, the delta made
/// and smaller than the body stored in `stored` bytes, at the control that it
/// is then held against.
pub open spec fn conversion_fails(
    e: DeltaError,
    source_plain: Seq<u8>,
    child_plain: Seq<u8>,
    stored: int,
) -> bool {
    match e {
        DeltaError::CompressorInit(_) | DeltaError::Compress(_) => true,
        DeltaError::Control(_) => exists|blob: Seq<u8>| #[trigger]
            reads_back(source_plain, blob, child_plain) && earns_place(
                blob.len() as int,
                stored,
                child_plain,
            ) is None,
        _ => false,
    }
}

/// Compress the entry's plaintext against the source, and make the entry a
/// delta where that is worth storing. Whether it was is the answer.
pub fn convert_against(
    pending: &mut PendingEntry,
    source_hash: ContentHash,
    source_plain: &[u8],
    child_plain: &[u8],
    delta_body: &mut Vec<u8>,
    stats: &mut SegmentDeltaStats,
) -> (converted: Result<bool, DeltaError>)
    ensures
        ({
            let stored = old(pending).entry.stored_length as int;
            // What the delta section has grown by.
            let blob = final(delta_body)@.skip(old(delta_body)@.len() as int);
            let unchanged = *final(pending) == *old(pending) && *final(delta_body) == *old(
                delta_body,
            ) && *final(stats) == *old(stats);
            match converted {
                Ok(true) => {
                    &&& final(delta_body)@ == old(delta_body)@ + blob
                    &&& reads_back(source_plain@, blob, child_plain@)
                    &&& earns_place(blob.len() as int, stored, child_plain@) == Some(true)
                    &&& is_converted(
                        *old(pending),
                        *final(pending),
                        source_hash,
                        blob,
                        old(delta_body)@.len() as int,
                    )
                    &&& *final(stats) == counted(*old(stats), stored, blob.len() as int)
                },
                Ok(false) => unchanged && conversion_loses(source_plain@, child_plain@, stored),
                Err(e) => unchanged && conversion_fails(e, source_plain@, child_plain@, stored),
            }
        }),
{
    let ghost section = delta_body@;
    let blob = match make_delta(source_plain, child_plain) {
        Ok(blob) => blob,
        Err(e) => {
            return Err(e);
        },
    };
    match delta_is_worth_storing(blob.len(), pending.entry.stored_length, child_plain) {
        Ok(true) => {
            convert_with_blob(pending, source_hash, &blob, delta_body, stats);
            assert((section + blob@).skip(section.len() as int) =~= blob@);
            Ok(true)
        },
        Ok(false) => Ok(false),
        Err(e) => Err(e),
    }
}

// ---------------------------------------------------------------------------
// The import tier
// ---------------------------------------------------------------------------

/// A stretch of a file held as one extent.
#[derive(Clone, Copy, Debug, PartialEq, Eq, Structural)]
pub struct Fragment {
    pub file_offset: u64,
    pub byte_count: u64,
    pub hash: ContentHash,
}

/// A file of a file map, its fragments by rising offset.
pub struct FileFragments {
    pub path: String,
    pub fragments: Vec<Fragment>,
}

/// The files of a volume.
pub struct Filemap {
    pub files: Vec<FileFragments>,
}

/// The place of `path` among `files`, or their number.
pub open spec fn file_at(files: Seq<FileFragments>, path: Seq<char>, from: int) -> int
    decreases files.len() - from,
{
    if from >= files.len() || files[from].path@ == path {
        from
    } else {
        file_at(files, path, from + 1)
    }
}

/// Both files are cut in the same places.
pub open spec fn same_layout(a: Seq<Fragment>, b: Seq<Fragment>) -> bool {
    &&& a.len() == b.len()
    &&& forall|i: int|
        #![trigger a[i]]
        #![trigger b[i]]
        0 <= i < a.len() ==> a[i].file_offset == b[i].file_offset && a[i].byte_count
            == b[i].byte_count
}

/// The pairs of the first `n` fragments that differ and whose source has a
/// body.
pub open spec fn fragment_pairs(
    child: Seq<Fragment>,
    source: Seq<Fragment>,
    index: ExtentIndex,
    n: int,
) -> Seq<(ContentHash, ContentHash)>
    decreases n,
{
    if n <= 0 {
        Seq::empty()
    } else {
        let before = fragment_pairs(child, source, index, n - 1);
        if child[n - 1].hash != source[n - 1].hash && index.body(source[n - 1].hash) is Some {
            before.push((child[n - 1].hash, source[n - 1].hash))
        } else {
            before
        }
    }
}

/// The pairs of the first `n` files of `child` that `source` has too, cut in
/// the same places.
pub open spec fn file_pairs(
    child: Seq<FileFragments>,
    source: Seq<FileFragments>,
    index: ExtentIndex,
    n: int,
) -> Seq<(ContentHash, ContentHash)>
    decreases n,
{
    if n <= 0 {
        Seq::empty()
    } else {
        let before = file_pairs(child, source, index, n - 1);
        let c = child[n - 1].fragments@;
        let at = file_at(source, child[n - 1].path@, 0);
        if at < source.len() && same_layout(c, source[at].fragments@) {
            before + fragment_pairs(c, source[at].fragments@, index, c.len() as int)
        } else {
            before
        }
    }
}

fn layouts_match(a: &Vec<Fragment>, b: &Vec<Fragment>) -> (m: bool)
    ensures
        m == same_layout(a@, b@),
{
    if a.len() != b.len() {
        return false;
    }
    let mut i: usize = 0;
    while i < a.len()
        invariant
            i <= a.len(),
            a@.len() == b@.len(),
            forall|j: int|
                #![trigger a@[j]]
                #![trigger b@[j]]
                0 <= j < i ==> a@[j].file_offset == b@[j].file_offset && a@[j].byte_count
                    == b@[j].byte_count,
        decreases a.len() - i,
    {
        if a[i].file_offset != b[i].file_offset || a[i].byte_count != b[i].byte_count {
            return false;
        }
        i += 1;
    }
    true
}

/// The `(child, source)` hashes worth a delta between two file maps: by path,
/// fragment by fragment where both files are cut in the same places, where
/// the content differs and the source volume holds the source's body. In the
/// order they are tried; the first source whose body can be read is kept for
/// a child.
pub fn match_filemaps(child: &Filemap, source: &Filemap, source_index: &ExtentIndex) -> (pairs: Vec<
    (ContentHash, ContentHash),
>)
    requires
        source_index.wf(),
    ensures
        pairs@ == file_pairs(
            child.files@,
            source.files@,
            *source_index,
            child.files@.len() as int,
        ),
{
    let mut pairs: Vec<(ContentHash, ContentHash)> = Vec::new();
    let mut i: usize = 0;
    while i < child.files.len()
        invariant
            i <= child.files.len(),
            source_index.wf(),
            pairs@ == file_pairs(child.files@, source.files@, *source_index, i as int),
        decreases child.files.len() - i,
    {
        let file = &child.files[i];
        let mut at: usize = 0;
        while at < source.files.len()
            invariant_except_break
                file_at(source.files@, file.path@, 0) == file_at(
                    source.files@,
                    file.path@,
                    at as int,
                ),
            invariant
                at <= source.files.len(),
            ensures
                at <= source.files.len(),
                file_at(source.files@, file.path@, 0) == at,
            decreases source.files.len() - at,
        {
            if source.files[at].path == file.path {
                break;
            }
            at += 1;
        }
        if at < source.files.len() && layouts_match(
            &file.fragments,
            &source.files[at].fragments,
        ) {
            let other = &source.files[at].fragments;
            let ghost before = pairs@;
            let mut n: usize = 0;
            while n < file.fragments.len()
                invariant
                    n <= file.fragments.len(),
                    source_index.wf(),
                    file.fragments@.len() == other@.len(),
                    pairs@ =~= before + fragment_pairs(
                        file.fragments@,
                        other@,
                        *source_index,
                        n as int,
                    ),
                decreases file.fragments.len() - n,
            {
                let c = file.fragments[n].hash;
                let s = other[n].hash;
                if c != s && source_index.lookup(&s).is_some() {
                    pairs.push((c, s));
                }
                n += 1;
            }
        }
        i += 1;
    }
    pairs
}

// ---------------------------------------------------------------------------
// The same-block tier
// ---------------------------------------------------------------------------

/// What a sealed snapshot holds at each block, as disjoint rising runs.
pub struct SnapshotSourceMap {
    pub runs: Vec<(u64, u32, ContentHash)>,
}

impl SnapshotSourceMap {
    /// The runs ascend and do not overlap.
    pub open spec fn wf(&self) -> bool {
        &&& forall|i: int|
            0 <= i < self.runs@.len() ==> (#[trigger] self.runs@[i]).0 + self.runs@[i].1
                <= u64::MAX
        &&& forall|i: int, j: int|
            0 <= i < j < self.runs@.len() ==> (#[trigger] self.runs@[i]).0 + self.runs@[i].1 <= (
            #[trigger] self.runs@[j]).0
    }

    /// Run `i` covers `lba`.
    pub open spec fn run_covers(&self, i: int, lba: u64) -> bool {
        0 <= i < self.runs@.len() && self.runs@[i].0 <= lba < self.runs@[i].0 + self.runs@[i].1
    }

    /// What the snapshot holds at `lba`.
    pub open spec fn at(&self, lba: u64) -> Option<ContentHash> {
        if exists|i: int| self.run_covers(i, lba) {
            Some(self.runs@[choose|i: int| self.run_covers(i, lba)].2)
        } else {
            None
        }
    }

    /// What the snapshot holds at `lba`.
    pub fn hash_for_lba(&self, lba: u64) -> (found: Option<ContentHash>)
        requires
            self.wf(),
        ensures
            found == self.at(lba),
    {
        let mut lo: usize = 0;
        let mut hi: usize = self.runs.len();
        while lo < hi
            invariant
                self.wf(),
                lo <= hi <= self.runs.len(),
                forall|i: int| self.run_covers(i, lba) ==> lo <= i < hi,
            decreases hi - lo,
        {
            let mid: usize = lo + (hi - lo) / 2;
            let (start, length, hash) = self.runs[mid];
            assert(self.runs@[mid as int].0 + self.runs@[mid as int].1 <= u64::MAX);
            if lba < start {
                hi = mid;
            } else if lba >= start + length as u64 {
                lo = mid + 1;
            } else {
                proof {
                    assert(self.run_covers(mid as int, lba));
                    let i = choose|i: int| self.run_covers(i, lba);
                    assert(self.run_covers(i, lba));
                    assert(i == mid) by {
                        if i < mid {
                            assert(self.runs@[i].0 + self.runs@[i].1 <= self.runs@[mid as int].0);
                        } else if i > mid {
                            assert(self.runs@[mid as int].0 + self.runs@[mid as int].1
                                <= self.runs@[i].0);
                        }
                    }
                }
                return Some(hash);
            }
        }
        None
    }
}

/// The source map of one snapshot, kept from promote to promote.
pub struct PriorSourceCache {
    pub cached: Option<(Ulid, SnapshotSourceMap)>,
}

impl PriorSourceCache {
    /// A cache of nothing.
    pub fn new() -> (cache: Self)
        ensures
            cache.cached is None,
    {
        PriorSourceCache { cached: None }
    }

    /// The source map of `snap_ulid`, where it is the one that is kept.
    /// Otherwise it has to be built.
    pub fn map_for(&self, snap_ulid: Ulid) -> (map: Option<&SnapshotSourceMap>)
        ensures
            match self.cached {
                Some((ulid, kept)) => if ulid == snap_ulid {
                    map == Some(&kept)
                } else {
                    map is None
                },
                None => map is None,
            },
    {
        match &self.cached {
            Some((ulid, kept)) if *ulid == snap_ulid => Some(kept),
            _ => None,
        }
    }

    /// Keep the source map of `snap_ulid`, in place of any other.
    pub fn keep(&mut self, snap_ulid: Ulid, map: SnapshotSourceMap)
        ensures
            final(self).cached == Some((snap_ulid, map)),
    {
        self.cached = Some((snap_ulid, map));
    }
}

/// The entry is a stored body of one block.
pub open spec fn one_block_body(e: SegmentEntry) -> bool {
    e.kind is Data && e.lba_length == 1
}

/// A conversion of the batch may name `hash`: it is what the snapshot holds
/// under one of the batch's one-block bodies.
pub open spec fn reserved_in(
    pendings: Seq<PendingEntry>,
    prior: SnapshotSourceMap,
    hash: ContentHash,
) -> bool {
    exists|i: int|
        0 <= i < pendings.len() && one_block_body((#[trigger] pendings[i]).entry) && prior.at(
            pendings[i].entry.start_lba,
        ) == Some(hash)
}

/// The hashes a batch must leave carrying a body. A source resolves to a body
/// alone, so a pending that holds one of them must not become a delta itself.
/// Taken over the whole batch ahead of any conversion, so that the outcome
/// does not depend on the order of the pendings.
pub fn reserved_delta_sources(pendings: &Vec<PendingEntry>, prior: &SnapshotSourceMap) -> (reserved:
    Blake3HashSet)
    requires
        prior.wf(),
    ensures
        forall|h: ContentHash| #[trigger]
            reserved@.contains(h) <==> reserved_in(pendings@, *prior, h),
{
    let mut reserved = Blake3HashSet::new();
    let mut i: usize = 0;
    while i < pendings.len()
        invariant
            prior.wf(),
            i <= pendings.len(),
            forall|h: ContentHash| #[trigger]
                reserved@.contains(h) <==> exists|j: int|
                    0 <= j < i && one_block_body((#[trigger] pendings@[j]).entry) && prior.at(
                        pendings@[j].entry.start_lba,
                    ) == Some(h),
        decreases pendings.len() - i,
    {
        let e = &pendings[i].entry;
        let ghost before = reserved@;
        let body: bool = matches!(e.kind, EntryKind::Data) && e.lba_length == 1;
        if body {
            if let Some(hash) = prior.hash_for_lba(e.start_lba) {
                reserved.insert(hash);
            }
        }
        proof {
            assert forall|h: ContentHash| #[trigger]
                reserved@.contains(h) <==> exists|j: int|
                    0 <= j < i + 1 && one_block_body((#[trigger] pendings@[j]).entry) && prior.at(
                        pendings@[j].entry.start_lba,
                    ) == Some(h) by {
                if before.contains(h) {
                    let j = choose|j: int|
                        0 <= j < i && one_block_body((#[trigger] pendings@[j]).entry) && prior.at(
                            pendings@[j].entry.start_lba,
                        ) == Some(h);
                    assert(0 <= j < i + 1 && one_block_body(pendings@[j].entry));
                }
                if one_block_body(pendings@[i as int].entry) && prior.at(
                    pendings@[i as int].entry.start_lba,
                ) == Some(h) {
                    assert(reserved@.contains(h));
                }
            }
        }
        i += 1;
    }
    reserved
}

/// What the same-block tier does with a pending.
#[derive(Clone, Copy, Debug, PartialEq, Eq, Structural)]
pub enum PriorChoice {
    /// Not for this tier.
    Pass,
    /// Kept as it is, as another's source.
    Reserved,
    /// Tried against this source.
    Try(ContentHash),
}

/// The same-block tier's choice for a pending: a one-block body over other
/// content of the snapshot, unless it is reserved.
pub open spec fn prior_choice_of(
    pending: PendingEntry,
    prior: SnapshotSourceMap,
    reserved: Set<ContentHash>,
) -> PriorChoice {
    let e = pending.entry;
    match prior.at(e.start_lba) {
        Some(source) if one_block_body(e) && source != e.hash && pending.body is Some => {
            if reserved.contains(e.hash) {
                PriorChoice::Reserved
            } else {
                PriorChoice::Try(source)
            }
        },
        _ => PriorChoice::Pass,
    }
}

/// The same-block tier's choice for a pending, with a reserved one counted.
pub fn prior_choice(
    pending: &PendingEntry,
    prior: &SnapshotSourceMap,
    reserved: &Blake3HashSet,
    stats: &mut SegmentDeltaStats,
) -> (choice: PriorChoice)
    requires
        prior.wf(),
    ensures
        choice == prior_choice_of(*pending, *prior, reserved@),
        *final(stats) == (if choice is Reserved {
            SegmentDeltaStats {
                entries_reserved_as_sources: clamped(
                    old(stats).entries_reserved_as_sources + 1,
                ) as u64,
                ..*old(stats)
            }
        } else {
            *old(stats)
        }),
{
    let e = &pending.entry;
    let body: bool = matches!(e.kind, EntryKind::Data) && e.lba_length == 1;
    if !body || pending.body.is_none() {
        return PriorChoice::Pass;
    }
    match prior.hash_for_lba(e.start_lba) {
        Some(source) => {
            if source == e.hash {
                return PriorChoice::Pass;
            }
            if reserved.contains(&e.hash) {
                stats.entries_reserved_as_sources =
                stats.entries_reserved_as_sources.saturating_add(1);
                return PriorChoice::Reserved;
            }
            PriorChoice::Try(source)
        },
        None => PriorChoice::Pass,
    }
}

/// No delta of a batch names a delta: an entry the same-block tier tries is
/// not one whose content the tier may name as a source.
pub proof fn law_no_delta_of_a_delta(
    pendings: Seq<PendingEntry>,
    prior: SnapshotSourceMap,
    reserved: Set<ContentHash>,
    i: int,
    j: int,
)
    requires
        0 <= i < pendings.len(),
        0 <= j < pendings.len(),
        forall|h: ContentHash| #[trigger]
            reserved.contains(h) <==> reserved_in(pendings, prior, h),
    ensures
        prior_choice_of(pendings[i], prior, reserved) is Try ==> (prior_choice_of(
            pendings[j],
            prior,
            reserved,
        ) matches PriorChoice::Try(source) ==> source != pendings[i].entry.hash),
{
    if prior_choice_of(pendings[i], prior, reserved) is Try {
        if let PriorChoice::Try(source) = prior_choice_of(pendings[j], prior, reserved) {
            assert(one_block_body(pendings[j].entry));
            assert(reserved_in(pendings, prior, source));
            assert(reserved.contains(source));
        }
    }
}

// ---------------------------------------------------------------------------
// The resemblance tier
// ---------------------------------------------------------------------------

/// What the resemblance tier does with a pending.
#[derive(Clone, Copy, Debug, PartialEq, Eq, Structural)]
pub enum ResemblanceChoice {
    Pass,
    Reserved,
    Probe,
}

/// The resemblance tier's choice for a pending: a body with no delta yet,
/// outside the journal, long enough to sketch, and not reserved.
pub open spec fn resemblance_choice_of(
    pending: PendingEntry,
    min_sketch_bytes: int,
    reserved: Set<ContentHash>,
) -> ResemblanceChoice {
    let e = pending.entry;
    if !(e.kind is Data) || e.delta_options@.len() > 0 || e.journal || e.lba_length * LBA_BYTES
        < min_sketch_bytes || pending.body is None {
        ResemblanceChoice::Pass
    } else if reserved.contains(e.hash) {
        ResemblanceChoice::Reserved
    } else {
        ResemblanceChoice::Probe
    }
}

/// The resemblance tier's choice for a pending, with a reserved one counted.
pub fn resemblance_choice(
    pending: &PendingEntry,
    min_sketch_bytes: u64,
    reserved: &Blake3HashSet,
    stats: &mut ResemblanceStats,
) -> (choice: ResemblanceChoice)
    ensures
        choice == resemblance_choice_of(*pending, min_sketch_bytes as int, reserved@),
        *final(stats) == (if choice is Reserved {
            ResemblanceStats {
                delta: SegmentDeltaStats {
                    entries_reserved_as_sources: clamped(
                        old(stats).delta.entries_reserved_as_sources + 1,
                    ) as u64,
                    ..old(stats).delta
                },
                ..*old(stats)
            }
        } else {
            *old(stats)
        }),
{
    let e = &pending.entry;
    let data: bool = matches!(e.kind, EntryKind::Data);
    if !data || e.delta_options.len() > 0 || e.journal {
        return ResemblanceChoice::Pass;
    }
    let raw_len: u64 = e.lba_length as u64 * LBA_BYTES;
    if raw_len < min_sketch_bytes || pending.body.is_none() {
        return ResemblanceChoice::Pass;
    }
    if reserved.contains(&e.hash) {
        stats.delta.entries_reserved_as_sources =
        stats.delta.entries_reserved_as_sources.saturating_add(1);
        return ResemblanceChoice::Reserved;
    }
    ResemblanceChoice::Probe
}

/// The first candidate from `from` on that is not the target itself and that
/// something references, or their number.
pub open spec fn next_candidate_of(
    target: ContentHash,
    candidates: Seq<ContentHash>,
    referenced: ReferencedHashes,
    from: int,
) -> int
    decreases candidates.len() - from,
{
    if from >= candidates.len() || (candidates[from] != target && referenced.names(
        candidates[from],
    )) {
        from
    } else {
        next_candidate_of(target, candidates, referenced, from + 1)
    }
}

/// The candidates of `[from, to)` that nothing references.
pub open spec fn unreferenced_between(
    target: ContentHash,
    candidates: Seq<ContentHash>,
    referenced: ReferencedHashes,
    from: int,
    to: int,
) -> int
    decreases to - from,
{
    if from >= to {
        0
    } else {
        unreferenced_between(target, candidates, referenced, from, to - 1) + (
        if candidates[to - 1] != target && !referenced.names(candidates[to - 1]) {
            1int
        } else {
            0
        })
    }
}

/// The next candidate source to read, from `from` on. A delta against content
/// nothing references would pin bytes about to be freed, so such a candidate
/// is counted and passed over.
pub fn next_candidate(
    target: ContentHash,
    candidates: &Vec<ContentHash>,
    referenced: &ReferencedHashes,
    from: usize,
    stats: &mut ResemblanceStats,
) -> (at: usize)
    requires
        from <= candidates@.len(),
    ensures
        from <= at <= candidates@.len(),
        at == next_candidate_of(target, candidates@, *referenced, from as int),
        *final(stats) == (ResemblanceStats {
            candidates_unreferenced: clamped(
                old(stats).candidates_unreferenced + unreferenced_between(
                    target,
                    candidates@,
                    *referenced,
                    from as int,
                    at as int,
                ),
            ) as u64,
            ..*old(stats)
        }),
{
    let mut at: usize = from;
    while at < candidates.len()
        invariant_except_break
            next_candidate_of(target, candidates@, *referenced, from as int) == next_candidate_of(
                target,
                candidates@,
                *referenced,
                at as int,
            ),
        invariant
            from <= at <= candidates@.len(),
            unreferenced_between(target, candidates@, *referenced, from as int, at as int) >= 0,
            *stats == (ResemblanceStats {
                candidates_unreferenced: clamped(
                    old(stats).candidates_unreferenced + unreferenced_between(
                        target,
                        candidates@,
                        *referenced,
                        from as int,
                        at as int,
                    ),
                ) as u64,
                ..*old(stats)
            }),
        ensures
            at == next_candidate_of(target, candidates@, *referenced, from as int),
        decreases candidates.len() - at,
    {
        let hash = candidates[at];
        if hash != target {
            if referenced.contains(&hash) {
                break;
            }
            stats.candidates_unreferenced = stats.candidates_unreferenced.saturating_add(1);
        }
        at += 1;
    }
    at
}

/// Count a source read for a candidate: a hit, or the bytes read.
pub fn count_source(stats: &mut ResemblanceStats, hit: bool, source_len: usize)
    ensures
        *final(stats) == (ResemblanceStats {
            candidates_tried: clamped(old(stats).candidates_tried + 1) as u64,
            dictionary_cache_hits: clamped(
                old(stats).dictionary_cache_hits + (if hit {
                    1int
                } else {
                    0
                }),
            ) as u64,
            dictionary_bytes_read: clamped(
                old(stats).dictionary_bytes_read + (if hit {
                    0int
                } else {
                    source_len as int
                }),
            ) as u64,
            ..*old(stats)
        }),
{
    if hit {
        stats.dictionary_cache_hits = stats.dictionary_cache_hits.saturating_add(1);
    } else {
        stats.dictionary_bytes_read = stats.dictionary_bytes_read.saturating_add(source_len as u64);
    }
    stats.candidates_tried = stats.candidates_tried.saturating_add(1);
}

// ---------------------------------------------------------------------------
// Sources
// ---------------------------------------------------------------------------

/// Source bytes that do not hash to what they were read for.
#[derive(Clone, Copy, Debug, PartialEq, Eq, Structural)]
pub struct SourceMismatch {
    pub segment_id: Ulid,
    pub expected: ContentHash,
    pub got: ContentHash,
    pub len: usize,
}

/// Refuse source plaintext that fails its content hash. A delta made against
/// the wrong bytes could never be decoded.
pub fn verify_source_plaintext(plain: &[u8], expected: ContentHash, segment_id: Ulid) -> (checked:
    Result<(), SourceMismatch>)
    ensures
        checked is Ok <==> crate::ids::hashes_to(plain@, expected),
        checked matches Err(m) ==> m.segment_id == segment_id && m.expected == expected && m.len
            == plain@.len() && crate::ids::hashes_to(plain@, m.got),
{
    let got = content_hash(plain);
    if got == expected {
        return Ok(());
    }
    proof {
        if crate::ids::hashes_to(plain@, expected) {
            ContentHash::lemma_bytes_tell(got, expected);
        }
    }
    Err(SourceMismatch { segment_id, expected, got, len: plain.len() })
}

// ---------------------------------------------------------------------------
// Laws
// ---------------------------------------------------------------------------

proof fn lemma_file_at(files: Seq<FileFragments>, path: Seq<char>, from: int)
    requires
        0 <= from <= files.len(),
    ensures
        from <= file_at(files, path, from) <= files.len(),
        file_at(files, path, from) < files.len() ==> files[file_at(files, path, from)].path@ == path,
        forall|i: int|
            from <= i < file_at(files, path, from) ==> (#[trigger] files[i]).path@ != path,
    decreases files.len() - from,
{
    if from < files.len() && files[from].path@ != path {
        lemma_file_at(files, path, from + 1);
    }
}

/// Fragment `n` of file `i` of the child and of file `j` of the source are
/// worth a delta: the files have one path and are cut alike, the fragments
/// differ, and the source volume has the source's body.
pub open spec fn worth_a_delta(
    child: Seq<FileFragments>,
    source: Seq<FileFragments>,
    index: ExtentIndex,
    i: int,
    j: int,
    n: int,
) -> bool {
    let (a, b) = (child[i].fragments@, source[j].fragments@);
    &&& child[i].path@ == source[j].path@
    &&& a.len() == b.len()
    &&& forall|x: int|
        #![trigger a[x]]
        0 <= x < a.len() ==> a[x].file_offset == b[x].file_offset && a[x].byte_count
            == b[x].byte_count
    &&& 0 <= n < a.len()
    &&& a[n].hash != b[n].hash
    &&& index.body(b[n].hash) is Some
}

proof fn lemma_fragment_pairs(
    child: Seq<Fragment>,
    source: Seq<Fragment>,
    index: ExtentIndex,
    n: int,
    p: (ContentHash, ContentHash),
)
    requires
        0 <= n,
    ensures
        fragment_pairs(child, source, index, n).contains(p) <==> exists|x: int|
            0 <= x < n && (#[trigger] child[x]).hash == p.0 && source[x].hash == p.1 && p.0 != p.1
                && index.body(p.1) is Some,
    decreases n,
{
    if n > 0 {
        lemma_fragment_pairs(child, source, index, n - 1, p);
        let was = fragment_pairs(child, source, index, n - 1);
        let now = fragment_pairs(child, source, index, n);
        if now.contains(p) {
            let y = choose|y: int| 0 <= y < now.len() && now[y] == p;
            if y < was.len() {
                assert(was[y] == p);
                assert(was.contains(p));
                let x = choose|x: int|
                    0 <= x < n - 1 && (#[trigger] child[x]).hash == p.0 && source[x].hash == p.1
                        && p.0 != p.1 && index.body(p.1) is Some;
                assert(child[x].hash == p.0);
            } else {
                assert(child[n - 1].hash == p.0);
            }
        }
        if exists|x: int|
            0 <= x < n && (#[trigger] child[x]).hash == p.0 && source[x].hash == p.1 && p.0 != p.1
                && index.body(p.1) is Some {
            let x = choose|x: int|
                0 <= x < n && (#[trigger] child[x]).hash == p.0 && source[x].hash == p.1 && p.0
                    != p.1 && index.body(p.1) is Some;
            if x < n - 1 {
                assert(was.contains(p));
                let y = choose|y: int| 0 <= y < was.len() && was[y] == p;
                assert(now[y] == p);
            } else {
                assert(now[now.len() - 1] == p);
            }
        }
    }
}

/// The pairs found between two file maps are just the fragments worth a delta:
/// of each file of the child against the first of the source of that path.
pub proof fn law_just_matching_fragments_are_paired(
    child: Seq<FileFragments>,
    source: Seq<FileFragments>,
    index: ExtentIndex,
    n: int,
    p: (ContentHash, ContentHash),
)
    requires
        0 <= n <= child.len(),
    ensures
        file_pairs(child, source, index, n).contains(p) <==> exists|i: int, j: int, x: int|
            #![trigger worth_a_delta(child, source, index, i, j, x)]
            0 <= i < n && 0 <= j < source.len() && worth_a_delta(child, source, index, i, j, x)
                && child[i].fragments@[x].hash == p.0 && source[j].fragments@[x].hash == p.1
                && forall|k: int|
                0 <= k < j ==> (#[trigger] source[k]).path@ != child[i].path@,
    decreases n,
{
    if n > 0 {
        law_just_matching_fragments_are_paired(child, source, index, n - 1, p);
        let was = file_pairs(child, source, index, n - 1);
        let now = file_pairs(child, source, index, n);
        let c = child[n - 1].fragments@;
        let at = file_at(source, child[n - 1].path@, 0);
        lemma_file_at(source, child[n - 1].path@, 0);
        if at < source.len() && same_layout(c, source[at].fragments@) {
            let more = fragment_pairs(c, source[at].fragments@, index, c.len() as int);
            lemma_fragment_pairs(c, source[at].fragments@, index, c.len() as int, p);
            assert(now.contains(p) <==> was.contains(p) || more.contains(p)) by {
                if now.contains(p) {
                    let y = choose|y: int| 0 <= y < now.len() && now[y] == p;
                    if y < was.len() {
                        assert(was[y] == p);
                    } else {
                        assert(more[y - was.len()] == p);
                    }
                }
                if was.contains(p) {
                    let y = choose|y: int| 0 <= y < was.len() && was[y] == p;
                    assert(now[y] == p);
                }
                if more.contains(p) {
                    let y = choose|y: int| 0 <= y < more.len() && more[y] == p;
                    assert(now[was.len() + y] == p);
                }
            }
            if more.contains(p) {
                let x = choose|x: int|
                    0 <= x < c.len() && (#[trigger] c[x]).hash == p.0
                        && source[at].fragments@[x].hash == p.1 && p.0 != p.1 && index.body(p.1)
                        is Some;
                assert(worth_a_delta(child, source, index, n - 1, at, x));
            }
        }
        if exists|i: int, j: int, x: int|
            #![trigger worth_a_delta(child, source, index, i, j, x)]
            0 <= i < n && 0 <= j < source.len() && worth_a_delta(child, source, index, i, j, x)
                && child[i].fragments@[x].hash == p.0 && source[j].fragments@[x].hash == p.1
                && forall|k: int|
                0 <= k < j ==> (#[trigger] source[k]).path@ != child[i].path@ {
            let (i, j, x) = choose|i: int, j: int, x: int|
                #![trigger worth_a_delta(child, source, index, i, j, x)]
                0 <= i < n && 0 <= j < source.len() && worth_a_delta(child, source, index, i, j, x)
                    && child[i].fragments@[x].hash == p.0 && source[j].fragments@[x].hash == p.1
                    && forall|k: int|
                    0 <= k < j ==> (#[trigger] source[k]).path@ != child[i].path@;
            if i == n - 1 {
                assert(at == j) by {
                    if at < j {
                        assert(source[at].path@ != child[i].path@);
                    } else if j < at {
                        assert(source[j].path@ != child[i].path@);
                    }
                }
                assert(same_layout(c, source[at].fragments@)) by {
                    assert forall|y: int|
                        #![trigger c[y]]
                        #![trigger source[at].fragments@[y]]
                        0 <= y < c.len() implies c[y].file_offset
                        == source[at].fragments@[y].file_offset && c[y].byte_count
                        == source[at].fragments@[y].byte_count by {
                        assert(child[i].fragments@[y].file_offset
                            == source[j].fragments@[y].file_offset);
                    }
                }
                assert(c[x].hash == p.0);
            } else {
                assert(was.contains(p));
            }
        }
        if was.contains(p) {
            let (i, j, x) = choose|i: int, j: int, x: int|
                #![trigger worth_a_delta(child, source, index, i, j, x)]
                0 <= i < n - 1 && 0 <= j < source.len() && worth_a_delta(
                    child,
                    source,
                    index,
                    i,
                    j,
                    x,
                ) && child[i].fragments@[x].hash == p.0 && source[j].fragments@[x].hash == p.1
                    && forall|k: int|
                    0 <= k < j ==> (#[trigger] source[k]).path@ != child[i].path@;
            assert(worth_a_delta(child, source, index, i, j, x));
        }
    }
}

/// What a snapshot holds at a block is what the run over the block says, and
/// nothing where no run is over it.
pub proof fn law_a_snapshot_holds_what_its_runs_say(map: SnapshotSourceMap, lba: u64, i: int)
    requires
        map.wf(),
    ensures
        0 <= i < map.runs@.len() && map.runs@[i].0 <= lba && lba - map.runs@[i].0 < map.runs@[i].1
            ==> map.at(lba) == Some(map.runs@[i].2),
        (forall|j: int|
            #![trigger map.runs@[j]]
            0 <= j < map.runs@.len() ==> !(map.runs@[j].0 <= lba && lba - map.runs@[j].0
                < map.runs@[j].1)) ==> map.at(lba) is None,
{
    if exists|j: int| map.run_covers(j, lba) {
        let j = choose|j: int| map.run_covers(j, lba);
        assert(map.runs@[j].0 <= lba);
        if map.run_covers(i, lba) && i != j {
            if i < j {
                assert(map.runs@[i].0 + map.runs@[i].1 <= map.runs@[j].0);
            } else {
                assert(map.runs@[j].0 + map.runs@[j].1 <= map.runs@[i].0);
            }
        }
    } else if 0 <= i < map.runs@.len() && map.runs@[i].0 <= lba && lba - map.runs@[i].0
        < map.runs@[i].1 {
        assert(map.run_covers(i, lba));
    }
}

/// A pending is tried against the snapshot just where it is a body of one
/// block, over other content, that no delta of the batch is made of; and then
/// against what the snapshot holds at its own block.
pub proof fn law_a_block_is_tried_against_its_own_past(
    pending: PendingEntry,
    prior: SnapshotSourceMap,
    reserved: Set<ContentHash>,
    i: int,
)
    requires
        prior.wf(),
        0 <= i < prior.runs@.len(),
        prior.runs@[i].0 <= pending.entry.start_lba,
        pending.entry.start_lba - prior.runs@[i].0 < prior.runs@[i].1,
    ensures
        ({
            let source = prior.runs@[i].2;
            let eligible = pending.entry.kind is Data && pending.entry.lba_length == 1
                && pending.body is Some && source != pending.entry.hash;
            match prior_choice_of(pending, prior, reserved) {
                PriorChoice::Try(h) => eligible && h == source && !reserved.contains(
                    pending.entry.hash,
                ),
                PriorChoice::Reserved => eligible && reserved.contains(pending.entry.hash),
                PriorChoice::Pass => !eligible,
            }
        }),
{
    law_a_snapshot_holds_what_its_runs_say(prior, pending.entry.start_lba, i);
}

/// A pending over a block that the snapshot does not hold is passed.
pub proof fn law_a_new_block_is_passed(
    pending: PendingEntry,
    prior: SnapshotSourceMap,
    reserved: Set<ContentHash>,
)
    requires
        prior.wf(),
        forall|j: int|
            #![trigger prior.runs@[j]]
            0 <= j < prior.runs@.len() ==> !(prior.runs@[j].0 <= pending.entry.start_lba
                && pending.entry.start_lba - prior.runs@[j].0 < prior.runs@[j].1),
    ensures
        prior_choice_of(pending, prior, reserved) is Pass,
{
    law_a_snapshot_holds_what_its_runs_say(prior, pending.entry.start_lba, 0);
}

/// What is probed for resemblance keeps its own body, outside the journal, and
/// is long enough for a sketch; a delta is never made a delta again, and a body
/// that a delta of the batch is made of stays. Whatever else is a body of that
/// length is probed.
pub proof fn law_just_fresh_bodies_are_probed(
    pending: PendingEntry,
    min_sketch_bytes: int,
    reserved: Set<ContentHash>,
)
    ensures
        resemblance_choice_of(pending, min_sketch_bytes, reserved) is Probe <==> {
            &&& pending.entry.kind is Data
            &&& pending.entry.delta_options@.len() == 0
            &&& !pending.entry.journal
            &&& pending.body is Some
            &&& pending.entry.lba_length * 4096 >= min_sketch_bytes
            &&& !reserved.contains(pending.entry.hash)
        },
        resemblance_choice_of(pending, min_sketch_bytes, reserved) is Reserved ==> reserved.contains(
            pending.entry.hash,
        ) && pending.entry.kind is Data && pending.body is Some,
{
}

/// The candidate gone on to is the best left that is other content and that
/// something references; those passed over are the target itself, or content
/// that nothing references.
pub proof fn law_the_best_referenced_candidate_is_next(
    target: ContentHash,
    candidates: Seq<ContentHash>,
    referenced: ReferencedHashes,
    from: int,
)
    requires
        0 <= from <= candidates.len(),
    ensures
        ({
            let at = next_candidate_of(target, candidates, referenced, from);
            &&& from <= at <= candidates.len()
            &&& at < candidates.len() ==> candidates[at] != target && referenced.names(
                candidates[at],
            )
            &&& forall|i: int|
                from <= i < at ==> (#[trigger] candidates[i]) == target || !referenced.names(
                    candidates[i],
                )
            &&& 0 <= unreferenced_between(target, candidates, referenced, from, at) <= at - from
        }),
    decreases candidates.len() - from,
{
    if from < candidates.len() && !(candidates[from] != target && referenced.names(
        candidates[from],
    )) {
        law_the_best_referenced_candidate_is_next(target, candidates, referenced, from + 1);
        let at = next_candidate_of(target, candidates, referenced, from + 1);
        lemma_unreferenced_bounds(target, candidates, referenced, from, at);
    }
}

proof fn lemma_unreferenced_bounds(
    target: ContentHash,
    candidates: Seq<ContentHash>,
    referenced: ReferencedHashes,
    from: int,
    to: int,
)
    requires
        from <= to,
    ensures
        0 <= unreferenced_between(target, candidates, referenced, from, to) <= to - from,
    decreases to - from,
{
    if from < to {
        lemma_unreferenced_bounds(target, candidates, referenced, from, to - 1);
    }
}

/// A conversion keeps what the entry stands for: the same content on the same
/// blocks. It stores no body of its own, and its last option names the source,
/// with the blob's place, length and hash; the options before are left.
pub proof fn law_a_conversion_keeps_the_claim(
    before: PendingEntry,
    after: PendingEntry,
    source: ContentHash,
    blob: Seq<u8>,
    offset: int,
)
    requires
        is_converted(before, after, source, blob, offset),
    ensures
        after.entry.hash == before.entry.hash,
        after.entry.start_lba == before.entry.start_lba,
        after.entry.lba_length == before.entry.lba_length,
        after.entry.journal == before.entry.journal,
        after.entry.kind == EntryKind::Delta,
        after.entry.stored_length == 0 && after.entry.stored_offset == 0,
        after.entry.codec == Codec::Plain,
        after.body is None,
        ({
            let (was, now) = (before.entry.delta_options@, after.entry.delta_options@);
            &&& now.len() == was.len() + 1
            &&& forall|i: int| 0 <= i < was.len() ==> #[trigger] now[i] == was[i]
            &&& now[was.len() as int].source_hash == source
            &&& now[was.len() as int].delta_offset == offset
            &&& now[was.len() as int].delta_length == blob.len()
            &&& crate::ids::hashes_to(blob, now[was.len() as int].delta_hash)
        }),
{
    let (was, now) = (before.entry.delta_options@, after.entry.delta_options@);
    assert forall|i: int| 0 <= i < was.len() implies #[trigger] now[i] == was[i] by {
        assert(now.drop_last()[i] == was[i]);
    }
}

/// A conversion is counted once, with the body it takes the place of and the
/// delta it makes, and counts nothing else.
pub proof fn law_a_conversion_is_counted(before: SegmentDeltaStats, stored: int, made: int)
    requires
        0 <= stored,
        0 <= made,
        before.entries_converted < u64::MAX,
        before.original_body_bytes + stored <= u64::MAX,
        before.delta_body_bytes + made <= u64::MAX,
    ensures
        counted(before, stored, made).entries_converted == before.entries_converted + 1,
        counted(before, stored, made).original_body_bytes == before.original_body_bytes + stored,
        counted(before, stored, made).delta_body_bytes == before.delta_body_bytes + made,
        counted(before, stored, made).entries_reserved_as_sources
            == before.entries_reserved_as_sources,
{
}

/// The candidates passed over for want of a reference are counted one by one;
/// the target itself is not among them.
pub proof fn law_unreferenced_candidates_add_up(
    target: ContentHash,
    candidates: Seq<ContentHash>,
    referenced: ReferencedHashes,
    from: int,
    mid: int,
    to: int,
)
    requires
        0 <= from <= mid <= to <= candidates.len(),
    ensures
        unreferenced_between(target, candidates, referenced, from, to) == unreferenced_between(
            target,
            candidates,
            referenced,
            from,
            mid,
        ) + unreferenced_between(target, candidates, referenced, mid, to),
        from < to ==> unreferenced_between(target, candidates, referenced, from, from + 1) == (
        if candidates[from] == target || referenced.names(candidates[from]) {
            0int
        } else {
            1
        }),
    decreases to - mid,
{
    reveal_with_fuel(unreferenced_between, 2);
    if mid < to {
        law_unreferenced_candidates_add_up(target, candidates, referenced, from, mid, to - 1);
    }
}

} // verus!
