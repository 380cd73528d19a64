//! Extent reclamation: rewriting the live runs of content whose stored body
//! has gone partly dead, so that the old body can be dropped.

use vstd::prelude::*;

use crate::delta_codec::{apply_delta, extent_decoded, make_delta, DeltaError};
use crate::delta_compute::verify_source_plaintext;
use crate::extent_index::ExtentIndex;
use crate::hash_set::Blake3HashSet;
use crate::ids::{content_hash, ContentHash, Ulid};
use crate::lbamap::{ExtentRead, LbaMap, MapEntry};
use crate::segment::{Codec, DeltaOption};

verus! {

// ---------------------------------------------------------------------------
// Whether to rewrite
// ---------------------------------------------------------------------------

/// Every run of `runs` lies in `[start, end)`.
pub open spec fn contained(runs: Seq<(u64, u32, u32)>, start: int, end: int) -> bool {
    forall|i: int|
        #![trigger runs[i]]
        0 <= i < runs.len() ==> start <= runs[i].0 && runs[i].0 + runs[i].1 <= end
}

/// The blocks of `runs`.
pub open spec fn run_blocks(runs: Seq<(u64, u32, u32)>) -> int
    decreases runs.len(),
{
    if runs.len() == 0 {
        0
    } else {
        run_blocks(runs.drop_last()) + runs.last().1
    }
}

/// How far into the payload `runs` reach.
pub open spec fn payload_reach(runs: Seq<(u64, u32, u32)>) -> int
    decreases runs.len(),
{
    if runs.len() == 0 {
        0
    } else {
        let before = payload_reach(runs.drop_last());
        let here = runs.last().2 + runs.last().1;
        if here > before {
            here
        } else {
            before
        }
    }
}

/// The runs of `hash` in the map.
pub open spec fn runs_in(m: Map<u64, MapEntry>, hash: ContentHash) -> Seq<(u64, u32, u32)> {
    crate::lbamap::claiming(crate::lbamap::all_entries(m), hash).map_values(
        |p: (u64, MapEntry)| (p.0, p.1.lba_length, p.1.payload_block_offset),
    )
}

/// The blocks of the body of `hash`: exact for a body stored as it is, and
/// what its runs reach otherwise.
pub open spec fn logical_blocks(
    index: ExtentIndex,
    hash: ContentHash,
    runs: Seq<(u64, u32, u32)>,
) -> int {
    match index.body(hash) {
        Some(loc) if !loc.inline && loc.codec is Plain => loc.body_length as int / 4096,
        _ => payload_reach(runs),
    }
}

/// Rewriting `hash` is safe and pays: every run of it lies in the target, so
/// none is left on the old body, and the body has a block nothing reads.
pub open spec fn worth_rewriting(
    map: LbaMap,
    index: ExtentIndex,
    hash: ContentHash,
    start: int,
    end: int,
) -> bool {
    let runs = runs_in(map.entries(), hash);
    contained(runs, start, end) && run_blocks(runs) < logical_blocks(index, hash, runs)
}

/// Whether `hash` is to be rewritten by a pass over `[target_start,
/// target_end)`.
pub fn should_rewrite(
    lbamap: &LbaMap,
    extent_index: &ExtentIndex,
    hash: ContentHash,
    target_start: u64,
    target_end: u64,
) -> (b: bool)
    requires
        lbamap.wf(),
        extent_index.wf(),
    ensures
        b == worth_rewriting(
            *lbamap,
            *extent_index,
            hash,
            target_start as int,
            target_end as int,
        ),
{
    let runs = lbamap.runs_for_hash(&hash);
    let mut live_blocks: u64 = 0;
    let mut reach: u64 = 0;
    let mut i: usize = 0;
    while i < runs.len()
        invariant
            i <= runs.len(),
            runs@ == runs_in(lbamap.entries(), hash),
            forall|j: int|
                #![trigger runs@[j]]
                0 <= j < i ==> target_start <= runs@[j].0 && runs@[j].0 + runs@[j].1 <= target_end,
            live_blocks == crate::repack::clamped(run_blocks(runs@.take(i as int))),
            run_blocks(runs@.take(i as int)) >= 0,
            reach == payload_reach(runs@.take(i as int)),
        decreases runs.len() - i,
    {
        let (lba, length, offset) = runs[i];
        assert(runs@[i as int] == (lba, length, offset));
        assert(runs@.take(i as int + 1).drop_last() =~= runs@.take(i as int));
        if lba < target_start || lba > target_end || length as u64 > target_end - lba {
            return false;
        }
        live_blocks = live_blocks.saturating_add(length as u64);
        let here: u64 = offset as u64 + length as u64;
        if here > reach {
            reach = here;
        }
        i += 1;
    }
    assert(runs@.take(runs@.len() as int) =~= runs@);
    let logical: u64 = match extent_index.lookup(&hash) {
        Some(loc) => {
            let plain: bool = matches!(loc.codec, Codec::Plain);
            if !loc.inline && plain {
                loc.body_length as u64 / 4096
            } else {
                reach
            }
        },
        None => reach,
    };
    live_blocks < logical
}

/// The hashes of the first `n` reads that are to be rewritten, each once, in
/// the order they are first met.
pub open spec fn hashes_to_rewrite(
    reads: Seq<ExtentRead>,
    map: LbaMap,
    index: ExtentIndex,
    start: int,
    end: int,
    n: int,
) -> Seq<ContentHash>
    decreases n,
{
    if n <= 0 {
        Seq::empty()
    } else {
        let before = hashes_to_rewrite(reads, map, index, start, end, n - 1);
        let h = reads[n - 1].hash;
        if !h.is_zero() && !before.contains(h) && worth_rewriting(map, index, h, start, end) {
            before.push(h)
        } else {
            before
        }
    }
}

/// The hashes a pass over `reads` has to have the content of.
pub fn reclaim_hashes(
    reads: &Vec<ExtentRead>,
    lbamap: &LbaMap,
    extent_index: &ExtentIndex,
    target_start: u64,
    target_end: u64,
) -> (hashes: Vec<ContentHash>)
    requires
        lbamap.wf(),
        extent_index.wf(),
    ensures
        hashes@ == hashes_to_rewrite(
            reads@,
            *lbamap,
            *extent_index,
            target_start as int,
            target_end as int,
            reads@.len() as int,
        ),
{
    let mut hashes: Vec<ContentHash> = Vec::new();
    let mut i: usize = 0;
    while i < reads.len()
        invariant
            i <= reads.len(),
            lbamap.wf(),
            extent_index.wf(),
            hashes@ == hashes_to_rewrite(
                reads@,
                *lbamap,
                *extent_index,
                target_start as int,
                target_end as int,
                i as int,
            ),
        decreases reads.len() - i,
    {
        let h = reads[i].hash;
        let zero: bool = h.head == 0 && h.tail == 0;
        if !zero && !holds_hash(&hashes, h) && should_rewrite(
            lbamap,
            extent_index,
            h,
            target_start,
            target_end,
        ) {
            hashes.push(h);
        }
        i += 1;
    }
    hashes
}

fn holds_hash(hashes: &Vec<ContentHash>, hash: ContentHash) -> (b: bool)
    ensures
        b == hashes@.contains(hash),
{
    let mut i: usize = 0;
    while i < hashes.len()
        invariant
            i <= hashes.len(),
            forall|j: int| 0 <= j < i ==> hashes@[j] != hash,
        decreases hashes.len() - i,
    {
        if hashes[i] == hash {
            return true;
        }
        i += 1;
    }
    false
}

// ---------------------------------------------------------------------------
// What to rewrite from
// ---------------------------------------------------------------------------

/// Where the content of a hash can be had locally.
pub enum ReclaimSource {
    /// Its own body.
    Body,
    /// Deltas against sources that have a body, in order of preference.
    Deltas(Vec<DeltaOption>),
    /// Nowhere: the index does not know the hash.
    Unknown,
}

/// The options whose source has a body, in order.
pub open spec fn resolvable_options(options: Seq<DeltaOption>, index: ExtentIndex) -> Seq<
    DeltaOption,
>
    decreases options.len(),
{
    if options.len() == 0 {
        options
    } else if index.body(options.last().source_hash) is Some {
        resolvable_options(options.drop_last(), index).push(options.last())
    } else {
        resolvable_options(options.drop_last(), index)
    }
}

/// Where the content of `hash` can be had: its body before any delta.
pub fn reclaim_source(extent_index: &ExtentIndex, hash: ContentHash) -> (source: ReclaimSource)
    requires
        extent_index.wf(),
    ensures
        match source {
            ReclaimSource::Body => extent_index.body(hash) is Some,
            ReclaimSource::Deltas(options) => extent_index.body(hash) is None
                && extent_index.delta(hash) is Some && options@ == resolvable_options(
                extent_index.delta(hash)->0.options@,
                *extent_index,
            ),
            ReclaimSource::Unknown => extent_index.body(hash) is None && extent_index.delta(hash)
                is None,
        },
{
    if extent_index.lookup(&hash).is_some() {
        return ReclaimSource::Body;
    }
    match extent_index.lookup_delta(&hash) {
        Some(loc) => {
            let mut options: Vec<DeltaOption> = Vec::new();
            let mut i: usize = 0;
            while i < loc.options.len()
                invariant
                    i <= loc.options.len(),
                    extent_index.wf(),
                    options@ == resolvable_options(loc.options@.take(i as int), *extent_index),
                decreases loc.options.len() - i,
            {
                assert(loc.options@.take(i as int + 1).drop_last() =~= loc.options@.take(i as int));
                let option = loc.options[i];
                if extent_index.lookup(&option.source_hash).is_some() {
                    options.push(option);
                }
                i += 1;
            }
            assert(loc.options@.take(loc.options@.len() as int) =~= loc.options@);
            ReclaimSource::Deltas(options)
        },
        None => ReclaimSource::Unknown,
    }
}

/// What a pass has of one hash.
pub enum ReclaimBody {
    /// The content, from a body.
    Data(Vec<u8>),
    /// The content, from a delta, with the source it came from.
    Delta { source_hash: ContentHash, source_plain: Vec<u8>, fragment: Vec<u8> },
    /// Nothing that can be read locally. Reclaim never fetches, and never
    /// turns a delta back into a body.
    Skip,
}

/// Why a pass stops.
#[derive(Debug)]
pub enum ReclaimError {
    /// The content ends before the run does.
    TooShort { hash: ContentHash, len: usize, end: u64 },
    /// A delta decoded to other content than it stands for.
    WrongContent { hash: ContentHash, got: ContentHash, source: ContentHash, segment: Ulid },
    /// The index has neither a body nor a delta of the hash.
    NotIndexed { hash: ContentHash },
    Codec(DeltaError),
}

/// `made` is what comes of a delta that stands for `hash`: its content, where
/// the blob decodes to that; an error of the content where it decodes to other
/// content; and an error of the codec where it does not decode.
pub open spec fn materialises(
    source_hash: ContentHash,
    source_plain: Seq<u8>,
    blob: Seq<u8>,
    hash: ContentHash,
    segment: Ulid,
    made: Result<ReclaimBody, ReclaimError>,
) -> bool {
    match extent_decoded(source_plain, blob) {
        Some(content) => if crate::ids::hashes_to(content, hash) {
            made matches Ok(ReclaimBody::Delta { source_hash: s, source_plain: p, fragment }) && s
                == source_hash && p@ == source_plain && fragment@ == content
        } else {
            made matches Err(
                ReclaimError::WrongContent { hash: h, got, source, segment: u },
            ) && h == hash && source == source_hash && u == segment && crate::ids::hashes_to(
                content,
                got,
            )
        },
        None => made matches Err(ReclaimError::Codec(e)) && (e is DecoderInit || e
            is Decompress),
    }
}

/// Decode a delta and hold the result against the hash it stands for. The
/// codec keeps no checksum, so a wrong source would decode to wrong bytes.
pub fn materialise_delta(
    source_hash: ContentHash,
    source_plain: Vec<u8>,
    delta_blob: &[u8],
    hash: ContentHash,
    segment: Ulid,
) -> (made: Result<ReclaimBody, ReclaimError>)
    ensures
        materialises(source_hash, source_plain@, delta_blob@, hash, segment, made),
{
    let fragment = match apply_delta(source_plain.as_slice(), delta_blob) {
        Ok(bytes) => bytes,
        Err(e) => {
            return Err(ReclaimError::Codec(e));
        },
    };
    match verify_source_plaintext(fragment.as_slice(), hash, segment) {
        Ok(()) => Ok(ReclaimBody::Delta { source_hash, source_plain, fragment }),
        Err(m) => Err(
            ReclaimError::WrongContent { hash, got: m.got, source: source_hash, segment },
        ),
    }
}

/// How the reading of an option went.
pub enum OptionEvent {
    /// None was read yet.
    Begin,
    /// The body of its source is not here.
    NoSource,
    /// Its blob is not here.
    NoBlob,
    /// Its source and its blob.
    Found { source_plain: Vec<u8>, blob: Vec<u8> },
}

/// What follows in the search for an option that can be read.
pub enum OptionStep {
    /// Read the source and the blob of this option.
    Read(DeltaOption),
    /// This is what the pass has of the hash.
    Done(ReclaimBody),
    /// The pass stops.
    Stop(ReclaimError),
}

/// The step from which option `at` on is tried.
pub open spec fn from_option(options: Seq<DeltaOption>, at: int) -> OptionStep {
    if at < options.len() {
        OptionStep::Read(options[at])
    } else {
        OptionStep::Done(ReclaimBody::Skip)
    }
}

/// The step after the reading of option `at` went as it did: the first option
/// whose source and blob are here is decoded, and past the last the hash is
/// passed over.
pub fn next_option(
    options: &Vec<DeltaOption>,
    at: usize,
    event: OptionEvent,
    hash: ContentHash,
    segment: Ulid,
) -> (step: OptionStep)
    requires
        event is Begin || at < options@.len(),
    ensures
        match event {
            OptionEvent::Begin => step == from_option(options@, 0),
            OptionEvent::NoSource | OptionEvent::NoBlob => step == from_option(options@, at + 1),
            OptionEvent::Found { source_plain, blob } => match step {
                OptionStep::Read(_) => false,
                OptionStep::Done(body) => materialises(
                    options@[at as int].source_hash,
                    source_plain@,
                    blob@,
                    hash,
                    segment,
                    Ok(body),
                ),
                OptionStep::Stop(e) => materialises(
                    options@[at as int].source_hash,
                    source_plain@,
                    blob@,
                    hash,
                    segment,
                    Err(e),
                ),
            },
        },
{
    let at: usize = match event {
        OptionEvent::Found { source_plain, blob } => {
            let source_hash = options[at].source_hash;
            return match materialise_delta(
                source_hash,
                source_plain,
                blob.as_slice(),
                hash,
                segment,
            ) {
                Ok(body) => OptionStep::Done(body),
                Err(e) => OptionStep::Stop(e),
            };
        },
        OptionEvent::Begin => 0,
        OptionEvent::NoSource | OptionEvent::NoBlob => {
            assert(at < options.len());
            at + 1
        },
    };
    if at < options.len() {
        OptionStep::Read(options[at])
    } else {
        OptionStep::Done(ReclaimBody::Skip)
    }
}

// ---------------------------------------------------------------------------
// Rewriting one run
// ---------------------------------------------------------------------------

/// How a rewritten run is stored.
pub enum ReclaimedForm {
    /// Its content is held elsewhere already.
    Reference,
    /// As a delta.
    Delta(DeltaOption),
    /// As a body.
    Body(Vec<u8>),
}

/// A rewritten run.
pub struct ReclaimedEntry {
    pub hash: ContentHash,
    pub start_lba: u64,
    pub lba_length: u32,
    pub form: ReclaimedForm,
    pub uncompressed_bytes: u64,
}

/// What a pass has written so far.
pub struct ReclaimOutput {
    pub entries: Vec<ReclaimedEntry>,
    /// The delta section the entries' offsets are into.
    pub delta_body: Vec<u8>,
}

/// The run's blocks fit an entry, and its bytes a delta's length.
pub open spec fn read_fits(er: ExtentRead) -> bool {
    er.range_start <= er.range_end && (er.range_end - er.range_start) * 4096 <= u32::MAX
}

/// The byte of the content the run starts at, and the one it ends before.
pub open spec fn run_start(er: ExtentRead) -> int {
    er.payload_block_offset * 4096
}

pub open spec fn run_end(er: ExtentRead) -> int {
    run_start(er) + (er.range_end - er.range_start) * 4096
}

/// The content a pass has of the hash, if any.
pub open spec fn content_of(body: ReclaimBody) -> Option<Seq<u8>> {
    match body {
        ReclaimBody::Data(bytes) => Some(bytes@),
        ReclaimBody::Delta { fragment, .. } => Some(fragment@),
        ReclaimBody::Skip => None,
    }
}

/// The body of `hash` will stay whatever this pass does: its segment is frozen
/// by a snapshot, or a registered delta names it.
pub open spec fn pinned(
    index: ExtentIndex,
    floor: Option<Ulid>,
    pins: Set<ContentHash>,
    hash: ContentHash,
) -> bool {
    (floor matches Some(f) && (index.body(hash) matches Some(loc) && loc.segment_id.value
        <= f.value)) || pins.contains(hash)
}

/// The dictionary a run may be compressed against, and its hash: the whole
/// content where that stays anyway, or the source the content came from.
pub open spec fn dictionary_of(
    er: ExtentRead,
    body: ReclaimBody,
    index: ExtentIndex,
    floor: Option<Ulid>,
    pins: Set<ContentHash>,
) -> Option<(ContentHash, Seq<u8>)> {
    match body {
        ReclaimBody::Data(bytes) => if pinned(index, floor, pins, er.hash) {
            Some((er.hash, bytes@))
        } else {
            None
        },
        ReclaimBody::Delta { source_hash, source_plain, .. } => Some((source_hash, source_plain@)),
        ReclaimBody::Skip => None,
    }
}

/// `e` is the run as `form` says, over the content `bytes`.
pub open spec fn run_entry(e: ReclaimedEntry, er: ExtentRead, bytes: Seq<u8>) -> bool {
    &&& crate::ids::hashes_to(bytes, e.hash)
    &&& e.start_lba == er.range_start
    &&& e.lba_length == er.range_end - er.range_start
    &&& e.uncompressed_bytes == bytes.len()
}

/// How a run can fail: its content is too short for it, or else the codec
/// fails against the dictionary of a run that is not held already.
pub open spec fn run_fails(
    er: ExtentRead,
    body: ReclaimBody,
    index: ExtentIndex,
    floor: Option<Ulid>,
    pins: Set<ContentHash>,
    e: ReclaimError,
) -> bool {
    match content_of(body) {
        None => false,
        Some(content) => if content.len() < run_end(er) {
            e matches ReclaimError::TooShort { hash, len, end } && hash == er.hash && len
                == content.len() && end == run_end(er)
        } else {
            &&& e matches ReclaimError::Codec(d) && (d is CompressorInit || d is Compress)
            &&& dictionary_of(er, body, index, floor, pins) is Some
            &&& forall|h: ContentHash| #[trigger]
                crate::ids::hashes_to(content.subrange(run_start(er), run_end(er)), h)
                    ==> index.body(h) is None
        },
    }
}

/// Some delta of the run against `dict` is no smaller than the run.
pub open spec fn delta_loses(dict: Seq<u8>, bytes: Seq<u8>) -> bool {
    exists|blob: Seq<u8>| #[trigger]
        crate::delta_codec::reads_back(dict, blob, bytes) && blob.len() >= bytes.len()
}

/// `out` goes to `after` over one run: nothing is added for content that
/// cannot be had; a reference where the run's own content is held already;
/// else a delta where there is a dictionary and the blob is smaller than the
/// run; else a body, unless the content came from a delta itself.
pub open spec fn rewrites(
    before: ReclaimOutput,
    after: ReclaimOutput,
    er: ExtentRead,
    body: ReclaimBody,
    index: ExtentIndex,
    floor: Option<Ulid>,
    pins: Set<ContentHash>,
) -> bool {
    match content_of(body) {
        None => after.entries@ == before.entries@ && after.delta_body@ == before.delta_body@,
        Some(content) => {
            let bytes = content.subrange(run_start(er), run_end(er));
            let dict = dictionary_of(er, body, index, floor, pins);
            // What the delta section has grown by.
            let blob = after.delta_body@.skip(before.delta_body@.len() as int);
            let added = after.entries@.len() == before.entries@.len() + 1
                && after.entries@.drop_last() == before.entries@ && run_entry(
                after.entries@.last(),
                er,
                bytes,
            );
            ||| added && after.entries@.last().form is Reference && index.body(
                after.entries@.last().hash,
            ) is Some && after.delta_body@ == before.delta_body@
            ||| added && index.body(after.entries@.last().hash) is None && dict is Some
                && blob.len() < bytes.len() && crate::delta_codec::reads_back(
                (dict->0).1,
                blob,
                bytes,
            ) && after.delta_body@ == before.delta_body@ + blob && (after.entries@.last().form matches ReclaimedForm::Delta(option) && option.source_hash
                == (dict->0).0 && option.delta_offset == before.delta_body@.len()
                && option.delta_length == blob.len() && crate::ids::hashes_to(
                blob,
                option.delta_hash,
            ))
            ||| added && index.body(after.entries@.last().hash) is None && body is Data && (dict
                matches Some((_, plain)) ==> delta_loses(plain, bytes)) && after.delta_body@
                == before.delta_body@ && (after.entries@.last().form matches ReclaimedForm::Body(
                stored,
            ) && stored@ == bytes)
            ||| after.entries@ == before.entries@ && after.delta_body@ == before.delta_body@ && body
                is Delta && delta_loses((dict->0).1, bytes) && forall|h: ContentHash| #[trigger]
                crate::ids::hashes_to(bytes, h) ==> index.body(h) is None
        },
    }
}

/// The blob of a delta, and what it is a delta of.
pub open spec fn delta_view(delta: Option<(ContentHash, Vec<u8>)>) -> Option<
    (ContentHash, Seq<u8>),
> {
    match delta {
        Some((source, blob)) => Some((source, blob@)),
        None => None,
    }
}

/// `before` goes to `after` by one run of `bytes`, whose hash is `hash`: a
/// reference where the content is held; else a delta where the blob is smaller
/// than the run; else a body, unless the content came from a delta.
pub open spec fn places(
    before: ReclaimOutput,
    after: ReclaimOutput,
    er: ExtentRead,
    bytes: Seq<u8>,
    hash: ContentHash,
    held: bool,
    delta: Option<(ContentHash, Seq<u8>)>,
    from_delta: bool,
) -> bool {
    let smaller = delta is Some && (delta->0).1.len() < bytes.len();
    let last = after.entries@.last();
    if !held && !smaller && from_delta {
        after.entries@ == before.entries@ && after.delta_body@ == before.delta_body@
    } else {
        &&& after.entries@.len() == before.entries@.len() + 1
        &&& after.entries@.drop_last() == before.entries@
        &&& last.hash == hash
        &&& last.start_lba == er.range_start
        &&& last.lba_length == er.range_end - er.range_start
        &&& last.uncompressed_bytes == bytes.len()
        &&& if held {
            last.form is Reference && after.delta_body@ == before.delta_body@
        } else if smaller {
            let (source, blob) = delta->0;
            &&& after.delta_body@ == before.delta_body@ + blob
            &&& last.form matches ReclaimedForm::Delta(option) && option.source_hash == source
                && option.delta_offset == before.delta_body@.len() && option.delta_length
                == blob.len() && crate::ids::hashes_to(blob, option.delta_hash)
        } else {
            &&& after.delta_body@ == before.delta_body@
            &&& last.form matches ReclaimedForm::Body(stored) && stored@ == bytes
        }
    }
}

/// Write one run of `bytes`, whose hash is `hash`, in the smallest form there
/// is for it. `delta` is what it compresses to against its dictionary.
pub fn place_run(
    out: &mut ReclaimOutput,
    er: &ExtentRead,
    bytes: &[u8],
    hash: ContentHash,
    held: bool,
    delta: Option<(ContentHash, Vec<u8>)>,
    from_delta: bool,
)
    requires
        er.range_start <= er.range_end,
        er.range_end - er.range_start <= u32::MAX,
        bytes@.len() <= u32::MAX,
    ensures
        places(
            *old(out),
            *final(out),
            *er,
            bytes@,
            hash,
            held,
            delta_view(delta),
            from_delta,
        ),
{
    let ghost before = *out;
    let form: ReclaimedForm = match (held, delta) {
        (true, _) => ReclaimedForm::Reference,
        (false, Some((source_hash, blob))) if blob.len() < bytes.len() => {
            let option = DeltaOption {
                source_hash,
                delta_offset: out.delta_body.len() as u64,
                delta_length: blob.len() as u32,
                delta_hash: content_hash(blob.as_slice()),
            };
            out.delta_body.extend_from_slice(blob.as_slice());
            assert(out.delta_body@ =~= before.delta_body@ + blob@);
            ReclaimedForm::Delta(option)
        },
        _ => {
            if from_delta {
                return;
            }
            let mut stored: Vec<u8> = Vec::new();
            stored.extend_from_slice(bytes);
            assert(stored@ =~= bytes@);
            ReclaimedForm::Body(stored)
        },
    };
    out.entries.push(
        ReclaimedEntry {
            hash,
            start_lba: er.range_start,
            lba_length: (er.range_end - er.range_start) as u32,
            form,
            uncompressed_bytes: bytes.len() as u64,
        },
    );
    assert(out.entries@.drop_last() =~= before.entries@);
}

/// Rewrite one run of content the pass has.
pub fn reclaim_run(
    out: &mut ReclaimOutput,
    er: &ExtentRead,
    body: &ReclaimBody,
    extent_index: &ExtentIndex,
    snapshot_floor: Option<Ulid>,
    delta_source_pins: &Blake3HashSet,
) -> (done: Result<(), ReclaimError>)
    requires
        extent_index.wf(),
        read_fits(*er),
    ensures
        match done {
            Ok(()) => {
                &&& rewrites(
                    *old(out),
                    *final(out),
                    *er,
                    *body,
                    *extent_index,
                    snapshot_floor,
                    delta_source_pins@,
                )
                &&& content_of(*body) matches Some(c) ==> run_end(*er) <= c.len()
            },
            Err(e) => *final(out) == *old(out) && run_fails(
                *er,
                *body,
                *extent_index,
                snapshot_floor,
                delta_source_pins@,
                e,
            ),
        },
{
    let length_blocks: u32 = (er.range_end - er.range_start) as u32;
    let start: u64 = er.payload_block_offset as u64 * 4096;
    let end: u64 = start + length_blocks as u64 * 4096;
    let content: &Vec<u8> = match body {
        ReclaimBody::Skip => {
            return Ok(());
        },
        ReclaimBody::Data(bytes) => bytes,
        ReclaimBody::Delta { fragment, .. } => fragment,
    };
    if (content.len() as u64) < end {
        return Err(ReclaimError::TooShort { hash: er.hash, len: content.len(), end });
    }
    let bytes = vstd::slice::slice_subrange(content.as_slice(), start as usize, end as usize);
    let new_hash = content_hash(bytes);
    let held: bool = extent_index.lookup(&new_hash).is_some();
    proof {
        if !held {
            assert forall|h: ContentHash| #[trigger] crate::ids::hashes_to(
                bytes@,
                h,
            ) implies extent_index.body(h) is None by {
                ContentHash::lemma_bytes_tell(h, new_hash);
            }
        }
    }
    let dictionary: Option<(ContentHash, &Vec<u8>)> = match body {
        ReclaimBody::Skip => None,
        ReclaimBody::Data(plain) => {
            let frozen: bool = match (snapshot_floor, extent_index.lookup(&er.hash)) {
                (Some(floor), Some(loc)) => loc.segment_id.value <= floor.value,
                _ => false,
            };
            if frozen || delta_source_pins.contains(&er.hash) {
                Some((er.hash, plain))
            } else {
                None
            }
        },
        ReclaimBody::Delta { source_hash, source_plain, .. } => Some((*source_hash, source_plain)),
    };
    let delta: Option<(ContentHash, Vec<u8>)> = match dictionary {
        Some((source_hash, plain)) if !held => match make_delta(plain.as_slice(), bytes) {
            Ok(blob) => Some((source_hash, blob)),
            Err(e) => {
                return Err(ReclaimError::Codec(e));
            },
        },
        _ => None,
    };
    let from_delta: bool = matches!(body, ReclaimBody::Delta { .. });
    let ghost before = out.delta_body@;
    let ghost made = delta_view(delta);
    place_run(out, er, bytes, new_hash, held, delta, from_delta);
    proof {
        if let Some((_, blob)) = made {
            assert((before + blob).skip(before.len() as int) =~= blob);
        }
    }
    Ok(())
}

// ---------------------------------------------------------------------------
// The pass
// ---------------------------------------------------------------------------

/// What a pass has of one hash, under that hash.
pub struct ResolvedBody {
    pub hash: ContentHash,
    pub body: ReclaimBody,
}

/// The place of `hash` among `bodies`, or their number.
pub open spec fn body_at(bodies: Seq<ResolvedBody>, hash: ContentHash, from: int) -> int
    decreases bodies.len() - from,
{
    if from >= bodies.len() || bodies[from].hash == hash {
        from
    } else {
        body_at(bodies, hash, from + 1)
    }
}

/// The run's content is to be rewritten.
pub open spec fn is_due(
    er: ExtentRead,
    map: LbaMap,
    index: ExtentIndex,
    target_start: int,
    target_end: int,
) -> bool {
    !er.hash.is_zero() && worth_rewriting(map, index, er.hash, target_start, target_end)
}

/// The index has a body or a delta of the hash.
pub open spec fn is_indexed(index: ExtentIndex, hash: ContentHash) -> bool {
    index.body(hash) is Some || index.delta(hash) is Some
}

/// What the pass has of a run that is to be rewritten.
pub open spec fn rewritten_from(
    er: ExtentRead,
    bodies: Seq<ResolvedBody>,
    map: LbaMap,
    index: ExtentIndex,
    target_start: int,
    target_end: int,
) -> Option<ReclaimBody> {
    let at = body_at(bodies, er.hash, 0);
    if is_due(er, map, index, target_start, target_end) && at < bodies.len() {
        Some(bodies[at].body)
    } else {
        None
    }
}

/// The hashes some delta on record names.
pub open spec fn named_sources(index: ExtentIndex) -> Set<ContentHash> {
    Set::new(|h: ContentHash| index.names_source(h))
}

/// One run of the pass: content to rewrite is rewritten from what the pass
/// has of it, and all else is left.
pub open spec fn pass_step(
    before: ReclaimOutput,
    after: ReclaimOutput,
    er: ExtentRead,
    bodies: Seq<ResolvedBody>,
    map: LbaMap,
    index: ExtentIndex,
    target_start: int,
    target_end: int,
    floor: Option<Ulid>,
) -> bool {
    &&& is_due(er, map, index, target_start, target_end) ==> is_indexed(index, er.hash)
    &&& match rewritten_from(er, bodies, map, index, target_start, target_end) {
        Some(body) => {
            &&& rewrites(before, after, er, body, index, floor, named_sources(index))
            &&& content_of(body) matches Some(content) ==> run_end(er) <= content.len()
        },
        None => after == before,
    }
}

/// `states` are what the pass had written before each run and at the end.
pub open spec fn pass_trace(
    states: Seq<ReclaimOutput>,
    reads: Seq<ExtentRead>,
    bodies: Seq<ResolvedBody>,
    map: LbaMap,
    index: ExtentIndex,
    target_start: int,
    target_end: int,
    floor: Option<Ulid>,
) -> bool {
    &&& states.len() >= 1
    &&& states.len() <= reads.len() + 1
    &&& states[0].entries@.len() == 0
    &&& states[0].delta_body@.len() == 0
    &&& forall|i: int|
        #![trigger states[i]]
        0 <= i < states.len() - 1 ==> pass_step(
            states[i],
            states[i + 1],
            reads[i],
            bodies,
            map,
            index,
            target_start,
            target_end,
            floor,
        )
}

/// The pass stops at this run with this error.
pub open spec fn stopped_by(
    er: ExtentRead,
    bodies: Seq<ResolvedBody>,
    map: LbaMap,
    index: ExtentIndex,
    target_start: int,
    target_end: int,
    floor: Option<Ulid>,
    e: ReclaimError,
) -> bool {
    if is_due(er, map, index, target_start, target_end) && !is_indexed(index, er.hash) {
        e == (ReclaimError::NotIndexed { hash: er.hash })
    } else {
        match rewritten_from(er, bodies, map, index, target_start, target_end) {
            Some(body) => run_fails(er, body, index, floor, named_sources(index), e),
            None => false,
        }
    }
}

/// Rewrite every run of `reads` whose content is to be rewritten, from
/// `bodies`, what `reclaim_hashes` asked for. A hash without a body there is
/// left as one that cannot be read; one that the index does not know stops the
/// pass.
pub fn execute_reclaim(
    reads: &Vec<ExtentRead>,
    bodies: &Vec<ResolvedBody>,
    lbamap: &LbaMap,
    extent_index: &ExtentIndex,
    target_start: u64,
    target_end: u64,
    snapshot_floor: Option<Ulid>,
) -> (done: Result<ReclaimOutput, ReclaimError>)
    requires
        lbamap.wf(),
        extent_index.wf(),
        forall|i: int| 0 <= i < reads@.len() ==> read_fits(#[trigger] reads@[i]),
    ensures
        exists|states: Seq<ReclaimOutput>|
            {
                &&& #[trigger] pass_trace(
                    states,
                    reads@,
                    bodies@,
                    *lbamap,
                    *extent_index,
                    target_start as int,
                    target_end as int,
                    snapshot_floor,
                )
                &&& match done {
                    Ok(out) => states.len() == reads@.len() + 1 && states.last() == out,
                    Err(e) => states.len() <= reads@.len() && stopped_by(
                        reads@[states.len() - 1],
                        bodies@,
                        *lbamap,
                        *extent_index,
                        target_start as int,
                        target_end as int,
                        snapshot_floor,
                        e,
                    ),
                }
            },
{
    let pins = extent_index.named_delta_sources();
    assert(pins@ =~= named_sources(*extent_index));
    let mut out = ReclaimOutput { entries: Vec::new(), delta_body: Vec::new() };
    let ghost mut states: Seq<ReclaimOutput> = seq![out];
    let mut i: usize = 0;
    while i < reads.len()
        invariant
            i <= reads.len(),
            lbamap.wf(),
            extent_index.wf(),
            pins@ == named_sources(*extent_index),
            forall|j: int| 0 <= j < reads@.len() ==> read_fits(#[trigger] reads@[j]),
            states.len() == i + 1,
            states.last() == out,
            pass_trace(
                states,
                reads@,
                bodies@,
                *lbamap,
                *extent_index,
                target_start as int,
                target_end as int,
                snapshot_floor,
            ),
        decreases reads.len() - i,
    {
        let er = &reads[i];
        assert(read_fits(reads@[i as int]));
        let ghost before = out;
        let zero: bool = er.hash.head == 0 && er.hash.tail == 0;
        if !zero && should_rewrite(lbamap, extent_index, er.hash, target_start, target_end) {
            if let ReclaimSource::Unknown = reclaim_source(extent_index, er.hash) {
                return Err(ReclaimError::NotIndexed { hash: er.hash });
            }
            let mut at: usize = 0;
            while at < bodies.len()
                invariant_except_break
                    body_at(bodies@, er.hash, 0) == body_at(bodies@, er.hash, at as int),
                invariant
                    at <= bodies.len(),
                ensures
                    at <= bodies.len(),
                    body_at(bodies@, er.hash, 0) == at,
                decreases bodies.len() - at,
            {
                if bodies[at].hash == er.hash {
                    break;
                }
                at += 1;
            }
            if at < bodies.len() {
                match reclaim_run(
                    &mut out,
                    er,
                    &bodies[at].body,
                    extent_index,
                    snapshot_floor,
                    &pins,
                ) {
                    Ok(()) => {},
                    Err(e) => {
                        return Err(e);
                    },
                }
            }
        }
        proof {
            let grown = states.push(out);
            assert forall|j: int| #![trigger grown[j]] 0 <= j < grown.len() - 1 implies pass_step(
                grown[j],
                grown[j + 1],
                reads@[j],
                bodies@,
                *lbamap,
                *extent_index,
                target_start as int,
                target_end as int,
                snapshot_floor,
            ) by {
                if j < states.len() - 1 {
                    assert(states[j] == grown[j] && states[j + 1] == grown[j + 1]);
                }
            }
            states = grown;
        }
        i += 1;
    }
    Ok(out)
}

// ---------------------------------------------------------------------------
// Laws
// ---------------------------------------------------------------------------

/// Some block reads block `b` of the body of `hash`.
pub open spec fn reads_block(map: LbaMap, hash: ContentHash, b: int) -> bool {
    exists|lba: int| #[trigger]
        map.at(lba) is Some && (map.at(lba)->0).0 == hash && (map.at(lba)->0).1 == b
}

/// No two blocks read the same block of the body of `hash`.
pub open spec fn reads_once(map: LbaMap, hash: ContentHash) -> bool {
    forall|x: int, y: int|
        #![trigger map.at(x), map.at(y)]
        map.at(x) is Some && map.at(y) is Some && (map.at(x)->0).0 == hash && (map.at(y)->0).0
            == hash && (map.at(x)->0).1 == (map.at(y)->0).1 ==> x == y
}

/// Every block that reads the content lies in the target.
pub open spec fn read_within(map: LbaMap, hash: ContentHash, start: int, end: int) -> bool {
    forall|lba: int|
        #![trigger map.at(lba)]
        map.at(lba) is Some && (map.at(lba)->0).0 == hash ==> start <= lba < end
}

/// The body blocks that the runs read.
spec fn blocks_of(runs: Seq<(u64, u32, u32)>) -> Set<int>
    decreases runs.len(),
{
    if runs.len() == 0 {
        Set::empty()
    } else {
        blocks_of(runs.drop_last()).union(
            vstd::set_lib::set_int_range(
                runs.last().2 as int,
                runs.last().2 + runs.last().1,
            ),
        )
    }
}

proof fn lemma_blocks_of(runs: Seq<(u64, u32, u32)>)
    ensures
        blocks_of(runs).finite(),
        blocks_of(runs).len() <= run_blocks(runs),
        forall|b: int| #[trigger]
            blocks_of(runs).contains(b) <==> exists|i: int|
                #![trigger runs[i]]
                0 <= i < runs.len() && runs[i].2 <= b < runs[i].2 + runs[i].1,
        forall|i: int|
            #![trigger runs[i]]
            0 <= i < runs.len() ==> runs[i].2 + runs[i].1 <= payload_reach(runs),
        0 <= payload_reach(runs),
        payload_reach(runs) > 0 ==> exists|i: int|
            #![trigger runs[i]]
            0 <= i < runs.len() && runs[i].2 + runs[i].1 == payload_reach(runs),
    decreases runs.len(),
{
    if runs.len() > 0 {
        let before = runs.drop_last();
        let last = runs.last();
        let more = vstd::set_lib::set_int_range(last.2 as int, last.2 + last.1);
        lemma_blocks_of(before);
        vstd::set_lib::lemma_int_range(last.2 as int, last.2 + last.1);
        vstd::set_lib::lemma_len_union(blocks_of(before), more);
        assert(forall|i: int| 0 <= i < before.len() ==> before[i] == #[trigger] runs[i]);
        assert(runs[runs.len() - 1] == last);
        assert forall|b: int| #[trigger] blocks_of(runs).contains(b) <==> exists|i: int|
            #![trigger runs[i]]
            0 <= i < runs.len() && runs[i].2 <= b < runs[i].2 + runs[i].1 by {
            if blocks_of(before).contains(b) {
                let i = choose|i: int|
                    #![trigger before[i]]
                    0 <= i < before.len() && before[i].2 <= b < before[i].2 + before[i].1;
                assert(runs[i] == before[i]);
            }
            if exists|i: int|
                #![trigger runs[i]]
                0 <= i < runs.len() && runs[i].2 <= b < runs[i].2 + runs[i].1 {
                let i = choose|i: int|
                    #![trigger runs[i]]
                    0 <= i < runs.len() && runs[i].2 <= b < runs[i].2 + runs[i].1;
                if i < before.len() {
                    assert(before[i] == runs[i]);
                }
            }
        }
        if payload_reach(runs) == payload_reach(before) && payload_reach(before) > 0 {
            let i = choose|i: int|
                #![trigger before[i]]
                0 <= i < before.len() && before[i].2 + before[i].1 == payload_reach(before);
            assert(runs[i] == before[i]);
        }
    }
}

proof fn lemma_blocks_apart(runs: Seq<(u64, u32, u32)>)
    requires
        forall|i: int, j: int|
            #![trigger runs[i], runs[j]]
            0 <= i < j < runs.len() ==> runs[i].2 + runs[i].1 <= runs[j].2 || runs[j].2 + runs[j].1
                <= runs[i].2,
    ensures
        blocks_of(runs).len() == run_blocks(runs),
    decreases runs.len(),
{
    if runs.len() > 0 {
        let before = runs.drop_last();
        let last = runs.last();
        let more = vstd::set_lib::set_int_range(last.2 as int, last.2 + last.1);
        assert(forall|i: int| 0 <= i < before.len() ==> #[trigger] before[i] == runs[i]);
        assert forall|i: int, j: int|
            #![trigger before[i], before[j]]
            0 <= i < j < before.len() implies before[i].2 + before[i].1 <= before[j].2
            || before[j].2 + before[j].1 <= before[i].2 by {
            assert(runs[i] == before[i] && runs[j] == before[j]);
        }
        lemma_blocks_apart(before);
        lemma_blocks_of(before);
        vstd::set_lib::lemma_int_range(last.2 as int, last.2 + last.1);
        assert(blocks_of(before).disjoint(more)) by {
            assert forall|b: int| !(blocks_of(before).contains(b) && more.contains(b)) by {
                if blocks_of(before).contains(b) && more.contains(b) {
                    let i = choose|i: int|
                        #![trigger before[i]]
                        0 <= i < before.len() && before[i].2 <= b < before[i].2 + before[i].1;
                    assert(runs[i] == before[i]);
                    assert(runs[runs.len() - 1] == last);
                }
            }
        }
        vstd::set_lib::lemma_set_disjoint_lens(blocks_of(before), more);
    }
}

/// The runs of a hash are what the blocks read of it.
proof fn lemma_runs_read(map: LbaMap, hash: ContentHash, start: int, end: int)
    requires
        map.wf(),
    ensures
        forall|b: int| #[trigger]
            blocks_of(runs_in(map.entries(), hash)).contains(b) <==> reads_block(map, hash, b),
        contained(runs_in(map.entries(), hash), start, end) <==> read_within(
            map,
            hash,
            start,
            end,
        ),
        reads_once(map, hash) ==> blocks_of(runs_in(map.entries(), hash)).len() == run_blocks(
            runs_in(map.entries(), hash),
        ),
{
    let m = map.entries();
    let list = crate::lbamap::claiming(crate::lbamap::all_entries(m), hash);
    let runs = runs_in(m, hash);
    crate::lbamap::law_lists_miss_no_extent(m, hash);
    lemma_blocks_of(runs);
    assert forall|i: int| #![trigger runs[i]] 0 <= i < runs.len() implies m.contains_key(runs[i].0)
        && m[runs[i].0].hash == hash && m[runs[i].0].lba_length == runs[i].1
        && m[runs[i].0].payload_block_offset == runs[i].2 by {
        assert(list[i].0 == runs[i].0);
    }
    // A block of a run is read by a block of the map, and the other way round.
    assert forall|i: int, b: int|
        #![trigger runs[i], reads_block(map, hash, b)]
        0 <= i < runs.len() && runs[i].2 <= b < runs[i].2 + runs[i].1 implies reads_block(
        map,
        hash,
        b,
    ) by {
        let k = runs[i].0;
        let lba = k + (b - runs[i].2);
        assert(crate::lbamap::covers(m, k, lba));
        crate::lbamap::lemma_block_claim(m, k, lba);
        assert(map.at(lba) is Some);
    }
    assert forall|lba: int| #[trigger] map.at(lba) is Some && (map.at(lba)->0).0 == hash implies
        exists|i: int|
        #![trigger runs[i]]
        0 <= i < runs.len() && crate::lbamap::covers(m, runs[i].0, lba) && (map.at(lba)->0).1
            == runs[i].2 + (lba - runs[i].0) by {
        let k = choose|k: u64| crate::lbamap::covers(m, k, lba);
        crate::lbamap::lemma_block_claim(m, k, lba);
        assert(list.contains((k, m[k])));
        let i = choose|i: int| 0 <= i < list.len() && list[i] == (k, m[k]);
        assert(runs[i].0 == k);
    }
    assert forall|b: int| #[trigger] blocks_of(runs).contains(b) <==> reads_block(map, hash, b) by {
        if blocks_of(runs).contains(b) {
            let i = choose|i: int|
                #![trigger runs[i]]
                0 <= i < runs.len() && runs[i].2 <= b < runs[i].2 + runs[i].1;
            assert(reads_block(map, hash, b));
        }
        if reads_block(map, hash, b) {
            let lba = choose|lba: int| #[trigger]
                map.at(lba) is Some && (map.at(lba)->0).0 == hash && (map.at(lba)->0).1 == b;
            let i = choose|i: int|
                #![trigger runs[i]]
                0 <= i < runs.len() && crate::lbamap::covers(m, runs[i].0, lba) && (map.at(
                    lba,
                )->0).1 == runs[i].2 + (lba - runs[i].0);
            assert(runs[i].2 <= b < runs[i].2 + runs[i].1);
        }
    }
    if contained(runs, start, end) {
        assert forall|lba: int|
            #![trigger map.at(lba)]
            map.at(lba) is Some && (map.at(lba)->0).0 == hash implies start <= lba < end by {
            let i = choose|i: int|
                #![trigger runs[i]]
                0 <= i < runs.len() && crate::lbamap::covers(m, runs[i].0, lba) && (map.at(
                    lba,
                )->0).1 == runs[i].2 + (lba - runs[i].0);
            assert(start <= runs[i].0 && runs[i].0 + runs[i].1 <= end);
        }
    }
    if read_within(map, hash, start, end) {
        assert forall|i: int| #![trigger runs[i]] 0 <= i < runs.len() implies start <= runs[i].0
            && runs[i].0 + runs[i].1 <= end by {
            let k = runs[i].0;
            assert(0 < m[k].lba_length);
            let last = k + m[k].lba_length - 1;
            assert(crate::lbamap::covers(m, k, k as int));
            assert(crate::lbamap::covers(m, k, last));
            crate::lbamap::lemma_block_claim(m, k, k as int);
            crate::lbamap::lemma_block_claim(m, k, last);
            assert(map.at(k as int) is Some && map.at(last) is Some);
        }
    }
    if reads_once(map, hash) {
        assert forall|i: int, j: int|
            #![trigger runs[i], runs[j]]
            0 <= i < j < runs.len() implies runs[i].2 + runs[i].1 <= runs[j].2 || runs[j].2
            + runs[j].1 <= runs[i].2 by {
            assert(list[i].0 < list[j].0);
            if !(runs[i].2 + runs[i].1 <= runs[j].2 || runs[j].2 + runs[j].1 <= runs[i].2) {
                let b = if runs[i].2 < runs[j].2 {
                    runs[j].2 as int
                } else {
                    runs[i].2 as int
                };
                let (p, q) = (runs[i].0, runs[j].0);
                assert(0 < m[p].lba_length && 0 < m[q].lba_length);
                let x = p + (b - runs[i].2);
                let y = q + (b - runs[j].2);
                assert(crate::lbamap::covers(m, p, x));
                assert(crate::lbamap::covers(m, q, y));
                crate::lbamap::lemma_block_claim(m, p, x);
                crate::lbamap::lemma_block_claim(m, q, y);
                assert(map.at(x) is Some && map.at(y) is Some);
                assert(x == y);
                crate::lbamap::lemma_cover_unique(m, p, q, x);
            }
        }
        lemma_blocks_apart(runs);
    }
}

/// A body of `n` blocks that is stored as it is, and read from within the
/// target alone, is rewritten where some block of it is read by nothing, at its
/// tail as much as anywhere; and is left where every block of it is read.
pub proof fn law_a_partly_dead_body_is_rewritten(
    map: LbaMap,
    index: ExtentIndex,
    hash: ContentHash,
    start: int,
    end: int,
    n: int,
)
    requires
        map.wf(),
        index.wf(),
        index.body(hash) is Some,
        (index.body(hash)->0).codec is Plain,
        !(index.body(hash)->0).inline,
        (index.body(hash)->0).body_length == 4096 * n,
        read_within(map, hash, start, end),
        // What is read of the body lies in it, and no block of it is read twice.
        forall|b: int| #[trigger] reads_block(map, hash, b) ==> 0 <= b < n,
        reads_once(map, hash),
    ensures
        worth_rewriting(map, index, hash, start, end) <==> exists|b: int|
            0 <= b < n && !#[trigger] reads_block(map, hash, b),
{
    let runs = runs_in(map.entries(), hash);
    let read = blocks_of(runs);
    let whole = vstd::set_lib::set_int_range(0, n);
    lemma_runs_read(map, hash, start, end);
    lemma_blocks_of(runs);
    vstd::set_lib::lemma_int_range(0, n);
    assert(logical_blocks(index, hash, runs) == n);
    assert(read.subset_of(whole)) by {
        assert forall|b: int| #[trigger] read.contains(b) implies whole.contains(b) by {
            assert(reads_block(map, hash, b));
        }
    }
    vstd::set_lib::lemma_len_subset(read, whole);
    if exists|b: int| 0 <= b < n && !#[trigger] reads_block(map, hash, b) {
        let b = choose|b: int| 0 <= b < n && !#[trigger] reads_block(map, hash, b);
        assert(!read.contains(b));
        assert(whole.contains(b));
        if read.len() == n {
            vstd::set_lib::lemma_subset_equality(read, whole);
        }
    }
    if worth_rewriting(map, index, hash, start, end) {
        if forall|b: int| 0 <= b < n ==> #[trigger] reads_block(map, hash, b) {
            assert forall|b: int| #[trigger] whole.contains(b) implies read.contains(b) by {
                assert(reads_block(map, hash, b));
            }
            assert(read =~= whole);
        }
    }
}

/// Whatever reads twice, a body that is stored as it is and of which fewer
/// blocks are read than it has is rewritten, where all are read from within
/// the target.
pub proof fn law_few_reads_are_rewritten(
    map: LbaMap,
    index: ExtentIndex,
    hash: ContentHash,
    start: int,
    end: int,
)
    requires
        map.wf(),
        index.wf(),
        index.body(hash) is Some,
        (index.body(hash)->0).codec is Plain,
        !(index.body(hash)->0).inline,
        read_within(map, hash, start, end),
        4096 * (run_blocks(runs_in(map.entries(), hash)) + 1) <= (index.body(hash)->0).body_length,
    ensures
        worth_rewriting(map, index, hash, start, end),
{
    lemma_runs_read(map, hash, start, end);
}

/// Of a body in any other form the length is not known: it is rewritten where
/// some block of it is read by nothing and a later one is read.
pub proof fn law_a_gap_is_rewritten(
    map: LbaMap,
    index: ExtentIndex,
    hash: ContentHash,
    start: int,
    end: int,
)
    requires
        map.wf(),
        index.wf(),
        index.body(hash) is None || (index.body(hash)->0).inline || !((
        index.body(hash)->0).codec is Plain),
        read_within(map, hash, start, end),
        reads_once(map, hash),
    ensures
        worth_rewriting(map, index, hash, start, end) <==> exists|b: int, c: int|
            0 <= b < c && !#[trigger] reads_block(map, hash, b) && #[trigger] reads_block(
                map,
                hash,
                c,
            ),
{
    let runs = runs_in(map.entries(), hash);
    let read = blocks_of(runs);
    let n = payload_reach(runs);
    let whole = vstd::set_lib::set_int_range(0, n);
    lemma_runs_read(map, hash, start, end);
    lemma_blocks_of(runs);
    vstd::set_lib::lemma_int_range(0, n);
    assert(logical_blocks(index, hash, runs) == n);
    assert forall|b: int| #[trigger] read.contains(b) implies 0 <= b < n by {
        let i = choose|i: int|
            #![trigger runs[i]]
            0 <= i < runs.len() && runs[i].2 <= b < runs[i].2 + runs[i].1;
        assert(runs[i].2 + runs[i].1 <= n);
    }
    assert(read.subset_of(whole));
    vstd::set_lib::lemma_len_subset(read, whole);
    if exists|b: int, c: int|
        0 <= b < c && !#[trigger] reads_block(map, hash, b) && #[trigger] reads_block(
            map,
            hash,
            c,
        ) {
        let (b, c) = choose|b: int, c: int|
            0 <= b < c && !#[trigger] reads_block(map, hash, b) && #[trigger] reads_block(
                map,
                hash,
                c,
            );
        assert(read.contains(c));
        assert(!read.contains(b) && whole.contains(b));
        if read.len() == n {
            vstd::set_lib::lemma_subset_equality(read, whole);
        }
    }
    if worth_rewriting(map, index, hash, start, end) {
        let i = choose|i: int|
            #![trigger runs[i]]
            0 <= i < runs.len() && runs[i].2 + runs[i].1 == n;
        assert(crate::lbamap::claiming(crate::lbamap::all_entries(map.entries()), hash)[i].0
            == runs[i].0);
        crate::lbamap::law_lists_miss_no_extent(map.entries(), hash);
        assert(runs[i].1 > 0);
        let c = n - 1;
        assert(read.contains(c));
        assert(reads_block(map, hash, c));
        if forall|b: int| 0 <= b < n ==> #[trigger] reads_block(map, hash, b) {
            assert forall|b: int| #[trigger] whole.contains(b) implies read.contains(b) by {
                assert(reads_block(map, hash, b));
            }
            assert(read =~= whole);
        }
        let b = choose|b: int| 0 <= b < n && !#[trigger] reads_block(map, hash, b);
        assert(b < c);
    }
}

/// Content that any block outside the target reads is left: rewriting it would
/// leave that block on the old body.
pub proof fn law_content_read_elsewhere_is_left(
    map: LbaMap,
    index: ExtentIndex,
    hash: ContentHash,
    start: int,
    end: int,
    lba: int,
)
    requires
        map.wf(),
        map.at(lba) is Some,
        (map.at(lba)->0).0 == hash,
        !(start <= lba < end),
    ensures
        !worth_rewriting(map, index, hash, start, end),
{
    lemma_runs_read(map, hash, start, end);
}

/// A pass asks for the content of just the hashes it rewrites: each read of
/// content worth rewriting, but for zeroes, and each once.
pub proof fn law_just_what_is_rewritten_is_fetched(
    reads: Seq<ExtentRead>,
    map: LbaMap,
    index: ExtentIndex,
    start: int,
    end: int,
    n: int,
)
    requires
        0 <= n <= reads.len(),
    ensures
        hashes_to_rewrite(reads, map, index, start, end, n).no_duplicates(),
        forall|h: ContentHash| #[trigger]
            hashes_to_rewrite(reads, map, index, start, end, n).contains(h) <==> {
                &&& worth_rewriting(map, index, h, start, end)
                &&& !(h.head == 0 && h.tail == 0)
                &&& exists|i: int| 0 <= i < n && (#[trigger] reads[i]).hash == h
            },
    decreases n,
{
    if n > 0 {
        law_just_what_is_rewritten_is_fetched(reads, map, index, start, end, n - 1);
        let before = hashes_to_rewrite(reads, map, index, start, end, n - 1);
        let now = hashes_to_rewrite(reads, map, index, start, end, n);
        let last = reads[n - 1].hash;
        assert forall|h: ContentHash| #[trigger] now.contains(h) <==> {
            &&& worth_rewriting(map, index, h, start, end)
            &&& !(h.head == 0 && h.tail == 0)
            &&& exists|i: int| 0 <= i < n && (#[trigger] reads[i]).hash == h
        } by {
            if now.contains(h) {
                let i = choose|i: int| 0 <= i < now.len() && now[i] == h;
                if i < before.len() {
                    assert(before[i] == h);
                    assert(before.contains(h));
                    let j = choose|j: int| 0 <= j < n - 1 && (#[trigger] reads[j]).hash == h;
                    assert(0 <= j < n && reads[j].hash == h);
                } else {
                    assert(reads[n - 1].hash == h);
                }
            }
            if worth_rewriting(map, index, h, start, end) && !(h.head == 0 && h.tail == 0)
                && exists|i: int| 0 <= i < n && (#[trigger] reads[i]).hash == h {
                let j = choose|j: int| 0 <= j < n && (#[trigger] reads[j]).hash == h;
                if j < n - 1 {
                    assert(0 <= j < n - 1 && reads[j].hash == h);
                    assert(before.contains(h));
                    let i = choose|i: int| 0 <= i < before.len() && before[i] == h;
                    assert(now[i] == h);
                } else if before.contains(h) {
                    let i = choose|i: int| 0 <= i < before.len() && before[i] == h;
                    assert(now[i] == h);
                } else {
                    assert(now[now.len() - 1] == h);
                }
            }
        }
        assert(now.no_duplicates()) by {
            if now.len() > before.len() {
                assert forall|i: int, j: int|
                    0 <= i < now.len() && 0 <= j < now.len() && i != j implies now[i] != now[j] by {
                    if i < before.len() {
                        assert(before.contains(before[i]));
                    }
                    if j < before.len() {
                        assert(before.contains(before[j]));
                    }
                }
            }
        }
    }
}

/// The options tried are just those whose source has a body, in the order of
/// preference.
pub proof fn law_options_without_a_source_are_passed_over(
    options: Seq<DeltaOption>,
    index: ExtentIndex,
)
    ensures
        forall|i: int|
            #![trigger resolvable_options(options, index)[i]]
            0 <= i < resolvable_options(options, index).len() ==> options.contains(
                resolvable_options(options, index)[i],
            ) && index.body(resolvable_options(options, index)[i].source_hash) is Some,
        forall|i: int|
            #![trigger options[i]]
            0 <= i < options.len() && index.body(options[i].source_hash) is Some
                ==> resolvable_options(options, index).contains(options[i]),
    decreases options.len(),
{
    if options.len() > 0 {
        let before = options.drop_last();
        law_options_without_a_source_are_passed_over(before, index);
        let was = resolvable_options(before, index);
        let now = resolvable_options(options, index);
        assert(forall|i: int| 0 <= i < before.len() ==> #[trigger] before[i] == options[i]);
        assert forall|i: int| #![trigger now[i]] 0 <= i < now.len() implies options.contains(now[i])
            && index.body(now[i].source_hash) is Some by {
            if i < was.len() {
                assert(now[i] == was[i]);
                let j = choose|j: int| 0 <= j < before.len() && before[j] == was[i];
                assert(options[j] == now[i]);
            } else {
                assert(options[options.len() - 1] == now[i]);
            }
        }
        assert forall|i: int| #![trigger options[i]] 0 <= i < options.len() && index.body(
            options[i].source_hash,
        ) is Some implies now.contains(options[i]) by {
            if i < before.len() {
                assert(was.contains(before[i]));
                let j = choose|j: int| 0 <= j < was.len() && was[j] == before[i];
                assert(now[j] == options[i]);
            } else {
                assert(now[now.len() - 1] == options[i]);
            }
        }
    }
}

/// The first option tried is the first there is whose source has a body.
pub proof fn law_the_first_source_is_tried_first(
    options: Seq<DeltaOption>,
    index: ExtentIndex,
    i: int,
)
    requires
        0 <= i < options.len(),
        index.body(options[i].source_hash) is Some,
        forall|j: int| 0 <= j < i ==> index.body((#[trigger] options[j]).source_hash) is None,
    ensures
        resolvable_options(options, index).len() > 0,
        resolvable_options(options, index)[0] == options[i],
    decreases options.len(),
{
    let before = options.drop_last();
    let was = resolvable_options(before, index);
    if i < before.len() {
        law_the_first_source_is_tried_first(before, index, i);
    } else if was.len() > 0 {
        law_options_without_a_source_are_passed_over(before, index);
        assert(was[0] == was[0]);
        let j = choose|j: int| 0 <= j < before.len() && before[j] == was[0];
        assert(options[j] == was[0]);
    }
}

/// The entry stands for `bytes`: it has their hash and length, and what is
/// stored for it comes to them again. `section` is the delta section its
/// offsets are into, `dict` the plaintext of its delta's source.
pub open spec fn entry_reads(
    e: ReclaimedEntry,
    bytes: Seq<u8>,
    section: Seq<u8>,
    dict: Seq<u8>,
    index: ExtentIndex,
) -> bool {
    &&& crate::ids::hashes_to(bytes, e.hash)
    &&& e.uncompressed_bytes == bytes.len()
    &&& match e.form {
        ReclaimedForm::Reference => index.body(e.hash) is Some,
        ReclaimedForm::Body(stored) => stored@ == bytes,
        ReclaimedForm::Delta(option) => {
            &&& option.delta_offset + option.delta_length <= section.len()
            &&& bytes.len() <= crate::delta_codec::DELTA_DECOMPRESS_CAP ==> extent_decoded(
                dict,
                section.subrange(
                    option.delta_offset as int,
                    option.delta_offset + option.delta_length,
                ),
            ) == Some(bytes)
        },
    }
}

/// A rewritten run stands for the same bytes, on the same blocks: block by
/// block what the run read of the old content, whatever form it is now stored
/// in. Nothing written before is touched.
pub proof fn law_a_rewritten_run_reads_the_same(
    before: ReclaimOutput,
    after: ReclaimOutput,
    er: ExtentRead,
    body: ReclaimBody,
    index: ExtentIndex,
    floor: Option<Ulid>,
    pins: Set<ContentHash>,
    content: Seq<u8>,
)
    requires
        rewrites(before, after, er, body, index, floor, pins),
        read_fits(er),
        body matches ReclaimBody::Data(bytes) ==> content == bytes@,
        body matches ReclaimBody::Delta { fragment, .. } ==> content == fragment@,
        !(body is Skip),
        (er.payload_block_offset + (er.range_end - er.range_start)) * 4096 <= content.len(),
        after.entries@.len() != before.entries@.len(),
    ensures
        ({
            let e = after.entries@.last();
            let from = er.payload_block_offset * 4096;
            let bytes = content.subrange(from, from + (er.range_end - er.range_start) * 4096);
            let dict = match body {
                ReclaimBody::Delta { source_plain, .. } => source_plain@,
                _ => content,
            };
            &&& after.entries@ == before.entries@.push(e)
            &&& before.delta_body@.is_prefix_of(after.delta_body@)
            &&& e.start_lba == er.range_start
            &&& e.start_lba + e.lba_length == er.range_end
            &&& entry_reads(e, bytes, after.delta_body@, dict, index)
            // A delta is of content that stays: what it was decoded from, or
            // what a snapshot or another delta holds.
            &&& e.form matches ReclaimedForm::Delta(option) ==> match body {
                ReclaimBody::Delta { source_hash, .. } => option.source_hash == source_hash,
                _ => option.source_hash == er.hash && (pins.contains(er.hash) || (floor is Some
                    && index.body(er.hash) is Some && (index.body(er.hash)->0).segment_id.value
                    <= (floor->0).value)),
            }
            // A delta never grows back into a body.
            &&& body is Delta ==> !(e.form is Body)
        }),
{
    let e = after.entries@.last();
    let from = er.payload_block_offset * 4096;
    let bytes = content.subrange(from, from + (er.range_end - er.range_start) * 4096);
    assert(after.entries@ =~= after.entries@.drop_last().push(e));
    if let ReclaimedForm::Delta(option) = e.form {
        let blob = after.delta_body@.skip(before.delta_body@.len() as int);
        assert(after.delta_body@.subrange(
            option.delta_offset as int,
            option.delta_offset + option.delta_length,
        ) =~= blob);
    }
}

/// A run whose body the pass has is rewritten, and not passed over.
pub proof fn law_a_run_with_a_body_is_rewritten(
    before: ReclaimOutput,
    after: ReclaimOutput,
    er: ExtentRead,
    body: ReclaimBody,
    index: ExtentIndex,
    floor: Option<Ulid>,
    pins: Set<ContentHash>,
)
    requires
        rewrites(before, after, er, body, index, floor, pins),
        body is Data,
    ensures
        after.entries@.len() == before.entries@.len() + 1,
{
}

/// A step keeps what was written, and adds at most one entry: of its run.
proof fn lemma_pass_step(
    before: ReclaimOutput,
    after: ReclaimOutput,
    er: ExtentRead,
    bodies: Seq<ResolvedBody>,
    map: LbaMap,
    index: ExtentIndex,
    start: int,
    end: int,
    floor: Option<Ulid>,
)
    requires
        pass_step(before, after, er, bodies, map, index, start, end, floor),
    ensures
        before.entries@.is_prefix_of(after.entries@),
        after.entries@.len() <= before.entries@.len() + 1,
        after.entries@.len() > before.entries@.len() ==> {
            &&& is_due(er, map, index, start, end)
            &&& after.entries@.last().start_lba == er.range_start
            &&& after.entries@.last().lba_length == er.range_end - er.range_start
        },
{
    if after.entries@.len() > before.entries@.len() {
        assert(after.entries@.drop_last() =~= before.entries@);
    }
}

proof fn lemma_body_at(bodies: Seq<ResolvedBody>, hash: ContentHash, from: int, x: int)
    requires
        0 <= from <= x < bodies.len(),
        bodies[x].hash == hash,
        forall|y: int| from <= y < x ==> (#[trigger] bodies[y]).hash != hash,
    ensures
        body_at(bodies, hash, from) == x,
    decreases x - from,
{
    if from < x {
        lemma_body_at(bodies, hash, from + 1, x);
    }
}

proof fn lemma_trace_keeps(
    states: Seq<ReclaimOutput>,
    reads: Seq<ExtentRead>,
    bodies: Seq<ResolvedBody>,
    map: LbaMap,
    index: ExtentIndex,
    start: int,
    end: int,
    floor: Option<Ulid>,
    i: int,
    j: int,
)
    requires
        pass_trace(states, reads, bodies, map, index, start, end, floor),
        0 <= i <= j < states.len(),
    ensures
        states[i].entries@.is_prefix_of(states[j].entries@),
    decreases j - i,
{
    if i < j {
        lemma_trace_keeps(states, reads, bodies, map, index, start, end, floor, i, j - 1);
        assert(states[j - 1] == states[j - 1]);
        lemma_pass_step(
            states[j - 1],
            states[j],
            reads[j - 1],
            bodies,
            map,
            index,
            start,
            end,
            floor,
        );
    }
}

/// A pass that comes to its end has rewritten every run it was to rewrite and
/// had the body of: its output holds an entry for the run's blocks, of the
/// bytes they read.
pub proof fn law_every_due_run_is_rewritten(
    states: Seq<ReclaimOutput>,
    reads: Seq<ExtentRead>,
    bodies: Seq<ResolvedBody>,
    map: LbaMap,
    index: ExtentIndex,
    start: int,
    end: int,
    floor: Option<Ulid>,
    i: int,
    x: int,
    content: Seq<u8>,
)
    requires
        pass_trace(states, reads, bodies, map, index, start, end, floor),
        states.len() == reads.len() + 1,
        0 <= i < reads.len(),
        read_fits(reads[i]),
        worth_rewriting(map, index, reads[i].hash, start, end),
        !(reads[i].hash.head == 0 && reads[i].hash.tail == 0),
        0 <= x < bodies.len(),
        bodies[x].hash == reads[i].hash,
        forall|y: int| 0 <= y < x ==> (#[trigger] bodies[y]).hash != reads[i].hash,
        bodies[x].body matches ReclaimBody::Data(bytes) && bytes@ == content,
    ensures
        ({
            let from = reads[i].payload_block_offset * 4096;
            let to = from + (reads[i].range_end - reads[i].range_start) * 4096;
            &&& to <= content.len()
            &&& exists|n: int|
                0 <= n < states.last().entries@.len() && (
                #[trigger] states.last().entries@[n]).start_lba == reads[i].range_start
                    && states.last().entries@[n].lba_length == reads[i].range_end
                    - reads[i].range_start && crate::ids::hashes_to(
                    content.subrange(from, to),
                    states.last().entries@[n].hash,
                )
        }),
{
    lemma_body_at(bodies, reads[i].hash, 0, x);
    let (before, after) = (states[i], states[i + 1]);
    assert(pass_step(before, after, reads[i], bodies, map, index, start, end, floor));
    let n = before.entries@.len() as int;
    assert(after.entries@.len() == n + 1);
    lemma_trace_keeps(
        states,
        reads,
        bodies,
        map,
        index,
        start,
        end,
        floor,
        i + 1,
        states.len() - 1,
    );
    assert(states.last().entries@[n] == after.entries@[n]);
}

/// A pass writes nothing but runs it was to rewrite: each entry is on the
/// blocks of a read whose content is worth rewriting.
pub proof fn law_nothing_else_is_rewritten(
    states: Seq<ReclaimOutput>,
    reads: Seq<ExtentRead>,
    bodies: Seq<ResolvedBody>,
    map: LbaMap,
    index: ExtentIndex,
    start: int,
    end: int,
    floor: Option<Ulid>,
    j: int,
    n: int,
)
    requires
        pass_trace(states, reads, bodies, map, index, start, end, floor),
        0 <= j < states.len(),
        0 <= n < states[j].entries@.len(),
    ensures
        exists|i: int|
            0 <= i < j && (#[trigger] reads[i]).range_start == states[j].entries@[n].start_lba
                && reads[i].range_end - reads[i].range_start == states[j].entries@[n].lba_length
                && worth_rewriting(map, index, reads[i].hash, start, end) && !(reads[i].hash.head
                == 0 && reads[i].hash.tail == 0),
    decreases j,
{
    if j > 0 {
        assert(states[j - 1] == states[j - 1]);
        lemma_pass_step(
            states[j - 1],
            states[j],
            reads[j - 1],
            bodies,
            map,
            index,
            start,
            end,
            floor,
        );
        if n < states[j - 1].entries@.len() {
            assert(states[j].entries@[n] == states[j - 1].entries@[n]);
            law_nothing_else_is_rewritten(
                states,
                reads,
                bodies,
                map,
                index,
                start,
                end,
                floor,
                j - 1,
                n,
            );
        } else {
            assert(reads[j - 1].range_start == states[j].entries@[n].start_lba);
        }
    }
}

/// A delta gives content to a pass just where it decodes to what it stands
/// for: never to other content, whose hash the error says, and never where it
/// does not decode.
pub proof fn law_only_the_right_content_is_taken(
    source_hash: ContentHash,
    source_plain: Seq<u8>,
    blob: Seq<u8>,
    hash: ContentHash,
    segment: Ulid,
    made: Result<ReclaimBody, ReclaimError>,
)
    requires
        materialises(source_hash, source_plain, blob, hash, segment, made),
    ensures
        made is Ok <==> extent_decoded(source_plain, blob) is Some && crate::ids::hashes_to(
            extent_decoded(source_plain, blob)->0,
            hash,
        ),
        made matches Ok(body) ==> (body matches ReclaimBody::Delta {
            source_hash: s,
            source_plain: p,
            fragment,
        } && s == source_hash && p@ == source_plain && crate::ids::hashes_to(fragment@, hash)
            && extent_decoded(source_plain, blob) == Some(fragment@)),
        made matches Err(ReclaimError::WrongContent { hash: h, got, source, segment: u }) ==> h
            == hash && got != hash && source == source_hash && u == segment,
        made matches Err(e) ==> e is WrongContent || e is Codec,
{
}

/// Options are tried one after the other, each once, and the hash is passed
/// over only once all have been.
pub proof fn law_every_option_is_tried_in_turn(options: Seq<DeltaOption>, at: int)
    requires
        0 <= at <= options.len(),
    ensures
        at < options.len() ==> from_option(options, at) == OptionStep::Read(options[at]),
        from_option(options, at) is Done <==> at == options.len(),
        from_option(options, at) matches OptionStep::Done(body) ==> body is Skip,
{
}

/// A pass stops for content that the index does not know or that ends before
/// the run does, or for the codec, and else not.
pub proof fn law_why_a_pass_stops(
    er: ExtentRead,
    bodies: Seq<ResolvedBody>,
    map: LbaMap,
    index: ExtentIndex,
    start: int,
    end: int,
    floor: Option<Ulid>,
    e: ReclaimError,
)
    requires
        stopped_by(er, bodies, map, index, start, end, floor, e),
    ensures
        worth_rewriting(map, index, er.hash, start, end),
        !(er.hash.head == 0 && er.hash.tail == 0),
        e is NotIndexed <==> index.body(er.hash) is None && index.delta(er.hash) is None,
        e matches ReclaimError::NotIndexed { hash } ==> hash == er.hash,
        e matches ReclaimError::TooShort { hash, len, end } ==> hash == er.hash && len < end && end
            == (er.payload_block_offset + (er.range_end - er.range_start)) * 4096,
        !(e is WrongContent),
{
    assert(run_end(er) == (er.payload_block_offset + (er.range_end - er.range_start)) * 4096)
        by (nonlinear_arith)
        requires
            run_end(er) == er.payload_block_offset * 4096 + (er.range_end - er.range_start) * 4096,
    ;
}

/// A run is written in the smallest form there is: as a reference where its
/// content is held, else as a delta where that is smaller, else as a body; and
/// where the content came from a delta, never as a body.
pub proof fn law_a_run_takes_the_smallest_form(
    before: ReclaimOutput,
    after: ReclaimOutput,
    er: ExtentRead,
    bytes: Seq<u8>,
    hash: ContentHash,
    held: bool,
    delta: Option<(ContentHash, Seq<u8>)>,
    from_delta: bool,
)
    requires
        places(before, after, er, bytes, hash, held, delta, from_delta),
    ensures
        ({
            let pays = delta is Some && (delta->0).1.len() < bytes.len();
            &&& after.entries@.len() == before.entries@.len() <==> !held && !pays && from_delta
            &&& after.entries@.len() == before.entries@.len() ==> after.entries@ == before.entries@
            &&& after.entries@.len() != before.entries@.len() ==> {
                let e = after.entries@.last();
                &&& after.entries@ == before.entries@.push(e)
                &&& e.hash == hash && e.start_lba == er.range_start && e.start_lba + e.lba_length
                    == er.range_end
                &&& e.form is Reference <==> held
                &&& e.form is Delta <==> !held && pays
                &&& e.form matches ReclaimedForm::Body(stored) ==> stored@ == bytes
                &&& e.form matches ReclaimedForm::Delta(option) ==> option.source_hash == (
                delta->0).0 && option.delta_offset == before.delta_body@.len()
                    && option.delta_length == (delta->0).1.len()
            }
            &&& after.delta_body@ == (if !held && pays {
                before.delta_body@ + (delta->0).1
            } else {
                before.delta_body@
            })
        }),
{
    if after.entries@.len() != before.entries@.len() {
        assert(after.entries@ =~= before.entries@.push(after.entries@.last()));
    }
}

/// A run that is written as a delta is written shorter than it is.
pub proof fn law_a_delta_is_shorter_than_its_run(
    before: ReclaimOutput,
    after: ReclaimOutput,
    er: ExtentRead,
    body: ReclaimBody,
    index: ExtentIndex,
    floor: Option<Ulid>,
    pins: Set<ContentHash>,
)
    requires
        rewrites(before, after, er, body, index, floor, pins),
        read_fits(er),
        content_of(body) matches Some(content) ==> run_end(er) <= content.len(),
        after.entries@.len() != before.entries@.len(),
    ensures
        after.entries@.last().form matches ReclaimedForm::Delta(option) ==> option.delta_length < (
        er.range_end - er.range_start) * 4096 && option.delta_offset == before.delta_body@.len()
            && after.delta_body@.len() == before.delta_body@.len() + option.delta_length,
        !(after.entries@.last().form is Delta) ==> after.delta_body@ == before.delta_body@,
{
    assert(er.payload_block_offset * 4096 >= 0) by (nonlinear_arith)
        requires
            er.payload_block_offset >= 0,
    ;
    assert((er.range_end - er.range_start) * 4096 >= 0) by (nonlinear_arith)
        requires
            er.range_end >= er.range_start,
    ;
}

} // verus!
