//! The passes that turn bodies into deltas.

use elide_core::delta_codec::apply_delta;
use elide_core::delta_compute::{PendingEntry, SnapshotSourceMap};
use elide_core::delta_passes::{Conversion, Conversions, ImportPass, PriorPass, ResemblancePass};
use elide_core::hash_set::Blake3HashSet;
use elide_core::ids::{content_hash, ContentHash, Ulid};
use elide_core::lbamap::LbaMap;
use elide_core::segment::{EntryKind, SegmentEntry};

/// A block of text, told apart by its seed.
fn block(seed: u32) -> Vec<u8> {
    let mut out = Vec::new();
    let mut i = seed.wrapping_mul(7919);
    while out.len() < 4096 {
        out.extend_from_slice(format!("record {} field={} ok\n", i, i ^ 0x5a5a).as_bytes());
        i = i.wrapping_add(1);
    }
    out.truncate(4096);
    out
}

fn edited(base: &[u8], at: usize) -> Vec<u8> {
    let mut out = base.to_vec();
    out[at] ^= 0x20;
    out
}

fn pending(start_lba: u64, plain: &[u8]) -> PendingEntry {
    let mut entry = SegmentEntry::new_dedup_ref(
        content_hash(plain),
        start_lba,
        (plain.len() / 4096) as u32,
    );
    entry.kind = EntryKind::Data;
    entry.stored_length = plain.len() as u32;
    PendingEntry { entry, body: Some(plain.to_vec()), sketch: None }
}

/// The plaintext a converted pending decodes to.
fn read_back(p: &PendingEntry, source: &[u8], delta_body: &[u8]) -> Vec<u8> {
    let option = p.entry.delta_options[0];
    assert_eq!(option.source_hash, content_hash(source));
    let from = option.delta_offset as usize;
    let blob = &delta_body[from..from + option.delta_length as usize];
    assert_eq!(content_hash(blob), option.delta_hash);
    apply_delta(source, blob).expect("apply")
}

#[test]
fn the_same_block_pass_makes_deltas_of_the_snapshot() {
    let old: Vec<Vec<u8>> = (0..4).map(block).collect();
    let runs: Vec<(u64, u32, ContentHash)> =
        old.iter().enumerate().map(|(i, b)| (i as u64, 1, content_hash(b))).collect();
    let children: Vec<Vec<u8>> = vec![
        edited(&old[0], 10),
        old[0].clone(),
        edited(&old[2], 99),
        edited(&old[3], 5),
    ];
    let pendings: Vec<PendingEntry> =
        children.iter().enumerate().map(|(i, c)| pending(i as u64, c)).collect();

    let mut pass = PriorPass::new(pendings, SnapshotSourceMap { runs });
    // Block 0 is tried against what the snapshot holds there.
    assert_eq!(pass.next(), Some(content_hash(&old[0])));
    assert_eq!(pass.current().entry.start_lba, 0);
    assert!(pass.convert(&old[0], &children[0]).expect("convert"));
    // Block 1 holds the source of block 0, so it keeps its body.
    assert_eq!(pass.next(), Some(content_hash(&old[2])));
    // The source cannot be read.
    pass.pass();
    assert_eq!(pass.next(), Some(content_hash(&old[3])));
    assert!(pass.convert(&old[3], &children[3]).expect("convert"));
    assert_eq!(pass.next(), None);

    let (pendings, delta_body, stats, reserved) = pass.finish();
    assert_eq!(read_back(&pendings[0], &old[0], &delta_body), children[0]);
    assert_eq!(read_back(&pendings[3], &old[3], &delta_body), children[3]);
    assert_eq!(pendings[1].entry.kind, EntryKind::Data);
    assert_eq!(pendings[2].body.as_ref(), Some(&children[2]));
    assert_eq!(stats.entries_converted, 2);
    assert_eq!(stats.entries_reserved_as_sources, 1);
    assert_eq!(stats.original_body_bytes, 8192);
    assert_eq!(stats.delta_body_bytes, delta_body.len() as u64);
    assert!(reserved.contains(&content_hash(&old[1])));
}

#[test]
fn the_resemblance_pass_takes_the_first_referenced_source() {
    let sources: Vec<Vec<u8>> = (10..13).map(block).collect();
    let children = [edited(&sources[1], 7), block(40), block(50), edited(&sources[2], 70)];
    let hash = |n: usize| content_hash(&sources[n]);
    let mut map = LbaMap::new();
    map.insert(0, 1, hash(1), Ulid::from_parts(1, 1));
    map.insert(1, 1, hash(2), Ulid::from_parts(1, 1));
    let referenced = map.referenced_hashes(Blake3HashSet::new());
    let pendings: Vec<PendingEntry> =
        children.iter().enumerate().map(|(i, c)| pending(i as u64, c)).collect();
    let mut reserved = Blake3HashSet::new();
    reserved.insert(content_hash(&children[1]));

    let mut pass = ResemblancePass::new(pendings, vec![1, 2, 3], reserved, &referenced, 4096);
    assert!(pass.next_target());
    pass.probed(Some((vec![8], vec![content_hash(&children[0]), hash(0), hash(1), hash(2)])));
    // The target itself and what nothing references are passed over.
    assert_eq!(pass.next_source(), Some(hash(1)));
    assert!(pass.convert(&sources[1], &children[0], false).expect("convert"));

    // The second is kept as a source; the third has no sketch.
    assert!(pass.next_target());
    assert_eq!(pass.current().entry.start_lba, 2);
    pass.probed(None);

    // The fourth's first source cannot be read.
    assert!(pass.next_target());
    pass.probed(Some((vec![9], vec![hash(1), hash(2)])));
    assert_eq!(pass.next_source(), Some(hash(1)));
    pass.unreadable();
    assert_eq!(pass.next_source(), Some(hash(2)));
    assert!(pass.convert(&sources[2], &children[3], true).expect("convert"));
    assert!(!pass.next_target());

    let (pendings, delta_body, stats) = pass.finish();
    assert_eq!(&delta_body[..3], &[1, 2, 3]);
    assert_eq!(read_back(&pendings[0], &sources[1], &delta_body), children[0]);
    assert_eq!(read_back(&pendings[3], &sources[2], &delta_body), children[3]);
    assert_eq!(pendings[1].entry.kind, EntryKind::Data);
    assert_eq!(pendings[2].entry.kind, EntryKind::Data);
    assert_eq!(stats.targets_probed, 2);
    assert_eq!(stats.candidates_tried, 2);
    assert_eq!(stats.candidates_unreferenced, 1);
    assert_eq!(stats.dictionary_bytes_read, 4096);
    assert_eq!(stats.dictionary_cache_hits, 1);
    assert_eq!(stats.delta.entries_converted, 2);
    assert_eq!(stats.delta.entries_reserved_as_sources, 1);
}

#[test]
fn a_target_with_no_source_keeps_its_body() {
    let child = block(1);
    let referenced = LbaMap::new().referenced_hashes(Blake3HashSet::new());
    let mut pass = ResemblancePass::new(
        vec![pending(0, &child)],
        Vec::new(),
        Blake3HashSet::new(),
        &referenced,
        4096,
    );
    assert!(pass.next_target());
    pass.probed(Some((vec![3, 1, 4], vec![content_hash(&block(2))])));
    assert_eq!(pass.next_source(), None);
    assert!(!pass.next_target());
    let (pendings, delta_body, stats) = pass.finish();
    assert_eq!(pendings[0].body.as_ref(), Some(&child));
    // It was probed and stays, so it advertises the sketch it was probed by.
    assert_eq!(pendings[0].sketch, Some(vec![3, 1, 4]));
    assert!(delta_body.is_empty());
    assert_eq!(stats.candidates_unreferenced, 1);
    assert_eq!(stats.candidates_tried, 0);
}

#[test]
fn the_import_pass_takes_the_first_source_found() {
    let sources: Vec<Vec<u8>> = (20..22).map(block).collect();
    let children = [edited(&sources[0], 7), block(60)];
    let mut conversions = Conversions::new();
    assert!(conversions.is_empty());
    let of = |n: usize| Conversion {
        source_hash: content_hash(&sources[n]),
        source_plain: sources[n].clone(),
    };
    conversions.add_source(content_hash(&children[0]), of(0));
    conversions.add_source(content_hash(&children[0]), of(1));
    assert!(!conversions.is_empty());
    assert!(conversions.contains(content_hash(&children[0])));
    assert!(!conversions.contains(content_hash(&children[1])));

    let pendings: Vec<PendingEntry> =
        children.iter().enumerate().map(|(i, c)| pending(i as u64, c)).collect();
    let entries: Vec<SegmentEntry> = pendings.iter().map(|p| p.entry.clone()).collect();
    assert!(conversions.any_match(&entries));
    assert!(!conversions.any_match(&entries[1..].to_vec()));

    let mut pass = ImportPass::new(pendings, &conversions);
    assert!(pass.next_target());
    assert_eq!(pass.current().entry.start_lba, 0);
    assert!(pass.convert(&children[0]).expect("convert"));
    assert!(!pass.next_target());
    let (pendings, delta_body, stats) = pass.finish();
    assert_eq!(read_back(&pendings[0], &sources[0], &delta_body), children[0]);
    assert_eq!(pendings[1].body.as_ref(), Some(&children[1]));
    assert_eq!(stats.entries_converted, 1);
}

#[test]
fn a_delta_advertises_no_sketch() {
    let source = block(70);
    let child = edited(&source, 11);
    let unlike = block(80);
    let mut map = LbaMap::new();
    map.insert(0, 1, content_hash(&source), Ulid::from_parts(1, 1));
    let referenced = map.referenced_hashes(Blake3HashSet::new());
    let sketched = |lba: u64, plain: &[u8]| {
        let mut p = pending(lba, plain);
        p.sketch = Some(vec![7, 7]);
        p
    };
    // A body that no delta beats: all of it is one byte, stored in one.
    let mut small = sketched(1, &vec![0; 4096]);
    small.entry.stored_length = 1;
    let pendings = vec![sketched(0, &child), small, sketched(2, &unlike), sketched(3, &unlike)];
    let mut pass =
        ResemblancePass::new(pendings, Vec::new(), Blake3HashSet::new(), &referenced, 4096);

    assert!(pass.next_target());
    pass.probed(Some((vec![1], vec![content_hash(&source)])));
    assert_eq!(pass.next_source(), Some(content_hash(&source)));
    assert!(pass.convert(&source, &child, false).expect("convert"));

    assert!(pass.next_target());
    pass.probed(Some((vec![2], vec![content_hash(&source)])));
    assert_eq!(pass.next_source(), Some(content_hash(&source)));
    assert!(!pass.convert(&source, &vec![0; 4096], true).expect("convert"));

    assert!(pass.next_target());
    pass.probed(None);

    let (pendings, _, stats) = pass.finish();
    assert_eq!(pendings[0].entry.kind, EntryKind::Delta);
    assert_eq!(pendings[0].sketch, None);
    assert_eq!(pendings[1].sketch, Some(vec![2]));
    assert_eq!(pendings[2].sketch, Some(vec![7, 7]));
    assert_eq!(pendings[3].sketch, Some(vec![7, 7]));
    assert_eq!(stats.delta.entries_converted, 1);
}
