//! Rewriting the live part of bloated extents.

use elide_core::delta_codec::{apply_delta, make_delta};
use elide_core::extent_index::{DeltaLocation, ExtentIndex, ExtentLocation};
use elide_core::hash_set::Blake3HashSet;
use elide_core::ids::{content_hash, ContentHash, Ulid};
use elide_core::lbamap::{ExtentRead, LbaMap};
use elide_core::reclaim::{
    execute_reclaim, materialise_delta, next_option, place_run, reclaim_hashes, reclaim_run,
    reclaim_source, should_rewrite, OptionEvent, OptionStep, ReclaimBody, ReclaimError, ReclaimOutput, ReclaimSource, ReclaimedForm,
    ResolvedBody,
};
use elide_core::segment::{Codec, DeltaOption};

fn u(n: u64) -> Ulid {
    Ulid::from_parts(n, 0)
}

fn text(blocks: usize, seed: u32) -> Vec<u8> {
    let mut out = Vec::new();
    let mut i = seed.wrapping_mul(104729);
    while out.len() < blocks * 4096 {
        out.extend_from_slice(format!("line {} of {}\n", i, i ^ 0x3c3c).as_bytes());
        i = i.wrapping_add(1);
    }
    out.truncate(blocks * 4096);
    out
}

fn body_in(segment: u64, body_length: u32) -> ExtentLocation {
    ExtentLocation {
        segment_id: u(segment),
        body_offset: 0,
        body_length,
        codec: Codec::Plain,
        inline: false,
    }
}

/// A four-block extent at block 10 of which the second block was overwritten.
fn bloated(plain: &[u8]) -> (LbaMap, ExtentIndex, ContentHash) {
    let hash = content_hash(plain);
    let mut map = LbaMap::new();
    map.insert(10, 4, hash, u(1));
    map.insert(11, 1, content_hash(b"other"), u(2));
    let mut index = ExtentIndex::new();
    index.insert_if_absent(hash, body_in(1, plain.len() as u32));
    (map, index, hash)
}

#[test]
fn only_a_bloated_extent_within_the_target_is_rewritten() {
    let plain = text(4, 1);
    let (map, index, hash) = bloated(&plain);
    assert!(should_rewrite(&map, &index, hash, 10, 14));
    assert!(should_rewrite(&map, &index, hash, 0, 100));
    assert!(!should_rewrite(&map, &index, hash, 11, 100));
    assert!(!should_rewrite(&map, &index, hash, 0, 13));
    let reads = map.extents_in_range(0, 100);
    assert_eq!(reclaim_hashes(&reads, &map, &index, 0, 100), vec![hash]);

    let mut whole = LbaMap::new();
    whole.insert(10, 4, hash, u(1));
    assert!(!should_rewrite(&whole, &index, hash, 0, 100));
}

#[test]
fn the_live_runs_are_written_anew() {
    let plain = text(4, 2);
    let (map, index, hash) = bloated(&plain);
    let reads = map.extents_in_range(0, 100);
    let bodies = vec![ResolvedBody { hash, body: ReclaimBody::Data(plain.clone()) }];
    let out = execute_reclaim(&reads, &bodies, &map, &index, 0, 100, None).expect("reclaim");
    assert_eq!(out.entries.len(), 2);
    assert!(out.delta_body.is_empty());
    let (a, b) = (&out.entries[0], &out.entries[1]);
    assert_eq!((a.start_lba, a.lba_length, a.uncompressed_bytes), (10, 1, 4096));
    assert_eq!((b.start_lba, b.lba_length, b.uncompressed_bytes), (12, 2, 8192));
    assert_eq!(a.hash, content_hash(&plain[..4096]));
    assert!(matches!(&b.form, ReclaimedForm::Body(bytes) if bytes[..] == plain[8192..]));

    // Outside the target nothing is rewritten.
    let out = execute_reclaim(&reads, &bodies, &map, &index, 11, 100, None).expect("reclaim");
    assert!(out.entries.is_empty());
}

#[test]
fn a_frozen_extent_is_the_source_of_its_runs() {
    let plain = text(4, 3);
    let (map, index, hash) = bloated(&plain);
    let reads = map.extents_in_range(0, 100);
    let bodies = vec![ResolvedBody { hash, body: ReclaimBody::Data(plain.clone()) }];
    let out = execute_reclaim(&reads, &bodies, &map, &index, 0, 100, Some(u(1))).expect("reclaim");
    assert_eq!(out.entries.len(), 2);
    for e in &out.entries {
        let option = match e.form {
            ReclaimedForm::Delta(option) => option,
            _ => panic!("not a delta"),
        };
        assert_eq!(option.source_hash, hash);
        let from = option.delta_offset as usize;
        let blob = &out.delta_body[from..from + option.delta_length as usize];
        assert_eq!(content_hash(blob), option.delta_hash);
        let at = (e.start_lba as usize - 10) * 4096;
        let expected = &plain[at..at + e.lba_length as usize * 4096];
        assert_eq!(apply_delta(&plain, blob).expect("apply"), expected);
        assert_eq!(content_hash(expected), e.hash);
    }
}

#[test]
fn a_run_already_stored_becomes_a_reference() {
    let plain = text(4, 4);
    let (map, mut index, _) = bloated(&plain);
    index.insert_if_absent(content_hash(&plain[..4096]), body_in(7, 4096));
    let reads = map.extents_in_range(10, 11);
    let mut out = ReclaimOutput { entries: vec![], delta_body: vec![] };
    let pins = Blake3HashSet::new();
    let data = ReclaimBody::Data(plain.clone());
    reclaim_run(&mut out, &reads[0], &data, &index, None, &pins).expect("run");
    assert!(matches!(out.entries[0].form, ReclaimedForm::Reference));
    reclaim_run(&mut out, &reads[0], &ReclaimBody::Skip, &index, None, &pins).expect("run");
    assert_eq!(out.entries.len(), 1);
    let short = ReclaimBody::Data(plain[..100].to_vec());
    assert!(matches!(
        reclaim_run(&mut out, &reads[0], &short, &index, None, &pins),
        Err(ReclaimError::TooShort { len: 100, end: 4096, .. })
    ));
}

#[test]
fn a_delta_is_resolved_through_a_source_with_a_body() {
    let source = text(1, 5);
    let mut child = source.clone();
    child[9] = b'!';
    let blob = make_delta(&source, &child).expect("make");
    let option = |source_hash| DeltaOption {
        source_hash,
        delta_offset: 0,
        delta_length: blob.len() as u32,
        delta_hash: content_hash(&blob),
    };
    let mut index = ExtentIndex::new();
    index.insert_if_absent(content_hash(&source), body_in(1, 4096));
    index.insert_delta_if_absent(
        content_hash(&child),
        DeltaLocation {
            segment_id: u(3),
            options: vec![option(content_hash(b"gone")), option(content_hash(&source))],
        },
    );
    assert!(matches!(reclaim_source(&index, content_hash(&source)), ReclaimSource::Body));
    assert!(matches!(reclaim_source(&index, content_hash(b"gone")), ReclaimSource::Unknown));
    match reclaim_source(&index, content_hash(&child)) {
        ReclaimSource::Deltas(list) => assert_eq!(list, vec![option(content_hash(&source))]),
        _ => panic!("not deltas"),
    }

    let (s, c) = (content_hash(&source), content_hash(&child));
    match materialise_delta(s, source.clone(), &blob, c, u(3)).expect("materialise") {
        ReclaimBody::Delta { source_hash, source_plain, fragment } => {
            assert_eq!((source_hash, source_plain), (s, source.clone()));
            assert_eq!(fragment, child);
        }
        _ => panic!("not a delta"),
    }
    assert!(matches!(
        materialise_delta(s, source.clone(), &blob, s, u(3)),
        Err(ReclaimError::WrongContent { hash, got, .. }) if hash == s && got == c
    ));
    assert!(matches!(
        materialise_delta(s, source, b"junk", c, u(3)),
        Err(ReclaimError::Codec(_))
    ));
}

#[test]
fn a_run_takes_the_smallest_form() {
    let er = ExtentRead {
        hash: content_hash(b"whole"),
        range_start: 20,
        range_end: 21,
        payload_block_offset: 3,
        claimant_ulid: u(1),
    };
    let bytes = text(1, 9);
    let hash = content_hash(&bytes);
    let source = content_hash(b"source");
    let mut out = ReclaimOutput { entries: Vec::new(), delta_body: vec![1, 2] };

    place_run(&mut out, &er, &bytes, hash, true, None, false);
    place_run(&mut out, &er, &bytes, hash, false, Some((source, vec![7; 10])), true);
    place_run(&mut out, &er, &bytes, hash, false, Some((source, vec![7; 4096])), false);
    place_run(&mut out, &er, &bytes, hash, false, None, false);
    // From a delta, and no smaller as one: left as it is.
    place_run(&mut out, &er, &bytes, hash, false, Some((source, vec![7; 4096])), true);

    assert_eq!(out.entries.len(), 4);
    for entry in &out.entries {
        assert_eq!(entry.hash, hash);
        assert_eq!((entry.start_lba, entry.lba_length), (20, 1));
        assert_eq!(entry.uncompressed_bytes, 4096);
    }
    assert!(matches!(out.entries[0].form, ReclaimedForm::Reference));
    match &out.entries[1].form {
        ReclaimedForm::Delta(option) => {
            assert_eq!(option.source_hash, source);
            assert_eq!((option.delta_offset, option.delta_length), (2, 10));
            assert_eq!(option.delta_hash, content_hash(&[7; 10]));
        }
        _ => panic!("a delta"),
    }
    for entry in &out.entries[2..] {
        match &entry.form {
            ReclaimedForm::Body(stored) => assert_eq!(stored, &bytes),
            _ => panic!("a body"),
        }
    }
    assert_eq!(out.delta_body, vec![1, 2, 7, 7, 7, 7, 7, 7, 7, 7, 7, 7]);
}

#[test]
fn the_first_option_that_can_be_read_is_decoded() {
    let source = text(1, 6);
    let mut child = source.clone();
    child[9] = b'!';
    let blob = make_delta(&source, &child).expect("make");
    let option = |n: u8| DeltaOption {
        source_hash: content_hash(&[n]),
        delta_offset: n as u64,
        delta_length: blob.len() as u32,
        delta_hash: content_hash(&blob),
    };
    let options = vec![option(1), option(2)];
    let hash = content_hash(&child);
    let step = |at, event| next_option(&options, at, event, hash, u(3));
    assert!(matches!(step(0, OptionEvent::Begin), OptionStep::Read(o) if o == option(1)));
    assert!(matches!(step(0, OptionEvent::NoBlob), OptionStep::Read(o) if o == option(2)));
    assert!(matches!(step(1, OptionEvent::NoBlob), OptionStep::Done(ReclaimBody::Skip)));
    assert!(matches!(step(0, OptionEvent::NoSource), OptionStep::Read(o) if o == option(2)));
    assert!(matches!(step(1, OptionEvent::NoSource), OptionStep::Done(ReclaimBody::Skip)));
    let found = || OptionEvent::Found { source_plain: source.clone(), blob: blob.clone() };
    match step(1, found()) {
        OptionStep::Done(ReclaimBody::Delta { source_hash, source_plain, fragment }) => {
            assert_eq!(source_hash, content_hash(&[2]));
            assert_eq!(source_plain, source);
            assert_eq!(fragment, child);
        }
        _ => panic!("a delta"),
    }
    assert!(matches!(
        next_option(&options, 0, found(), content_hash(b"other"), u(3)),
        OptionStep::Stop(ReclaimError::WrongContent { .. })
    ));
    assert!(matches!(
        next_option(&Vec::new(), 0, OptionEvent::Begin, hash, u(3)),
        OptionStep::Done(ReclaimBody::Skip)
    ));
}

#[test]
fn a_hash_the_index_does_not_know_stops_the_pass() {
    let plain = text(4, 8);
    let (map, _, hash) = bloated(&plain);
    let empty = ExtentIndex::new();
    let reads = map.extents_in_range(0, 100);
    assert_eq!(reclaim_hashes(&reads, &map, &empty, 0, 100), vec![hash]);
    let bodies = vec![ResolvedBody { hash, body: ReclaimBody::Data(plain) }];
    assert!(matches!(
        execute_reclaim(&reads, &bodies, &map, &empty, 0, 100, None),
        Err(ReclaimError::NotIndexed { hash: h }) if h == hash
    ));
}
