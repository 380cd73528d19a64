//! Signed lineage, possession proofs and snapshot manifests.

use elide_core::ids::Ulid;
use elide_core::keys::{
    generate_ephemeral_signer, load_verifying_key, read_key_digits, signer_from_bytes, KeyError, VerifyingKey,
};
use elide_core::possession::{
    sign_volume_possession, verify_volume_possession, volume_possession_signing_input,
};
use elide_core::signing::{
    parse_provenance, provenance_signing_input, serialize_provenance, verify_lineage_with_key,
    write_provenance, OciSource, ParentRef, ProvenanceError, ProvenanceLineage,
    PROVENANCE_RECOVERY_SOURCES_DOMAIN,
};
use elide_core::snapshots::{
    build_snapshot_manifest_bytes, parse_snapshot_filename, parse_snapshot_manifest, read_entries,
    read_snapshot_manifest_from_bytes, serialize_snapshot_manifest, snapshot_manifest_filename,
    sorted_ulids, stop_snapshot_manifest_filename, ManifestError,
    SnapshotKind,
};
use elide_core::text::{chars_of, decode_hex, encode_hex, HexError};

fn make_ulid(s: &str) -> Ulid {
    Ulid::from_string(s).unwrap()
}

#[test]
fn volume_possession_round_trips_and_binds_every_field() {
    let (signer, vk) = generate_ephemeral_signer();
    let owned = make_ulid("01BX5ZZKBKACTAV9WEVGEMMVRZ");
    let target = owned;
    let cid = b"attested-tpc-cid-bytes";
    let ts = 1_700_000_000u64;
    let nonce = [0x11u8; 16];
    let proof = sign_volume_possession(&signer, &owned, &target, cid, ts, &nonce);

    // Honest proof verifies.
    assert!(verify_volume_possession(&vk, &owned, &target, cid, ts, &nonce, &proof));

    // A different signing key fails.
    let (_, other_vk) = generate_ephemeral_signer();
    assert!(!verify_volume_possession(&other_vk, &owned, &target, cid, ts, &nonce, &proof));

    // Each bound field, perturbed, fails — the proof is not transferable.
    let other = make_ulid("01ARZ3NDEKTSV4RRFFQ69G5FAV");
    assert!(
        !verify_volume_possession(&vk, &other, &target, cid, ts, &nonce, &proof),
        "owned must bind"
    );
    assert!(
        !verify_volume_possession(&vk, &owned, &other, cid, ts, &nonce, &proof),
        "target must bind"
    );
    assert!(
        !verify_volume_possession(&vk, &owned, &target, b"other-cid", ts, &nonce, &proof),
        "cid must bind (anti-transfer)"
    );
    assert!(
        !verify_volume_possession(&vk, &owned, &target, cid, ts + 1, &nonce, &proof),
        "ts must bind"
    );
    assert!(
        !verify_volume_possession(&vk, &owned, &target, cid, ts, &[0x22u8; 16], &proof),
        "nonce must bind"
    );
}

#[test]
fn a_possession_payload_is_its_fields_between_nuls() {
    let owned = make_ulid("01BX5ZZKBKACTAV9WEVGEMMVRZ");
    let target = make_ulid("01ARZ3NDEKTSV4RRFFQ69G5FAV");
    let cid = b"cid";
    let mut expected = b"elide-volume-possession-v1\0".to_vec();
    expected.extend_from_slice(b"01BX5ZZKBKACTAV9WEVGEMMVRZ\0");
    expected.extend_from_slice(b"01ARZ3NDEKTSV4RRFFQ69G5FAV\0");
    expected.extend_from_slice(blake3::hash(cid).to_hex().as_bytes());
    expected.extend_from_slice(b"\0");
    expected.extend_from_slice(b"1700000000\0");
    expected.extend_from_slice(b"00ff10");
    assert_eq!(
        volume_possession_signing_input(&owned, &target, cid, 1_700_000_000, &[0, 0xff, 0x10]),
        expected
    );
}

#[test]
fn parse_snapshot_filename_user() {
    let u = make_ulid("01ARZ3NDEKTSV4RRFFQ69G5FAV");
    let name = snapshot_manifest_filename(&u);
    let (parsed, kind) = parse_snapshot_filename(&name).expect("parses");
    assert_eq!(parsed, u);
    assert_eq!(kind, SnapshotKind::User);
}

#[test]
fn parse_snapshot_filename_stop() {
    let u = make_ulid("01ARZ3NDEKTSV4RRFFQ69G5FAV");
    let name = stop_snapshot_manifest_filename(&u);
    let (parsed, kind) = parse_snapshot_filename(&name).expect("parses");
    assert_eq!(parsed, u);
    assert_eq!(kind, SnapshotKind::Stop);
}

#[test]
fn parse_snapshot_filename_rejects_bare_marker() {
    // Only `<ulid>.manifest` and `<ulid>-stop.manifest` name a manifest.
    assert!(parse_snapshot_filename("01ARZ3NDEKTSV4RRFFQ69G5FAV").is_none());
}

#[test]
fn parse_snapshot_filename_rejects_filemap() {
    assert!(parse_snapshot_filename("01ARZ3NDEKTSV4RRFFQ69G5FAV.filemap").is_none());
}

#[test]
fn stop_and_user_filenames_differ() {
    let u = make_ulid("01ARZ3NDEKTSV4RRFFQ69G5FAV");
    assert_ne!(
        snapshot_manifest_filename(&u),
        stop_snapshot_manifest_filename(&u)
    );
}

#[test]
fn snapshot_filenames_are_the_ulid_and_an_ending() {
    let u = make_ulid("01ARZ3NDEKTSV4RRFFQ69G5FAV");
    assert_eq!(snapshot_manifest_filename(&u), "01ARZ3NDEKTSV4RRFFQ69G5FAV.manifest");
    assert_eq!(stop_snapshot_manifest_filename(&u), "01ARZ3NDEKTSV4RRFFQ69G5FAV-stop.manifest");
    assert_eq!(SnapshotKind::User.suffix(), ".manifest");
    assert_eq!(SnapshotKind::Stop.suffix(), "-stop.manifest");
    assert!(parse_snapshot_filename("nonsense-stop.manifest").is_none());
    assert!(parse_snapshot_filename(".manifest").is_none());
}

/// OCI-imported root: `oci_source` survives a write/read round-trip
/// via the signed `volume.provenance` text and verifies under the
/// volume's pubkey.
#[test]
fn provenance_round_trips_oci_source() {
    let (signer, key) = generate_ephemeral_signer();
    let lineage = ProvenanceLineage::Root {
        extent_index: vec![],
        oci_source: Some(OciSource {
            image: "docker.io/library/ubuntu:24.04".to_owned(),
            digest: "sha256:0123456789abcdef0123456789abcdef0123456789abcdef".to_owned(),
            arch: "amd64".to_owned(),
        }),
    };
    let content = write_provenance(&signer, &lineage);

    let key = load_verifying_key(&key.file_text()).unwrap();
    let got = verify_lineage_with_key(&content, &key).unwrap();
    assert_eq!(got, lineage);
}

/// `oci_source = None` contributes nothing to the signing input.
#[test]
fn provenance_signing_input_unchanged_when_oci_source_absent() {
    let lineage = ProvenanceLineage::Root {
        extent_index: vec!["01ABC/01DEF".to_owned()],
        oci_source: None,
    };
    let with_oci_none = provenance_signing_input(&lineage);

    let mut expected = Vec::new();
    expected.push(0u8); // empty parent
    // empty parent_pubkey_hex
    expected.push(0u8);
    expected.extend_from_slice(b"01ABC/01DEF");
    assert_eq!(with_oci_none, expected);
}

/// A non-empty `recovery_sources` round-trips through serialize/parse
/// and contributes a domain-tagged suffix to the signing input; an
/// empty one contributes nothing.
#[test]
fn provenance_recovery_sources_round_trip_and_signing_input() {
    let (signer, key) = generate_ephemeral_signer();

    let a = make_ulid("01ARZ3NDEKTSV4RRFFQ69G5FAV");
    let b = make_ulid("01BX5ZZKBKACTAV9WEVGEMMVRZ");
    let lineage = ProvenanceLineage::Recovering {
        parent: None,
        extent_index: vec![],
        recovery_sources: vec![a, b],
    };
    let content = write_provenance(&signer, &lineage);
    let got = verify_lineage_with_key(&content, &key).unwrap();
    assert_eq!(got, lineage, "recovery_sources must round-trip");

    let mut expected = Vec::new();
    expected.push(0u8); // NUL between empty parent and empty parent_pubkey
    expected.push(0u8); // NUL prefixing the recovery_sources suffix
    expected.extend_from_slice(PROVENANCE_RECOVERY_SOURCES_DOMAIN.as_bytes());
    expected.push(0u8);
    expected.extend_from_slice(a.to_text().as_bytes());
    expected.push(0u8);
    expected.extend_from_slice(b.to_text().as_bytes());
    assert_eq!(provenance_signing_input(&lineage), expected);

    let empty = lineage.cleared_recovery();
    assert_eq!(
        provenance_signing_input(&empty),
        vec![0u8],
        "empty recovery_sources contributes no suffix"
    );
}

/// Partial `oci_*` lines (e.g. only `oci_image:` without `oci_digest:`)
/// must be rejected at parse time — not silently accepted as a no-op.
#[test]
fn provenance_rejects_partial_oci_source() {
    let (_, key) = generate_ephemeral_signer();
    let body = "parent: \nparent_pubkey: \nextent_index:\noci_image: foo:bar\nsig: deadbeef\n";

    let err = verify_lineage_with_key(body, &key).unwrap_err();
    assert!(err.message().contains("partial oci_source"), "{err:?}");
}

fn parent() -> ParentRef {
    ParentRef {
        volume_ulid: "01ARZ3NDEKTSV4RRFFQ69G5FAV".to_owned(),
        snapshot_ulid: "01BX5ZZKBKACTAV9WEVGEMMVRZ".to_owned(),
        pubkey: [0xab; 32],
    }
}

#[test]
fn a_fork_is_written_line_by_line() {
    let lineage = ProvenanceLineage::Fork {
        parent: parent(),
        extent_index: vec!["a/b".to_owned(), "c/d".to_owned()],
    };
    let text = serialize_provenance(&lineage, &[0x0f; 64]);
    let expected = format!(
        "parent: 01ARZ3NDEKTSV4RRFFQ69G5FAV/01BX5ZZKBKACTAV9WEVGEMMVRZ\n\
         parent_pubkey: {}\nextent_index:\n  a/b\n  c/d\nsig: {}\n",
        "ab".repeat(32),
        "0f".repeat(64)
    );
    assert_eq!(text, expected);
    let (got, sig) = parse_provenance(&text).unwrap();
    assert_eq!(got, lineage);
    assert_eq!(sig, vec![0x0f; 64]);
    assert_eq!(
        lineage.parent().unwrap().to_display(),
        "01ARZ3NDEKTSV4RRFFQ69G5FAV/01BX5ZZKBKACTAV9WEVGEMMVRZ"
    );
}

#[test]
fn a_lineage_takes_the_shape_of_its_parts() {
    let u = make_ulid("01ARZ3NDEKTSV4RRFFQ69G5FAV");
    let recovering = ProvenanceLineage::from_parts(Some(parent()), vec![], vec![u]);
    assert_eq!(recovering.recovery_sources(), &[u]);
    assert_eq!(recovering.cleared_recovery(), ProvenanceLineage::fork(parent()));
    assert_eq!(
        ProvenanceLineage::from_parts(None, vec![], vec![]),
        ProvenanceLineage::default()
    );
    let fork = ProvenanceLineage::from_parts(Some(parent()), vec!["x".to_owned()], vec![]);
    assert_eq!(fork.extent_index(), &["x".to_owned()]);
    assert!(fork.oci_source().is_none());
    assert!(fork.recovery_sources().is_empty());
}

#[test]
fn each_fault_of_a_lineage_file_has_its_own_error() {
    let sig = format!("sig: {}\n", "00".repeat(64));
    let pubkey = format!("parent_pubkey: {}\n", "ab".repeat(32));
    let ids = "parent: 01ARZ3NDEKTSV4RRFFQ69G5FAV/01BX5ZZKBKACTAV9WEVGEMMVRZ\n";
    let bare = "parent: \nparent_pubkey: \nextent_index:\n";
    let oci = "oci_image: i\noci_digest: d\noci_arch: a\n";
    let cases = [
        (format!("parent_pubkey: \nextent_index:\n{sig}"), ProvenanceError::MissingParent),
        (format!("parent: \nextent_index:\n{sig}"), ProvenanceError::MissingParentPubkey),
        (format!("parent: \nparent_pubkey: \n{sig}"), ProvenanceError::MissingExtentIndex),
        (bare.to_owned(), ProvenanceError::MissingSig),
        (
            format!("{bare}recovery_sources:\n  nope\n{sig}"),
            ProvenanceError::RecoverySourceNotUlid,
        ),
        (format!("{bare}sig: 0g\n"), ProvenanceError::BadHex(HexError::InvalidAt(0))),
        (
            format!("parent: x\n{pubkey}extent_index:\n{sig}"),
            ProvenanceError::ParentWithoutSeparator,
        ),
        (
            format!("parent: x/01BX5ZZKBKACTAV9WEVGEMMVRZ\n{pubkey}extent_index:\n{sig}"),
            ProvenanceError::ParentVolumeNotUlid,
        ),
        (
            format!("parent: 01ARZ3NDEKTSV4RRFFQ69G5FAV/x\n{pubkey}extent_index:\n{sig}"),
            ProvenanceError::ParentSnapshotNotUlid,
        ),
        (
            format!("{ids}parent_pubkey: abcd\nextent_index:\n{sig}"),
            ProvenanceError::ParentPubkeyLength,
        ),
        (
            format!("{ids}parent_pubkey:\nextent_index:\n{sig}"),
            ProvenanceError::ParentWithoutPubkey,
        ),
        (
            format!("parent:\n{pubkey}extent_index:\n{sig}"),
            ProvenanceError::PubkeyWithoutParent,
        ),
        (
            format!("{bare}{oci}recovery_sources:\n  01ARZ3NDEKTSV4RRFFQ69G5FAV\n{sig}"),
            ProvenanceError::RecoveryWithOciSource,
        ),
        (format!("{ids}{pubkey}extent_index:\n{oci}{sig}"), ProvenanceError::ForkWithOciSource),
    ];
    for (text, expected) in cases {
        let err = parse_provenance(&text).map(|_| ()).unwrap_err();
        assert_eq!(err, expected, "{text}");
        assert!(!err.message().is_empty());
    }
    let (_, key) = generate_ephemeral_signer();
    assert_eq!(
        verify_lineage_with_key(&format!("{bare}sig: 00\n"), &key).map(|_| ()),
        Err(ProvenanceError::SigLength)
    );
    assert_eq!(
        verify_lineage_with_key(&format!("{bare}{sig}"), &key).map(|_| ()),
        Err(ProvenanceError::SignatureInvalid)
    );
}

#[test]
fn a_line_may_end_in_a_carriage_return() {
    let text = format!("parent:\r\nparent_pubkey:\r\nextent_index:\r\n  a\r\nsig: {}\r\n", "00");
    let (got, sig) = parse_provenance(&text).unwrap();
    assert_eq!(got.extent_index(), &["a".to_owned()]);
    assert_eq!(sig, vec![0]);
    // An indented line outside a list says nothing, and a blank line ends one.
    let text = "  z\nparent: \nparent_pubkey: \nextent_index:\n  a\n\n  b\nsig: 01";
    let (got, sig) = parse_provenance(text).unwrap();
    assert_eq!(got.extent_index(), &["a".to_owned()]);
    assert_eq!(sig, vec![1]);
}

#[test]
fn snapshot_manifest_roundtrip() {
    let (signer, verifying) = generate_ephemeral_signer();
    // Intentionally unsorted to exercise the sort-at-write step.
    let segs = vec![
        make_ulid("01BX5ZZKJKTSV4RRFFQ69G5FAV"),
        make_ulid("01AAAAAAAAAAAAAAAAAAAAAAAA"),
        make_ulid("01BBBBBBBBBBBBBBBBBBBBBBBB"),
    ];

    let bytes = build_snapshot_manifest_bytes(&signer, &segs);
    let got = read_snapshot_manifest_from_bytes(&bytes, &verifying).unwrap();

    let mut expected = segs.clone();
    expected.sort();
    assert_eq!(got.segment_ulids, expected);
}

#[test]
fn snapshot_manifest_empty_list() {
    let (signer, verifying) = generate_ephemeral_signer();
    let bytes = build_snapshot_manifest_bytes(&signer, &[]);
    let got = read_snapshot_manifest_from_bytes(&bytes, &verifying).unwrap();
    assert!(got.segment_ulids.is_empty());
}

#[test]
fn snapshot_manifest_dedupes() {
    let (signer, verifying) = generate_ephemeral_signer();
    let dup = make_ulid("01BX5ZZKJKTSV4RRFFQ69G5FAV");
    let segs = vec![dup, dup];

    let bytes = build_snapshot_manifest_bytes(&signer, &segs);
    let got = read_snapshot_manifest_from_bytes(&bytes, &verifying).unwrap();
    assert_eq!(got.segment_ulids, vec![dup]);
}

#[test]
fn snapshot_manifest_rejects_wrong_key() {
    let (signer, _) = generate_ephemeral_signer();
    let (_, wrong_key) = generate_ephemeral_signer();
    let bytes =
        build_snapshot_manifest_bytes(&signer, &[make_ulid("01BX5ZZKJKTSV4RRFFQ69G5FAV")]);

    let err = read_snapshot_manifest_from_bytes(&bytes, &wrong_key).unwrap_err();
    assert!(err.message().contains("signature invalid"), "{err:?}");
}

#[test]
fn read_from_bytes_round_trips_normal_manifest() {
    let (signer, verifying) = generate_ephemeral_signer();
    let segs = vec![
        make_ulid("01BX5ZZKJKTSV4RRFFQ69G5FAV"),
        make_ulid("01AAAAAAAAAAAAAAAAAAAAAAAA"),
    ];
    let bytes = build_snapshot_manifest_bytes(&signer, &segs);
    let got = read_snapshot_manifest_from_bytes(&bytes, &verifying).unwrap();
    let mut expected = segs;
    expected.sort();
    assert_eq!(got.segment_ulids, expected);
}

#[test]
fn a_manifest_is_written_line_by_line() {
    let (signer, _) = signer_from_bytes(&[7; 32]).unwrap();
    let segs = [
        make_ulid("01BX5ZZKJKTSV4RRFFQ69G5FAV"),
        make_ulid("01AAAAAAAAAAAAAAAAAAAAAAAA"),
    ];
    let sig = signer.sign(b"01AAAAAAAAAAAAAAAAAAAAAAAA\x0001BX5ZZKJKTSV4RRFFQ69G5FAV");
    let expected = format!(
        "segments:\n  01AAAAAAAAAAAAAAAAAAAAAAAA\n  01BX5ZZKJKTSV4RRFFQ69G5FAV\nsig: {}\n",
        encode_hex(&sig)
    );
    assert_eq!(build_snapshot_manifest_bytes(&signer, &segs), expected.into_bytes());
    assert_eq!(sorted_ulids(&segs), vec![segs[1], segs[0]]);
}

#[test]
fn each_fault_of_a_manifest_has_its_own_error() {
    let (signer, key) = signer_from_bytes(&[9; 32]).unwrap();
    let zero = "00".repeat(64);
    let read = |text: &str| {
        read_snapshot_manifest_from_bytes(text.as_bytes(), &key).map(|_| ()).unwrap_err()
    };
    assert_eq!(
        read_snapshot_manifest_from_bytes(&[0xff, 0xfe], &key).map(|_| ()).unwrap_err(),
        ManifestError::NotUtf8
    );
    assert_eq!(read(&format!("sig: {zero}\n")), ManifestError::MissingSegments);
    assert_eq!(read("segments:\n"), ManifestError::MissingSig);
    assert_eq!(read("segments:\nsig: 0\n"), ManifestError::BadHex(HexError::OddLength));
    assert_eq!(read("segments:\nsig: 00\n"), ManifestError::SigLength);
    assert_eq!(read(&format!("segments:\nsig: {zero}\n")), ManifestError::SignatureInvalid);
    let signed = |entries: &[&str]| {
        let sig = encode_hex(&signer.sign(entries.join("\0").as_bytes()));
        let list: String = entries.iter().map(|e| format!("  {e}\n")).collect();
        format!("segments:\n{list}sig: {sig}\n")
    };
    assert_eq!(read(&signed(&["nope"])), ManifestError::SegmentNotUlid);
    let (a, b) = ("01AAAAAAAAAAAAAAAAAAAAAAAA", "01BBBBBBBBBBBBBBBBBBBBBBBB");
    assert_eq!(read(&signed(&[b, a])), ManifestError::NotAscending);
    assert_eq!(read(&signed(&[a, a])), ManifestError::NotAscending);
    assert_eq!(ManifestError::NotUtf8.message(), "not valid utf-8");
}

#[test]
fn hex_reads_what_it_writes_and_a_little_more() {
    assert_eq!(encode_hex(&[0x00, 0x0f, 0xa5, 0xff]), "000fa5ff");
    assert_eq!(decode_hex("000FA5ff"), Ok(vec![0x00, 0x0f, 0xa5, 0xff]));
    assert_eq!(decode_hex("abc"), Err(HexError::OddLength));
    assert_eq!(decode_hex("00zz"), Err(HexError::InvalidAt(2)));
    // A plus sign may stand for a leading zero, as in any integer.
    assert_eq!(decode_hex("+f"), Ok(vec![0x0f]));
    assert_eq!(decode_hex("++"), Err(HexError::InvalidAt(0)));
    assert_eq!(decode_hex("-f"), Err(HexError::InvalidAt(0)));
    assert_eq!(decode_hex("é"), Err(HexError::InvalidAt(0)));
    assert_eq!(decode_hex(""), Ok(vec![]));
}

#[test]
fn keys_are_made_and_read_as_the_curve_has_them() {
    let secret = [7u8; 32];
    let dalek = ed25519_dalek::SigningKey::from_bytes(&secret);
    let (signer, key) = signer_from_bytes(&secret).unwrap();
    assert_eq!(key.bytes, dalek.verifying_key().to_bytes());
    let msg = b"message";
    let sig = signer.sign(msg);
    assert_eq!(sig, ed25519_dalek::Signer::sign(&dalek, msg).to_bytes());
    assert!(signer.verifying_key().verify(msg, &sig));
    assert!(!key.verify(b"other", &sig));

    let text = key.file_text();
    assert_eq!(text, format!("{}\n", encode_hex(&key.bytes)));
    assert_eq!(load_verifying_key(&text).unwrap().bytes, key.bytes);
    for other in [
        format!(" {text}"),
        format!("{text}\n"),
        format!("{text} "),
        text.trim_end().to_string(),
        text.replace('\n', "\r\n"),
        "AB".repeat(32) + "\n",
    ] {
        assert!(matches!(load_verifying_key(&other), Err(KeyError::NotPlain)));
    }
    assert!(matches!(load_verifying_key("ab"), Err(KeyError::WrongLength)));
    assert!(matches!(load_verifying_key("zz"), Err(KeyError::NotHex(HexError::InvalidAt(0)))));
    // No point of the curve has this encoding.
    let mut no_key = [0u8; 32];
    no_key[0] = 2;
    assert!(matches!(VerifyingKey::from_bytes(&no_key), Err(KeyError::Invalid)));
    assert!(matches!(signer_from_bytes(&[1; 31]), Err(KeyError::WrongLength)));
}

#[test]
fn ulids_have_the_text_of_their_number() {
    assert_eq!(Ulid { value: 0 }.to_text(), "00000000000000000000000000");
    assert_eq!(Ulid { value: u128::MAX }.to_text(), "7ZZZZZZZZZZZZZZZZZZZZZZZZZ");
    let u = make_ulid("01ARZ3NDEKTSV4RRFFQ69G5FAV");
    assert_eq!(u.to_text(), "01ARZ3NDEKTSV4RRFFQ69G5FAV");
    assert_eq!(Ulid::from_string("01arz3ndektsv4rrffq69g5fav"), Some(u));
    assert_eq!(Ulid::from_string("01ARZ3NDEKTSV4RRFFQ69G5FA"), None);
    assert_eq!(Ulid::from_string("01ARZ3NDEKTSV4RRFFQ69G5FAU"), None);
    assert_eq!(Ulid::from_string("80000000000000000000000001"), Some(Ulid { value: 1 }));
    let p = Ulid::from_parts(1234, 42);
    assert_eq!(p.value, ulid::Ulid::from_parts(1234, 42).0);
    let high = Ulid::from_parts(u64::MAX, u128::MAX);
    assert_eq!(high.value, ulid::Ulid::from_parts(u64::MAX, u128::MAX).0);
}

#[test]
fn key_digits_are_thirty_two_bytes_in_hex() {
    let digits = "0f".repeat(32);
    assert_eq!(read_key_digits(&format!("{digits}\n")), Ok([15u8; 32]));
    assert_eq!(read_key_digits(&digits), Err(KeyError::NotPlain));
    assert_eq!(read_key_digits(&format!("{}\n", digits.to_uppercase())), Err(KeyError::NotPlain));
    assert_eq!(read_key_digits(&digits[2..]), Err(KeyError::WrongLength));
    assert_eq!(read_key_digits(&digits[1..]), Err(KeyError::NotHex(HexError::OddLength)));
    assert_eq!(
        read_key_digits(&digits.replace("0f", "zz")),
        Err(KeyError::NotHex(HexError::InvalidAt(0)))
    );
}

#[test]
fn a_manifest_reads_as_it_is_written() {
    let first = make_ulid("01ARZ3NDEKTSV4RRFFQ69G5FAA");
    let second = make_ulid("01ARZ3NDEKTSV4RRFFQ69G5FAB");
    let entries = vec![chars_of(&first.to_text()), chars_of(&second.to_text())];
    let text: String = serialize_snapshot_manifest(&entries, &[7u8; 64]).into_iter().collect();
    assert!(text.starts_with("segments:\n  01ARZ3NDEKTSV4RRFFQ69G5FAA\n"));
    let (read, sig) = parse_snapshot_manifest(&text).unwrap();
    assert_eq!(read, entries);
    assert_eq!(sig, vec![7u8; 64]);
    assert_eq!(read_entries(&read).unwrap(), vec![first, second]);
}

#[test]
fn manifest_entries_ascend_and_are_ulids() {
    let a = chars_of("01ARZ3NDEKTSV4RRFFQ69G5FAA");
    let b = chars_of("01ARZ3NDEKTSV4RRFFQ69G5FAB");
    assert_eq!(read_entries(&vec![b.clone(), a.clone()]), Err(ManifestError::NotAscending));
    assert_eq!(read_entries(&vec![a.clone(), a.clone()]), Err(ManifestError::NotAscending));
    assert_eq!(read_entries(&vec![a, chars_of("short")]), Err(ManifestError::SegmentNotUlid));
    assert_eq!(read_entries(&vec![]), Ok(vec![]));
}
