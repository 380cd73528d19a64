//! Snapshot manifests: the signed list of the segments of a snapshot.
//!
//! ```text
//! segments:
//!   <segment-ulid>
//!   ...
//! sig: <128 hexadecimal digits>
//! ```
//!
//! The ULIDs ascend and none is there twice.

use vstd::prelude::*;
use vstd::string::*;
use vstd::utf8::{
    decode_utf8, encode_utf8, encode_utf8_decode_utf8, encode_utf8_valid_utf8, valid_utf8,
};

use crate::ids::Ulid;
use crate::keys::{
    array_of_64, ed25519_accepts, ed25519_public_key, ed25519_signature, Ed25519Signer,
    VerifyingKey,
};
use crate::order::{is_stable_order, stable_order};
use crate::signing::{prefixed, ulid_texts};
use crate::text::{
    char_seqs, chars_equal, chars_of, decode_hex_chars, extend_chars, hex_chars, hex_decoded,
    hex_text, is_line, join_lines, joined, lines, nul_separated, sep_free, split_lines, string_of,
    strip_prefix, strip_suffix, stripped, unlines, utf8_of, without_suffix, HexError,
};
use crate::ulid_text::ulid_read;

verus! {

// ---------------------------------------------------------------------------
// File names
// ---------------------------------------------------------------------------

/// What follows the ULID in a manifest's file name.
pub const SNAPSHOT_MANIFEST_SUFFIX: &'static str = ".manifest";

/// What follows the ULID in the file name of a stop snapshot's manifest.
pub const STOP_SNAPSHOT_MANIFEST_SUFFIX: &'static str = "-stop.manifest";

/// A snapshot that a user made, or the checkpoint that stopping a volume
/// leaves.
#[derive(Clone, Copy, Debug, PartialEq, Eq, Structural)]
pub enum SnapshotKind {
    User,
    Stop,
}

impl SnapshotKind {
    /// What follows the ULID in the file name.
    pub open spec fn ending(self) -> Seq<char> {
        match self {
            SnapshotKind::User => SNAPSHOT_MANIFEST_SUFFIX@,
            SnapshotKind::Stop => STOP_SNAPSHOT_MANIFEST_SUFFIX@,
        }
    }

    /// What follows the ULID in the file name.
    pub fn suffix(self) -> (s: &'static str)
        ensures
            s@ == self.ending(),
    {
        match self {
            SnapshotKind::User => SNAPSHOT_MANIFEST_SUFFIX,
            SnapshotKind::Stop => STOP_SNAPSHOT_MANIFEST_SUFFIX,
        }
    }
}

/// The snapshot that a file name says. The longer ending is tried first: it
/// ends in the shorter one.
pub open spec fn snapshot_name_read(name: Seq<char>) -> Option<(Ulid, SnapshotKind)> {
    let (stem, kind) = if without_suffix(name, STOP_SNAPSHOT_MANIFEST_SUFFIX@) is Some {
        (without_suffix(name, STOP_SNAPSHOT_MANIFEST_SUFFIX@), SnapshotKind::Stop)
    } else {
        (without_suffix(name, SNAPSHOT_MANIFEST_SUFFIX@), SnapshotKind::User)
    };
    match stem {
        None => None,
        Some(stem) => match ulid_read(stem) {
            None => None,
            Some(u) => Some((u, kind)),
        },
    }
}

/// The snapshot that a file name says, if it is that of a manifest.
pub fn parse_snapshot_filename(name: &str) -> (r: Option<(Ulid, SnapshotKind)>)
    ensures
        r == snapshot_name_read(name@),
{
    let chars = chars_of(name);
    if let Some(stem) = strip_suffix(chars.as_slice(), STOP_SNAPSHOT_MANIFEST_SUFFIX) {
        return match Ulid::from_chars(stem.as_slice()) {
            Some(u) => Some((u, SnapshotKind::Stop)),
            None => None,
        };
    }
    if let Some(stem) = strip_suffix(chars.as_slice(), SNAPSHOT_MANIFEST_SUFFIX) {
        return match Ulid::from_chars(stem.as_slice()) {
            Some(u) => Some((u, SnapshotKind::User)),
            None => None,
        };
    }
    None
}

/// The file name of a snapshot's manifest.
fn manifest_filename(snap_ulid: &Ulid, kind: SnapshotKind) -> (s: String)
    ensures
        s@ == snap_ulid.text() + kind.ending(),
{
    let text = snap_ulid.to_text();
    let mut chars = chars_of(text.as_str());
    let suffix = chars_of(kind.suffix());
    extend_chars(&mut chars, suffix.as_slice());
    string_of(chars.as_slice())
}

/// The file name of a snapshot's manifest.
pub fn snapshot_manifest_filename(snap_ulid: &Ulid) -> (s: String)
    ensures
        s@ == snap_ulid.text() + SNAPSHOT_MANIFEST_SUFFIX@,
{
    manifest_filename(snap_ulid, SnapshotKind::User)
}

/// The file name of a stop snapshot's manifest.
pub fn stop_snapshot_manifest_filename(snap_ulid: &Ulid) -> (s: String)
    ensures
        s@ == snap_ulid.text() + STOP_SNAPSHOT_MANIFEST_SUFFIX@,
{
    manifest_filename(snap_ulid, SnapshotKind::Stop)
}

/// The file name of a snapshot says that snapshot.
pub proof fn law_snapshot_name_round_trip(u: Ulid, kind: SnapshotKind)
    ensures
        snapshot_name_read(u.text() + kind.ending()) == Some((u, kind)),
{
    reveal_strlit(".manifest");
    reveal_strlit("-stop.manifest");
    let name = u.text() + kind.ending();
    crate::ulid_text::lemma_ulid_text_plain(u);
    crate::ulid_text::law_ulid_text_round_trip(u);
    assert(name.skip(26) =~= kind.ending());
    assert(name.take(26) =~= u.text());
    if kind is User {
        // Where the longer ending would begin, the ULID still runs.
        let at = name.len() - 14;
        assert(name[at] == u.text()[21]);
        if without_suffix(name, STOP_SNAPSHOT_MANIFEST_SUFFIX@) is Some {
            assert(name.skip(at)[0] == STOP_SNAPSHOT_MANIFEST_SUFFIX@[0]);
            assert(name[at] == '-');
        }
    }
}

// ---------------------------------------------------------------------------
// The list
// ---------------------------------------------------------------------------

/// Each ULID is above the one before it.
pub open spec fn ascending(list: Seq<Ulid>) -> bool {
    forall|i: int, j: int|
        0 <= i < j < list.len() ==> (#[trigger] list[i]).value < (#[trigger] list[j]).value
}

/// `sorted` holds the ULIDs of `list`, each once, ascending.
pub open spec fn sorts(list: Seq<Ulid>, sorted: Seq<Ulid>) -> bool {
    &&& ascending(sorted)
    &&& forall|u: Ulid| #[trigger] list.contains(u) <==> sorted.contains(u)
}

/// There is one such list.
pub proof fn law_sorted_list_unique(list: Seq<Ulid>, a: Seq<Ulid>, b: Seq<Ulid>)
    requires
        sorts(list, a),
        sorts(list, b),
    ensures
        a == b,
{
    assert forall|u: Ulid| a.contains(u) <==> b.contains(u) by {
        assert(list.contains(u) <==> a.contains(u));
    }
    lemma_ascending_same(a, b, a.len() as int);
    if b.len() > a.len() {
        let u = b[a.len() as int];
        assert(b.contains(u));
        assert(list.contains(u));
        assert(a.contains(u));
        let i = choose|i: int| 0 <= i < a.len() && a[i] == u;
        assert(b[i] == u);
    }
    assert(a =~= b);
}

proof fn lemma_ascending_same(a: Seq<Ulid>, b: Seq<Ulid>, n: int)
    requires
        ascending(a),
        ascending(b),
        forall|u: Ulid| a.contains(u) <==> b.contains(u),
        0 <= n <= a.len(),
    ensures
        n <= b.len(),
        forall|i: int| 0 <= i < n ==> a[i] == b[i],
    decreases n,
{
    if n > 0 {
        lemma_ascending_same(a, b, n - 1);
        let k = n - 1;
        let u = a[k];
        assert(a.contains(u));
        assert(b.contains(u));
        let j = choose|j: int| 0 <= j < b.len() && b[j] == u;
        if j < k {
            assert(a[j] == b[j]);
            assert(a[j].value < a[k].value);
        } else if j > k {
            let w = b[k];
            assert(b.contains(w));
            assert(a.contains(w));
            let i = choose|i: int| 0 <= i < a.len() && a[i] == w;
            assert(b[k].value < b[j].value);
            if i < k {
                assert(a[i] == b[i]);
                assert(b[i].value < b[k].value);
            } else if i > k {
                assert(a[k].value < a[i].value);
            }
        }
    }
}

/// The ULIDs, each once, ascending.
pub fn sorted_ulids(list: &[Ulid]) -> (sorted: Vec<Ulid>)
    ensures
        sorts(list@, sorted@),
{
    let mut keys: Vec<u128> = Vec::new();
    let mut i: usize = 0;
    while i < list.len()
        invariant
            i <= list@.len(),
            keys@.len() == i,
            forall|j: int| 0 <= j < i ==> keys@[j] == (#[trigger] list@[j]).value,
        decreases list.len() - i,
    {
        keys.push(list[i].value);
        i += 1;
    }
    let order = stable_order(&keys);
    let ghost ints = order@.map_values(|i: usize| i as int);
    let mut sorted: Vec<Ulid> = Vec::new();
    let mut k: usize = 0;
    while k < order.len()
        invariant
            k <= order@.len(),
            ints == order@.map_values(|i: usize| i as int),
            is_stable_order(keys@, ints),
            keys@.len() == list@.len(),
            forall|j: int| 0 <= j < list@.len() ==> keys@[j] == (#[trigger] list@[j]).value,
            ascending(sorted@),
            forall|j: int| 0 <= j < sorted@.len() ==> list@.contains(#[trigger] sorted@[j]),
            forall|j: int| 0 <= j < k ==> sorted@.contains(list@[#[trigger] ints[j]]),
            k > 0 ==> sorted@.len() > 0 && sorted@.last() == list@[ints[k - 1]],
            k == 0 ==> sorted@.len() == 0,
        decreases order.len() - k,
    {
        let ghost before = sorted@;
        assert(ints[k as int] == order@[k as int]);
        let u = list[order[k]];
        assert(list@.contains(u));
        if sorted.len() > 0 && sorted[sorted.len() - 1].value == u.value {
            assert(sorted@.last() == u);
            assert(sorted@[sorted@.len() - 1] == u);
        } else {
            proof {
                if k > 0 {
                    assert(crate::order::ahead(keys@, ints[k - 1], ints[k as int]));
                }
                assert forall|i: int| 0 <= i < before.len() implies (#[trigger] before[i]).value
                    < u.value by {
                    if i < before.len() - 1 {
                        assert(before[i].value < before[before.len() - 1].value);
                    }
                }
            }
            sorted.push(u);
            proof {
                assert forall|j: int| 0 <= j < k implies sorted@.contains(
                    list@[#[trigger] ints[j]],
                ) by {
                    let w = list@[ints[j]];
                    assert(before.contains(w));
                    let x = choose|x: int| 0 <= x < before.len() && before[x] == w;
                    assert(sorted@[x] == w);
                }
                assert(sorted@[sorted@.len() - 1] == u);
            }
        }
        k += 1;
    }
    proof {
        assert forall|u: Ulid| #[trigger] list@.contains(u) implies sorted@.contains(u) by {
            let x = choose|x: int| 0 <= x < list@.len() && list@[x] == u;
            crate::order::lemma_order_is_onto(keys@, ints, x);
            let j = choose|j: int| 0 <= j < ints.len() && #[trigger] ints[j] == x;
            assert(sorted@.contains(list@[ints[j]]));
        }
    }
    sorted
}

// ---------------------------------------------------------------------------
// Writing
// ---------------------------------------------------------------------------

/// The bytes that are signed: the texts with a NUL between each and the next.
pub open spec fn manifest_message(entries: Seq<Seq<char>>) -> Seq<u8> {
    encode_utf8(joined(entries, '\0'))
}

/// The lines of a manifest.
pub open spec fn manifest_lines(entries: Seq<Seq<char>>, sig: Seq<u8>) -> Seq<Seq<char>> {
    (seq!["segments:"@] + prefixed("  "@, entries)).push("sig: "@ + hex_text(sig))
}

/// The bytes of a manifest.
pub open spec fn manifest_bytes(entries: Seq<Seq<char>>, sig: Seq<u8>) -> Seq<u8> {
    encode_utf8(unlines(manifest_lines(entries, sig)))
}

/// The texts of the ULIDs.
fn texts_of(list: &Vec<Ulid>) -> (out: Vec<Vec<char>>)
    ensures
        char_seqs(out@) == ulid_texts(list@),
{
    let mut out: Vec<Vec<char>> = Vec::new();
    let mut i: usize = 0;
    while i < list.len()
        invariant
            i <= list@.len(),
            out@.len() == i,
            forall|j: int| 0 <= j < i ==> (#[trigger] out@[j])@ == list@[j].text(),
        decreases list.len() - i,
    {
        let text = list[i].to_text();
        out.push(chars_of(text.as_str()));
        i += 1;
    }
    assert(char_seqs(out@) =~= ulid_texts(list@));
    out
}

/// The text of a manifest.
pub fn serialize_snapshot_manifest(entries: &Vec<Vec<char>>, sig: &[u8; 64]) -> (text: Vec<char>)
    ensures
        text@ == unlines(manifest_lines(char_seqs(entries@), sig@)),
{
    let mut out: Vec<Vec<char>> = Vec::new();
    out.push(chars_of("segments:"));
    let ghost all = seq!["segments:"@] + prefixed("  "@, char_seqs(entries@));
    assert(char_seqs(out@) =~= all.take(1));
    let mut i: usize = 0;
    while i < entries.len()
        invariant
            i <= entries@.len(),
            all == seq!["segments:"@] + prefixed("  "@, char_seqs(entries@)),
            char_seqs(out@) == all.take(i + 1),
        decreases entries.len() - i,
    {
        let mut line = chars_of("  ");
        extend_chars(&mut line, entries[i].as_slice());
        proof {
            assert(all[i + 1] == line@);
            assert(char_seqs(out@.push(line)) =~= char_seqs(out@).push(line@));
            assert(all.take(i + 2) =~= all.take(i + 1).push(line@));
        }
        out.push(line);
        i += 1;
    }
    let mut line = chars_of("sig: ");
    let digits = hex_chars(sig.as_slice());
    extend_chars(&mut line, digits.as_slice());
    proof {
        assert(all.take(all.len() as int) =~= all);
        assert(char_seqs(out@.push(line)) =~= all.push(line@));
    }
    out.push(line);
    join_lines(&out)
}

/// `bytes` is the manifest of the ULIDs, signed with the secret.
pub open spec fn is_manifest(bytes: Seq<u8>, sorted: Seq<Ulid>, secret: Seq<u8>) -> bool {
    bytes == manifest_bytes(
        ulid_texts(sorted),
        ed25519_signature(secret, manifest_message(ulid_texts(sorted))),
    )
}

/// The bytes of the manifest of a snapshot with these segments, which reading
/// it with the signer's public key gives back, sorted and each once.
pub fn build_snapshot_manifest_bytes(signer: &Ed25519Signer, segment_ulids: &[Ulid]) -> (bytes: Vec<
    u8,
>)
    ensures
        exists|sorted: Seq<Ulid>|
            sorts(segment_ulids@, sorted) && #[trigger] is_manifest(
                bytes@,
                sorted,
                signer.secret(),
            ) && manifest_verified(bytes@, ed25519_public_key(signer.secret())) == Ok::<
                Seq<Ulid>,
                ManifestError,
            >(sorted),
{
    let sorted = sorted_ulids(segment_ulids);
    let entries = texts_of(&sorted);
    let msg = nul_separated(&entries);
    let sig = signer.sign(msg.as_slice());
    let text = serialize_snapshot_manifest(&entries, &sig);
    let bytes = utf8_of(text.as_slice());
    proof {
        law_manifest_round_trip(sorted@, sig@);
        encode_utf8_valid_utf8(text@);
        encode_utf8_decode_utf8(text@);
        assert(is_manifest(bytes@, sorted@, signer.secret()));
        lemma_entries_read(sorted@);
    }
    bytes
}

// ---------------------------------------------------------------------------
// Reading
// ---------------------------------------------------------------------------

/// Why a manifest is refused.
#[derive(Clone, Copy, Debug, PartialEq, Eq, Structural)]
pub enum ManifestError {
    NotUtf8,
    MissingSegments,
    MissingSig,
    BadHex(HexError),
    SigLength,
    SignatureInvalid,
    SegmentNotUlid,
    NotAscending,
}

impl ManifestError {
    /// What is wrong, in words.
    pub open spec fn words(self) -> Seq<char> {
        match self {
            ManifestError::NotUtf8 => "not valid utf-8"@,
            ManifestError::MissingSegments => "missing segments section"@,
            ManifestError::MissingSig => "missing sig line"@,
            ManifestError::BadHex(HexError::OddLength) => "hex string has odd length"@,
            ManifestError::BadHex(HexError::InvalidAt(_)) => "invalid hex"@,
            ManifestError::SigLength => "sig wrong length (expected 64 bytes)"@,
            ManifestError::SignatureInvalid => "signature invalid"@,
            ManifestError::SegmentNotUlid => "contains invalid segment ULID"@,
            ManifestError::NotAscending => "segment ULIDs not in strictly ascending order"@,
        }
    }

    /// What is wrong, in words.
    pub fn message(&self) -> (s: &'static str)
        ensures
            s@ == self.words(),
    {
        match self {
            ManifestError::NotUtf8 => "not valid utf-8",
            ManifestError::MissingSegments => "missing segments section",
            ManifestError::MissingSig => "missing sig line",
            ManifestError::BadHex(HexError::OddLength) => "hex string has odd length",
            ManifestError::BadHex(HexError::InvalidAt(_)) => "invalid hex",
            ManifestError::SigLength => "sig wrong length (expected 64 bytes)",
            ManifestError::SignatureInvalid => "signature invalid",
            ManifestError::SegmentNotUlid => "contains invalid segment ULID",
            ManifestError::NotAscending => "segment ULIDs not in strictly ascending order",
        }
    }
}

/// What the lines read so far have said.
pub struct ManifestText {
    pub entries: Option<Seq<Seq<char>>>,
    pub sig: Option<Seq<u8>>,
    /// An indented line belongs to the list.
    pub listing: bool,
}

/// What one more line says.
pub open spec fn with_line(t: ManifestText, line: Seq<char>) -> Result<
    ManifestText,
    ManifestError,
> {
    let out = ManifestText { listing: false, ..t };
    if let Some(entry) = stripped(line, "  "@) {
        Ok(
            ManifestText {
                entries: match t.entries {
                    Some(list) if t.listing => Some(list.push(entry)),
                    other => other,
                },
                ..t
            },
        )
    } else if line == "segments:"@ {
        Ok(ManifestText { entries: Some(Seq::empty()), listing: true, ..out })
    } else if let Some(v) = stripped(line, "sig: "@) {
        match hex_decoded(v) {
            Ok(bytes) => Ok(ManifestText { sig: Some(bytes), ..out }),
            Err(e) => Err(ManifestError::BadHex(e)),
        }
    } else {
        Ok(out)
    }
}

/// What some lines say, one after the other.
pub open spec fn with_lines(list: Seq<Seq<char>>) -> Result<ManifestText, ManifestError>
    decreases list.len(),
{
    if list.len() == 0 {
        Ok(ManifestText { entries: None, sig: None, listing: false })
    } else {
        match with_lines(list.drop_last()) {
            Ok(t) => with_line(t, list.last()),
            Err(e) => Err(e),
        }
    }
}

/// The entries and signature that a manifest's text says.
pub open spec fn manifest_read(text: Seq<char>) -> Result<
    (Seq<Seq<char>>, Seq<u8>),
    ManifestError,
> {
    match with_lines(lines(text)) {
        Err(e) => Err(e),
        Ok(t) => match (t.entries, t.sig) {
            (None, _) => Err(ManifestError::MissingSegments),
            (_, None) => Err(ManifestError::MissingSig),
            (Some(entries), Some(sig)) => Ok((entries, sig)),
        },
    }
}

/// The ULIDs that the entries say. Each must be one, and above the one before
/// it.
pub open spec fn entries_read(entries: Seq<Seq<char>>) -> Result<Seq<Ulid>, ManifestError>
    decreases entries.len(),
{
    if entries.len() == 0 {
        Ok(Seq::empty())
    } else {
        match entries_read(entries.drop_last()) {
            Err(e) => Err(e),
            Ok(list) => match ulid_read(entries.last()) {
                None => Err(ManifestError::SegmentNotUlid),
                Some(u) => if list.len() > 0 && u.value <= list.last().value {
                    Err(ManifestError::NotAscending)
                } else {
                    Ok(list.push(u))
                },
            },
        }
    }
}

/// The segments that a manifest says, where `key` accepts its signature.
pub open spec fn manifest_verified(content: Seq<u8>, key: Seq<u8>) -> Result<
    Seq<Ulid>,
    ManifestError,
> {
    if !valid_utf8(content) {
        Err(ManifestError::NotUtf8)
    } else {
        match manifest_read(decode_utf8(content)) {
            Err(e) => Err(e),
            Ok((entries, sig)) => if sig.len() != 64 {
                Err(ManifestError::SigLength)
            } else if !ed25519_accepts(key, manifest_message(entries), sig) {
                Err(ManifestError::SignatureInvalid)
            } else {
                entries_read(entries)
            },
        }
    }
}

/// `std::str::from_utf8`: the string with these bytes, where they are valid
/// UTF-8.
#[verifier::external_body]
fn utf8_string(bytes: &[u8]) -> (s: Option<String>)
    ensures
        s is Some == valid_utf8(bytes@),
        s matches Some(text) ==> encode_utf8(text@) == bytes@,
{
    match std::str::from_utf8(bytes) {
        Ok(text) => Some(text.to_string()),
        Err(_) => None,
    }
}

proof fn lemma_lines_err(list: Seq<Seq<char>>, k: int)
    requires
        0 <= k <= list.len(),
        with_lines(list.take(k)) is Err,
    ensures
        with_lines(list) == with_lines(list.take(k)),
    decreases list.len() - k,
{
    if k == list.len() {
        assert(list.take(k) =~= list);
    } else {
        assert(list.take(k + 1).drop_last() =~= list.take(k));
        lemma_lines_err(list, k + 1);
    }
}

/// The entries and signature that a manifest's text says.
pub fn parse_snapshot_manifest(content: &str) -> (r: Result<
    (Vec<Vec<char>>, Vec<u8>),
    ManifestError,
>)
    ensures
        match r {
            Ok((entries, sig)) => manifest_read(content@) == Ok::<
                (Seq<Seq<char>>, Seq<u8>),
                ManifestError,
            >((char_seqs(entries@), sig@)),
            Err(e) => manifest_read(content@) == Err::<(Seq<Seq<char>>, Seq<u8>), ManifestError>(e),
        },
{
    let chars = chars_of(content);
    let list = split_lines(chars.as_slice());
    let mut entries: Option<Vec<Vec<char>>> = None;
    let mut sig: Option<Vec<u8>> = None;
    let mut listing: bool = false;
    let mut i: usize = 0;
    let ghost seqs = char_seqs(list@);
    assert(seqs.take(0) =~= Seq::<Seq<char>>::empty());
    while i < list.len()
        invariant
            i <= list@.len(),
            seqs == char_seqs(list@),
            seqs == lines(content@),
            with_lines(seqs.take(i as int)) == Ok::<ManifestText, ManifestError>(
                ManifestText {
                    entries: match entries {
                        Some(list) => Some(char_seqs(list@)),
                        None => None,
                    },
                    sig: match sig {
                        Some(b) => Some(b@),
                        None => None,
                    },
                    listing,
                },
            ),
        decreases list.len() - i,
    {
        proof {
            let here = seqs.take(i as int + 1);
            assert(here.drop_last() =~= seqs.take(i as int));
            assert(here.last() == list@[i as int]@);
        }
        let line = list[i].as_slice();
        if let Some(entry) = strip_prefix(line, "  ") {
            if listing {
                match entries.take() {
                    Some(known) => {
                        let mut known = known;
                        proof {
                            assert(char_seqs(known@.push(entry)) =~= char_seqs(known@).push(
                                entry@,
                            ));
                        }
                        known.push(entry);
                        entries = Some(known);
                    },
                    None => {},
                }
            }
        } else {
            listing = false;
            if chars_equal(line, "segments:") {
                let none: Vec<Vec<char>> = Vec::new();
                assert(char_seqs(none@) =~= Seq::<Seq<char>>::empty());
                entries = Some(none);
                listing = true;
            } else if let Some(v) = strip_prefix(line, "sig: ") {
                match decode_hex_chars(v.as_slice()) {
                    Ok(bytes) => {
                        sig = Some(bytes);
                    },
                    Err(e) => {
                        proof {
                            lemma_lines_err(seqs, i as int + 1);
                        }
                        return Err(ManifestError::BadHex(e));
                    },
                }
            }
        }
        i += 1;
    }
    assert(seqs.take(list@.len() as int) =~= seqs);
    match (entries, sig) {
        (None, _) => Err(ManifestError::MissingSegments),
        (_, None) => Err(ManifestError::MissingSig),
        (Some(entries), Some(sig)) => Ok((entries, sig)),
    }
}

proof fn lemma_entries_err(entries: Seq<Seq<char>>, k: int)
    requires
        0 <= k <= entries.len(),
        entries_read(entries.take(k)) is Err,
    ensures
        entries_read(entries) == entries_read(entries.take(k)),
    decreases entries.len() - k,
{
    if k == entries.len() {
        assert(entries.take(k) =~= entries);
    } else {
        assert(entries.take(k + 1).drop_last() =~= entries.take(k));
        lemma_entries_err(entries, k + 1);
    }
}

/// The ULIDs that a manifest's entries say, which must ascend.
pub fn read_entries(entries: &Vec<Vec<char>>) -> (r: Result<Vec<Ulid>, ManifestError>)
    ensures
        match r {
            Ok(list) => entries_read(char_seqs(entries@)) == Ok::<Seq<Ulid>, ManifestError>(list@)
                && ascending(list@),
            Err(e) => entries_read(char_seqs(entries@)) == Err::<Seq<Ulid>, ManifestError>(e),
        },
{
    let mut out: Vec<Ulid> = Vec::new();
    let mut i: usize = 0;
    let ghost seqs = char_seqs(entries@);
    assert(seqs.take(0) =~= Seq::<Seq<char>>::empty());
    while i < entries.len()
        invariant
            i <= entries@.len(),
            seqs == char_seqs(entries@),
            entries_read(seqs.take(i as int)) == Ok::<Seq<Ulid>, ManifestError>(out@),
            ascending(out@),
        decreases entries.len() - i,
    {
        proof {
            let here = seqs.take(i as int + 1);
            assert(here.drop_last() =~= seqs.take(i as int));
            assert(here.last() == entries@[i as int]@);
            if entries_read(here) is Err {
                lemma_entries_err(seqs, i as int + 1);
            }
        }
        let u = match Ulid::from_chars(entries[i].as_slice()) {
            Some(u) => u,
            None => {
                return Err(ManifestError::SegmentNotUlid);
            },
        };
        if out.len() > 0 && u.value <= out[out.len() - 1].value {
            return Err(ManifestError::NotAscending);
        }
        proof {
            assert forall|a: int, b: int| 0 <= a < b < out@.len() + 1 implies (#[trigger] out@.push(
                u,
            )[a]).value < (#[trigger] out@.push(u)[b]).value by {
                if b == out@.len() && a < out@.len() - 1 {
                    assert(out@[a].value < out@[out@.len() - 1].value);
                }
            }
        }
        out.push(u);
        i += 1;
    }
    assert(seqs.take(entries@.len() as int) =~= seqs);
    Ok(out)
}

/// The segments of a snapshot.
#[derive(Clone, Debug)]
pub struct SnapshotManifest {
    /// Ascending, each once.
    pub segment_ulids: Vec<Ulid>,
}

/// The segments that a manifest says, where `verifying_key` accepts its
/// signature.
pub fn read_snapshot_manifest_from_bytes(content: &[u8], verifying_key: &VerifyingKey) -> (r:
    Result<SnapshotManifest, ManifestError>)
    ensures
        match r {
            Ok(m) => manifest_verified(content@, verifying_key.bytes@) == Ok::<
                Seq<Ulid>,
                ManifestError,
            >(m.segment_ulids@) && ascending(m.segment_ulids@),
            Err(e) => manifest_verified(content@, verifying_key.bytes@) == Err::<
                Seq<Ulid>,
                ManifestError,
            >(e),
        },
{
    let text = match utf8_string(content) {
        Some(t) => t,
        None => {
            return Err(ManifestError::NotUtf8);
        },
    };
    proof {
        encode_utf8_decode_utf8(text@);
    }
    let (entries, sig) = match parse_snapshot_manifest(text.as_str()) {
        Ok(pair) => pair,
        Err(e) => {
            return Err(e);
        },
    };
    let sig = match array_of_64(sig.as_slice()) {
        Some(s) => s,
        None => {
            return Err(ManifestError::SigLength);
        },
    };
    let msg = nul_separated(&entries);
    if !verifying_key.verify(msg.as_slice(), &sig) {
        return Err(ManifestError::SignatureInvalid);
    }
    match read_entries(&entries) {
        Ok(segment_ulids) => Ok(SnapshotManifest { segment_ulids }),
        Err(e) => Err(e),
    }
}

// ---------------------------------------------------------------------------
// Writing and reading back
// ---------------------------------------------------------------------------

proof fn lemma_entries_read(sorted: Seq<Ulid>)
    requires
        ascending(sorted),
    ensures
        entries_read(ulid_texts(sorted)) == Ok::<Seq<Ulid>, ManifestError>(sorted),
    decreases sorted.len(),
{
    let texts = ulid_texts(sorted);
    if sorted.len() > 0 {
        lemma_entries_read(sorted.drop_last());
        assert(texts.drop_last() =~= ulid_texts(sorted.drop_last()));
        crate::ulid_text::law_ulid_text_round_trip(sorted.last());
        assert(sorted.drop_last().push(sorted.last()) =~= sorted);
        if sorted.len() > 1 {
            assert(sorted[sorted.len() - 2].value < sorted[sorted.len() - 1].value);
        }
    } else {
        assert(sorted =~= Seq::<Ulid>::empty());
    }
}

proof fn lemma_list_read(list: Seq<Ulid>)
    ensures
        with_lines(seq!["segments:"@] + prefixed("  "@, ulid_texts(list))) == Ok::<
            ManifestText,
            ManifestError,
        >(ManifestText { entries: Some(ulid_texts(list)), sig: None, listing: true }),
    decreases list.len(),
{
    let all = seq!["segments:"@] + prefixed("  "@, ulid_texts(list));
    reveal_strlit("segments:");
    reveal_strlit("  ");
    reveal_strlit("sig: ");
    if list.len() == 0 {
        assert(all.drop_last() =~= Seq::<Seq<char>>::empty());
        assert(all.last() == "segments:"@);
        assert("segments:"@.take(2)[0] == 's');
        assert("  "@[0] == ' ');
        assert(with_lines(all.drop_last()) is Ok);
        assert(ulid_texts(list) =~= Seq::<Seq<char>>::empty());
    } else {
        lemma_list_read(list.drop_last());
        assert(all.drop_last() =~= seq!["segments:"@] + prefixed(
            "  "@,
            ulid_texts(list.drop_last()),
        ));
        let entry = list.last().text();
        assert(all.last() == "  "@ + entry);
        assert(("  "@ + entry).take(2) =~= "  "@);
        assert(("  "@ + entry).skip(2) =~= entry);
        assert(ulid_texts(list.drop_last()).push(entry) =~= ulid_texts(list));
    }
}

/// A manifest gives back the entries and the signature it was written from.
pub proof fn law_manifest_round_trip(list: Seq<Ulid>, sig: Seq<u8>)
    ensures
        manifest_read(unlines(manifest_lines(ulid_texts(list), sig))) == Ok::<
            (Seq<Seq<char>>, Seq<u8>),
            ManifestError,
        >((ulid_texts(list), sig)),
{
    reveal_strlit("segments:");
    reveal_strlit("  ");
    reveal_strlit("sig: ");
    let head = seq!["segments:"@] + prefixed("  "@, ulid_texts(list));
    let last = "sig: "@ + hex_text(sig);
    let all = manifest_lines(ulid_texts(list), sig);
    crate::text::lemma_hex_text_plain(sig);
    assert forall|i: int| 0 <= i < all.len() implies is_line(#[trigger] all[i]) by {
        if i == 0 {
            assert(all[i] == "segments:"@);
        } else if i < head.len() {
            let u = list[i - 1];
            crate::ulid_text::lemma_ulid_text_plain(u);
            assert(all[i] == "  "@ + u.text());
            assert(all[i].last() == u.text()[25]);
        } else {
            assert(all[i] == last);
            if sig.len() > 0 {
                assert(last.last() == hex_text(sig).last());
            }
        }
    }
    crate::text::law_lines_of_unlines(all);
    lemma_list_read(list);
    assert(all.drop_last() =~= head);
    assert(last.take(2)[0] == 's');
    assert("segments:"@[1] == 'e');
    assert(last[1] == 'i');
    assert(last.take(5) =~= "sig: "@);
    assert(last.skip(5) =~= hex_text(sig));
    crate::text::law_hex_round_trip(sig);
}

/// Whoever reads a manifest with some key gets its segments where that key
/// accepts the signature, and nothing where it does not.
pub proof fn law_a_manifest_is_read_where_its_signature_is_accepted(
    bytes: Seq<u8>,
    sorted: Seq<Ulid>,
    sig: Seq<u8>,
    key: Seq<u8>,
)
    requires
        ascending(sorted),
        sig.len() == 64,
        bytes == manifest_bytes(ulid_texts(sorted), sig),
    ensures
        manifest_verified(bytes, key) == (if ed25519_accepts(
            key,
            manifest_message(ulid_texts(sorted)),
            sig,
        ) {
            Ok::<Seq<Ulid>, ManifestError>(sorted)
        } else {
            Err::<Seq<Ulid>, ManifestError>(ManifestError::SignatureInvalid)
        }),
{
    let text = unlines(manifest_lines(ulid_texts(sorted), sig));
    law_manifest_round_trip(sorted, sig);
    encode_utf8_valid_utf8(text);
    encode_utf8_decode_utf8(text);
    lemma_entries_read(sorted);
}

proof fn lemma_texts_nul_free(list: Seq<Ulid>)
    ensures
        sep_free(ulid_texts(list), '\0'),
{
    let texts = ulid_texts(list);
    assert forall|i: int, j: int|
        0 <= i < texts.len() && 0 <= j < texts[i].len() implies #[trigger] texts[i][j] != '\0' by {
        crate::ulid_text::lemma_ulid_text_plain(list[i]);
        assert('0' <= list[i].text()[j]);
    }
}

/// The signed bytes tell the list: one signature holds for one list of
/// segments.
pub proof fn law_the_signed_bytes_tell_the_list(a: Seq<Ulid>, b: Seq<Ulid>)
    requires
        manifest_message(ulid_texts(a)) == manifest_message(ulid_texts(b)),
    ensures
        a == b,
{
    let (ta, tb) = (ulid_texts(a), ulid_texts(b));
    encode_utf8_decode_utf8(joined(ta, '\0'));
    encode_utf8_decode_utf8(joined(tb, '\0'));
    assert(joined(ta, '\0') == joined(tb, '\0'));
    lemma_texts_nul_free(a);
    lemma_texts_nul_free(b);
    if a.len() > 0 {
        lemma_joined_not_empty(a);
    }
    if b.len() > 0 {
        lemma_joined_not_empty(b);
    }
    if a.len() > 0 && b.len() > 0 {
        crate::text::law_joined_tells_how_many(ta, tb, '\0');
    }
    crate::text::law_joined_tells(ta, tb, '\0');
    assert forall|i: int| 0 <= i < a.len() implies a[i] == b[i] by {
        assert(ta[i] == a[i].text() && tb[i] == b[i].text());
        crate::ulid_text::law_ulid_text_tells(a[i], b[i]);
    }
    assert(a =~= b);
}

proof fn lemma_joined_not_empty(list: Seq<Ulid>)
    requires
        list.len() > 0,
    ensures
        joined(ulid_texts(list), '\0').len() > 0,
{
    let texts = ulid_texts(list);
    crate::ulid_text::lemma_ulid_text_plain(list.last());
    assert(texts.last() == list.last().text());
    assert(texts[texts.len() - 1] == texts.last());
}

proof fn lemma_kept_line(list: Seq<Seq<char>>, line: Seq<char>)
    requires
        list.len() > 0,
        list.drop_last().contains(line),
    ensures
        list.contains(line),
{
    let before = list.drop_last();
    let i = choose|i: int| 0 <= i < before.len() && before[i] == line;
    assert(list[i] == line);
}

/// The signature is what a line of the text says.
pub open spec fn sig_said(list: Seq<Seq<char>>, sig: Seq<u8>) -> bool {
    exists|digits: Seq<char>|
        list.contains(#[trigger] ("sig: "@ + digits)) && hex_decoded(digits) == Ok::<
            Seq<u8>,
            HexError,
        >(sig)
}

proof fn lemma_lines_said(list: Seq<Seq<char>>)
    ensures
        with_lines(list) matches Ok(t) ==> {
            &&& t.entries is Some ==> list.contains("segments:"@)
            &&& t.entries matches Some(entries) ==> forall|i: int|
                0 <= i < entries.len() ==> list.contains("  "@ + #[trigger] entries[i])
            &&& t.sig matches Some(sig) ==> sig_said(list, sig)
        },
    decreases list.len(),
{
    if list.len() > 0 && with_lines(list) is Ok {
        let before = list.drop_last();
        lemma_lines_said(before);
        let line = list.last();
        assert(list[list.len() - 1] == line);
        let was = with_lines(before)->Ok_0;
        let t = with_lines(list)->Ok_0;
        if before.contains("segments:"@) {
            lemma_kept_line(list, "segments:"@);
        }
        if let Some(entries) = t.entries {
            assert forall|i: int| 0 <= i < entries.len() implies list.contains(
                "  "@ + #[trigger] entries[i],
            ) by {
                if was.entries is Some && i < (was.entries->0).len() && entries[i] == (
                was.entries->0)[i] {
                    lemma_kept_line(list, "  "@ + (was.entries->0)[i]);
                } else {
                    let entry = stripped(line, "  "@)->0;
                    crate::text::law_a_prefix_comes_off(line, "  "@, entry);
                    assert(entries[i] == entry);
                }
            }
        }
        if let Some(sig) = t.sig {
            if was.sig == Some(sig) {
                let digits = choose|digits: Seq<char>|
                    before.contains(#[trigger] ("sig: "@ + digits)) && hex_decoded(digits) == Ok::<
                        Seq<u8>,
                        HexError,
                    >(sig);
                lemma_kept_line(list, "sig: "@ + digits);
            } else {
                let digits = stripped(line, "sig: "@)->0;
                crate::text::law_a_prefix_comes_off(line, "sig: "@, digits);
                assert(list.contains("sig: "@ + digits));
            }
        }
    }
}

proof fn lemma_read_entries(entries: Seq<Seq<char>>)
    ensures
        entries_read(entries) matches Ok(list) ==> {
            &&& ascending(list)
            &&& list.len() == entries.len()
            &&& forall|i: int|
                0 <= i < list.len() ==> ulid_read(#[trigger] entries[i]) == Some(list[i])
        },
    decreases entries.len(),
{
    if entries.len() > 0 && entries_read(entries) is Ok {
        let before = entries.drop_last();
        lemma_read_entries(before);
        let was = entries_read(before)->Ok_0;
        let list = entries_read(entries)->Ok_0;
        assert forall|i: int, j: int| 0 <= i < j < list.len() implies (#[trigger] list[i]).value < (
        #[trigger] list[j]).value by {
            assert(list[i] == was[i]);
            if j < was.len() {
                assert(list[j] == was[j]);
            } else if i < was.len() - 1 {
                assert(was[i].value < was[was.len() - 1].value);
            }
        }
        assert forall|i: int| 0 <= i < list.len() implies ulid_read(#[trigger] entries[i]) == Some(
            list[i],
        ) by {
            if i < was.len() {
                assert(before[i] == entries[i]);
                assert(list[i] == was[i]);
            }
        }
    }
}

/// The ULID is what an indented line of the text says.
pub open spec fn ulid_said(list: Seq<Seq<char>>, u: Ulid) -> bool {
    exists|entry: Seq<char>|
        list.contains(#[trigger] ("  "@ + entry)) && ulid_read(entry) == Some(u)
}

/// Whatever a manifest is read to say, its text says and the key vouches for:
/// the segments ascend, each stands on an indented line of its own, the text
/// has the list's header and a signature, and the key accepts that signature of
/// the entries as they are written.
pub proof fn law_a_verified_manifest_is_what_was_signed(
    content: Seq<u8>,
    key: Seq<u8>,
    list: Seq<Ulid>,
)
    requires
        manifest_verified(content, key) == Ok::<Seq<Ulid>, ManifestError>(list),
    ensures
        valid_utf8(content),
        ascending(list),
        lines(decode_utf8(content)).contains("segments:"@),
        forall|i: int|
            0 <= i < list.len() ==> ulid_said(lines(decode_utf8(content)), #[trigger] list[i]),
        exists|entries: Seq<Seq<char>>, sig: Seq<u8>|
            sig.len() == 64 && entries.len() == list.len() && sig_said(
                lines(decode_utf8(content)),
                sig,
            ) && #[trigger] ed25519_accepts(key, manifest_message(entries), sig) && forall|i: int|
                0 <= i < list.len() ==> ulid_read(#[trigger] entries[i]) == Some(list[i]),
{
    let all = lines(decode_utf8(content));
    let (entries, sig) = manifest_read(decode_utf8(content))->Ok_0;
    lemma_lines_said(all);
    lemma_read_entries(entries);
    assert forall|i: int| 0 <= i < list.len() implies ulid_said(all, #[trigger] list[i]) by {
        assert(all.contains("  "@ + entries[i]));
        assert(ulid_read(entries[i]) == Some(list[i]));
    }
    assert(ed25519_accepts(key, manifest_message(entries), sig));
}

/// Entries are read just where they ascend: a list out of order, or with a
/// segment twice, is refused as such.
pub proof fn law_a_list_out_of_order_is_refused(list: Seq<Ulid>)
    ensures
        ascending(list) ==> entries_read(ulid_texts(list)) == Ok::<Seq<Ulid>, ManifestError>(list),
        !ascending(list) ==> entries_read(ulid_texts(list)) == Err::<Seq<Ulid>, ManifestError>(
            ManifestError::NotAscending,
        ),
    decreases list.len(),
{
    if ascending(list) {
        lemma_entries_read(list);
    } else {
        assert(list.len() > 0);
        let before = list.drop_last();
        let texts = ulid_texts(list);
        assert(texts.drop_last() =~= ulid_texts(before));
        assert(texts.last() == list.last().text());
        crate::ulid_text::law_ulid_text_round_trip(list.last());
        law_a_list_out_of_order_is_refused(before);
        if ascending(before) {
            if before.len() == 0 || before.last().value < list.last().value {
                assert forall|i: int, j: int| 0 <= i < j < list.len() implies (#[trigger]
                list[i]).value < (#[trigger] list[j]).value by {
                    assert(before[i] == list[i]);
                    if j < before.len() {
                        assert(before[j] == list[j]);
                    } else if i < before.len() - 1 {
                        assert(before[i].value < before[before.len() - 1].value);
                    }
                }
            }
        }
    }
}

} // verus!
