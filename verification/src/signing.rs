//! Signed lineage: what a volume descends from, the text it is written in, and
//! the bytes that are signed.
//!
//! ```text
//! parent: <volume-ulid>/<snapshot-ulid>
//! parent_pubkey: <64 hexadecimal digits>
//! extent_index:
//!   <volume-ulid>/<snapshot-ulid>
//!   ...
//! sig: <128 hexadecimal digits>
//! ```
//!
//! The parent lines are always there, empty where there is no parent. An
//! import adds three `oci_` lines, and a volume being claimed back a
//! `recovery_sources:` list.

use vstd::prelude::*;
use vstd::utf8::encode_utf8;

use crate::ids::Ulid;
use crate::keys::{
    array_of_32, array_of_64, ed25519_accepts, ed25519_public_key, ed25519_signature,
    Ed25519Signer, VerifyingKey,
};
use crate::text::{
    char_seqs, chars_equal, chars_of, decode_hex_chars, extend_chars, find_mark, first_mark,
    hex_chars, hex_decoded, hex_text, is_line, join_lines, joined, lines, nul_separated, sep_free,
    split_lines, string_of, string_seqs, strip_prefix, stripped, sub_chars, unlines, HexError,
};
use crate::ulid_text::ulid_read;

verus! {

// ---------------------------------------------------------------------------
// Lineage
// ---------------------------------------------------------------------------

/// A snapshot of a parent volume, with the parent's public key when it was
/// forked. The key is what the parent's own signed files are verified with.
#[derive(Clone, Debug, PartialEq, Eq)]
pub struct ParentRef {
    pub volume_ulid: String,
    pub snapshot_ulid: String,
    pub pubkey: [u8; 32],
}

/// What a [`ParentRef`] holds.
pub struct ParentView {
    pub volume_ulid: Seq<char>,
    pub snapshot_ulid: Seq<char>,
    pub pubkey: Seq<u8>,
}

impl ParentView {
    /// `<volume-ulid>/<snapshot-ulid>`
    pub open spec fn display(self) -> Seq<char> {
        self.volume_ulid.push('/') + self.snapshot_ulid
    }
}

impl View for ParentRef {
    type V = ParentView;

    open spec fn view(&self) -> ParentView {
        ParentView {
            volume_ulid: self.volume_ulid@,
            snapshot_ulid: self.snapshot_ulid@,
            pubkey: self.pubkey@,
        }
    }
}

impl ParentRef {
    /// `<volume-ulid>/<snapshot-ulid>`
    fn display_chars(&self) -> (text: Vec<char>)
        ensures
            text@ == self@.display(),
    {
        let mut text = chars_of(self.volume_ulid.as_str());
        text.push('/');
        let snap = chars_of(self.snapshot_ulid.as_str());
        extend_chars(&mut text, snap.as_slice());
        text
    }

    /// `<volume-ulid>/<snapshot-ulid>`
    pub fn to_display(&self) -> (s: String)
        ensures
            s@ == self@.display(),
    {
        string_of(self.display_chars().as_slice())
    }
}

/// The image an import was made from.
#[derive(Clone, Debug, PartialEq, Eq)]
pub struct OciSource {
    pub image: String,
    pub digest: String,
    pub arch: String,
}

/// What an [`OciSource`] holds.
pub struct OciView {
    pub image: Seq<char>,
    pub digest: Seq<char>,
    pub arch: Seq<char>,
}

impl View for OciSource {
    type V = OciView;

    open spec fn view(&self) -> OciView {
        OciView { image: self.image@, digest: self.digest@, arch: self.arch@ }
    }
}

/// What a volume descends from. `extent_index` lists the snapshots whose
/// extents it may refer to; an import root carries the image it was made from;
/// a volume being claimed back carries the volumes it may read meanwhile.
#[derive(Clone, Debug, PartialEq, Eq)]
pub enum ProvenanceLineage {
    Root { extent_index: Vec<String>, oci_source: Option<OciSource> },
    Fork { parent: ParentRef, extent_index: Vec<String> },
    Recovering {
        parent: Option<ParentRef>,
        extent_index: Vec<String>,
        recovery_sources: Vec<Ulid>,
    },
}

/// What a [`ProvenanceLineage`] holds.
pub enum LineageView {
    Root { extent_index: Seq<Seq<char>>, oci_source: Option<OciView> },
    Fork { parent: ParentView, extent_index: Seq<Seq<char>> },
    Recovering {
        parent: Option<ParentView>,
        extent_index: Seq<Seq<char>>,
        recovery_sources: Seq<Ulid>,
    },
}

/// The view of a value that may be missing.
pub open spec fn parent_view(p: Option<ParentRef>) -> Option<ParentView> {
    match p {
        Some(p) => Some(p@),
        None => None,
    }
}

/// The view of a value that may be missing.
pub open spec fn oci_view(o: Option<OciSource>) -> Option<OciView> {
    match o {
        Some(o) => Some(o@),
        None => None,
    }
}

impl View for ProvenanceLineage {
    type V = LineageView;

    open spec fn view(&self) -> LineageView {
        match self {
            ProvenanceLineage::Root { extent_index, oci_source } => LineageView::Root {
                extent_index: string_seqs(extent_index@),
                oci_source: oci_view(*oci_source),
            },
            ProvenanceLineage::Fork { parent, extent_index } => LineageView::Fork {
                parent: parent@,
                extent_index: string_seqs(extent_index@),
            },
            ProvenanceLineage::Recovering { parent, extent_index, recovery_sources } =>
                LineageView::Recovering {
                parent: parent_view(*parent),
                extent_index: string_seqs(extent_index@),
                recovery_sources: recovery_sources@,
            },
        }
    }
}

impl LineageView {
    /// The fork parent.
    pub open spec fn parent(self) -> Option<ParentView> {
        match self {
            LineageView::Root { .. } => None,
            LineageView::Fork { parent, .. } => Some(parent),
            LineageView::Recovering { parent, .. } => parent,
        }
    }

    /// The snapshots it may refer to.
    pub open spec fn extents(self) -> Seq<Seq<char>> {
        match self {
            LineageView::Root { extent_index, .. } => extent_index,
            LineageView::Fork { extent_index, .. } => extent_index,
            LineageView::Recovering { extent_index, .. } => extent_index,
        }
    }

    /// The image it was imported from.
    pub open spec fn oci(self) -> Option<OciView> {
        match self {
            LineageView::Root { oci_source, .. } => oci_source,
            _ => None,
        }
    }

    /// The volumes it may read while it is claimed back.
    pub open spec fn recovery(self) -> Seq<Ulid> {
        match self {
            LineageView::Recovering { recovery_sources, .. } => recovery_sources,
            _ => Seq::empty(),
        }
    }

    /// The lineage once the volume has been claimed back.
    pub open spec fn cleared(self) -> LineageView {
        match self {
            LineageView::Recovering { parent: Some(parent), extent_index, .. } =>
                LineageView::Fork { parent, extent_index },
            LineageView::Recovering { parent: None, extent_index, .. } => LineageView::Root {
                extent_index,
                oci_source: None,
            },
            other => other,
        }
    }
}

impl Default for ProvenanceLineage {
    fn default() -> (l: Self)
        ensures
            l@ == (LineageView::Root { extent_index: Seq::empty(), oci_source: None }),
    {
        ProvenanceLineage::root()
    }
}

impl ProvenanceLineage {
    /// A volume with no parent and no other source.
    pub fn root() -> (l: Self)
        ensures
            l@ == (LineageView::Root { extent_index: Seq::empty(), oci_source: None }),
    {
        let l = ProvenanceLineage::Root { extent_index: Vec::new(), oci_source: None };
        assert(l@.extents() =~= Seq::<Seq<char>>::empty());
        l
    }

    /// A fork of `parent` with no other source.
    pub fn fork(parent: ParentRef) -> (l: Self)
        ensures
            l@ == (LineageView::Fork { parent: parent@, extent_index: Seq::empty() }),
    {
        let l = ProvenanceLineage::Fork { parent, extent_index: Vec::new() };
        assert(l@.extents() =~= Seq::<Seq<char>>::empty());
        l
    }

    /// The shape that the parts imply.
    pub fn from_parts(
        parent: Option<ParentRef>,
        extent_index: Vec<String>,
        recovery_sources: Vec<Ulid>,
    ) -> (l: Self)
        ensures
            l@ == (if recovery_sources@.len() > 0 {
                LineageView::Recovering {
                    parent: parent_view(parent),
                    extent_index: string_seqs(extent_index@),
                    recovery_sources: recovery_sources@,
                }
            } else {
                match parent {
                    Some(p) => LineageView::Fork {
                        parent: p@,
                        extent_index: string_seqs(extent_index@),
                    },
                    None => LineageView::Root {
                        extent_index: string_seqs(extent_index@),
                        oci_source: None,
                    },
                }
            }),
    {
        if recovery_sources.len() > 0 {
            return ProvenanceLineage::Recovering { parent, extent_index, recovery_sources };
        }
        match parent {
            Some(parent) => ProvenanceLineage::Fork { parent, extent_index },
            None => ProvenanceLineage::Root { extent_index, oci_source: None },
        }
    }

    /// The fork parent.
    pub fn parent(&self) -> (p: Option<&ParentRef>)
        ensures
            p is Some == self@.parent() is Some,
            p matches Some(r) ==> self@.parent() == Some(r@),
    {
        match self {
            ProvenanceLineage::Fork { parent, .. } => Some(parent),
            ProvenanceLineage::Recovering { parent, .. } => match parent {
                Some(p) => Some(p),
                None => None,
            },
            ProvenanceLineage::Root { .. } => None,
        }
    }

    /// The snapshots it may refer to.
    pub fn extent_index(&self) -> (v: &Vec<String>)
        ensures
            string_seqs(v@) == self@.extents(),
    {
        match self {
            ProvenanceLineage::Root { extent_index, .. } => extent_index,
            ProvenanceLineage::Fork { extent_index, .. } => extent_index,
            ProvenanceLineage::Recovering { extent_index, .. } => extent_index,
        }
    }

    /// The image it was imported from.
    pub fn oci_source(&self) -> (o: Option<&OciSource>)
        ensures
            o is Some == self@.oci() is Some,
            o matches Some(r) ==> self@.oci() == Some(r@),
    {
        match self {
            ProvenanceLineage::Root { oci_source, .. } => match oci_source {
                Some(o) => Some(o),
                None => None,
            },
            ProvenanceLineage::Fork { .. } => None,
            ProvenanceLineage::Recovering { .. } => None,
        }
    }

    /// The volumes it may read while it is claimed back, if it is.
    pub fn recovery_sources(&self) -> (v: &[Ulid])
        ensures
            v@ == self@.recovery(),
    {
        match self {
            ProvenanceLineage::Recovering { recovery_sources, .. } => recovery_sources.as_slice(),
            ProvenanceLineage::Root { .. } => {
                let none: &[Ulid] = &[];
                assert(none@ =~= Seq::<Ulid>::empty());
                none
            },
            ProvenanceLineage::Fork { .. } => {
                let none: &[Ulid] = &[];
                assert(none@ =~= Seq::<Ulid>::empty());
                none
            },
        }
    }

    /// The lineage once the volume has been claimed back.
    pub fn cleared_recovery(self) -> (l: Self)
        ensures
            l@ == self@.cleared(),
    {
        match self {
            ProvenanceLineage::Recovering { parent, extent_index, .. } => match parent {
                Some(parent) => ProvenanceLineage::Fork { parent, extent_index },
                None => ProvenanceLineage::Root { extent_index, oci_source: None },
            },
            other => other,
        }
    }
}

// ---------------------------------------------------------------------------
// The signed bytes
// ---------------------------------------------------------------------------

/// The mark before the recovery sources among the signed fields.
pub const PROVENANCE_RECOVERY_SOURCES_DOMAIN: &'static str = "elide-recovery-sources-v1";

/// The parent as it is written: nothing where there is none.
pub open spec fn parent_text(v: LineageView) -> Seq<char> {
    match v.parent() {
        Some(p) => p.display(),
        None => Seq::empty(),
    }
}

/// The parent's key as it is written: nothing where there is no parent.
pub open spec fn pubkey_text(v: LineageView) -> Seq<char> {
    match v.parent() {
        Some(p) => hex_text(p.pubkey),
        None => Seq::empty(),
    }
}

/// The texts of some ULIDs.
pub open spec fn ulid_texts(list: Seq<Ulid>) -> Seq<Seq<char>> {
    list.map_values(|u: Ulid| u.text())
}

/// The fields of an import's image.
pub open spec fn oci_fields(oci: Option<OciView>) -> Seq<Seq<char>> {
    match oci {
        Some(src) => seq![src.image, src.digest, src.arch],
        None => Seq::empty(),
    }
}

/// The fields of the recovery sources.
pub open spec fn recovery_fields(list: Seq<Ulid>) -> Seq<Seq<char>> {
    if list.len() > 0 {
        seq![PROVENANCE_RECOVERY_SOURCES_DOMAIN@] + ulid_texts(list)
    } else {
        Seq::empty()
    }
}

/// The fields that are signed, in order.
pub open spec fn provenance_fields(v: LineageView) -> Seq<Seq<char>> {
    seq![parent_text(v), pubkey_text(v)] + v.extents() + oci_fields(v.oci()) + recovery_fields(
        v.recovery(),
    )
}

/// The bytes that are signed: the fields with a NUL between each and the next.
pub open spec fn provenance_message(v: LineageView) -> Seq<u8> {
    encode_utf8(joined(provenance_fields(v), '\0'))
}

/// Append the strings' characters, each after `prefix`.
fn push_strings(out: &mut Vec<Vec<char>>, prefix: &str, list: &Vec<String>)
    ensures
        char_seqs(final(out)@) == char_seqs(old(out)@) + prefixed(prefix@, string_seqs(list@)),
{
    let mut i: usize = 0;
    let ghost all = prefixed(prefix@, string_seqs(list@));
    assert(char_seqs(out@) + all.take(0) =~= char_seqs(out@));
    while i < list.len()
        invariant
            i <= list@.len(),
            all == prefixed(prefix@, string_seqs(list@)),
            char_seqs(out@) == char_seqs(old(out)@) + all.take(i as int),
        decreases list.len() - i,
    {
        let rest = chars_of(list[i].as_str());
        let line = line_of(prefix, rest.as_slice());
        proof {
            assert(all[i as int] == line@);
            assert(char_seqs(out@.push(line)) =~= char_seqs(out@).push(line@));
            assert(all.take(i as int + 1) =~= all.take(i as int).push(line@));
            assert(char_seqs(old(out)@) + all.take(i as int + 1) =~= (char_seqs(old(out)@)
                + all.take(i as int)).push(line@));
        }
        out.push(line);
        i += 1;
    }
    assert(all.take(list@.len() as int) =~= all);
}

/// Append the ULIDs' texts, each after `prefix`.
fn push_ulids(out: &mut Vec<Vec<char>>, prefix: &str, list: &[Ulid])
    ensures
        char_seqs(final(out)@) == char_seqs(old(out)@) + prefixed(prefix@, ulid_texts(list@)),
{
    let mut i: usize = 0;
    let ghost all = prefixed(prefix@, ulid_texts(list@));
    assert(char_seqs(out@) + all.take(0) =~= char_seqs(out@));
    while i < list.len()
        invariant
            i <= list@.len(),
            all == prefixed(prefix@, ulid_texts(list@)),
            char_seqs(out@) == char_seqs(old(out)@) + all.take(i as int),
        decreases list.len() - i,
    {
        let text = list[i].to_text();
        let rest = chars_of(text.as_str());
        let line = line_of(prefix, rest.as_slice());
        proof {
            assert(all[i as int] == line@);
            assert(char_seqs(out@.push(line)) =~= char_seqs(out@).push(line@));
            assert(all.take(i as int + 1) =~= all.take(i as int).push(line@));
            assert(char_seqs(old(out)@) + all.take(i as int + 1) =~= (char_seqs(old(out)@)
                + all.take(i as int)).push(line@));
        }
        out.push(line);
        i += 1;
    }
    assert(all.take(list@.len() as int) =~= all);
}

/// Append one line: `prefix` and then `rest`.
fn push_line(out: &mut Vec<Vec<char>>, prefix: &str, rest: &[char])
    ensures
        char_seqs(final(out)@) == char_seqs(old(out)@).push(prefix@ + rest@),
{
    let line = line_of(prefix, rest);
    assert(char_seqs(out@.push(line)) =~= char_seqs(out@).push(line@));
    out.push(line);
}

/// `prefix` and then `rest`.
fn line_of(prefix: &str, rest: &[char]) -> (line: Vec<char>)
    ensures
        line@ == prefix@ + rest@,
{
    let mut line = chars_of(prefix);
    extend_chars(&mut line, rest);
    line
}

/// Each text after `prefix`.
pub open spec fn prefixed(prefix: Seq<char>, list: Seq<Seq<char>>) -> Seq<Seq<char>> {
    list.map_values(|l: Seq<char>| prefix + l)
}

proof fn lemma_prefixed_by_nothing(list: Seq<Seq<char>>)
    ensures
        prefixed(""@, list) == list,
{
    reveal_strlit("");
    assert forall|i: int| 0 <= i < list.len() implies prefixed(""@, list)[i] == list[i] by {
        assert(""@ + list[i] =~= list[i]);
    }
    assert(prefixed(""@, list) =~= list);
}

/// The parent as it is written.
fn parent_chars(lineage: &ProvenanceLineage) -> (text: Vec<char>)
    ensures
        text@ == parent_text(lineage@),
{
    match lineage.parent() {
        Some(p) => p.display_chars(),
        None => Vec::new(),
    }
}

/// The parent's key as it is written.
fn pubkey_chars(lineage: &ProvenanceLineage) -> (text: Vec<char>)
    ensures
        text@ == pubkey_text(lineage@),
{
    match lineage.parent() {
        Some(p) => hex_chars(p.pubkey.as_slice()),
        None => Vec::new(),
    }
}

/// The bytes that are signed.
pub fn provenance_signing_input(lineage: &ProvenanceLineage) -> (msg: Vec<u8>)
    ensures
        msg@ == provenance_message(lineage@),
{
    let mut fields: Vec<Vec<char>> = Vec::new();
    let ghost v = lineage@;
    let parent = parent_chars(lineage);
    let pubkey = pubkey_chars(lineage);
    fields.push(parent);
    fields.push(pubkey);
    assert(char_seqs(fields@) =~= seq![parent_text(v), pubkey_text(v)]);
    push_strings(&mut fields, "", lineage.extent_index());
    proof {
        lemma_prefixed_by_nothing(v.extents());
    }
    let ghost before = char_seqs(fields@);
    if let Some(src) = lineage.oci_source() {
        fields.push(chars_of(src.image.as_str()));
        fields.push(chars_of(src.digest.as_str()));
        fields.push(chars_of(src.arch.as_str()));
        assert(char_seqs(fields@) =~= before + oci_fields(v.oci()));
    } else {
        assert(before =~= before + oci_fields(v.oci()));
    }
    let ghost before = char_seqs(fields@);
    let sources = lineage.recovery_sources();
    if sources.len() > 0 {
        let domain = chars_of(PROVENANCE_RECOVERY_SOURCES_DOMAIN);
        proof {
            assert(char_seqs(fields@.push(domain)) =~= before.push(domain@));
        }
        fields.push(domain);
        push_ulids(&mut fields, "", sources);
        proof {
            lemma_prefixed_by_nothing(ulid_texts(v.recovery()));
            assert(char_seqs(fields@) =~= before + recovery_fields(v.recovery()));
        }
    } else {
        assert(before =~= before + recovery_fields(v.recovery()));
    }
    assert(char_seqs(fields@) =~= provenance_fields(v));
    nul_separated(&fields)
}

// ---------------------------------------------------------------------------
// The written text
// ---------------------------------------------------------------------------

/// The lines of an import's image.
pub open spec fn oci_lines(oci: Option<OciView>) -> Seq<Seq<char>> {
    match oci {
        Some(src) => seq![
            "oci_image: "@ + src.image,
            "oci_digest: "@ + src.digest,
            "oci_arch: "@ + src.arch,
        ],
        None => Seq::empty(),
    }
}

/// The lines of the recovery sources.
pub open spec fn recovery_lines(list: Seq<Ulid>) -> Seq<Seq<char>> {
    if list.len() > 0 {
        seq!["recovery_sources:"@] + prefixed("  "@, ulid_texts(list))
    } else {
        Seq::empty()
    }
}

/// The lines up to the signature.
pub open spec fn lineage_lines(v: LineageView) -> Seq<Seq<char>> {
    seq!["parent: "@ + parent_text(v), "parent_pubkey: "@ + pubkey_text(v), "extent_index:"@]
        + prefixed("  "@, v.extents()) + oci_lines(v.oci()) + recovery_lines(v.recovery())
}

/// The lines of the file.
pub open spec fn provenance_lines(v: LineageView, sig: Seq<u8>) -> Seq<Seq<char>> {
    lineage_lines(v).push("sig: "@ + hex_text(sig))
}

/// The text of the file.
pub fn serialize_provenance(lineage: &ProvenanceLineage, sig: &[u8; 64]) -> (s: String)
    ensures
        s@ == unlines(provenance_lines(lineage@, sig@)),
{
    let mut out: Vec<Vec<char>> = Vec::new();
    let ghost v = lineage@;
    let parent = parent_chars(lineage);
    push_line(&mut out, "parent: ", parent.as_slice());
    let pubkey = pubkey_chars(lineage);
    push_line(&mut out, "parent_pubkey: ", pubkey.as_slice());
    let none: Vec<char> = Vec::new();
    push_line(&mut out, "extent_index:", none.as_slice());
    assert("extent_index:"@ + none@ =~= "extent_index:"@);
    assert(char_seqs(out@) =~= seq![
        "parent: "@ + parent_text(v),
        "parent_pubkey: "@ + pubkey_text(v),
        "extent_index:"@,
    ]);
    push_strings(&mut out, "  ", lineage.extent_index());
    let ghost before = char_seqs(out@);
    if let Some(src) = lineage.oci_source() {
        let image = chars_of(src.image.as_str());
        push_line(&mut out, "oci_image: ", image.as_slice());
        let digest = chars_of(src.digest.as_str());
        push_line(&mut out, "oci_digest: ", digest.as_slice());
        let arch = chars_of(src.arch.as_str());
        push_line(&mut out, "oci_arch: ", arch.as_slice());
        assert(char_seqs(out@) =~= before + oci_lines(v.oci()));
    } else {
        assert(before =~= before + oci_lines(v.oci()));
    }
    let ghost before = char_seqs(out@);
    let sources = lineage.recovery_sources();
    if sources.len() > 0 {
        push_line(&mut out, "recovery_sources:", none.as_slice());
        assert("recovery_sources:"@ + none@ =~= "recovery_sources:"@);
        push_ulids(&mut out, "  ", sources);
        assert(char_seqs(out@) =~= before + recovery_lines(v.recovery()));
    } else {
        assert(before =~= before + recovery_lines(v.recovery()));
    }
    let digits = hex_chars(sig.as_slice());
    push_line(&mut out, "sig: ", digits.as_slice());
    assert(char_seqs(out@) =~= provenance_lines(v, sig@));
    let text = join_lines(&out);
    string_of(text.as_slice())
}

// ---------------------------------------------------------------------------
// Reading the text
// ---------------------------------------------------------------------------

/// Why a lineage file is refused.
#[derive(Clone, Copy, Debug, PartialEq, Eq, Structural)]
pub enum ProvenanceError {
    MissingParent,
    MissingParentPubkey,
    MissingExtentIndex,
    MissingSig,
    RecoverySourceNotUlid,
    BadHex(HexError),
    ParentWithoutSeparator,
    ParentVolumeNotUlid,
    ParentSnapshotNotUlid,
    ParentPubkeyLength,
    ParentWithoutPubkey,
    PubkeyWithoutParent,
    PartialOciSource,
    RecoveryWithOciSource,
    ForkWithOciSource,
    SigLength,
    SignatureInvalid,
}

impl ProvenanceError {
    /// What is wrong, in words.
    pub open spec fn words(self) -> Seq<char> {
        match self {
            ProvenanceError::MissingParent => "missing parent line"@,
            ProvenanceError::MissingParentPubkey => "missing parent_pubkey line"@,
            ProvenanceError::MissingExtentIndex => "missing extent_index section"@,
            ProvenanceError::MissingSig => "missing sig line"@,
            ProvenanceError::RecoverySourceNotUlid => "recovery_sources entry not a ulid"@,
            ProvenanceError::BadHex(HexError::OddLength) => "hex string has odd length"@,
            ProvenanceError::BadHex(HexError::InvalidAt(_)) => "invalid hex"@,
            ProvenanceError::ParentWithoutSeparator => "parent missing '/' separator"@,
            ProvenanceError::ParentVolumeNotUlid => "parent volume ulid invalid"@,
            ProvenanceError::ParentSnapshotNotUlid => "parent snapshot ulid invalid"@,
            ProvenanceError::ParentPubkeyLength =>
                "parent_pubkey wrong length (expected 64 hex chars)"@,
            ProvenanceError::ParentWithoutPubkey => "has parent but missing parent_pubkey"@,
            ProvenanceError::PubkeyWithoutParent => "has parent_pubkey but missing parent"@,
            ProvenanceError::PartialOciSource =>
                "has partial oci_source (need all of oci_image, oci_digest, oci_arch or none)"@,
            ProvenanceError::RecoveryWithOciSource =>
                "carries both recovery_sources and oci_source"@,
            ProvenanceError::ForkWithOciSource =>
                "carries both a parent and oci_source (a fork cannot be an OCI root)"@,
            ProvenanceError::SigLength => "sig wrong length (expected 64 bytes)"@,
            ProvenanceError::SignatureInvalid => "signature invalid"@,
        }
    }

    /// What is wrong, in words.
    pub fn message(&self) -> (s: &'static str)
        ensures
            s@ == self.words(),
    {
        match self {
            ProvenanceError::MissingParent => "missing parent line",
            ProvenanceError::MissingParentPubkey => "missing parent_pubkey line",
            ProvenanceError::MissingExtentIndex => "missing extent_index section",
            ProvenanceError::MissingSig => "missing sig line",
            ProvenanceError::RecoverySourceNotUlid => "recovery_sources entry not a ulid",
            ProvenanceError::BadHex(HexError::OddLength) => "hex string has odd length",
            ProvenanceError::BadHex(HexError::InvalidAt(_)) => "invalid hex",
            ProvenanceError::ParentWithoutSeparator => "parent missing '/' separator",
            ProvenanceError::ParentVolumeNotUlid => "parent volume ulid invalid",
            ProvenanceError::ParentSnapshotNotUlid => "parent snapshot ulid invalid",
            ProvenanceError::ParentPubkeyLength =>
                "parent_pubkey wrong length (expected 64 hex chars)",
            ProvenanceError::ParentWithoutPubkey => "has parent but missing parent_pubkey",
            ProvenanceError::PubkeyWithoutParent => "has parent_pubkey but missing parent",
            ProvenanceError::PartialOciSource =>
                "has partial oci_source (need all of oci_image, oci_digest, oci_arch or none)",
            ProvenanceError::RecoveryWithOciSource =>
                "carries both recovery_sources and oci_source",
            ProvenanceError::ForkWithOciSource =>
                "carries both a parent and oci_source (a fork cannot be an OCI root)",
            ProvenanceError::SigLength => "sig wrong length (expected 64 bytes)",
            ProvenanceError::SignatureInvalid => "signature invalid",
        }
    }
}

/// The list that an indented line belongs to.
#[derive(Clone, Copy, Debug, PartialEq, Eq, Structural)]
pub enum Section {
    Outside,
    ExtentIndex,
    RecoverySources,
}

/// What the lines read so far have said. A parent or key that is there and
/// empty is an empty text.
pub struct ProvenanceText {
    pub parent: Option<Seq<char>>,
    pub pubkey: Option<Seq<char>>,
    pub extent_index: Option<Seq<Seq<char>>>,
    pub image: Option<Seq<char>>,
    pub digest: Option<Seq<char>>,
    pub arch: Option<Seq<char>>,
    pub recovery: Seq<Ulid>,
    pub sig: Option<Seq<u8>>,
    pub section: Section,
}

/// Nothing has been read.
pub open spec fn nothing_read() -> ProvenanceText {
    ProvenanceText {
        parent: None,
        pubkey: None,
        extent_index: None,
        image: None,
        digest: None,
        arch: None,
        recovery: Seq::empty(),
        sig: None,
        section: Section::Outside,
    }
}

/// What one more line says. An indented line belongs to the list whose header
/// it follows; any other line ends a list, and a later value of a key replaces
/// an earlier one. A line that fits nothing says nothing.
pub open spec fn with_line(t: ProvenanceText, line: Seq<char>) -> Result<
    ProvenanceText,
    ProvenanceError,
> {
    let out = ProvenanceText { section: Section::Outside, ..t };
    if let Some(entry) = stripped(line, "  "@) {
        match t.section {
            Section::Outside => Ok(t),
            Section::ExtentIndex => Ok(
                ProvenanceText {
                    extent_index: match t.extent_index {
                        Some(list) => Some(list.push(entry)),
                        None => None,
                    },
                    ..t
                },
            ),
            Section::RecoverySources => match ulid_read(entry) {
                Some(u) => Ok(ProvenanceText { recovery: t.recovery.push(u), ..t }),
                None => Err(ProvenanceError::RecoverySourceNotUlid),
            },
        }
    } else if let Some(v) = stripped(line, "oci_image: "@) {
        Ok(ProvenanceText { image: Some(v), ..out })
    } else if let Some(v) = stripped(line, "oci_digest: "@) {
        Ok(ProvenanceText { digest: Some(v), ..out })
    } else if let Some(v) = stripped(line, "oci_arch: "@) {
        Ok(ProvenanceText { arch: Some(v), ..out })
    } else if let Some(v) = stripped(line, "parent_pubkey: "@) {
        Ok(ProvenanceText { pubkey: Some(v), ..out })
    } else if line == "parent_pubkey:"@ {
        Ok(ProvenanceText { pubkey: Some(Seq::empty()), ..out })
    } else if let Some(v) = stripped(line, "parent: "@) {
        Ok(ProvenanceText { parent: Some(v), ..out })
    } else if line == "parent:"@ {
        Ok(ProvenanceText { parent: Some(Seq::empty()), ..out })
    } else if line == "extent_index:"@ {
        Ok(
            ProvenanceText {
                extent_index: Some(Seq::empty()),
                section: Section::ExtentIndex,
                ..out
            },
        )
    } else if line == "recovery_sources:"@ {
        Ok(ProvenanceText { section: Section::RecoverySources, ..out })
    } else if let Some(v) = stripped(line, "sig: "@) {
        match hex_decoded(v) {
            Ok(bytes) => Ok(ProvenanceText { sig: Some(bytes), ..out }),
            Err(e) => Err(ProvenanceError::BadHex(e)),
        }
    } else {
        Ok(out)
    }
}

/// What some lines say, one after the other.
pub open spec fn with_lines(list: Seq<Seq<char>>) -> Result<ProvenanceText, ProvenanceError>
    decreases list.len(),
{
    if list.len() == 0 {
        Ok(nothing_read())
    } else {
        match with_lines(list.drop_last()) {
            Ok(t) => with_line(t, list.last()),
            Err(e) => Err(e),
        }
    }
}

/// The parent that its two lines say.
pub open spec fn parent_read(parent: Seq<char>, pubkey: Seq<char>) -> Result<
    Option<ParentView>,
    ProvenanceError,
> {
    let slash = first_mark(parent, '/');
    if parent.len() == 0 && pubkey.len() == 0 {
        Ok(None)
    } else if pubkey.len() == 0 {
        Err(ProvenanceError::ParentWithoutPubkey)
    } else if parent.len() == 0 {
        Err(ProvenanceError::PubkeyWithoutParent)
    } else if slash == parent.len() {
        Err(ProvenanceError::ParentWithoutSeparator)
    } else {
        match (ulid_read(parent.take(slash)), ulid_read(parent.skip(slash + 1))) {
            (None, _) => Err(ProvenanceError::ParentVolumeNotUlid),
            (_, None) => Err(ProvenanceError::ParentSnapshotNotUlid),
            (Some(volume), Some(snapshot)) => match hex_decoded(pubkey) {
                Err(e) => Err(ProvenanceError::BadHex(e)),
                Ok(bytes) => if bytes.len() != 32 {
                    Err(ProvenanceError::ParentPubkeyLength)
                } else {
                    Ok(
                        Some(
                            ParentView {
                                volume_ulid: volume.text(),
                                snapshot_ulid: snapshot.text(),
                                pubkey: bytes,
                            },
                        ),
                    )
                },
            },
        }
    }
}

/// The lineage and signature that the lines of a file say.
pub open spec fn lineage_read(t: ProvenanceText) -> Result<
    (LineageView, Seq<u8>),
    ProvenanceError,
> {
    match (t.parent, t.pubkey, t.extent_index, t.sig) {
        (None, _, _, _) => Err(ProvenanceError::MissingParent),
        (_, None, _, _) => Err(ProvenanceError::MissingParentPubkey),
        (_, _, None, _) => Err(ProvenanceError::MissingExtentIndex),
        (_, _, _, None) => Err(ProvenanceError::MissingSig),
        (Some(parent), Some(pubkey), Some(extent_index), Some(sig)) => {
            match (parent_read(parent, pubkey), t.image, t.digest, t.arch) {
                (Err(e), _, _, _) => Err(e),
                (Ok(parent), None, None, None) => Ok(
                    (
                        if t.recovery.len() > 0 {
                            LineageView::Recovering {
                                parent,
                                extent_index,
                                recovery_sources: t.recovery,
                            }
                        } else {
                            match parent {
                                Some(parent) => LineageView::Fork { parent, extent_index },
                                None => LineageView::Root { extent_index, oci_source: None },
                            }
                        },
                        sig,
                    ),
                ),
                (Ok(parent), Some(image), Some(digest), Some(arch)) => if t.recovery.len() > 0 {
                    Err(ProvenanceError::RecoveryWithOciSource)
                } else if parent is Some {
                    Err(ProvenanceError::ForkWithOciSource)
                } else {
                    Ok(
                        (
                            LineageView::Root {
                                extent_index,
                                oci_source: Some(OciView { image, digest, arch }),
                            },
                            sig,
                        ),
                    )
                },
                _ => Err(ProvenanceError::PartialOciSource),
            }
        },
    }
}

/// The lineage and signature that a file says.
pub open spec fn provenance_read(text: Seq<char>) -> Result<
    (LineageView, Seq<u8>),
    ProvenanceError,
> {
    match with_lines(lines(text)) {
        Ok(t) => lineage_read(t),
        Err(e) => Err(e),
    }
}

/// What the lines read so far have said.
struct Reading {
    parent: Option<Vec<char>>,
    pubkey: Option<Vec<char>>,
    extent_index: Option<Vec<String>>,
    image: Option<Vec<char>>,
    digest: Option<Vec<char>>,
    arch: Option<Vec<char>>,
    recovery: Vec<Ulid>,
    sig: Option<Vec<u8>>,
    section: Section,
}

spec fn seen_chars(v: Option<Vec<char>>) -> Option<Seq<char>> {
    match v {
        Some(c) => Some(c@),
        None => None,
    }
}

impl Reading {
    spec fn text(&self) -> ProvenanceText {
        ProvenanceText {
            parent: seen_chars(self.parent),
            pubkey: seen_chars(self.pubkey),
            extent_index: match self.extent_index {
                Some(list) => Some(string_seqs(list@)),
                None => None,
            },
            image: seen_chars(self.image),
            digest: seen_chars(self.digest),
            arch: seen_chars(self.arch),
            recovery: self.recovery@,
            sig: match self.sig {
                Some(b) => Some(b@),
                None => None,
            },
            section: self.section,
        }
    }

    fn start() -> (r: Self)
        ensures
            r.text() == nothing_read(),
    {
        Reading {
            parent: None,
            pubkey: None,
            extent_index: None,
            image: None,
            digest: None,
            arch: None,
            recovery: Vec::new(),
            sig: None,
            section: Section::Outside,
        }
    }

    fn indented(self, entry: &[char]) -> (r: Result<Self, ProvenanceError>)
        ensures
            forall|line: Seq<char>|
                stripped(line, "  "@) == Some(entry@) ==> match r {
                    Ok(n) => #[trigger] with_line(self.text(), line) == Ok::<
                        ProvenanceText,
                        ProvenanceError,
                    >(n.text()),
                    Err(e) => with_line(self.text(), line) == Err::<
                        ProvenanceText,
                        ProvenanceError,
                    >(e),
                },
    {
        let mut r = self;
        match r.section {
            Section::Outside => Ok(r),
            Section::ExtentIndex => {
                match r.extent_index.take() {
                    Some(list) => {
                        let mut list = list;
                        let s = string_of(entry);
                        proof {
                            assert(string_seqs(list@.push(s)) =~= string_seqs(list@).push(s@));
                        }
                        list.push(s);
                        r.extent_index = Some(list);
                    },
                    None => {},
                }
                Ok(r)
            },
            Section::RecoverySources => match Ulid::from_chars(entry) {
                Some(u) => {
                    r.recovery.push(u);
                    Ok(r)
                },
                None => Err(ProvenanceError::RecoverySourceNotUlid),
            },
        }
    }

    fn line(self, line: &[char]) -> (r: Result<Self, ProvenanceError>)
        ensures
            match r {
                Ok(n) => with_line(self.text(), line@) == Ok::<ProvenanceText, ProvenanceError>(
                    n.text(),
                ),
                Err(e) => with_line(self.text(), line@) == Err::<ProvenanceText, ProvenanceError>(
                    e,
                ),
            },
    {
        if let Some(entry) = strip_prefix(line, "  ") {
            return self.indented(entry.as_slice());
        }
        let mut r = self;
        r.section = Section::Outside;
        if let Some(v) = strip_prefix(line, "oci_image: ") {
            r.image = Some(v);
        } else if let Some(v) = strip_prefix(line, "oci_digest: ") {
            r.digest = Some(v);
        } else if let Some(v) = strip_prefix(line, "oci_arch: ") {
            r.arch = Some(v);
        } else if let Some(v) = strip_prefix(line, "parent_pubkey: ") {
            r.pubkey = Some(v);
        } else if chars_equal(line, "parent_pubkey:") {
            let none: Vec<char> = Vec::new();
            assert(none@ =~= Seq::<char>::empty());
            r.pubkey = Some(none);
        } else if let Some(v) = strip_prefix(line, "parent: ") {
            r.parent = Some(v);
        } else if chars_equal(line, "parent:") {
            let none: Vec<char> = Vec::new();
            assert(none@ =~= Seq::<char>::empty());
            r.parent = Some(none);
        } else if chars_equal(line, "extent_index:") {
            let none: Vec<String> = Vec::new();
            assert(string_seqs(none@) =~= Seq::<Seq<char>>::empty());
            r.extent_index = Some(none);
            r.section = Section::ExtentIndex;
        } else if chars_equal(line, "recovery_sources:") {
            r.section = Section::RecoverySources;
        } else if let Some(v) = strip_prefix(line, "sig: ") {
            match decode_hex_chars(v.as_slice()) {
                Ok(bytes) => {
                    r.sig = Some(bytes);
                },
                Err(e) => {
                    return Err(ProvenanceError::BadHex(e));
                },
            }
        }
        Ok(r)
    }
}

proof fn lemma_lines_err(list: Seq<Seq<char>>, k: int)
    requires
        0 <= k <= list.len(),
        with_lines(list.take(k)) is Err,
    ensures
        with_lines(list) == with_lines(list.take(k)),
    decreases list.len() - k,
{
    if k == list.len() {
        assert(list.take(k) =~= list);
    } else {
        assert(list.take(k + 1).drop_last() =~= list.take(k));
        lemma_lines_err(list, k + 1);
    }
}

/// Read the lines of a file.
fn read_lines(list: &Vec<Vec<char>>) -> (r: Result<Reading, ProvenanceError>)
    ensures
        match r {
            Ok(n) => with_lines(char_seqs(list@)) == Ok::<ProvenanceText, ProvenanceError>(
                n.text(),
            ),
            Err(e) => with_lines(char_seqs(list@)) == Err::<ProvenanceText, ProvenanceError>(e),
        },
{
    let mut r = Reading::start();
    let mut i: usize = 0;
    let ghost seqs = char_seqs(list@);
    assert(seqs.take(0) =~= Seq::<Seq<char>>::empty());
    while i < list.len()
        invariant
            i <= list@.len(),
            seqs == char_seqs(list@),
            with_lines(seqs.take(i as int)) == Ok::<ProvenanceText, ProvenanceError>(r.text()),
        decreases list.len() - i,
    {
        proof {
            let here = seqs.take(i as int + 1);
            assert(here.drop_last() =~= seqs.take(i as int));
            assert(here.last() == list@[i as int]@);
        }
        match r.line(list[i].as_slice()) {
            Ok(n) => {
                r = n;
            },
            Err(e) => {
                proof {
                    lemma_lines_err(seqs, i as int + 1);
                }
                return Err(e);
            },
        }
        i += 1;
    }
    assert(seqs.take(list@.len() as int) =~= seqs);
    Ok(r)
}

/// The parent that its two lines say.
fn read_parent(parent: &[char], pubkey: &[char]) -> (r: Result<Option<ParentRef>, ProvenanceError>)
    ensures
        match r {
            Ok(p) => parent_read(parent@, pubkey@) == Ok::<Option<ParentView>, ProvenanceError>(
                parent_view(p),
            ),
            Err(e) => parent_read(parent@, pubkey@) == Err::<Option<ParentView>, ProvenanceError>(
                e,
            ),
        },
{
    if parent.len() == 0 && pubkey.len() == 0 {
        return Ok(None);
    }
    if pubkey.len() == 0 {
        return Err(ProvenanceError::ParentWithoutPubkey);
    }
    if parent.len() == 0 {
        return Err(ProvenanceError::PubkeyWithoutParent);
    }
    let slash = find_mark(parent, '/');
    if slash == parent.len() {
        return Err(ProvenanceError::ParentWithoutSeparator);
    }
    let head = sub_chars(parent, 0, slash);
    let tail = sub_chars(parent, slash + 1, parent.len());
    proof {
        assert(head@ =~= parent@.take(slash as int));
        assert(tail@ =~= parent@.skip(slash + 1));
    }
    let volume = match Ulid::from_chars(head.as_slice()) {
        Some(u) => u,
        None => {
            return Err(ProvenanceError::ParentVolumeNotUlid);
        },
    };
    let snapshot = match Ulid::from_chars(tail.as_slice()) {
        Some(u) => u,
        None => {
            return Err(ProvenanceError::ParentSnapshotNotUlid);
        },
    };
    let bytes = match decode_hex_chars(pubkey) {
        Ok(b) => b,
        Err(e) => {
            return Err(ProvenanceError::BadHex(e));
        },
    };
    match array_of_32(bytes.as_slice()) {
        None => Err(ProvenanceError::ParentPubkeyLength),
        Some(pubkey) => Ok(
            Some(
                ParentRef {
                    volume_ulid: volume.to_text(),
                    snapshot_ulid: snapshot.to_text(),
                    pubkey,
                },
            ),
        ),
    }
}

/// The lineage and signature that a file says.
pub fn parse_provenance(content: &str) -> (r: Result<
    (ProvenanceLineage, Vec<u8>),
    ProvenanceError,
>)
    ensures
        match r {
            Ok((lineage, sig)) => provenance_read(content@) == Ok::<
                (LineageView, Seq<u8>),
                ProvenanceError,
            >((lineage@, sig@)),
            Err(e) => provenance_read(content@) == Err::<(LineageView, Seq<u8>), ProvenanceError>(
                e,
            ),
        },
{
    let chars = chars_of(content);
    let list = split_lines(chars.as_slice());
    let t = match read_lines(&list) {
        Ok(t) => t,
        Err(e) => {
            return Err(e);
        },
    };
    let parent = match t.parent {
        Some(p) => p,
        None => {
            return Err(ProvenanceError::MissingParent);
        },
    };
    let pubkey = match t.pubkey {
        Some(p) => p,
        None => {
            return Err(ProvenanceError::MissingParentPubkey);
        },
    };
    let extent_index = match t.extent_index {
        Some(e) => e,
        None => {
            return Err(ProvenanceError::MissingExtentIndex);
        },
    };
    let sig = match t.sig {
        Some(s) => s,
        None => {
            return Err(ProvenanceError::MissingSig);
        },
    };
    let parent = match read_parent(parent.as_slice(), pubkey.as_slice()) {
        Ok(p) => p,
        Err(e) => {
            return Err(e);
        },
    };
    let oci_source: Option<OciSource> = match (t.image, t.digest, t.arch) {
        (None, None, None) => None,
        (Some(image), Some(digest), Some(arch)) => Some(
            OciSource {
                image: string_of(image.as_slice()),
                digest: string_of(digest.as_slice()),
                arch: string_of(arch.as_slice()),
            },
        ),
        _ => {
            return Err(ProvenanceError::PartialOciSource);
        },
    };
    if t.recovery.len() > 0 {
        if oci_source.is_some() {
            return Err(ProvenanceError::RecoveryWithOciSource);
        }
        return Ok(
            (
                ProvenanceLineage::Recovering {
                    parent,
                    extent_index,
                    recovery_sources: t.recovery,
                },
                sig,
            ),
        );
    }
    match parent {
        Some(parent) => {
            if oci_source.is_some() {
                return Err(ProvenanceError::ForkWithOciSource);
            }
            Ok((ProvenanceLineage::Fork { parent, extent_index }, sig))
        },
        None => Ok((ProvenanceLineage::Root { extent_index, oci_source }, sig)),
    }
}

/// The lineage that a file says, where `key` accepts its signature.
pub open spec fn lineage_verified(text: Seq<char>, key: Seq<u8>) -> Result<
    LineageView,
    ProvenanceError,
> {
    match provenance_read(text) {
        Err(e) => Err(e),
        Ok((v, sig)) => if sig.len() != 64 {
            Err(ProvenanceError::SigLength)
        } else if !ed25519_accepts(key, provenance_message(v), sig) {
            Err(ProvenanceError::SignatureInvalid)
        } else {
            Ok(v)
        },
    }
}

/// Read a lineage file and verify its signature with a key that the caller
/// trusts.
pub fn verify_lineage_with_key(content: &str, verifying_key: &VerifyingKey) -> (r: Result<
    ProvenanceLineage,
    ProvenanceError,
>)
    ensures
        match r {
            Ok(lineage) => lineage_verified(content@, verifying_key.bytes@) == Ok::<
                LineageView,
                ProvenanceError,
            >(lineage@),
            Err(e) => lineage_verified(content@, verifying_key.bytes@) == Err::<
                LineageView,
                ProvenanceError,
            >(e),
        },
{
    let (lineage, sig) = match parse_provenance(content) {
        Ok(pair) => pair,
        Err(e) => {
            return Err(e);
        },
    };
    let sig = match array_of_64(sig.as_slice()) {
        Some(s) => s,
        None => {
            return Err(ProvenanceError::SigLength);
        },
    };
    let msg = provenance_signing_input(&lineage);
    if verifying_key.verify(msg.as_slice(), &sig) {
        Ok(lineage)
    } else {
        Err(ProvenanceError::SignatureInvalid)
    }
}

// ---------------------------------------------------------------------------
// Writing and reading back
// ---------------------------------------------------------------------------

/// A parent as a volume has one: two ULIDs and a key of 32 bytes.
pub open spec fn is_parent(p: ParentView) -> bool {
    &&& exists|u: Ulid| p.volume_ulid == #[trigger] u.text()
    &&& exists|u: Ulid| p.snapshot_ulid == #[trigger] u.text()
    &&& p.pubkey.len() == 32
}

/// A lineage that its text gives back: its parent is one, no text in it holds
/// a line feed or ends in a carriage return, and a volume being claimed back
/// has something to read meanwhile.
pub open spec fn is_writable(v: LineageView) -> bool {
    &&& v.parent() matches Some(p) ==> is_parent(p)
    &&& forall|i: int| 0 <= i < v.extents().len() ==> is_line(#[trigger] v.extents()[i])
    &&& v.oci() matches Some(o) ==> is_line(o.image) && is_line(o.digest) && is_line(o.arch)
    &&& v is Recovering ==> v.recovery().len() > 0
}

proof fn lemma_stripped(prefix: Seq<char>, rest: Seq<char>)
    ensures
        stripped(prefix + rest, prefix) == Some(rest),
{
    assert((prefix + rest).take(prefix.len() as int) =~= prefix);
    assert((prefix + rest).skip(prefix.len() as int) =~= rest);
}

proof fn lemma_not_stripped(line: Seq<char>, prefix: Seq<char>, i: int)
    requires
        0 <= i < line.len(),
        i < prefix.len(),
        line[i] != prefix[i],
    ensures
        stripped(line, prefix) is None,
        line != prefix,
{
    if prefix.len() <= line.len() {
        assert(line.take(prefix.len() as int)[i] == line[i]);
    }
}

proof fn lemma_literals()
    ensures
        "  "@ == seq![' ', ' '],
        "oci_image: "@.len() == 11 && "oci_image: "@[0] == 'o' && "oci_image: "@[4] == 'i',
        "oci_digest: "@.len() == 12 && "oci_digest: "@[0] == 'o' && "oci_digest: "@[4] == 'd',
        "oci_arch: "@.len() == 10 && "oci_arch: "@[0] == 'o' && "oci_arch: "@[4] == 'a',
        "parent_pubkey: "@.len() == 15 && "parent_pubkey: "@[0] == 'p' && "parent_pubkey: "@[6]
            == '_',
        "parent_pubkey:"@.len() == 14 && "parent_pubkey:"@[0] == 'p' && "parent_pubkey:"@[6]
            == '_',
        "parent: "@.len() == 8 && "parent: "@[0] == 'p' && "parent: "@[6] == ':',
        "parent:"@.len() == 7 && "parent:"@[0] == 'p' && "parent:"@[6] == ':',
        "extent_index:"@.len() == 13 && "extent_index:"@[0] == 'e',
        "recovery_sources:"@.len() == 17 && "recovery_sources:"@[0] == 'r',
        "sig: "@.len() == 5 && "sig: "@[0] == 's',
{
    reveal_strlit("  ");
    reveal_strlit("oci_image: ");
    reveal_strlit("oci_digest: ");
    reveal_strlit("oci_arch: ");
    reveal_strlit("parent_pubkey: ");
    reveal_strlit("parent_pubkey:");
    reveal_strlit("parent: ");
    reveal_strlit("parent:");
    reveal_strlit("extent_index:");
    reveal_strlit("recovery_sources:");
    reveal_strlit("sig: ");
    assert("  "@ =~= seq![' ', ' ']);
}

/// What each kind of written line says.
proof fn lemma_written_lines(t: ProvenanceText, x: Seq<char>)
    ensures
        with_line(t, "parent: "@ + x) == Ok::<ProvenanceText, ProvenanceError>(
            ProvenanceText { parent: Some(x), section: Section::Outside, ..t },
        ),
        with_line(t, "parent_pubkey: "@ + x) == Ok::<ProvenanceText, ProvenanceError>(
            ProvenanceText { pubkey: Some(x), section: Section::Outside, ..t },
        ),
        with_line(t, "oci_image: "@ + x) == Ok::<ProvenanceText, ProvenanceError>(
            ProvenanceText { image: Some(x), section: Section::Outside, ..t },
        ),
        with_line(t, "oci_digest: "@ + x) == Ok::<ProvenanceText, ProvenanceError>(
            ProvenanceText { digest: Some(x), section: Section::Outside, ..t },
        ),
        with_line(t, "oci_arch: "@ + x) == Ok::<ProvenanceText, ProvenanceError>(
            ProvenanceText { arch: Some(x), section: Section::Outside, ..t },
        ),
        with_line(t, "extent_index:"@) == Ok::<ProvenanceText, ProvenanceError>(
            ProvenanceText {
                extent_index: Some(Seq::empty()),
                section: Section::ExtentIndex,
                ..t
            },
        ),
        with_line(t, "recovery_sources:"@) == Ok::<ProvenanceText, ProvenanceError>(
            ProvenanceText { section: Section::RecoverySources, ..t },
        ),
        hex_decoded(x) matches Ok(sig) ==> with_line(t, "sig: "@ + x) == Ok::<
            ProvenanceText,
            ProvenanceError,
        >(ProvenanceText { sig: Some(sig), section: Section::Outside, ..t }),
{
    lemma_literals();
    lemma_stripped("parent: "@, x);
    lemma_stripped("parent_pubkey: "@, x);
    lemma_stripped("oci_image: "@, x);
    lemma_stripped("oci_digest: "@, x);
    lemma_stripped("oci_arch: "@, x);
    lemma_stripped("sig: "@, x);

    let l = "parent: "@ + x;
    lemma_not_stripped(l, "  "@, 0);
    lemma_not_stripped(l, "oci_image: "@, 0);
    lemma_not_stripped(l, "oci_digest: "@, 0);
    lemma_not_stripped(l, "oci_arch: "@, 0);
    lemma_not_stripped(l, "parent_pubkey: "@, 6);
    lemma_not_stripped(l, "parent_pubkey:"@, 6);

    let l = "parent_pubkey: "@ + x;
    lemma_not_stripped(l, "  "@, 0);
    lemma_not_stripped(l, "oci_image: "@, 0);
    lemma_not_stripped(l, "oci_digest: "@, 0);
    lemma_not_stripped(l, "oci_arch: "@, 0);

    lemma_not_stripped("oci_image: "@ + x, "  "@, 0);
    lemma_not_stripped("oci_digest: "@ + x, "  "@, 0);
    lemma_not_stripped("oci_digest: "@ + x, "oci_image: "@, 4);
    lemma_not_stripped("oci_arch: "@ + x, "  "@, 0);
    lemma_not_stripped("oci_arch: "@ + x, "oci_image: "@, 4);
    lemma_not_stripped("oci_arch: "@ + x, "oci_digest: "@, 4);

    lemma_first_letter_differs("extent_index:"@);
    lemma_first_letter_differs("recovery_sources:"@);
    lemma_not_stripped("recovery_sources:"@, "extent_index:"@, 0);
    lemma_first_letter_differs("sig: "@ + x);
    lemma_not_stripped("sig: "@ + x, "extent_index:"@, 0);
    lemma_not_stripped("sig: "@ + x, "recovery_sources:"@, 0);
}

proof fn lemma_first_letter_differs(line: Seq<char>)
    requires
        line.len() > 0,
        line[0] != ' ',
        line[0] != 'o',
        line[0] != 'p',
    ensures
        stripped(line, "  "@) is None,
        stripped(line, "oci_image: "@) is None,
        stripped(line, "oci_digest: "@) is None,
        stripped(line, "oci_arch: "@) is None,
        stripped(line, "parent_pubkey: "@) is None,
        stripped(line, "parent: "@) is None,
        line != "parent_pubkey:"@,
        line != "parent:"@,
{
    lemma_literals();
    lemma_not_stripped(line, "  "@, 0);
    lemma_not_stripped(line, "oci_image: "@, 0);
    lemma_not_stripped(line, "oci_digest: "@, 0);
    lemma_not_stripped(line, "oci_arch: "@, 0);
    lemma_not_stripped(line, "parent_pubkey: "@, 0);
    lemma_not_stripped(line, "parent: "@, 0);
    lemma_not_stripped(line, "parent_pubkey:"@, 0);
    lemma_not_stripped(line, "parent:"@, 0);
}

/// Indented lines after the header of the extent index are its entries.
proof fn lemma_written_extents(pre: Seq<Seq<char>>, t: ProvenanceText, list: Seq<Seq<char>>)
    requires
        with_lines(pre) == Ok::<ProvenanceText, ProvenanceError>(t),
        t.section is ExtentIndex,
        t.extent_index == Some(Seq::<Seq<char>>::empty()),
    ensures
        with_lines(pre + prefixed("  "@, list)) == Ok::<ProvenanceText, ProvenanceError>(
            ProvenanceText { extent_index: Some(list), ..t },
        ),
    decreases list.len(),
{
    let all = pre + prefixed("  "@, list);
    if list.len() == 0 {
        assert(all =~= pre);
        assert(list =~= Seq::<Seq<char>>::empty());
    } else {
        lemma_written_extents(pre, t, list.drop_last());
        assert(all.drop_last() =~= pre + prefixed("  "@, list.drop_last()));
        assert(all.last() == "  "@ + list.last());
        lemma_stripped("  "@, list.last());
        assert(list.drop_last().push(list.last()) =~= list);
    }
}

/// Indented lines after the header of the recovery sources are ULIDs.
proof fn lemma_written_recovery(pre: Seq<Seq<char>>, t: ProvenanceText, list: Seq<Ulid>)
    requires
        with_lines(pre) == Ok::<ProvenanceText, ProvenanceError>(t),
        t.section is RecoverySources,
        t.recovery == Seq::<Ulid>::empty(),
    ensures
        with_lines(pre + prefixed("  "@, ulid_texts(list))) == Ok::<
            ProvenanceText,
            ProvenanceError,
        >(ProvenanceText { recovery: list, ..t }),
    decreases list.len(),
{
    let all = pre + prefixed("  "@, ulid_texts(list));
    if list.len() == 0 {
        assert(all =~= pre);
        assert(list =~= Seq::<Ulid>::empty());
    } else {
        lemma_written_recovery(pre, t, list.drop_last());
        assert(all.drop_last() =~= pre + prefixed("  "@, ulid_texts(list.drop_last())));
        assert(all.last() == "  "@ + list.last().text());
        lemma_stripped("  "@, list.last().text());
        crate::ulid_text::law_ulid_text_round_trip(list.last());
        assert(list.drop_last().push(list.last()) =~= list);
    }
}

proof fn lemma_one_more(list: Seq<Seq<char>>, line: Seq<char>)
    ensures
        with_lines(list.push(line)) == (match with_lines(list) {
            Ok(t) => with_line(t, line),
            Err(e) => Err(e),
        }),
{
    assert(list.push(line).drop_last() =~= list);
}

/// What has been said of the lineage.
spec fn says(
    list: Seq<Seq<char>>,
    parent: Option<Seq<char>>,
    pubkey: Option<Seq<char>>,
    extent_index: Option<Seq<Seq<char>>>,
    oci: Option<OciView>,
    recovery: Seq<Ulid>,
) -> bool {
    with_lines(list) matches Ok(t) && t == (ProvenanceText {
        parent,
        pubkey,
        extent_index,
        image: match oci {
            Some(o) => Some(o.image),
            None => None,
        },
        digest: match oci {
            Some(o) => Some(o.digest),
            None => None,
        },
        arch: match oci {
            Some(o) => Some(o.arch),
            None => None,
        },
        recovery,
        sig: None,
        section: t.section,
    })
}

proof fn lemma_parent_lines_read(parent: Seq<char>, pubkey: Seq<char>, extents: Seq<Seq<char>>)
    ensures
        says(
            seq!["parent: "@ + parent, "parent_pubkey: "@ + pubkey, "extent_index:"@] + prefixed(
                "  "@,
                extents,
            ),
            Some(parent),
            Some(pubkey),
            Some(extents),
            None,
            Seq::empty(),
        ),
{
    let none = Seq::<Seq<char>>::empty();
    let l1 = none.push("parent: "@ + parent);
    lemma_one_more(none, "parent: "@ + parent);
    lemma_written_lines(nothing_read(), parent);
    let t1 = with_lines(l1)->Ok_0;

    let l2 = l1.push("parent_pubkey: "@ + pubkey);
    lemma_one_more(l1, "parent_pubkey: "@ + pubkey);
    lemma_written_lines(t1, pubkey);
    let t2 = with_lines(l2)->Ok_0;

    let l3 = l2.push("extent_index:"@);
    lemma_one_more(l2, "extent_index:"@);
    lemma_written_lines(t2, Seq::empty());
    let t3 = with_lines(l3)->Ok_0;

    lemma_written_extents(l3, t3, extents);
    assert(l3 =~= seq!["parent: "@ + parent, "parent_pubkey: "@ + pubkey, "extent_index:"@]);
}

#[verifier::rlimit(40)]
#[verifier::spinoff_prover]
proof fn lemma_oci_lines_read(
    list: Seq<Seq<char>>,
    parent: Option<Seq<char>>,
    pubkey: Option<Seq<char>>,
    extent_index: Option<Seq<Seq<char>>>,
    oci: Option<OciView>,
)
    requires
        says(list, parent, pubkey, extent_index, None, Seq::empty()),
    ensures
        says(list + oci_lines(oci), parent, pubkey, extent_index, oci, Seq::empty()),
{
    let t = with_lines(list)->Ok_0;
    match oci {
        Some(o) => {
            let a = list.push("oci_image: "@ + o.image);
            lemma_one_more(list, "oci_image: "@ + o.image);
            lemma_written_lines(t, o.image);
            let ta = with_lines(a)->Ok_0;
            let b = a.push("oci_digest: "@ + o.digest);
            lemma_one_more(a, "oci_digest: "@ + o.digest);
            lemma_written_lines(ta, o.digest);
            let tb = with_lines(b)->Ok_0;
            let c = b.push("oci_arch: "@ + o.arch);
            lemma_one_more(b, "oci_arch: "@ + o.arch);
            lemma_written_lines(tb, o.arch);
            assert(list + oci_lines(oci) =~= c);
        },
        None => {
            assert(list + oci_lines(oci) =~= list);
        },
    }
}

proof fn lemma_recovery_lines_read(
    list: Seq<Seq<char>>,
    parent: Option<Seq<char>>,
    pubkey: Option<Seq<char>>,
    extent_index: Option<Seq<Seq<char>>>,
    oci: Option<OciView>,
    recovery: Seq<Ulid>,
)
    requires
        says(list, parent, pubkey, extent_index, oci, Seq::empty()),
    ensures
        says(list + recovery_lines(recovery), parent, pubkey, extent_index, oci, recovery),
{
    if recovery.len() > 0 {
        let t = with_lines(list)->Ok_0;
        let a = list.push("recovery_sources:"@);
        lemma_one_more(list, "recovery_sources:"@);
        lemma_written_lines(t, Seq::empty());
        let ta = with_lines(a)->Ok_0;
        lemma_written_recovery(a, ta, recovery);
        assert(list + recovery_lines(recovery) =~= a + prefixed("  "@, ulid_texts(recovery)));
    } else {
        assert(list + recovery_lines(recovery) =~= list);
        assert(recovery =~= Seq::<Ulid>::empty());
    }
}

/// What the lines of a written lineage say, up to the signature.
proof fn lemma_lineage_lines_read(v: LineageView)
    ensures
        says(
            lineage_lines(v),
            Some(parent_text(v)),
            Some(pubkey_text(v)),
            Some(v.extents()),
            v.oci(),
            v.recovery(),
        ),
{
    let head = seq![
        "parent: "@ + parent_text(v),
        "parent_pubkey: "@ + pubkey_text(v),
        "extent_index:"@,
    ] + prefixed("  "@, v.extents());
    lemma_parent_lines_read(parent_text(v), pubkey_text(v), v.extents());
    lemma_oci_lines_read(
        head,
        Some(parent_text(v)),
        Some(pubkey_text(v)),
        Some(v.extents()),
        v.oci(),
    );
    lemma_recovery_lines_read(
        head + oci_lines(v.oci()),
        Some(parent_text(v)),
        Some(pubkey_text(v)),
        Some(v.extents()),
        v.oci(),
        v.recovery(),
    );
}

proof fn lemma_line_of_prefix(prefix: Seq<char>, rest: Seq<char>)
    requires
        is_line(prefix),
        is_line(rest),
    ensures
        is_line(prefix + rest),
{
    let l = prefix + rest;
    if rest.len() > 0 {
        assert(l.last() == rest.last());
    } else {
        assert(l =~= prefix);
    }
}

proof fn lemma_literal_lines()
    ensures
        is_line("  "@),
        is_line("oci_image: "@),
        is_line("oci_digest: "@),
        is_line("oci_arch: "@),
        is_line("parent_pubkey: "@),
        is_line("parent: "@),
        is_line("extent_index:"@),
        is_line("recovery_sources:"@),
        is_line("sig: "@),
        is_line("segments:"@),
{
    reveal_strlit("  ");
    reveal_strlit("oci_image: ");
    reveal_strlit("oci_digest: ");
    reveal_strlit("oci_arch: ");
    reveal_strlit("parent_pubkey: ");
    reveal_strlit("parent: ");
    reveal_strlit("extent_index:");
    reveal_strlit("recovery_sources:");
    reveal_strlit("sig: ");
    reveal_strlit("segments:");
}

proof fn lemma_prefixed_lines(prefix: Seq<char>, list: Seq<Seq<char>>)
    requires
        is_line(prefix),
        forall|i: int| 0 <= i < list.len() ==> is_line(#[trigger] list[i]),
    ensures
        forall|i: int| 0 <= i < list.len() ==> is_line(#[trigger] prefixed(prefix, list)[i]),
{
    assert forall|i: int| 0 <= i < list.len() implies is_line(
        #[trigger] prefixed(prefix, list)[i],
    ) by {
        lemma_line_of_prefix(prefix, list[i]);
    }
}

proof fn lemma_hex_line(bytes: Seq<u8>)
    ensures
        is_line(hex_text(bytes)),
{
    crate::text::lemma_hex_text_plain(bytes);
}

proof fn lemma_ulid_lines(list: Seq<Ulid>)
    ensures
        forall|i: int| 0 <= i < list.len() ==> is_line(#[trigger] ulid_texts(list)[i]),
{
    assert forall|i: int| 0 <= i < list.len() implies is_line(#[trigger] ulid_texts(list)[i]) by {
        crate::ulid_text::lemma_ulid_text_plain(list[i]);
    }
}

proof fn lemma_parent_line(p: ParentView)
    requires
        is_parent(p),
    ensures
        is_line(p.display()),
        parent_read(p.display(), hex_text(p.pubkey)) == Ok::<Option<ParentView>, ProvenanceError>(
            Some(p),
        ),
{
    let u = choose|u: Ulid| p.volume_ulid == #[trigger] u.text();
    let s = choose|u: Ulid| p.snapshot_ulid == #[trigger] u.text();
    crate::ulid_text::lemma_ulid_text_plain(u);
    crate::ulid_text::lemma_ulid_text_plain(s);
    crate::ulid_text::law_ulid_text_round_trip(u);
    crate::ulid_text::law_ulid_text_round_trip(s);
    let d = p.display();
    assert forall|i: int| 0 <= i < d.len() implies d[i] != '\n' by {
        if i < 26 {
            assert(d[i] == u.text()[i]);
        } else if i > 26 {
            assert(d[i] == s.text()[i - 27]);
        }
    }
    assert(d.last() == s.text()[25]);
    assert forall|i: int| 0 <= i < 26 implies d[i] != '/' by {
        assert(d[i] == u.text()[i]);
    }
    crate::text::lemma_first_mark(d, '/', 26);
    assert(d.take(26) =~= u.text());
    assert(d.skip(27) =~= s.text());
    crate::text::law_hex_round_trip(p.pubkey);
    crate::text::lemma_hex_text_plain(p.pubkey);
}

proof fn lemma_all_lines(v: LineageView, sig: Seq<u8>)
    requires
        is_writable(v),
    ensures
        forall|i: int|
            0 <= i < provenance_lines(v, sig).len() ==> is_line(
                #[trigger] provenance_lines(v, sig)[i],
            ),
{
    lemma_literal_lines();
    lemma_hex_line(sig);
    lemma_line_of_prefix("sig: "@, hex_text(sig));
    match v.parent() {
        Some(p) => {
            lemma_parent_line(p);
            lemma_hex_line(p.pubkey);
        },
        None => {},
    }
    lemma_line_of_prefix("parent: "@, parent_text(v));
    lemma_line_of_prefix("parent_pubkey: "@, pubkey_text(v));
    lemma_prefixed_lines("  "@, v.extents());
    lemma_ulid_lines(v.recovery());
    lemma_prefixed_lines("  "@, ulid_texts(v.recovery()));
    match v.oci() {
        Some(o) => {
            lemma_line_of_prefix("oci_image: "@, o.image);
            lemma_line_of_prefix("oci_digest: "@, o.digest);
            lemma_line_of_prefix("oci_arch: "@, o.arch);
        },
        None => {},
    }
    let all = provenance_lines(v, sig);
    let head = seq![
        "parent: "@ + parent_text(v),
        "parent_pubkey: "@ + pubkey_text(v),
        "extent_index:"@,
    ];
    let extents = prefixed("  "@, v.extents());
    let oci = oci_lines(v.oci());
    let rec = recovery_lines(v.recovery());
    assert forall|i: int| 0 <= i < all.len() implies is_line(#[trigger] all[i]) by {
        let a = head.len() as int;
        let b = a + extents.len();
        let c = b + oci.len();
        let d = c + rec.len();
        if i < a {
            assert(all[i] == head[i]);
        } else if i < b {
            assert(all[i] == extents[i - a]);
        } else if i < c {
            assert(all[i] == oci[i - b]);
        } else if i < d {
            assert(all[i] == rec[i - c]);
            if i > c {
                assert(rec[i - c] == prefixed("  "@, ulid_texts(v.recovery()))[i - c - 1]);
            }
        }
    }
}

/// What the lines of a written lineage say, with the signature.
proof fn lemma_signed_lines_read(v: LineageView, sig: Seq<u8>)
    ensures
        with_lines(provenance_lines(v, sig)) matches Ok(t) && t.parent == Some(parent_text(v))
            && t.pubkey == Some(pubkey_text(v)) && t.extent_index == Some(v.extents()) && t.recovery
            == v.recovery() && t.sig == Some(sig) && (match v.oci() {
            Some(o) => t.image == Some(o.image) && t.digest == Some(o.digest) && t.arch == Some(
                o.arch,
            ),
            None => t.image is None && t.digest is None && t.arch is None,
        }),
{
    lemma_lineage_lines_read(v);
    let t = with_lines(lineage_lines(v))->Ok_0;
    lemma_one_more(lineage_lines(v), "sig: "@ + hex_text(sig));
    crate::text::law_hex_round_trip(sig);
    lemma_written_lines(t, hex_text(sig));
}

/// What a written lineage's lines say is that lineage.
proof fn lemma_lineage_of_text(v: LineageView, sig: Seq<u8>, t: ProvenanceText)
    requires
        is_writable(v),
        t.parent == Some(parent_text(v)),
        t.pubkey == Some(pubkey_text(v)),
        t.extent_index == Some(v.extents()),
        t.recovery == v.recovery(),
        t.sig == Some(sig),
        match v.oci() {
            Some(o) => t.image == Some(o.image) && t.digest == Some(o.digest) && t.arch == Some(
                o.arch,
            ),
            None => t.image is None && t.digest is None && t.arch is None,
        },
    ensures
        lineage_read(t) == Ok::<(LineageView, Seq<u8>), ProvenanceError>((v, sig)),
{
    match v.parent() {
        Some(p) => {
            lemma_parent_line(p);
        },
        None => {},
    }
}

/// A lineage file gives back the lineage and the signature it was written
/// from.
pub proof fn law_provenance_round_trip(v: LineageView, sig: Seq<u8>)
    requires
        is_writable(v),
    ensures
        provenance_read(unlines(provenance_lines(v, sig))) == Ok::<
            (LineageView, Seq<u8>),
            ProvenanceError,
        >((v, sig)),
{
    let text = unlines(provenance_lines(v, sig));
    assert(lines(text) == provenance_lines(v, sig)) by {
        lemma_all_lines(v, sig);
        crate::text::law_lines_of_unlines(provenance_lines(v, sig));
    }
    lemma_signed_lines_read(v, sig);
    lemma_lineage_of_text(v, sig, with_lines(lines(text))->Ok_0);
}

/// The content of a volume's lineage file: what reading it with the signer's
/// public key gives back.
pub fn write_provenance(signer: &Ed25519Signer, lineage: &ProvenanceLineage) -> (s: String)
    ensures
        s@ == unlines(
            provenance_lines(
                lineage@,
                ed25519_signature(signer.secret(), provenance_message(lineage@)),
            ),
        ),
        is_writable(lineage@) ==> lineage_verified(s@, ed25519_public_key(signer.secret())) == Ok::<
            LineageView,
            ProvenanceError,
        >(lineage@),
{
    let msg = provenance_signing_input(lineage);
    let sig = signer.sign(msg.as_slice());
    proof {
        if is_writable(lineage@) {
            law_provenance_round_trip(lineage@, sig@);
        }
    }
    serialize_provenance(lineage, &sig)
}

// ---------------------------------------------------------------------------
// Laws
// ---------------------------------------------------------------------------

/// No text of the lineage holds a NUL.
pub open spec fn nul_free(v: LineageView) -> bool {
    &&& sep_free(v.extents(), '\0')
    &&& v.oci() matches Some(o) ==> sep_free(seq![o.image, o.digest, o.arch], '\0')
}

proof fn lemma_parent_nul_free(v: LineageView)
    requires
        v.parent() matches Some(p) ==> is_parent(p),
    ensures
        sep_free(seq![parent_text(v), pubkey_text(v)], '\0'),
{
    let pair = seq![parent_text(v), pubkey_text(v)];
    assert forall|i: int, j: int|
        0 <= i < pair.len() && 0 <= j < pair[i].len() implies #[trigger] pair[i][j] != '\0' by {
        if let Some(p) = v.parent() {
            let u = choose|u: Ulid| p.volume_ulid == #[trigger] u.text();
            let s = choose|u: Ulid| p.snapshot_ulid == #[trigger] u.text();
            crate::ulid_text::lemma_ulid_text_plain(u);
            crate::ulid_text::lemma_ulid_text_plain(s);
            crate::text::lemma_hex_text_plain(p.pubkey);
            if i == 0 {
                if j < 26 {
                    assert(pair[0][j] == u.text()[j]);
                } else if j > 26 {
                    assert(pair[0][j] == s.text()[j - 27]);
                }
            } else {
                assert(pair[1][j] == hex_text(p.pubkey)[j]);
            }
        }
    }
}

proof fn lemma_recovery_nul_free(list: Seq<Ulid>)
    ensures
        sep_free(recovery_fields(list), '\0'),
{
    let fields = recovery_fields(list);
    reveal_strlit("elide-recovery-sources-v1");
    assert forall|i: int, j: int|
        0 <= i < fields.len() && 0 <= j < fields[i].len() implies #[trigger] fields[i][j]
        != '\0' by {
        if i == 0 {
            assert(fields[0] == PROVENANCE_RECOVERY_SOURCES_DOMAIN@);
        } else {
            crate::ulid_text::lemma_ulid_text_plain(list[i - 1]);
            assert(fields[i] == list[i - 1].text());
            assert('0' <= list[i - 1].text()[j]);
        }
    }
}

proof fn lemma_sep_free_both(a: Seq<Seq<char>>, b: Seq<Seq<char>>)
    requires
        sep_free(a, '\0'),
        sep_free(b, '\0'),
    ensures
        sep_free(a + b, '\0'),
{
    let all = a + b;
    assert forall|i: int, j: int|
        0 <= i < all.len() && 0 <= j < all[i].len() implies #[trigger] all[i][j] != '\0' by {
        if i < a.len() {
            assert(all[i] == a[i]);
            assert(a[i][j] != '\0');
        } else {
            assert(all[i] == b[i - a.len()]);
            assert(b[i - a.len()][j] != '\0');
        }
    }
}

proof fn lemma_fields_nul_free(v: LineageView)
    requires
        v.parent() matches Some(p) ==> is_parent(p),
        nul_free(v),
    ensures
        sep_free(provenance_fields(v), '\0'),
{
    let pair = seq![parent_text(v), pubkey_text(v)];
    lemma_parent_nul_free(v);
    lemma_recovery_nul_free(v.recovery());
    assert(sep_free(oci_fields(v.oci()), '\0'));
    lemma_sep_free_both(pair, v.extents());
    lemma_sep_free_both(pair + v.extents(), oci_fields(v.oci()));
    lemma_sep_free_both(
        pair + v.extents() + oci_fields(v.oci()),
        recovery_fields(v.recovery()),
    );
}

/// Two parents that are written the same are the same.
proof fn lemma_parent_tells(a: LineageView, b: LineageView)
    requires
        a.parent() matches Some(p) ==> is_parent(p),
        b.parent() matches Some(p) ==> is_parent(p),
        parent_text(a) == parent_text(b),
        pubkey_text(a) == pubkey_text(b),
    ensures
        a.parent() == b.parent(),
{
    if let Some(p) = a.parent() {
        lemma_parent_line(p);
        assert(p.display().len() > 0);
    }
    if let Some(p) = b.parent() {
        lemma_parent_line(p);
        assert(p.display().len() > 0);
    }
}

/// The signed bytes bind the whole lineage: two lineages that sign the same
/// bytes have the same parent, the parent's key included, refer to the same
/// snapshots, were imported from the same image and may read the same volumes,
/// where as many snapshots are named in both and an image in both or neither.
pub proof fn law_the_signed_bytes_bind_the_lineage(a: LineageView, b: LineageView)
    requires
        a.parent() matches Some(p) ==> is_parent(p),
        b.parent() matches Some(p) ==> is_parent(p),
        nul_free(a),
        nul_free(b),
        a.extents().len() == b.extents().len(),
        a.oci() is Some == b.oci() is Some,
        provenance_message(a) == provenance_message(b),
    ensures
        a.parent() == b.parent(),
        a.extents() == b.extents(),
        a.oci() == b.oci(),
        a.recovery() == b.recovery(),
{
    let (fa, fb) = (provenance_fields(a), provenance_fields(b));
    vstd::utf8::encode_utf8_decode_utf8(joined(fa, '\0'));
    vstd::utf8::encode_utf8_decode_utf8(joined(fb, '\0'));
    lemma_fields_nul_free(a);
    lemma_fields_nul_free(b);
    crate::text::law_joined_tells_how_many(fa, fb, '\0');
    crate::text::law_joined_tells(fa, fb, '\0');
    assert(fa[0] == parent_text(a) && fb[0] == parent_text(b));
    assert(fa[1] == pubkey_text(a) && fb[1] == pubkey_text(b));
    lemma_parent_tells(a, b);
    let n = a.extents().len() as int;
    assert forall|i: int| 0 <= i < n implies a.extents()[i] == b.extents()[i] by {
        assert(fa[2 + i] == a.extents()[i]);
        assert(fb[2 + i] == b.extents()[i]);
    }
    assert(a.extents() =~= b.extents());
    let k: int = if a.oci() is Some {
        3
    } else {
        0
    };
    if a.oci() is Some {
        let (x, y) = (a.oci()->0, b.oci()->0);
        assert(fa[2 + n] == x.image && fb[2 + n] == y.image);
        assert(fa[3 + n] == x.digest && fb[3 + n] == y.digest);
        assert(fa[4 + n] == x.arch && fb[4 + n] == y.arch);
    }
    let (ra, rb) = (a.recovery(), b.recovery());
    assert(recovery_fields(ra).len() == recovery_fields(rb).len());
    assert(ra.len() == rb.len());
    assert forall|i: int| 0 <= i < ra.len() implies ra[i] == rb[i] by {
        assert(fa[3 + n + k + i] == ra[i].text());
        assert(fb[3 + n + k + i] == rb[i].text());
        crate::ulid_text::law_ulid_text_tells(ra[i], rb[i]);
    }
    assert(ra =~= rb);
}

/// Whoever reads a written lineage with some key gets it where that key accepts
/// the signature, and nothing where it does not.
pub proof fn law_a_lineage_is_read_where_its_signature_is_accepted(
    v: LineageView,
    sig: Seq<u8>,
    key: Seq<u8>,
)
    requires
        is_writable(v),
        sig.len() == 64,
    ensures
        lineage_verified(unlines(provenance_lines(v, sig)), key) == (if ed25519_accepts(
            key,
            provenance_message(v),
            sig,
        ) {
            Ok::<LineageView, ProvenanceError>(v)
        } else {
            Err::<LineageView, ProvenanceError>(ProvenanceError::SignatureInvalid)
        }),
{
    law_provenance_round_trip(v, sig);
}

proof fn lemma_kept_line(list: Seq<Seq<char>>, line: Seq<char>)
    requires
        list.len() > 0,
        list.drop_last().contains(line),
    ensures
        list.contains(line),
{
    let before = list.drop_last();
    let i = choose|i: int| 0 <= i < before.len() && before[i] == line;
    assert(list[i] == line);
}

/// The value stands on a line after `key`.
pub open spec fn said_after(list: Seq<Seq<char>>, key: Seq<char>, value: Seq<char>) -> bool {
    list.contains(key + value)
}

proof fn lemma_said_after(
    list: Seq<Seq<char>>,
    key: Seq<char>,
    was: Option<Seq<char>>,
    now: Option<Seq<char>>,
)
    requires
        list.len() > 0,
        was matches Some(v) ==> said_after(list.drop_last(), key, v),
        now == was || (now is Some && stripped(list.last(), key) == now),
    ensures
        now matches Some(v) ==> said_after(list, key, v),
{
    if let Some(v) = now {
        if now == was {
            lemma_kept_line(list, key + v);
        } else {
            crate::text::law_a_prefix_comes_off(list.last(), key, v);
            assert(list[list.len() - 1] == key + v);
        }
    }
}

/// The signature is what a line of the text says.
pub open spec fn sig_said(list: Seq<Seq<char>>, sig: Seq<u8>) -> bool {
    exists|digits: Seq<char>| #[trigger]
        said_after(list, "sig: "@, digits) && hex_decoded(digits) == Ok::<Seq<u8>, HexError>(sig)
}

/// The ULID is what an indented line of the text says.
pub open spec fn ulid_said(list: Seq<Seq<char>>, u: Ulid) -> bool {
    exists|entry: Seq<char>| #[trigger]
        said_after(list, "  "@, entry) && ulid_read(entry) == Some(u)
}

/// What the lines are taken to say of the lists and the signature, they say.
proof fn lemma_lists_said(list: Seq<Seq<char>>)
    ensures
        with_lines(list) matches Ok(t) ==> {
            &&& t.extent_index is Some ==> list.contains("extent_index:"@)
            &&& t.extent_index matches Some(entries) ==> forall|i: int|
                0 <= i < entries.len() ==> said_after(list, "  "@, #[trigger] entries[i])
            &&& forall|i: int|
                0 <= i < t.recovery.len() ==> ulid_said(list, #[trigger] t.recovery[i])
            &&& t.sig matches Some(sig) ==> sig_said(list, sig)
        },
    decreases list.len(),
{
    if list.len() > 0 && with_lines(list) is Ok {
        let before = list.drop_last();
        lemma_lists_said(before);
        let line = list.last();
        assert(list[list.len() - 1] == line);
        let was = with_lines(before)->Ok_0;
        let t = with_lines(list)->Ok_0;
        if before.contains("extent_index:"@) {
            lemma_kept_line(list, "extent_index:"@);
        }
        if stripped(line, "  "@) is Some {
            crate::text::law_a_prefix_comes_off(line, "  "@, stripped(line, "  "@)->0);
        }
        if let Some(entries) = t.extent_index {
            assert forall|i: int| 0 <= i < entries.len() implies said_after(
                list,
                "  "@,
                #[trigger] entries[i],
            ) by {
                if was.extent_index is Some && i < (was.extent_index->0).len() && entries[i] == (
                was.extent_index->0)[i] {
                    assert(said_after(before, "  "@, (was.extent_index->0)[i]));
                    lemma_kept_line(list, "  "@ + entries[i]);
                } else {
                    assert(entries[i] == stripped(line, "  "@)->0);
                }
            }
        }
        assert forall|i: int| 0 <= i < t.recovery.len() implies ulid_said(
            list,
            #[trigger] t.recovery[i],
        ) by {
            if i < was.recovery.len() {
                assert(t.recovery[i] == was.recovery[i]);
                assert(ulid_said(before, was.recovery[i]));
                let entry = choose|entry: Seq<char>| #[trigger]
                    said_after(before, "  "@, entry) && ulid_read(entry) == Some(was.recovery[i]);
                lemma_kept_line(list, "  "@ + entry);
                assert(said_after(list, "  "@, entry));
            } else {
                let entry = stripped(line, "  "@)->0;
                assert(said_after(list, "  "@, entry));
            }
        }
        if let Some(sig) = t.sig {
            if was.sig == Some(sig) {
                let digits = choose|digits: Seq<char>| #[trigger]
                    said_after(before, "sig: "@, digits) && hex_decoded(digits) == Ok::<
                        Seq<u8>,
                        HexError,
                    >(sig);
                lemma_kept_line(list, "sig: "@ + digits);
                assert(said_after(list, "sig: "@, digits));
            } else {
                let digits = stripped(line, "sig: "@)->0;
                crate::text::law_a_prefix_comes_off(line, "sig: "@, digits);
                assert(said_after(list, "sig: "@, digits));
            }
        }
    }
}

/// What the lines are taken to say of the image, they say.
proof fn lemma_image_said(list: Seq<Seq<char>>)
    ensures
        with_lines(list) matches Ok(t) ==> {
            &&& t.image matches Some(x) ==> said_after(list, "oci_image: "@, x)
            &&& t.digest matches Some(x) ==> said_after(list, "oci_digest: "@, x)
            &&& t.arch matches Some(x) ==> said_after(list, "oci_arch: "@, x)
        },
    decreases list.len(),
{
    if list.len() > 0 && with_lines(list) is Ok {
        let before = list.drop_last();
        lemma_image_said(before);
        let was = with_lines(before)->Ok_0;
        let t = with_lines(list)->Ok_0;
        lemma_said_after(list, "oci_image: "@, was.image, t.image);
        lemma_said_after(list, "oci_digest: "@, was.digest, t.digest);
        lemma_said_after(list, "oci_arch: "@, was.arch, t.arch);
    }
}

/// The value stands on a line after `key` and a space, or is empty and `key`
/// stands alone.
pub open spec fn said_or_empty(
    list: Seq<Seq<char>>,
    key: Seq<char>,
    alone: Seq<char>,
    value: Seq<char>,
) -> bool {
    said_after(list, key, value) || (value.len() == 0 && list.contains(alone))
}

proof fn lemma_said_or_empty(
    list: Seq<Seq<char>>,
    key: Seq<char>,
    alone: Seq<char>,
    was: Option<Seq<char>>,
    now: Option<Seq<char>>,
)
    requires
        list.len() > 0,
        was matches Some(v) ==> said_or_empty(list.drop_last(), key, alone, v),
        now == was || (now is Some && stripped(list.last(), key) == now) || (now == Some(
            Seq::<char>::empty(),
        ) && list.last() == alone),
    ensures
        now matches Some(v) ==> said_or_empty(list, key, alone, v),
{
    if let Some(v) = now {
        if now == was {
            if said_after(list.drop_last(), key, v) {
                lemma_kept_line(list, key + v);
            } else {
                lemma_kept_line(list, alone);
            }
        } else if stripped(list.last(), key) == now {
            crate::text::law_a_prefix_comes_off(list.last(), key, v);
            assert(list[list.len() - 1] == key + v);
        } else {
            assert(list[list.len() - 1] == alone);
        }
    }
}

/// What the lines are taken to say of the parent, they say.
proof fn lemma_parent_said(list: Seq<Seq<char>>)
    ensures
        with_lines(list) matches Ok(t) ==> {
            &&& t.parent matches Some(x) ==> said_or_empty(list, "parent: "@, "parent:"@, x)
            &&& t.pubkey matches Some(x) ==> said_or_empty(
                list,
                "parent_pubkey: "@,
                "parent_pubkey:"@,
                x,
            )
        },
    decreases list.len(),
{
    if list.len() > 0 && with_lines(list) is Ok {
        let before = list.drop_last();
        lemma_parent_said(before);
        let was = with_lines(before)->Ok_0;
        let t = with_lines(list)->Ok_0;
        lemma_said_or_empty(list, "parent: "@, "parent:"@, was.parent, t.parent);
        lemma_said_or_empty(
            list,
            "parent_pubkey: "@,
            "parent_pubkey:"@,
            was.pubkey,
            t.pubkey,
        );
    }
}

/// Whatever lineage a file is read to say, its text says: every snapshot and
/// every volume stands on an indented line, an image has its three lines, the
/// header of the list is there, and so are the parent's two lines and the
/// signature.
pub proof fn law_a_lineage_is_what_its_text_says(text: Seq<char>, v: LineageView, sig: Seq<u8>)
    requires
        provenance_read(text) == Ok::<(LineageView, Seq<u8>), ProvenanceError>((v, sig)),
    ensures
        lines(text).contains("extent_index:"@),
        forall|i: int|
            0 <= i < v.extents().len() ==> said_after(
                lines(text),
                "  "@,
                #[trigger] v.extents()[i],
            ),
        forall|i: int|
            0 <= i < v.recovery().len() ==> ulid_said(lines(text), #[trigger] v.recovery()[i]),
        v.oci() matches Some(o) ==> said_after(lines(text), "oci_image: "@, o.image) && said_after(
            lines(text),
            "oci_digest: "@,
            o.digest,
        ) && said_after(lines(text), "oci_arch: "@, o.arch),
        v.parent() is None ==> said_or_empty(lines(text), "parent: "@, "parent:"@, Seq::empty())
            && said_or_empty(
            lines(text),
            "parent_pubkey: "@,
            "parent_pubkey:"@,
            Seq::empty(),
        ),
        v.parent() matches Some(p) ==> is_parent(p) && exists|names: Seq<char>, key: Seq<char>|
            said_after(lines(text), "parent: "@, names) && said_after(
                lines(text),
                "parent_pubkey: "@,
                key,
            ) && #[trigger] parent_read(names, key) == Ok::<Option<ParentView>, ProvenanceError>(
                Some(p),
            ),
        sig_said(lines(text), sig),
{
    let all = lines(text);
    lemma_lists_said(all);
    lemma_image_said(all);
    lemma_parent_said(all);
    let t = with_lines(all)->Ok_0;
    let (names, key) = (t.parent->0, t.pubkey->0);
    if let Some(p) = v.parent() {
        assert(parent_read(names, key) == Ok::<Option<ParentView>, ProvenanceError>(Some(p)));
        assert(said_after(all, "parent: "@, names));
        assert(said_after(all, "parent_pubkey: "@, key));
        let slash = first_mark(names, '/');
        assert(p.volume_ulid == (ulid_read(names.take(slash))->0).text());
        assert(p.snapshot_ulid == (ulid_read(names.skip(slash + 1))->0).text());
    } else {
        assert(names =~= Seq::<char>::empty());
        assert(key =~= Seq::<char>::empty());
    }
}

/// A lineage that is read with a key was signed: the key accepts a signature of
/// just that lineage, which the text holds.
pub proof fn law_a_verified_lineage_was_signed(text: Seq<char>, key: Seq<u8>, v: LineageView)
    requires
        lineage_verified(text, key) == Ok::<LineageView, ProvenanceError>(v),
    ensures
        exists|sig: Seq<u8>|
            sig.len() == 64 && sig_said(lines(text), sig) && #[trigger] ed25519_accepts(
                key,
                provenance_message(v),
                sig,
            ),
{
    let (w, sig) = provenance_read(text)->Ok_0;
    law_a_lineage_is_what_its_text_says(text, v, sig);
    assert(ed25519_accepts(key, provenance_message(v), sig));
}

/// Once a volume has been claimed back it reads no other volume meanwhile, and
/// descends from what it did. Any other lineage stays as it is.
pub proof fn law_claiming_back_ends_only_the_recovery(v: LineageView)
    ensures
        v.cleared().recovery().len() == 0,
        !(v.cleared() is Recovering),
        v.cleared().parent() == v.parent(),
        v.cleared().extents() == v.extents(),
        v.cleared().oci() == v.oci(),
        !(v is Recovering) ==> v.cleared() == v,
{
}

} // verus!
