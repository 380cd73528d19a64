//! Proofs that a coordinator holds a volume's key.

use vstd::prelude::*;
use vstd::utf8::{encode_utf8, encode_utf8_decode_utf8};

use crate::ids::{blake3_digest, content_hash, Ulid};
use crate::keys::{
    ed25519_accepts, ed25519_public_key, ed25519_signature, Ed25519Signer, VerifyingKey,
};
use crate::text::{
    char_seqs, chars_of, decimal, decimal_chars, hex_chars, hex_text, joined, nul_separated,
    sep_free,
};

verus! {

/// The mark that begins the payload.
pub const VOLUME_POSSESSION_DOMAIN: &'static str = "elide-volume-possession-v1";

/// The fields of a possession proof.
pub open spec fn possession_fields(
    owned: Ulid,
    target: Ulid,
    cid_digest: Seq<u8>,
    ts: u64,
    nonce: Seq<u8>,
) -> Seq<Seq<char>> {
    seq![
        VOLUME_POSSESSION_DOMAIN@,
        owned.text(),
        target.text(),
        hex_text(cid_digest),
        decimal(ts as nat),
        hex_text(nonce),
    ]
}

/// The bytes that a possession proof signs: the fields with a NUL between each
/// and the next.
pub open spec fn possession_message(
    owned: Ulid,
    target: Ulid,
    cid_digest: Seq<u8>,
    ts: u64,
    nonce: Seq<u8>,
) -> Seq<u8> {
    encode_utf8(joined(possession_fields(owned, target, cid_digest, ts, nonce), '\0'))
}

/// The bytes that a possession proof signs. The digest of `cid` binds the
/// proof to that credential; `ts` and `nonce` bound its replay.
pub fn volume_possession_signing_input(
    owned: &Ulid,
    target: &Ulid,
    cid: &[u8],
    ts: u64,
    nonce: &[u8],
) -> (msg: Vec<u8>)
    ensures
        msg@ == possession_message(*owned, *target, blake3_digest(cid@), ts, nonce@),
{
    let owned_text = owned.to_text();
    let target_text = target.to_text();
    let digest = content_hash(cid).to_bytes();
    let mut fields: Vec<Vec<char>> = Vec::new();
    fields.push(chars_of(VOLUME_POSSESSION_DOMAIN));
    fields.push(chars_of(owned_text.as_str()));
    fields.push(chars_of(target_text.as_str()));
    fields.push(hex_chars(digest.as_slice()));
    fields.push(decimal_chars(ts));
    fields.push(hex_chars(nonce));
    assert(char_seqs(fields@) =~= possession_fields(
        *owned,
        *target,
        blake3_digest(cid@),
        ts,
        nonce@,
    ));
    nul_separated(&fields)
}

/// Sign a possession proof. The signer's public key accepts it.
pub fn sign_volume_possession(
    signer: &Ed25519Signer,
    owned: &Ulid,
    target: &Ulid,
    cid: &[u8],
    ts: u64,
    nonce: &[u8],
) -> (proof_bytes: [u8; 64])
    ensures
        proof_bytes@ == ed25519_signature(
            signer.secret(),
            possession_message(*owned, *target, blake3_digest(cid@), ts, nonce@),
        ),
        ed25519_accepts(
            ed25519_public_key(signer.secret()),
            possession_message(*owned, *target, blake3_digest(cid@), ts, nonce@),
            proof_bytes@,
        ),
{
    let msg = volume_possession_signing_input(owned, target, cid, ts, nonce);
    signer.sign(msg.as_slice())
}

/// Whether a possession proof holds for the volume's public key.
pub fn verify_volume_possession(
    owned_pub: &VerifyingKey,
    owned: &Ulid,
    target: &Ulid,
    cid: &[u8],
    ts: u64,
    nonce: &[u8],
    proof_bytes: &[u8; 64],
) -> (b: bool)
    ensures
        b == ed25519_accepts(
            owned_pub.bytes@,
            possession_message(*owned, *target, blake3_digest(cid@), ts, nonce@),
            proof_bytes@,
        ),
{
    let msg = volume_possession_signing_input(owned, target, cid, ts, nonce);
    owned_pub.verify(msg.as_slice(), proof_bytes)
}

proof fn lemma_fields_nul_free(
    owned: Ulid,
    target: Ulid,
    cid_digest: Seq<u8>,
    ts: u64,
    nonce: Seq<u8>,
)
    ensures
        sep_free(possession_fields(owned, target, cid_digest, ts, nonce), '\0'),
{
    let fields = possession_fields(owned, target, cid_digest, ts, nonce);
    reveal_strlit("elide-volume-possession-v1");
    crate::ulid_text::lemma_ulid_text_plain(owned);
    crate::ulid_text::lemma_ulid_text_plain(target);
    crate::text::lemma_hex_text_plain(cid_digest);
    crate::text::lemma_hex_text_plain(nonce);
    crate::text::lemma_decimal_plain(ts as nat);
    assert forall|i: int, j: int|
        0 <= i < fields.len() && 0 <= j < fields[i].len() implies #[trigger] fields[i][j]
        != '\0' by {
        if i == 0 {
            assert(fields[i] == "elide-volume-possession-v1"@);
        } else if i == 1 {
            assert(fields[i] == owned.text());
        } else if i == 2 {
            assert(fields[i] == target.text());
        } else if i == 3 {
            assert(fields[i] == hex_text(cid_digest));
        } else if i == 4 {
            assert(fields[i] == decimal(ts as nat));
        } else {
            assert(fields[i] == hex_text(nonce));
        }
    }
}

/// The signed bytes bind every field: two proofs sign the same bytes only
/// where the volumes, the credential's digest, the time and the nonce are the
/// same.
pub proof fn law_possession_binds_every_field(
    owned: Ulid,
    target: Ulid,
    cid_digest: Seq<u8>,
    ts: u64,
    nonce: Seq<u8>,
    other_owned: Ulid,
    other_target: Ulid,
    other_digest: Seq<u8>,
    other_ts: u64,
    other_nonce: Seq<u8>,
)
    requires
        possession_message(owned, target, cid_digest, ts, nonce) == possession_message(
            other_owned,
            other_target,
            other_digest,
            other_ts,
            other_nonce,
        ),
    ensures
        owned == other_owned,
        target == other_target,
        cid_digest == other_digest,
        ts == other_ts,
        nonce == other_nonce,
{
    let a = possession_fields(owned, target, cid_digest, ts, nonce);
    let b = possession_fields(other_owned, other_target, other_digest, other_ts, other_nonce);
    encode_utf8_decode_utf8(joined(a, '\0'));
    encode_utf8_decode_utf8(joined(b, '\0'));
    lemma_fields_nul_free(owned, target, cid_digest, ts, nonce);
    lemma_fields_nul_free(other_owned, other_target, other_digest, other_ts, other_nonce);
    crate::text::law_joined_tells(a, b, '\0');
    assert(a[1] == b[1]);
    assert(a[2] == b[2]);
    assert(a[3] == b[3]);
    assert(a[4] == b[4]);
    assert(a[5] == b[5]);
    crate::ulid_text::law_ulid_text_tells(owned, other_owned);
    crate::ulid_text::law_ulid_text_tells(target, other_target);
    crate::text::law_hex_round_trip(cid_digest);
    crate::text::law_hex_round_trip(other_digest);
    crate::text::law_decimal_tells(ts as nat, other_ts as nat);
    crate::text::law_hex_round_trip(nonce);
    crate::text::law_hex_round_trip(other_nonce);
}

proof fn lemma_begins_with_first(fields: Seq<Seq<char>>)
    requires
        fields.len() > 1,
    ensures
        fields[0].push('\0').is_prefix_of(joined(fields, '\0')),
    decreases fields.len(),
{
    let front = fields.drop_last();
    let text = joined(fields, '\0');
    if fields.len() > 2 {
        lemma_begins_with_first(front);
        assert(front[0] == fields[0]);
        assert(joined(front, '\0').is_prefix_of(text));
    } else {
        assert(joined(front, '\0') == fields[0]);
    }
}

/// The signed bytes begin with the mark of a possession proof, so that they are
/// not taken for anything else that a volume signs.
pub proof fn law_the_message_begins_with_its_mark(
    owned: Ulid,
    target: Ulid,
    cid_digest: Seq<u8>,
    ts: u64,
    nonce: Seq<u8>,
)
    ensures
        ("elide-volume-possession-v1"@ + seq!['\0']).is_prefix_of(
            vstd::utf8::decode_utf8(possession_message(owned, target, cid_digest, ts, nonce)),
        ),
{
    let fields = possession_fields(owned, target, cid_digest, ts, nonce);
    encode_utf8_decode_utf8(joined(fields, '\0'));
    lemma_begins_with_first(fields);
    assert(fields[0].push('\0') =~= "elide-volume-possession-v1"@ + seq!['\0']);
}

} // verus!
