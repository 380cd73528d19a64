//! Ed25519 keys: secrets that sign, and public keys that verify.

use vstd::prelude::*;

use crate::text::{
    chars_equal, chars_of, decode_hex_chars, hex_chars, hex_decoded, hex_text, string_of, trim,
    trimmed_end, trimmed_start, HexError,
};

verus! {

/// The file of a volume's secret key: 32 raw bytes.
pub const VOLUME_KEY_FILE: &'static str = "volume.key";

/// The file of a volume's public key: 64 hexadecimal digits and a line feed.
pub const VOLUME_PUB_FILE: &'static str = "volume.pub";

/// The file of a volume's signed lineage.
pub const VOLUME_PROVENANCE_FILE: &'static str = "volume.provenance";

/// The public key of a secret.
pub uninterp spec fn ed25519_public_key(secret: Seq<u8>) -> Seq<u8>;

/// The signature a secret makes of a message.
pub uninterp spec fn ed25519_signature(secret: Seq<u8>, msg: Seq<u8>) -> Seq<u8>;

/// Whether these bytes are a public key.
pub uninterp spec fn ed25519_valid_key(key: Seq<u8>) -> bool;

/// Whether a public key accepts a signature of a message.
pub uninterp spec fn ed25519_accepts(key: Seq<u8>, msg: Seq<u8>, sig: Seq<u8>) -> bool;

/// `ed25519_dalek::SigningKey::verifying_key`: the public key of the secret,
/// a function of the secret alone, and a valid key.
#[verifier::external_body]
fn public_key_of(secret: &[u8; 32]) -> (key: [u8; 32])
    ensures
        key@ == ed25519_public_key(secret@),
        ed25519_valid_key(key@),
{
    ed25519_dalek::SigningKey::from_bytes(secret).verifying_key().to_bytes()
}

/// `ed25519_dalek::Signer::sign`: the signature of the message, a function of
/// the secret and the message alone, which the secret's public key accepts.
#[verifier::external_body]
fn signature_of(secret: &[u8; 32], msg: &[u8]) -> (sig: [u8; 64])
    ensures
        sig@ == ed25519_signature(secret@, msg@),
        ed25519_accepts(ed25519_public_key(secret@), msg@, sig@),
{
    let key = ed25519_dalek::SigningKey::from_bytes(secret);
    ed25519_dalek::Signer::sign(&key, msg).to_bytes()
}

/// `ed25519_dalek::VerifyingKey::from_bytes`: whether the bytes are a public
/// key.
#[verifier::external_body]
fn is_public_key(key: &[u8; 32]) -> (b: bool)
    ensures
        b == ed25519_valid_key(key@),
{
    ed25519_dalek::VerifyingKey::from_bytes(key).is_ok()
}

/// `ed25519_dalek::Verifier::verify`: whether the key accepts the signature of
/// the message. Bytes that are no key accept none.
#[verifier::external_body]
fn accepts_signature(key: &[u8; 32], msg: &[u8], sig: &[u8; 64]) -> (b: bool)
    ensures
        b == ed25519_accepts(key@, msg@, sig@),
{
    let sig = ed25519_dalek::Signature::from_bytes(sig);
    match ed25519_dalek::VerifyingKey::from_bytes(key) {
        Ok(key) => ed25519_dalek::Verifier::verify(&key, msg, &sig).is_ok(),
        Err(_) => false,
    }
}

/// `ed25519_dalek::SigningKey::generate` on the system's random source: a new
/// secret. Nothing is said of which.
#[verifier::external_body]
fn random_secret() -> (secret: [u8; 32]) {
    ed25519_dalek::SigningKey::generate(&mut rand_core::OsRng).to_bytes()
}

/// Why some bytes or a text are no key.
#[derive(Clone, Copy, Debug, PartialEq, Eq, Structural)]
pub enum KeyError {
    /// Not 32 bytes.
    WrongLength,
    /// Not hexadecimal.
    NotHex(HexError),
    /// Not written as a key file is: lower-case digits and a line feed.
    NotPlain,
    /// 32 bytes that are no public key.
    Invalid,
}

/// The first 32 bytes as an array, where there are just so many.
pub fn array_of_32(bytes: &[u8]) -> (a: Option<[u8; 32]>)
    ensures
        a is Some == (bytes@.len() == 32),
        a matches Some(arr) ==> arr@ == bytes@,
{
    if bytes.len() != 32 {
        return None;
    }
    let mut arr: [u8; 32] = [0;32];
    let mut i: usize = 0;
    while i < 32
        invariant
            i <= 32,
            bytes@.len() == 32,
            forall|j: int| 0 <= j < i ==> arr@[j] == bytes@[j],
        decreases 32 - i,
    {
        arr[i] = bytes[i];
        i += 1;
    }
    assert(arr@ =~= bytes@);
    Some(arr)
}

/// The first 64 bytes as an array, where there are just so many.
pub fn array_of_64(bytes: &[u8]) -> (a: Option<[u8; 64]>)
    ensures
        a is Some == (bytes@.len() == 64),
        a matches Some(arr) ==> arr@ == bytes@,
{
    if bytes.len() != 64 {
        return None;
    }
    let mut arr: [u8; 64] = [0;64];
    let mut i: usize = 0;
    while i < 64
        invariant
            i <= 64,
            bytes@.len() == 64,
            forall|j: int| 0 <= j < i ==> arr@[j] == bytes@[j],
        decreases 64 - i,
    {
        arr[i] = bytes[i];
        i += 1;
    }
    assert(arr@ =~= bytes@);
    Some(arr)
}

/// A public key.
#[derive(Clone, Copy, Debug)]
pub struct VerifyingKey {
    pub bytes: [u8; 32],
}

impl VerifyingKey {
    /// The public key with these bytes.
    pub fn from_bytes(bytes: &[u8; 32]) -> (key: Result<VerifyingKey, KeyError>)
        ensures
            key is Ok == ed25519_valid_key(bytes@),
            key matches Ok(k) ==> k.bytes@ == bytes@,
            key matches Err(e) ==> e == KeyError::Invalid,
    {
        if is_public_key(bytes) {
            Ok(VerifyingKey { bytes: *bytes })
        } else {
            Err(KeyError::Invalid)
        }
    }

    /// Whether the key accepts the signature of the message.
    pub fn verify(&self, msg: &[u8], sig: &[u8; 64]) -> (b: bool)
        ensures
            b == ed25519_accepts(self.bytes@, msg@, sig@),
    {
        accepts_signature(&self.bytes, msg, sig)
    }

    /// What the public key file holds.
    pub fn file_text(&self) -> (s: String)
        ensures
            s@ == key_text(self.bytes@),
    {
        let mut text = hex_chars(self.bytes.as_slice());
        text.push('\n');
        string_of(text.as_slice())
    }
}

/// The text of a public key file: two lower-case digits for each byte, and a
/// line feed.
pub open spec fn key_text(bytes: Seq<u8>) -> Seq<char> {
    hex_text(bytes).push('\n')
}

/// The 32 bytes that the text of a public key file says. Just one text says
/// them; of any other the error tells no digits, another number of them, and
/// digits in another form apart.
pub open spec fn key_digits(text: Seq<char>) -> Result<Seq<u8>, KeyError> {
    match hex_decoded(trimmed_end(trimmed_start(text))) {
        Err(e) => Err(KeyError::NotHex(e)),
        Ok(bytes) => if bytes.len() != 32 {
            Err(KeyError::WrongLength)
        } else if text != key_text(bytes) {
            Err(KeyError::NotPlain)
        } else {
            Ok(bytes)
        },
    }
}

/// The key that the text of a public key file says.
pub open spec fn key_file_read(text: Seq<char>) -> Result<Seq<u8>, KeyError> {
    match key_digits(text) {
        Err(e) => Err(e),
        Ok(bytes) => if ed25519_valid_key(bytes) {
            Ok(bytes)
        } else {
            Err(KeyError::Invalid)
        },
    }
}

/// The 32 bytes that the text of a public key file says: 64 lower-case digits
/// and a line feed.
pub fn read_key_digits(text: &str) -> (bytes: Result<[u8; 32], KeyError>)
    ensures
        match bytes {
            Ok(b) => key_digits(text@) == Ok::<Seq<u8>, KeyError>(b@) && text@ == key_text(b@),
            Err(e) => key_digits(text@) == Err::<Seq<u8>, KeyError>(e),
        },
        bytes is Ok <==> exists|b: Seq<u8>| b.len() == 32 && text@ == #[trigger] key_text(b),
{
    proof {
        assert forall|b: Seq<u8>| b.len() == 32 && text@ == #[trigger] key_text(b) implies key_digits(
            text@,
        ) == Ok::<Seq<u8>, KeyError>(b) by {
            lemma_key_digits(b);
        }
    }
    let chars = chars_of(text);
    let digits = trim(chars.as_slice());
    match decode_hex_chars(digits.as_slice()) {
        Err(e) => Err(KeyError::NotHex(e)),
        Ok(bytes) => match array_of_32(bytes.as_slice()) {
            None => Err(KeyError::WrongLength),
            Some(arr) => {
                let mut plain = hex_chars(arr.as_slice());
                plain.push('\n');
                if chars_equal(plain.as_slice(), text) {
                    Ok(arr)
                } else {
                    Err(KeyError::NotPlain)
                }
            },
        },
    }
}

/// The public key that the text of a key file holds. The file holds just 64
/// lower-case digits and a line feed.
pub fn load_verifying_key(text: &str) -> (key: Result<VerifyingKey, KeyError>)
    ensures
        key is Ok == key_file_read(text@) is Ok,
        key matches Ok(k) ==> key_file_read(text@) == Ok::<Seq<u8>, KeyError>(k.bytes@) && text@
            == key_text(k.bytes@),
        key matches Err(e) ==> key_file_read(text@) == Err::<Seq<u8>, KeyError>(e),
{
    match read_key_digits(text) {
        Ok(bytes) => VerifyingKey::from_bytes(&bytes),
        Err(e) => Err(e),
    }
}

proof fn lemma_key_digits(bytes: Seq<u8>)
    requires
        bytes.len() == 32,
    ensures
        key_digits(key_text(bytes)) == Ok::<Seq<u8>, KeyError>(bytes),
{
    let digits = hex_text(bytes);
    let text = digits.push('\n');
    crate::text::lemma_hex_text_plain(bytes);
    crate::text::lemma_hex_not_white(bytes);
    assert(trimmed_start(text) == text);
    assert(text.drop_last() =~= digits);
    assert(trimmed_end(digits) == digits);
    assert(trimmed_end(text) == digits);
    crate::text::law_hex_round_trip(bytes);
}

/// The public key file of a key holds that key.
pub proof fn law_key_file_round_trip(bytes: Seq<u8>)
    requires
        bytes.len() == 32,
        ed25519_valid_key(bytes),
    ensures
        key_file_read(key_text(bytes)) == Ok::<Seq<u8>, KeyError>(bytes),
{
    lemma_key_digits(bytes);
}

/// A secret key.
#[derive(Clone)]
pub struct Ed25519Signer {
    secret: [u8; 32],
}

impl Ed25519Signer {
    /// The 32 bytes of the secret.
    pub closed spec fn secret(&self) -> Seq<u8> {
        self.secret@
    }

    /// The signature of the message, which the signer's public key accepts.
    pub fn sign(&self, msg: &[u8]) -> (sig: [u8; 64])
        ensures
            sig@ == ed25519_signature(self.secret(), msg@),
            ed25519_accepts(ed25519_public_key(self.secret()), msg@, sig@),
    {
        signature_of(&self.secret, msg)
    }

    /// The signer's public key.
    pub fn verifying_key(&self) -> (key: VerifyingKey)
        ensures
            key.bytes@ == ed25519_public_key(self.secret()),
            ed25519_valid_key(key.bytes@),
    {
        VerifyingKey { bytes: public_key_of(&self.secret) }
    }
}

/// The signer of 32 bytes of key material, with its public key.
pub fn signer_from_bytes(bytes: &[u8]) -> (pair: Result<(Ed25519Signer, VerifyingKey), KeyError>)
    ensures
        pair is Ok == (bytes@.len() == 32),
        pair matches Ok((signer, key)) ==> signer.secret() == bytes@ && key.bytes@
            == ed25519_public_key(bytes@),
        pair matches Err(e) ==> e == KeyError::WrongLength,
{
    match array_of_32(bytes) {
        None => Err(KeyError::WrongLength),
        Some(secret) => {
            let signer = Ed25519Signer { secret };
            let key = signer.verifying_key();
            Ok((signer, key))
        },
    }
}

/// A signer with a new random secret, and its public key.
pub fn generate_ephemeral_signer() -> (pair: (Ed25519Signer, VerifyingKey))
    ensures
        pair.1.bytes@ == ed25519_public_key(pair.0.secret()),
{
    let signer = Ed25519Signer { secret: random_secret() };
    let key = signer.verifying_key();
    (signer, key)
}

/// A key file says a key just where it is that key's file: any other text, and
/// the file of bytes that are no key, is refused.
pub proof fn law_one_text_says_a_key(text: Seq<char>, bytes: Seq<u8>)
    ensures
        key_file_read(text) == Ok::<Seq<u8>, KeyError>(bytes) ==> bytes.len() == 32
            && ed25519_valid_key(bytes) && text == hex_text(bytes) + seq!['\n'],
        bytes.len() == 32 && !ed25519_valid_key(bytes) ==> key_file_read(key_text(bytes)) == Err::<
            Seq<u8>,
            KeyError,
        >(KeyError::Invalid),
        key_text(bytes) == hex_text(bytes) + seq!['\n'],
{
    assert(hex_text(bytes).push('\n') =~= hex_text(bytes) + seq!['\n']);
    if bytes.len() == 32 {
        lemma_key_digits(bytes);
    }
}

} // verus!
