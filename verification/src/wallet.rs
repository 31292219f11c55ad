//! Local signer. The keypair file is a JSON array of 64 bytes
//! (seed || pubkey); the signer is made from the seed half.

use vstd::prelude::*;
use ed25519_dalek::SigningKey;

use crate::text::{decimal_u64, decimal_text};

verus! {

#[verifier::external_type_specification]
#[verifier::external_body]
pub struct ExSigningKey(ed25519_dalek::SigningKey);

/// What `serde_json` reads from a text as a JSON array of byte values:
/// the bytes, or the display text of its error when the text is not one.
pub uninterp spec fn json_byte_array(text: Seq<char>) -> Result<Seq<u8>, Seq<char>>;

/// The Base58 digits, Bitcoin alphabet, lowest value first.
pub open spec fn base58_alphabet() -> Seq<char> {
    "123456789ABCDEFGHJKLMNPQRSTUVWXYZabcdefghijkmnopqrstuvwxyz"@
}

/// The big-endian value of a byte string.
pub open spec fn big_endian_value(bytes: Seq<u8>) -> nat
    decreases bytes.len(),
{
    if bytes.len() == 0 {
        0
    } else {
        big_endian_value(bytes.drop_last()) * 256 + bytes.last() as nat
    }
}

/// The base-58 digits of `n`, most significant first; none for zero.
pub open spec fn base58_digits(n: nat) -> Seq<char>
    decreases n,
{
    if n == 0 {
        Seq::empty()
    } else {
        base58_digits(n / 58) + seq![base58_alphabet()[(n % 58) as int]]
    }
}

/// How many zero bytes a byte string starts with.
pub open spec fn leading_zero_bytes(bytes: Seq<u8>) -> nat
    decreases bytes.len(),
{
    if bytes.len() > 0 && bytes[0] == 0 {
        1 + leading_zero_bytes(bytes.drop_first())
    } else {
        0
    }
}

/// The Base58 text of a byte string: a '1' for each leading zero byte, then
/// the base-58 digits of the string's big-endian value.
pub open spec fn base58_text(bytes: Seq<u8>) -> Seq<char> {
    Seq::new(leading_zero_bytes(bytes), |i: int| '1') + base58_digits(big_endian_value(bytes))
}

/// Calls `serde_json::from_str::<Vec<u8>>`, handing an error back as its
/// display text. The contract names both outcomes.
#[verifier::external_body]
fn parse_byte_array(raw: &str) -> (r: Result<Vec<u8>, String>)
    ensures
        match r {
            Ok(v) => json_byte_array(raw@) == Ok::<Seq<u8>, Seq<char>>(v@),
            Err(e) => json_byte_array(raw@) == Err::<Seq<u8>, Seq<char>>(e@),
        },
{
    match serde_json::from_str::<Vec<u8>>(raw) {
        Ok(v) => Ok(v),
        Err(e) => Err(e.to_string()),
    }
}

/// The signing key that `SigningKey::from_bytes` makes from a 32-byte
/// seed: the seed as secret key, with the public key derived from it.
pub uninterp spec fn signing_key_of(seed: Seq<u8>) -> SigningKey;

/// Calls `ed25519_dalek::SigningKey::from_bytes` on a 32-byte seed. The key
/// is computed from the seed alone, so the contract names it as a function
/// of the seed.
#[verifier::external_body]
fn signing_key_from_seed(seed: &[u8; 32]) -> (k: SigningKey)
    ensures
        k == signing_key_of(seed@),
{
    SigningKey::from_bytes(seed)
}

/// The Ed25519 public key, in its 32-byte compressed form, that belongs
/// to a 32-byte secret seed (RFC 8032, section 5.1.5).
pub uninterp spec fn ed25519_public_key(seed: Seq<u8>) -> Seq<u8>;

/// Calls `ed25519_dalek::SigningKey::from_bytes` on a seed, then
/// `verifying_key().to_bytes()`. The public key is computed from the seed
/// alone, so the contract names it as a function of the seed.
#[verifier::external_body]
fn public_key_of_seed(seed: &[u8; 32]) -> (r: [u8; 32])
    ensures
        r@ == ed25519_public_key(seed@),
{
    SigningKey::from_bytes(seed).verifying_key().to_bytes()
}

/// Calls `bs58::encode(..).into_string()` with the default (Bitcoin)
/// alphabet.
#[verifier::external_body]
fn base58_encode(bytes: &[u8; 32]) -> (r: String)
    ensures
        r@ == base58_text(bytes@),
{
    bs58::encode(bytes).into_string()
}

#[derive(Debug)]
pub enum WalletError {
    EnvVarMissing,
    ReadFailed(String),
    BadFormat(String),
}

/// The text a wallet error is reported with.
pub open spec fn wallet_message(e: WalletError) -> Seq<char> {
    match e {
        WalletError::EnvVarMissing => "SOLANA_KEYPAIR_PATH not set"@,
        WalletError::ReadFailed(s) => "failed to read keypair file: "@ + s@,
        WalletError::BadFormat(s) => "malformed keypair file: "@ + s@,
    }
}

impl WalletError {
    pub fn message(&self) -> (m: String)
        ensures
            m@ == wallet_message(*self),
    {
        match self {
            WalletError::EnvVarMissing => String::from_str("SOLANA_KEYPAIR_PATH not set"),
            WalletError::ReadFailed(e) => String::from_str("failed to read keypair file: ").concat(
                e.as_str(),
            ),
            WalletError::BadFormat(e) => String::from_str("malformed keypair file: ").concat(
                e.as_str(),
            ),
        }
    }
}

pub struct LocalSigner {
    seed: [u8; 32],
    key: SigningKey,
}

impl LocalSigner {
    /// The 32-byte seed the signing key was made from.
    pub closed spec fn seed(&self) -> Seq<u8> {
        self.seed@
    }

    /// The signing key made from the seed.
    pub closed spec fn key(&self) -> SigningKey {
        self.key
    }

    /// Make the signer from a keypair file's text: a JSON array of exactly
    /// 64 bytes, whose first 32 are the seed.
    pub fn from_keypair_text(raw: &str) -> (r: Result<Self, WalletError>)
        ensures
            match json_byte_array(raw@) {
                Err(t) => r matches Err(WalletError::BadFormat(m)) && m@
                    == "not a JSON byte array: "@ + t,
                Ok(bytes) => if bytes.len() != 64 {
                    r matches Err(WalletError::BadFormat(m)) && m@
                        == "expected 64 bytes (seed || pubkey), got "@ + decimal_text(bytes.len() as int)
                } else {
                    r matches Ok(signer) && signer.seed() == bytes.take(32) && signer.key()
                        == signing_key_of(bytes.take(32))
                },
            },
    {
        let bytes = match parse_byte_array(raw) {
            Ok(b) => b,
            Err(e) => {
                let m = String::from_str("not a JSON byte array: ").concat(e.as_str());
                return Err(WalletError::BadFormat(m));
            },
        };
        if bytes.len() != 64 {
            let m = String::from_str("expected 64 bytes (seed || pubkey), got ").concat(
                decimal_u64(bytes.len() as u64).as_str(),
            );
            return Err(WalletError::BadFormat(m));
        }
        let mut seed = [0u8; 32];
        let mut i: usize = 0;
        while i < 32
            invariant
                i <= 32,
                bytes@.len() == 64,
                forall|j: int| 0 <= j < i ==> seed@[j] == bytes@[j],
            decreases 32 - i,
        {
            seed[i] = bytes[i];
            i += 1;
        }
        assert(seed@ =~= bytes@.take(32));
        let key = signing_key_from_seed(&seed);
        Ok(LocalSigner { seed, key })
    }

    /// The public key that belongs to the signer's seed.
    pub fn pubkey_bytes(&self) -> (r: [u8; 32])
        ensures
            r@ == ed25519_public_key(self.seed()),
    {
        public_key_of_seed(&self.seed)
    }

    /// The public key in Base58. The seed itself never leaves the signer.
    pub fn pubkey_base58(&self) -> (s: String)
        ensures
            s@ == base58_text(ed25519_public_key(self.seed())),
    {
        let k = self.pubkey_bytes();
        base58_encode(&k)
    }

    /// The signing key the signer holds.
    pub fn signing_key(&self) -> (k: &SigningKey)
        ensures
            *k == self.key(),
    {
        &self.key
    }
}

} // verus!
