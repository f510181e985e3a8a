//! Digests, key derivation and address encoding, each behind a trusted item
//! that calls the outside crate which computes it.

use vstd::prelude::*;
use ::crypto::digest::Digest;
use rand::RngCore;

verus! {

/// The SHA-256 digest of `data`.
pub uninterp spec fn sha256(data: Seq<u8>) -> Seq<u8>;

/// The RIPEMD-160 digest of `data`.
pub uninterp spec fn ripemd160(data: Seq<u8>) -> Seq<u8>;

/// The Ed25519 public key that belongs to the 32-byte secret seed `seed`.
pub uninterp spec fn ed25519_public_key(seed: Seq<u8>) -> Seq<u8>;

/// What the 20 bytes of an address stand for.
#[derive(Debug, Clone, Copy, PartialEq, Eq, Structural)]
pub enum AddressKind {
    /// The hash of a public key (pay to public key hash).
    KeyHash,
    /// The hash of a script (pay to script hash).
    ScriptHash,
}

/// The network an address belongs to.
#[derive(Debug, Clone, Copy, PartialEq, Eq, Structural)]
pub enum AddressNetwork {
    Main,
    Test,
    Regtest,
}

/// The Base58Check address string of kind `kind` on network `network` whose
/// payload is `body`.
pub uninterp spec fn base58_address(kind: AddressKind, network: AddressNetwork, body: Seq<u8>) -> Seq<char>;

/// The lowercase hexadecimal character of a value below 16.
pub open spec fn hex_char(v: u8) -> char {
    if v < 10 {
        (48 + v) as char
    } else {
        (87 + v) as char
    }
}

/// The lowercase hexadecimal form of `bytes`, two characters per byte, high
/// nibble first.
pub open spec fn hex_lower(bytes: Seq<u8>) -> Seq<char>
    decreases bytes.len(),
{
    if bytes.len() == 0 {
        seq![]
    } else {
        seq![hex_char(bytes[0] / 16), hex_char(bytes[0] % 16)] + hex_lower(bytes.drop_first())
    }
}

/// The value of a lowercase hexadecimal digit.
pub open spec fn hex_digit_value(c: char) -> int {
    if 48 <= c as int <= 57 {
        c as int - 48
    } else {
        c as int - 87
    }
}

/// The lowercase hexadecimal form of `bytes` has two characters per byte,
/// each one of `0-9` or `a-f`, and the pair at `2i`, `2i + 1` reads back, high
/// digit first, as byte `i`.
pub proof fn lemma_hex_lower_digits(bytes: Seq<u8>)
    ensures
        hex_lower(bytes).len() == 2 * bytes.len(),
        forall|i: int| 0 <= i < hex_lower(bytes).len() ==> {
            let c = #[trigger] hex_lower(bytes)[i] as int;
            (48 <= c <= 57) || (97 <= c <= 102)
        },
        forall|i: int| 0 <= i < bytes.len() ==> hex_digit_value(hex_lower(bytes)[2 * i]) * 16 + hex_digit_value(
            hex_lower(bytes)[2 * i + 1],
        ) == #[trigger] bytes[i],
    decreases bytes.len(),
{
    if bytes.len() > 0 {
        let rest = bytes.drop_first();
        lemma_hex_lower_digits(rest);
        let head = seq![hex_char(bytes[0] / 16), hex_char(bytes[0] % 16)];
        let h = hex_lower(bytes);
        assert(h == head + hex_lower(rest));
        assert forall|i: int| 0 <= i < h.len() implies {
            let c = #[trigger] h[i] as int;
            (48 <= c <= 57) || (97 <= c <= 102)
        } by {
            if i >= 2 {
                assert(h[i] == hex_lower(rest)[i - 2]);
            }
        }
        assert forall|i: int| 0 <= i < bytes.len() implies hex_digit_value(h[2 * i]) * 16 + hex_digit_value(
            h[2 * i + 1],
        ) == #[trigger] bytes[i] by {
            if i > 0 {
                assert(h[2 * i] == hex_lower(rest)[2 * (i - 1)]);
                assert(h[2 * i + 1] == hex_lower(rest)[2 * (i - 1) + 1]);
                assert(rest[i - 1] == bytes[i]);
            } else {
                assert(bytes[0] == (bytes[0] / 16) * 16 + bytes[0] % 16);
            }
        }
    }
}

/// SHA-256 of `data`, by `crypto::sha2::Sha256` (`input`, then `result`).
/// Claimed: the 32 bytes are the digest named `sha256`.
#[verifier::external_body]
pub(crate) fn sha256_digest(data: &[u8]) -> (r: [u8; 32])
    ensures
        r@ == sha256(data@),
{
    let mut hasher = ::crypto::sha2::Sha256::new();
    hasher.input(data);
    let mut out = [0u8; 32];
    hasher.result(&mut out);
    out
}

/// SHA-256 of `data` as text, by `crypto::sha2::Sha256` (`input`, then
/// `result_str`). Claimed: the string is the lowercase hexadecimal form of the
/// digest named `sha256`, as `result_str` writes it through `to_hex`.
#[verifier::external_body]
pub(crate) fn sha256_hex(data: &[u8]) -> (r: String)
    ensures
        r@ == hex_lower(sha256(data@)),
        r@.len() == 64,
{
    let mut hasher = ::crypto::sha2::Sha256::new();
    hasher.input(data);
    hasher.result_str()
}

/// RIPEMD-160 of `data`, by `crypto::ripemd160::Ripemd160` (`input`, then
/// `result`). `input` panics on 2^61 bytes or more, which `requires` leaves
/// out. Claimed: the 20 bytes are the digest named `ripemd160`.
#[verifier::external_body]
pub(crate) fn ripemd160_digest(data: &[u8]) -> (r: [u8; 20])
    requires
        data@.len() < 0x2000_0000_0000_0000,
    ensures
        r@ == ripemd160(data@),
{
    let mut hasher = ::crypto::ripemd160::Ripemd160::new();
    hasher.input(data);
    let mut out = [0u8; 20];
    hasher.result(&mut out);
    out
}

/// `crypto::ed25519::keypair` on a 32-byte seed. Claimed, as its source
/// shows: the public key is the one named `ed25519_public_key` for the seed,
/// and the 64-byte secret key is the seed followed by the public key.
#[verifier::external_body]
pub(crate) fn ed25519_keypair(seed: &[u8; 32]) -> (r: ([u8; 64], [u8; 32]))
    ensures
        r.1@ == ed25519_public_key(seed@),
        r.0@ == seed@ + r.1@,
{
    ::crypto::ed25519::keypair(seed)
}

/// 32 bytes from the operating system's generator, by `rand::rngs::OsRng`
/// (`fill_bytes`). Nothing is claimed of the bytes: they are random.
#[verifier::external_body]
pub(crate) fn random_seed() -> [u8; 32] {
    let mut key = [0u8; 32];
    rand::rngs::OsRng.fill_bytes(&mut key);
    key
}

/// `bitcoincash_addr::Address::encode` of a Base58 address of kind `kind`
/// on network `network` with payload `body`; each kind and network is
/// handed over as the crate's own `HashType` and `Network`. Base58 encoding
/// cannot fail, so the `Ok` value is taken. Claimed: the string is the one
/// named `base58_address` for these arguments.
#[verifier::external_body]
pub(crate) fn encode_address(kind: AddressKind, network: AddressNetwork, body: &[u8]) -> (r: String)
    ensures
        r@ == base58_address(kind, network, body@),
{
    let hash_type = match kind {
        AddressKind::KeyHash => bitcoincash_addr::HashType::Key,
        AddressKind::ScriptHash => bitcoincash_addr::HashType::Script,
    };
    let net = match network {
        AddressNetwork::Main => bitcoincash_addr::Network::Main,
        AddressNetwork::Test => bitcoincash_addr::Network::Test,
        AddressNetwork::Regtest => bitcoincash_addr::Network::Regtest,
    };
    let address = bitcoincash_addr::Address::new(body.to_vec(), bitcoincash_addr::Scheme::Base58, hash_type, net);
    address.encode().unwrap()
}

} // verus!
