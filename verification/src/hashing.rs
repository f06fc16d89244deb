//! Digests, key generation and address encoding, all computed by outside
//! crates (rust-crypto, rand, bitcoincash-addr) behind trusted items.

use vstd::prelude::*;

use crypto::digest::Digest;
use rand::RngCore;

verus! {

/// The lower-case hexadecimal digit of a nibble (`0 <= n < 16`).
pub open spec fn hex_digit(n: u8) -> char {
    if n == 0 { '0' }
    else if n == 1 { '1' }
    else if n == 2 { '2' }
    else if n == 3 { '3' }
    else if n == 4 { '4' }
    else if n == 5 { '5' }
    else if n == 6 { '6' }
    else if n == 7 { '7' }
    else if n == 8 { '8' }
    else if n == 9 { '9' }
    else if n == 10 { 'a' }
    else if n == 11 { 'b' }
    else if n == 12 { 'c' }
    else if n == 13 { 'd' }
    else if n == 14 { 'e' }
    else { 'f' }
}

/// Lower-case hexadecimal encoding: two digits per byte, high nibble first.
pub open spec fn hex_lower(bytes: Seq<u8>) -> Seq<char>
    decreases bytes.len(),
{
    if bytes.len() == 0 {
        seq![]
    } else {
        seq![hex_digit(bytes[0] / 16), hex_digit(bytes[0] % 16)] + hex_lower(bytes.drop_first())
    }
}

/// The hex encoding has two digits per byte.
pub proof fn lemma_hex_lower_len(bytes: Seq<u8>)
    ensures
        hex_lower(bytes).len() == 2 * bytes.len(),
    decreases bytes.len(),
{
    if bytes.len() > 0 {
        lemma_hex_lower_len(bytes.drop_first());
    }
}

/// A lower-case hexadecimal digit.
pub open spec fn is_lower_hex_digit(c: char) -> bool {
    ('0' <= c && c <= '9') || ('a' <= c && c <= 'f')
}

/// Every character is a lower-case hexadecimal digit.
pub open spec fn is_lower_hex(s: Seq<char>) -> bool {
    forall|i: int| 0 <= i < s.len() ==> #[trigger] is_lower_hex_digit(s[i])
}

/// The hex encoding consists of lower-case hexadecimal digits.
pub proof fn lemma_hex_lower_digits(bytes: Seq<u8>)
    ensures
        is_lower_hex(hex_lower(bytes)),
    decreases bytes.len(),
{
    if bytes.len() > 0 {
        lemma_hex_lower_digits(bytes.drop_first());
        let h = hex_lower(bytes);
        let head = seq![hex_digit(bytes[0] / 16), hex_digit(bytes[0] % 16)];
        let tail = hex_lower(bytes.drop_first());
        assert(h == head + tail);
        assert forall|i: int| 0 <= i < h.len() implies #[trigger] is_lower_hex_digit(h[i]) by {
            if i >= 2 {
                assert(h[i] == tail[i - 2]);
            }
        }
    }
}

/// The first four hex digits are those of the first two bytes.
pub proof fn lemma_hex_lower_prefix(bytes: Seq<u8>)
    requires
        bytes.len() >= 2,
    ensures
        hex_lower(bytes).len() >= 4,
        hex_lower(bytes)[0] == hex_digit(bytes[0] / 16),
        hex_lower(bytes)[1] == hex_digit(bytes[0] % 16),
        hex_lower(bytes)[2] == hex_digit(bytes[1] / 16),
        hex_lower(bytes)[3] == hex_digit(bytes[1] % 16),
{
    lemma_hex_lower_len(bytes);
    let rest = bytes.drop_first();
    assert(hex_lower(rest) == seq![hex_digit(rest[0] / 16), hex_digit(rest[0] % 16)] + hex_lower(
        rest.drop_first(),
    ));
}

/// The SHA-256 digest of `data`, as rust-crypto's `Sha256` computes it.
pub uninterp spec fn sha256(data: Seq<u8>) -> Seq<u8>;

/// The RIPEMD-160 digest of `data`, as rust-crypto's `Ripemd160` computes it.
pub uninterp spec fn ripemd160(data: Seq<u8>) -> Seq<u8>;

/// The Ed25519 public key that rust-crypto's `ed25519::keypair` derives from a seed.
pub uninterp spec fn ed25519_public_key(seed: Seq<u8>) -> Seq<u8>;

/// The Base58Check string that bitcoincash-addr's `Address::encode` gives for a
/// Base58, script-hash, main-network address with the given body.
pub uninterp spec fn base58_script_address(body: Seq<u8>) -> Seq<char>;

/// rust-crypto `Sha256::new`, `input(data)`, `result_str()`.
/// Trusted: `result_str` writes the 32-byte digest (`output_bits` is 256)
/// into a buffer and returns rustc-serialize's `to_hex` of it, lower-case
/// digits, high nibble first; the digest itself is the named `sha256`.
#[verifier::external_body]
pub(crate) fn sha256_hex(data: &[u8]) -> (res: String)
    ensures
        res@ == hex_lower(sha256(data@)),
        res@.len() == 64,
{
    let mut hasher = crypto::sha2::Sha256::new();
    hasher.input(data);
    hasher.result_str()
}

/// rust-crypto `Sha256::new`, `input(data)`, `result(out)` into a 32-byte buffer.
/// Trusted: `result` writes the 32 digest bytes, the named `sha256`.
#[verifier::external_body]
pub(crate) fn sha256_digest(data: &[u8]) -> (res: Vec<u8>)
    ensures
        res@ == sha256(data@),
        res@.len() == 32,
{
    let mut hasher = crypto::sha2::Sha256::new();
    hasher.input(data);
    let mut out = vec![0u8; 32];
    hasher.result(&mut out);
    out
}

/// rust-crypto `Ripemd160::new`, `input(data)`, `result(out)` into a 20-byte buffer.
/// Trusted: `result` writes the 20 digest bytes, the named `ripemd160`.
#[verifier::external_body]
pub(crate) fn ripemd160_digest(data: &[u8]) -> (res: Vec<u8>)
    ensures
        res@ == ripemd160(data@),
        res@.len() == 20,
{
    let mut hasher = crypto::ripemd160::Ripemd160::new();
    hasher.input(data);
    let mut out = vec![0u8; 20];
    hasher.result(&mut out);
    out
}

/// rust-crypto `ed25519::keypair(seed)`, both arrays turned into vectors.
/// Trusted: the public key is 32 bytes, the named `ed25519_public_key` of the
/// seed, and the 64-byte secret key is the 32-byte seed followed by the public
/// key (the source copies both into it).
#[verifier::external_body]
pub(crate) fn ed25519_keypair(seed: &[u8; 32]) -> (res: (Vec<u8>, Vec<u8>))
    ensures
        res.1@ == ed25519_public_key(seed@),
        res.1@.len() == 32,
        res.0@ == seed@ + res.1@,
{
    let (secret, public) = crypto::ed25519::keypair(seed);
    (secret.to_vec(), public.to_vec())
}

/// rand `OsRng.try_fill_bytes` on a 32-byte array; its error (the operating
/// system's random source failed) becomes `None`. Nothing is stated of the
/// bytes or of whether it fails: both come from the operating system.
#[verifier::external_body]
pub(crate) fn random_seed() -> (res: Option<[u8; 32]>) {
    let mut key: [u8; 32] = [0; 32];
    match rand::rngs::OsRng.try_fill_bytes(&mut key) {
        Ok(()) => Some(key),
        Err(_) => None,
    }
}

/// bitcoincash-addr `Address::encode` of a Base58, script-hash address with the
/// given body and the default (main) network; the error becomes `None`.
/// Trusted: Base58 encoding cannot fail (the source unwraps it and says so);
/// the string is the named `base58_script_address` of the body; it is made of
/// Base58 digits, so it holds no `:`; and `Address::decode` reads a 20-byte
/// body back from it (the 25 encoded bytes start with the non-zero version
/// byte 0x05, so Base58 decoding gives them back, and the checksum is the one
/// encoding wrote).
#[verifier::external_body]
pub(crate) fn encode_script_address(body: &Vec<u8>) -> (res: Option<String>)
    ensures
        res is Some,
        res.unwrap()@ == base58_script_address(body@),
        forall|i: int| 0 <= i < res.unwrap()@.len() ==> #[trigger] res.unwrap()@[i] != ':',
        body@.len() == 20 ==> address_body(res.unwrap()@) == Some(body@),
{
    let address = bitcoincash_addr::Address {
        body: body.clone(),
        scheme: bitcoincash_addr::Scheme::Base58,
        hash_type: bitcoincash_addr::HashType::Script,
        ..Default::default()
    };
    address.encode().ok()
}

/// The string has exactly one `:` and fewer than 10 characters after it: the
/// CashAddr form whose payload, once its 8 checksum symbols are taken off, is
/// too short to hold a version byte. No such string is an address:
/// bitcoincash-addr's CashAddr decoder panics on those that pass its checksum
/// and rejects the others, and its Base58 decoder rejects every string with a `:`.
pub open spec fn cashaddr_payload_too_short(address: Seq<char>) -> bool {
    exists|i: int|
        0 <= i < address.len() && #[trigger] address[i] == ':' && (forall|j: int|
            0 <= j < address.len() && j != i ==> address[j] != ':') && address.len() - i - 1 < 10
}

/// The body bytes of an address string as bitcoincash-addr's `Address::decode`
/// reads it (CashAddr, else Base58Check), or `None` where it rejects the string.
pub uninterp spec fn address_body(address: Seq<char>) -> Option<Seq<u8>>;

/// bitcoincash-addr `Address::decode(address)`, keeping the body; the error
/// (neither encoding accepts the string) becomes `None`.
/// Trusted: the result is the named `address_body` of the string. The decoder
/// panics on some strings that `cashaddr_payload_too_short` describes (it takes
/// the first byte of an empty payload), so those are left out.
#[verifier::external_body]
pub(crate) fn decode_address_body(address: &str) -> (res: Option<Vec<u8>>)
    requires
        !cashaddr_payload_too_short(address@),
    ensures
        res is Some <==> address_body(address@) is Some,
        res is Some ==> res.unwrap()@ == address_body(address@).unwrap(),
{
    match bitcoincash_addr::Address::decode(address) {
        Ok(a) => Some(a.body),
        Err(_) => None,
    }
}

/// Whether the address has the form `cashaddr_payload_too_short` describes.
pub fn is_cashaddr_payload_too_short(address: &str) -> (res: bool)
    ensures
        res == cashaddr_payload_too_short(address@),
{
    let n = address.unicode_len();
    let mut first: Option<usize> = None;
    let mut second = false;
    let mut k: usize = 0;
    while k < n
        invariant
            n == address@.len(),
            k <= n,
            match first {
                None => forall|j: int| 0 <= j < k ==> address@[j] != ':',
                Some(p) => p < k && address@[p as int] == ':' && (forall|j: int|
                    0 <= j < p ==> address@[j] != ':') && (second <==> exists|j: int|
                    p < j < k && #[trigger] address@[j] == ':'),
            },
            first is None ==> !second,
        decreases n - k,
    {
        if address.get_char(k) == ':' {
            match first {
                None => {
                    first = Some(k);
                },
                Some(p) => {
                    assert(p < k && address@[k as int] == ':');
                    second = true;
                },
            }
        }
        k = k + 1;
    }
    match first {
        None => {
            proof {
                if cashaddr_payload_too_short(address@) {
                    let i = choose|i: int|
                        0 <= i < address@.len() && #[trigger] address@[i] == ':' && (forall|j: int|
                            0 <= j < address@.len() && j != i ==> address@[j] != ':')
                            && address@.len() - i - 1 < 10;
                    assert(address@[i] != ':');
                }
            }
            false
        },
        Some(p) => {
            let res = !second && n - p - 1 < 10;
            proof {
                if res {
                    assert(address@[p as int] == ':');
                    assert forall|j: int| 0 <= j < address@.len() && j != p implies address@[j]
                        != ':' by {
                        if j > p {
                            if address@[j] == ':' {
                                assert(exists|j2: int| p < j2 < n && #[trigger] address@[j2] == ':');
                            }
                        }
                    }
                }
                if cashaddr_payload_too_short(address@) {
                    let i = choose|i: int|
                        0 <= i < address@.len() && #[trigger] address@[i] == ':' && (forall|j: int|
                            0 <= j < address@.len() && j != i ==> address@[j] != ':')
                            && address@.len() - i - 1 < 10;
                    assert(i == p);
                    if second {
                        let j2 = choose|j2: int| p < j2 < n && #[trigger] address@[j2] == ':';
                        assert(address@[j2] != ':');
                    }
                }
            }
            res
        },
    }
}

} // verus!
