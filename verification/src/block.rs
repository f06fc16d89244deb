//! Blocks and their proof of work.

use vstd::prelude::*;
use vstd::utf8::encode_utf8;

use crate::error::{Error, Result};
use crate::hashing::{
    hex_lower, is_lower_hex, lemma_hex_lower_digits, lemma_hex_lower_prefix, sha256, sha256_hex,
};

verus! {

/// How many leading hex digits of a block hash must be `0`.
pub const TARGET_HEXT: usize = 4;

/// A mined block.
#[derive(Debug, Clone)]
pub struct Block {
    timestamp: u128,
    transactions: String,
    prev_block_hash: String,
    hash: String,
    height: usize,
    nonce: i32,
}

/// A chain held in memory as its blocks.
pub struct Blockchain {
    pub blocks: Vec<Block>,
}

/// The value of a block's fields.
pub struct BlockView {
    pub timestamp: u128,
    pub transactions: Seq<char>,
    pub prev_block_hash: Seq<char>,
    pub hash: Seq<char>,
    pub height: usize,
    pub nonce: i32,
}

impl View for Block {
    type V = BlockView;

    closed spec fn view(&self) -> BlockView {
        BlockView {
            timestamp: self.timestamp,
            transactions: self.transactions@,
            prev_block_hash: self.prev_block_hash@,
            hash: self.hash@,
            height: self.height,
            nonce: self.nonce,
        }
    }
}

/// `n` in `width` little-endian bytes (the low `width` bytes of `n`).
pub open spec fn le_bytes(n: nat, width: nat) -> Seq<u8>
    decreases width,
{
    if width == 0 {
        seq![]
    } else {
        seq![(n % 256) as u8] + le_bytes(n / 256, (width - 1) as nat)
    }
}

/// The two's-complement bit pattern of an `i32`, as an unsigned number.
pub open spec fn i32_bits(x: i32) -> nat {
    if x >= 0 {
        x as nat
    } else {
        (x + 0x1_0000_0000) as nat
    }
}

/// bincode's encoding of a string: its UTF-8 length as a little-endian `u64`,
/// then its UTF-8 bytes.
pub open spec fn bincode_str(s: Seq<char>) -> Seq<u8> {
    le_bytes(encode_utf8(s).len(), 8) + encode_utf8(s)
}

/// The bytes that are hashed for a block: bincode's encoding of the tuple
/// `(prev_block_hash, transactions, timestamp, target, nonce)`.
pub open spec fn hash_data(
    prev_block_hash: Seq<char>,
    transactions: Seq<char>,
    timestamp: u128,
    target: usize,
    nonce: i32,
) -> Seq<u8> {
    bincode_str(prev_block_hash) + bincode_str(transactions) + le_bytes(timestamp as nat, 16)
        + le_bytes(target as nat, 8) + le_bytes(i32_bits(nonce), 4)
}

/// The hex hash of a block with these fields and this nonce.
pub open spec fn block_hash(
    prev_block_hash: Seq<char>,
    transactions: Seq<char>,
    timestamp: u128,
    nonce: i32,
) -> Seq<char> {
    hex_lower(sha256(hash_data(prev_block_hash, transactions, timestamp, TARGET_HEXT, nonce)))
}

/// A hex hash meets the target: its first `TARGET_HEXT` digits are `0`.
pub open spec fn meets_target(hash: Seq<char>) -> bool {
    &&& hash.len() >= TARGET_HEXT
    &&& forall|i: int| 0 <= i < TARGET_HEXT ==> #[trigger] hash[i] == '0'
}

/// The nonce solves the proof of work for these fields.
pub open spec fn pow_valid(
    prev_block_hash: Seq<char>,
    transactions: Seq<char>,
    timestamp: u128,
    nonce: i32,
) -> bool {
    meets_target(block_hash(prev_block_hash, transactions, timestamp, nonce))
}

/// No nonce in `from..=i32::MAX` solves the proof of work.
pub open spec fn no_nonce_from(
    prev_block_hash: Seq<char>,
    transactions: Seq<char>,
    timestamp: u128,
    from: i32,
) -> bool {
    forall|n: i32| from <= n ==> !#[trigger] pow_valid(prev_block_hash, transactions, timestamp, n)
}

/// `nonce` is the least nonce from `from` on that solves the proof of work.
pub open spec fn least_nonce_from(
    prev_block_hash: Seq<char>,
    transactions: Seq<char>,
    timestamp: u128,
    from: i32,
    nonce: i32,
) -> bool {
    &&& from <= nonce
    &&& pow_valid(prev_block_hash, transactions, timestamp, nonce)
    &&& forall|n: i32|
        from <= n < nonce ==> !#[trigger] pow_valid(prev_block_hash, transactions, timestamp, n)
}

/// The block a search from nonce `from` yields: the least solving nonce, and the
/// hash for it.
pub open spec fn mined_from(
    b: BlockView,
    timestamp: u128,
    transactions: Seq<char>,
    prev_block_hash: Seq<char>,
    height: usize,
    from: i32,
) -> bool {
    &&& b.timestamp == timestamp
    &&& b.transactions == transactions
    &&& b.prev_block_hash == prev_block_hash
    &&& b.height == height
    &&& least_nonce_from(prev_block_hash, transactions, timestamp, from, b.nonce)
    &&& b.hash == block_hash(prev_block_hash, transactions, timestamp, b.nonce)
    &&& b.hash.len() == 64
    &&& is_lower_hex(b.hash)
}

/// The hash meets the target exactly when the first two digest bytes are zero.
pub proof fn lemma_meets_target_iff_zero_prefix(digest: Seq<u8>)
    requires
        digest.len() >= 2,
    ensures
        meets_target(hex_lower(digest)) <==> (digest[0] == 0 && digest[1] == 0),
{
    lemma_hex_lower_prefix(digest);
    let h = hex_lower(digest);
    if meets_target(h) {
        assert(h[0] == '0' && h[1] == '0' && h[2] == '0' && h[3] == '0');
    }
    if digest[0] == 0 && digest[1] == 0 {
        assert forall|i: int| 0 <= i < TARGET_HEXT implies #[trigger] h[i] == '0' by {}
    }
}

/// A mined block is valid: its nonce solves the proof of work, so `validate`
/// accepts it, and its stored hash is the hash of its fields and nonce, which
/// starts with `TARGET_HEXT` zeros.
pub proof fn lemma_mined_block_is_valid(
    b: BlockView,
    timestamp: u128,
    transactions: Seq<char>,
    prev_block_hash: Seq<char>,
    height: usize,
    from: i32,
)
    requires
        mined_from(b, timestamp, transactions, prev_block_hash, height, from),
    ensures
        pow_valid(b.prev_block_hash, b.transactions, b.timestamp, b.nonce),
        b.hash == block_hash(b.prev_block_hash, b.transactions, b.timestamp, b.nonce),
        meets_target(b.hash),
        b.hash.len() == 64,
        is_lower_hex(b.hash),
        from >= 0 ==> b.nonce >= 0,
{
}

/// `256` to the power `w`.
pub open spec fn pow256(w: nat) -> nat
    decreases w,
{
    if w == 0 {
        1
    } else {
        256 * pow256((w - 1) as nat)
    }
}

proof fn lemma_le_bytes_len(n: nat, w: nat)
    ensures
        le_bytes(n, w).len() == w,
    decreases w,
{
    if w > 0 {
        lemma_le_bytes_len(n / 256, (w - 1) as nat);
    }
}

/// Little-endian encoding is one-to-one on the numbers that fit in its width.
proof fn lemma_le_bytes_injective(a: nat, b: nat, w: nat)
    requires
        a < pow256(w),
        b < pow256(w),
        le_bytes(a, w) == le_bytes(b, w),
    ensures
        a == b,
    decreases w,
{
    if w == 0 {
    } else {
        let p = pow256((w - 1) as nat);
        let la = seq![(a % 256) as u8] + le_bytes(a / 256, (w - 1) as nat);
        let lb = seq![(b % 256) as u8] + le_bytes(b / 256, (w - 1) as nat);
        assert(le_bytes(a, w) == la);
        assert(le_bytes(b, w) == lb);
        assert(la[0] == lb[0]);
        assert((a % 256) as u8 == (b % 256) as u8);
        assert(a % 256 == b % 256);
        assert(le_bytes(a / 256, (w - 1) as nat) =~= le_bytes(a, w).drop_first());
        assert(le_bytes(b / 256, (w - 1) as nat) =~= le_bytes(b, w).drop_first());
        assert(a / 256 < p) by (nonlinear_arith)
            requires
                a < 256 * p,
        ;
        assert(b / 256 < p) by (nonlinear_arith)
            requires
                b < 256 * p,
        ;
        lemma_le_bytes_injective(a / 256, b / 256, (w - 1) as nat);
        assert(a == 256 * (a / 256) + a % 256) by (nonlinear_arith);
        assert(b == 256 * (b / 256) + b % 256) by (nonlinear_arith);
    }
}

/// A bincode string, followed by anything, splits back into its length, its
/// UTF-8 bytes and what follows.
proof fn lemma_bincode_str_split(s: Seq<char>, rest: Seq<u8>)
    ensures
        (bincode_str(s) + rest).take(8) == le_bytes(encode_utf8(s).len(), 8),
        (bincode_str(s) + rest).subrange(8, 8 + encode_utf8(s).len() as int) == encode_utf8(s),
        (bincode_str(s) + rest).skip(8 + encode_utf8(s).len() as int) == rest,
{
    let e = encode_utf8(s);
    lemma_le_bytes_len(e.len(), 8);
    let all = bincode_str(s) + rest;
    assert(all.take(8) =~= le_bytes(e.len(), 8));
    assert(all.subrange(8, 8 + e.len() as int) =~= e);
    assert(all.skip(8 + e.len() as int) =~= rest);
}

proof fn lemma_pow256_values()
    ensures
        pow256(4) == 0x1_0000_0000,
        pow256(8) == 0x1_0000_0000_0000_0000,
        pow256(16) == 0x1_0000_0000_0000_0000_0000_0000_0000_0000,
{
    reveal_with_fuel(pow256, 17);
}

/// Two strings with the same bincode encoding (each of at most `u64::MAX` UTF-8
/// bytes, as any string in memory) are equal, and so is what follows them.
proof fn lemma_bincode_str_prefix_injective(s1: Seq<char>, r1: Seq<u8>, s2: Seq<char>, r2: Seq<u8>)
    requires
        encode_utf8(s1).len() <= u64::MAX,
        encode_utf8(s2).len() <= u64::MAX,
        bincode_str(s1) + r1 == bincode_str(s2) + r2,
    ensures
        s1 == s2,
        r1 == r2,
{
    lemma_bincode_str_split(s1, r1);
    lemma_bincode_str_split(s2, r2);
    lemma_pow256_values();
    lemma_le_bytes_injective(encode_utf8(s1).len(), encode_utf8(s2).len(), 8);
    vstd::utf8::encode_utf8_decode_utf8(s1);
    vstd::utf8::encode_utf8_decode_utf8(s2);
}

/// The bytes hashed for a block determine its previous hash, data, timestamp
/// and nonce (strings of at most `u64::MAX` UTF-8 bytes, as any string in
/// memory); the stored hash and the height never enter them.
pub proof fn lemma_hash_data_injective(b1: BlockView, b2: BlockView)
    requires
        encode_utf8(b1.prev_block_hash).len() <= u64::MAX,
        encode_utf8(b1.transactions).len() <= u64::MAX,
        encode_utf8(b2.prev_block_hash).len() <= u64::MAX,
        encode_utf8(b2.transactions).len() <= u64::MAX,
    ensures
        hash_data(b1.prev_block_hash, b1.transactions, b1.timestamp, TARGET_HEXT, b1.nonce)
            == hash_data(b2.prev_block_hash, b2.transactions, b2.timestamp, TARGET_HEXT, b2.nonce)
            <==> (b1.prev_block_hash == b2.prev_block_hash && b1.transactions == b2.transactions
            && b1.timestamp == b2.timestamp && b1.nonce == b2.nonce),
{
    let t1 = le_bytes(b1.timestamp as nat, 16) + le_bytes(TARGET_HEXT as nat, 8) + le_bytes(
        i32_bits(b1.nonce),
        4,
    );
    let t2 = le_bytes(b2.timestamp as nat, 16) + le_bytes(TARGET_HEXT as nat, 8) + le_bytes(
        i32_bits(b2.nonce),
        4,
    );
    let h1 = hash_data(b1.prev_block_hash, b1.transactions, b1.timestamp, TARGET_HEXT, b1.nonce);
    let h2 = hash_data(b2.prev_block_hash, b2.transactions, b2.timestamp, TARGET_HEXT, b2.nonce);
    assert(h1 =~= bincode_str(b1.prev_block_hash) + (bincode_str(b1.transactions) + t1));
    assert(h2 =~= bincode_str(b2.prev_block_hash) + (bincode_str(b2.transactions) + t2));
    if h1 == h2 {
        lemma_bincode_str_prefix_injective(
            b1.prev_block_hash,
            bincode_str(b1.transactions) + t1,
            b2.prev_block_hash,
            bincode_str(b2.transactions) + t2,
        );
        lemma_bincode_str_prefix_injective(b1.transactions, t1, b2.transactions, t2);
        lemma_le_bytes_len(b1.timestamp as nat, 16);
        lemma_le_bytes_len(b2.timestamp as nat, 16);
        lemma_le_bytes_len(TARGET_HEXT as nat, 8);
        lemma_le_bytes_len(i32_bits(b1.nonce), 4);
        lemma_le_bytes_len(i32_bits(b2.nonce), 4);
        assert(t1.take(16) =~= le_bytes(b1.timestamp as nat, 16));
        assert(t2.take(16) =~= le_bytes(b2.timestamp as nat, 16));
        assert(t1.skip(24) =~= le_bytes(i32_bits(b1.nonce), 4));
        assert(t2.skip(24) =~= le_bytes(i32_bits(b2.nonce), 4));
        lemma_pow256_values();
        lemma_le_bytes_injective(b1.timestamp as nat, b2.timestamp as nat, 16);
        lemma_le_bytes_injective(i32_bits(b1.nonce), i32_bits(b2.nonce), 4);
    }
}

/// Serialises the hashed fields with bincode's `serialize` (bincode 1.x).
/// Trusted: with the function defaults (no size limit, fixed-width
/// little-endian integers, `u64` length before each string) the bytes are
/// `hash_data`; writing strings and integers into a vector cannot fail.
#[verifier::external_body]
fn serialize_hash_data(
    prev_block_hash: &String,
    transactions: &String,
    timestamp: u128,
    target: usize,
    nonce: i32,
) -> (res: Option<Vec<u8>>)
    ensures
        res is Some,
        res.unwrap()@ == hash_data(prev_block_hash@, transactions@, timestamp, target, nonce),
{
    bincode::serialize(&(prev_block_hash, transactions, timestamp, target, nonce)).ok()
}

#[verifier::external_type_specification]
#[verifier::external_body]
pub struct ExSystemTime(std::time::SystemTime);

#[verifier::external_type_specification]
#[verifier::external_body]
pub struct ExSystemTimeError(std::time::SystemTimeError);

/// `std::time::SystemTime::now`. Nothing is stated: it reads the clock.
#[verifier::external_body]
fn system_time_now() -> (res: std::time::SystemTime) {
    std::time::SystemTime::now()
}

/// `SystemTime::duration_since(UNIX_EPOCH)`. Nothing is stated: whether it
/// fails depends on the time read.
#[verifier::external_body]
fn duration_since_epoch(t: &std::time::SystemTime) -> (res: core::result::Result<
    core::time::Duration,
    std::time::SystemTimeError,
>) {
    t.duration_since(std::time::UNIX_EPOCH)
}

/// `Duration::as_millis`. Nothing is stated: the duration is opaque here.
#[verifier::external_body]
fn duration_as_millis(d: &core::time::Duration) -> (res: u128) {
    d.as_millis()
}

impl Block {
    /// A block with the given fields, as they were stored (nothing is checked).
    pub fn from_parts(
        timestamp: u128,
        transactions: String,
        prev_block_hash: String,
        hash: String,
        height: usize,
        nonce: i32,
    ) -> (res: Block)
        ensures
            res@ == (BlockView {
                timestamp,
                transactions: transactions@,
                prev_block_hash: prev_block_hash@,
                hash: hash@,
                height,
                nonce,
            }),
    {
        Block { timestamp, transactions, prev_block_hash, hash, height, nonce }
    }

    /// The block's hash.
    pub fn get_hash(&self) -> (res: String)
        ensures
            res@ == self@.hash,
    {
        self.hash.clone()
    }

    /// The hash of the block before this one.
    pub fn get_prev_hash(&self) -> (res: String)
        ensures
            res@ == self@.prev_block_hash,
    {
        self.prev_block_hash.clone()
    }

    /// The block's data.
    pub fn get_transaction(&self) -> (res: &String)
        ensures
            res@ == self@.transactions,
    {
        &self.transactions
    }

    /// When the block was made, in milliseconds since the Unix epoch.
    pub fn get_timestamp(&self) -> (res: u128)
        ensures
            res == self@.timestamp,
    {
        self.timestamp
    }

    /// The block's height.
    pub fn get_height(&self) -> (res: usize)
        ensures
            res == self@.height,
    {
        self.height
    }

    /// The nonce that solved the block's proof of work.
    pub fn get_nonce(&self) -> (res: i32)
        ensures
            res == self@.nonce,
    {
        self.nonce
    }

    /// Mines a block over `data` that follows `prev_block_hash`, stamped with the
    /// current time in milliseconds since the Unix epoch.
    pub fn new_block(data: String, prev_block_hash: String, height: usize) -> (res: Result<Block>)
        ensures
            res matches Ok(b) ==> mined_from(b@, b@.timestamp, data@, prev_block_hash@, height, 0),
            res matches Err(e) ==> (e == Error::ClockBeforeEpoch || (e == Error::NonceExhausted
                && exists|ts: u128| no_nonce_from(prev_block_hash@, data@, ts, 0))),
    {
        let now = system_time_now();
        let timestamp = match duration_since_epoch(&now) {
            Ok(d) => duration_as_millis(&d),
            Err(_) => {
                return Err(Error::ClockBeforeEpoch);
            },
        };
        Block::mine_block(data, prev_block_hash, height, timestamp)
    }

    /// Mines a block with the given timestamp: searches the nonces from 0 up for
    /// the least one whose hash meets the target.
    pub fn mine_block(data: String, prev_block_hash: String, height: usize, timestamp: u128) -> (res:
        Result<Block>)
        ensures
            res is Ok <==> !no_nonce_from(prev_block_hash@, data@, timestamp, 0),
            res matches Ok(b) ==> mined_from(b@, timestamp, data@, prev_block_hash@, height, 0),
            res matches Err(e) ==> e == Error::NonceExhausted,
    {
        let mut block = Block {
            timestamp: timestamp,
            transactions: data,
            prev_block_hash,
            hash: String::new(),
            height,
            nonce: 0,
        };
        match block.run_proof_of_work() {
            Ok(()) => Ok(block),
            Err(e) => Err(e),
        }
    }

    /// Searches the nonces from the current one up for the least whose hash
    /// meets the target, and stores that nonce and its hash.
    pub fn run_proof_of_work(&mut self) -> (res: Result<()>)
        ensures
            res is Ok <==> !no_nonce_from(
                old(self)@.prev_block_hash,
                old(self)@.transactions,
                old(self)@.timestamp,
                old(self)@.nonce,
            ),
            res is Ok ==> mined_from(
                final(self)@,
                old(self)@.timestamp,
                old(self)@.transactions,
                old(self)@.prev_block_hash,
                old(self)@.height,
                old(self)@.nonce,
            ),
            res matches Err(e) ==> e == Error::NonceExhausted,
    {
        let ghost start = self.nonce;
        loop
            invariant_except_break
                self@.prev_block_hash == old(self)@.prev_block_hash,
                self@.transactions == old(self)@.transactions,
                self@.timestamp == old(self)@.timestamp,
                self@.height == old(self)@.height,
                start == old(self)@.nonce,
                start <= self.nonce,
                forall|n: i32|
                    start <= n < self.nonce ==> !#[trigger] pow_valid(
                        self@.prev_block_hash,
                        self@.transactions,
                        self@.timestamp,
                        n,
                    ),
            ensures
                self@.prev_block_hash == old(self)@.prev_block_hash,
                self@.transactions == old(self)@.transactions,
                self@.timestamp == old(self)@.timestamp,
                self@.height == old(self)@.height,
                least_nonce_from(
                    self@.prev_block_hash,
                    self@.transactions,
                    self@.timestamp,
                    start,
                    self.nonce,
                ),
            decreases i32::MAX - self.nonce,
        {
            let valid = match self.validate() {
                Ok(v) => v,
                Err(e) => {
                    return Err(e);
                },
            };
            if valid {
                break;
            }
            if self.nonce == i32::MAX {
                assert(no_nonce_from(self@.prev_block_hash, self@.transactions, self@.timestamp, start));
                return Err(Error::NonceExhausted);
            }
            self.nonce = self.nonce + 1;
        }
        let data = match self.prepare_hash_data() {
            Ok(d) => d,
            Err(e) => {
                return Err(e);
            },
        };
        self.hash = sha256_hex(data.as_slice());
        proof {
            lemma_hex_lower_digits(sha256(data@));
        }
        Ok(())
    }

    /// The bytes hashed for this block (bincode of the hashed fields).
    pub fn prepare_hash_data(&self) -> (res: Result<Vec<u8>>)
        ensures
            res matches Ok(v) && v@ == hash_data(
                self@.prev_block_hash,
                self@.transactions,
                self@.timestamp,
                TARGET_HEXT,
                self@.nonce,
            ),
    {
        match serialize_hash_data(
            &self.prev_block_hash,
            &self.transactions,
            self.timestamp,
            TARGET_HEXT,
            self.nonce,
        ) {
            Some(bytes) => Ok(bytes),
            None => Err(Error::Serialization),
        }
    }

    /// Whether the hash of this block's fields with its nonce meets the target.
    pub fn validate(&self) -> (res: Result<bool>)
        ensures
            res matches Ok(v) && v == pow_valid(
                self@.prev_block_hash,
                self@.transactions,
                self@.timestamp,
                self@.nonce,
            ),
    {
        let data = match self.prepare_hash_data() {
            Ok(d) => d,
            Err(e) => {
                return Err(e);
            },
        };
        let hash = sha256_hex(data.as_slice());
        let hash_str = hash.as_str();
        let mut i: usize = 0;
        while i < TARGET_HEXT
            invariant
                hash_str@ == hash@,
                hash@.len() == 64,
                hash@ == block_hash(
                    self@.prev_block_hash,
                    self@.transactions,
                    self@.timestamp,
                    self@.nonce,
                ),
                i <= TARGET_HEXT,
                forall|j: int| 0 <= j < i ==> #[trigger] hash@[j] == '0',
            decreases TARGET_HEXT - i,
        {
            if hash_str.get_char(i) != '0' {
                assert(hash@[i as int] != '0');
                return Ok(false);
            }
            i = i + 1;
        }
        Ok(true)
    }
}

} // verus!
