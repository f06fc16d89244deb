//! Wallets: key pairs and their addresses, and a store of wallets by address.

use vstd::prelude::*;

use crate::hashing::{
    address_body, base58_script_address, cashaddr_payload_too_short, ed25519_keypair,
    ed25519_public_key, encode_script_address, random_seed, ripemd160, ripemd160_digest, sha256,
    sha256_digest,
};
use crate::error::{Error, Result};
use crate::table::{has_key, keys_distinct, lemma_table_get_at, table_get, table_insert, table_view};

verus! {

/// What `pub_hash_key` makes of a key of at least 32 bytes: the SHA-256 digest
/// overwrites its first 32 bytes, and the RIPEMD-160 digest of the result is kept.
pub open spec fn hash_pub_key(pub_key: Seq<u8>) -> Seq<u8> {
    ripemd160(sha256(pub_key) + pub_key.skip(32))
}

/// Replaces a public key by its hash: SHA-256 of the key is written over its
/// first 32 bytes, then the RIPEMD-160 digest of those bytes is written over
/// the vector, cut to 20 bytes.
pub fn pub_hash_key(pub_key: &mut Vec<u8>)
    requires
        old(pub_key)@.len() >= 32,
    ensures
        final(pub_key)@ == hash_pub_key(old(pub_key)@),
        final(pub_key)@.len() == 20,
{
    let digest = sha256_digest(pub_key.as_slice());
    let mut i: usize = 0;
    while i < 32
        invariant
            pub_key@.len() == old(pub_key)@.len(),
            old(pub_key)@.len() >= 32,
            digest@ == sha256(old(pub_key)@),
            digest@.len() == 32,
            i <= 32,
            forall|j: int| 0 <= j < i ==> pub_key@[j] == digest@[j],
            forall|j: int| 32 <= j < pub_key@.len() ==> pub_key@[j] == old(pub_key)@[j],
        decreases 32 - i,
    {
        pub_key.set(i, digest[i]);
        i = i + 1;
    }
    assert(pub_key@ =~= sha256(old(pub_key)@) + old(pub_key)@.skip(32));
    let hashed = ripemd160_digest(pub_key.as_slice());
    pub_key.truncate(20);
    let mut k: usize = 0;
    while k < 20
        invariant
            pub_key@.len() == 20,
            hashed@.len() == 20,
            k <= 20,
            forall|j: int| 0 <= j < k ==> pub_key@[j] == hashed@[j],
        decreases 20 - k,
    {
        pub_key.set(k, hashed[k]);
        k = k + 1;
    }
    assert(pub_key@ =~= hashed@);
}

/// A key pair.
#[derive(Debug, Clone, PartialEq)]
pub struct Wallet {
    pub secret_key: Vec<u8>,
    pub public_key: Vec<u8>,
}

/// The value of a key pair.
pub struct WalletView {
    pub secret_key: Seq<u8>,
    pub public_key: Seq<u8>,
}

impl View for Wallet {
    type V = WalletView;

    open spec fn view(&self) -> WalletView {
        WalletView { secret_key: self.secret_key@, public_key: self.public_key@ }
    }
}

/// The Ed25519 key pair derived from a 32-byte seed: the public key, and the
/// secret key made of the seed followed by the public key.
pub open spec fn keypair_from_seed(w: WalletView, seed: Seq<u8>) -> bool {
    &&& seed.len() == 32
    &&& w.public_key == ed25519_public_key(seed)
    &&& w.public_key.len() == 32
    &&& w.secret_key == seed + w.public_key
}

/// The address of a public key: Base58Check (script-hash version) of the
/// key's hash.
pub open spec fn address_of(public_key: Seq<u8>) -> Seq<char> {
    base58_script_address(hash_pub_key(public_key))
}

impl Wallet {
    /// The Ed25519 key pair derived from `seed`.
    pub fn from_seed(seed: &[u8; 32]) -> (res: Wallet)
        ensures
            keypair_from_seed(res@, seed@),
    {
        let (secret_key, public_key) = ed25519_keypair(seed);
        Wallet { secret_key, public_key }
    }

    /// A fresh key pair from a random 32-byte seed; fails when the operating
    /// system's random source fails.
    pub fn new() -> (res: Result<Wallet>)
        ensures
            res is Ok ==> exists|seed: Seq<u8>| keypair_from_seed(res->Ok_0@, seed),
            res matches Err(e) ==> e == Error::RandomSource,
    {
        match random_seed() {
            Some(key) => {
                let w = Wallet::from_seed(&key);
                assert(keypair_from_seed(w@, key@));
                let res: Result<Wallet> = Ok(w);
                assert(res is Ok);
                assert(keypair_from_seed(res->Ok_0@, key@));
                res
            },
            None => Err(Error::RandomSource),
        }
    }

    /// The wallet's address; decoding it gives back the key's hash.
    pub fn get_address(&self) -> (res: String)
        requires
            self.public_key@.len() >= 32,
        ensures
            res@ == address_of(self.public_key@),
            !cashaddr_payload_too_short(res@),
            address_body(res@) == Some(hash_pub_key(self.public_key@)),
    {
        let mut pub_hash = self.public_key.clone();
        assert(pub_hash@ =~= self.public_key@);
        pub_hash_key(&mut pub_hash);
        let res = encode_script_address(&pub_hash).unwrap();
        proof {
            if cashaddr_payload_too_short(res@) {
                let i = choose|i: int|
                    0 <= i < res@.len() && #[trigger] res@[i] == ':' && (forall|j: int|
                        0 <= j < res@.len() && j != i ==> res@[j] != ':') && res@.len() - i - 1 < 10;
                assert(res@[i] != ':');
            }
        }
        res
    }
}

/// The wallets, by address.
pub struct Wallets {
    wallets: Vec<(String, Wallet)>,
}

impl View for Wallets {
    type V = Map<Seq<char>, WalletView>;

    closed spec fn view(&self) -> Map<Seq<char>, WalletView> {
        Map::new(
            |k: Seq<char>| has_key(table_view(self.wallets@), k),
            |k: Seq<char>| table_get(table_view(self.wallets@), k).unwrap(),
        )
    }
}

impl Wallets {
    #[verifier::type_invariant]
    spec fn distinct_addresses(self) -> bool {
        keys_distinct(table_view(self.wallets@))
    }

    /// No wallets.
    pub fn empty() -> (res: Wallets)
        ensures
            res@ == Map::<Seq<char>, WalletView>::empty(),
    {
        let res = Wallets { wallets: Vec::new() };
        assert(res@ =~= Map::<Seq<char>, WalletView>::empty());
        res
    }

    /// Stores `wallet` under `address`, replacing any wallet stored there.
    pub fn insert_wallet(&mut self, address: String, wallet: Wallet)
        ensures
            final(self)@ == old(self)@.insert(address@, wallet@),
    {
        proof {
            use_type_invariant(&*self);
        }
        let ghost old_t = table_view(self.wallets@);
        let ghost a = address@;
        let ghost w = wallet@;
        let mut table: Vec<(String, Wallet)> = Vec::new();
        std::mem::swap(&mut table, &mut self.wallets);
        table_insert(&mut table, address, wallet);
        self.wallets = table;
        proof {
            let new_t = table_view(self.wallets@);
            assert forall|k: Seq<char>| has_key(new_t, k) <==> (has_key(old_t, k) || k == a) by {
                assert(table_get(new_t, k) == if k == a { Some(w) } else { table_get(old_t, k) });
            }
            assert forall|k: Seq<char>| has_key(new_t, k) implies table_get(new_t, k).unwrap() == if k
                == a {
                w
            } else {
                table_get(old_t, k).unwrap()
            } by {
                assert(table_get(new_t, k) == if k == a { Some(w) } else { table_get(old_t, k) });
            }
            assert(self@ =~= old(self)@.insert(a, w));
        }
    }

    /// Creates a wallet, stores it under its address and returns the address;
    /// fails, storing nothing, when the operating system's random source fails.
    pub fn create_wallet(&mut self) -> (res: Result<String>)
        ensures
            res is Ok ==> exists|w: WalletView|
                #![trigger address_of(w.public_key)]
                {
                    &&& exists|seed: Seq<u8>| keypair_from_seed(w, seed)
                    &&& res->Ok_0@ == address_of(w.public_key)
                    &&& final(self)@ == old(self)@.insert(res->Ok_0@, w)
                },
            res matches Err(e) ==> e == Error::RandomSource && final(self)@ == old(self)@,
    {
        let wallet = match Wallet::new() {
            Ok(w) => w,
            Err(e) => {
                return Err(e);
            },
        };
        let ghost w = wallet@;
        let address = wallet.get_address();
        self.insert_wallet(address.clone(), wallet);
        let res: Result<String> = Ok(address);
        assert(exists|seed: Seq<u8>| keypair_from_seed(w, seed));
        assert(res->Ok_0@ == address_of(w.public_key));
        assert(self@ == old(self)@.insert(res->Ok_0@, w));
        res
    }

    /// The addresses of all wallets, each once.
    pub fn get_all_addresses(&self) -> (res: Vec<String>)
        ensures
            forall|i: int, j: int|
                0 <= i < res@.len() && 0 <= j < res@.len() && i != j ==> #[trigger] res@[i]@
                    != #[trigger] res@[j]@,
            forall|k: Seq<char>|
                self@.contains_key(k) <==> exists|i: int| 0 <= i < res@.len() && #[trigger] res@[i]@ == k,
    {
        proof {
            use_type_invariant(self);
        }
        let mut addresses: Vec<String> = Vec::new();
        let n = self.wallets.len();
        let mut i: usize = 0;
        while i < n
            invariant
                n == self.wallets@.len(),
                i <= n,
                keys_distinct(table_view(self.wallets@)),
                addresses@.len() == i,
                forall|j: int| 0 <= j < i ==> #[trigger] addresses@[j]@ == self.wallets@[j].0@,
            decreases n - i,
        {
            addresses.push(self.wallets[i].0.clone());
            i = i + 1;
        }
        proof {
            let t = table_view(self.wallets@);
            assert forall|a: int, b: int|
                0 <= a < addresses@.len() && 0 <= b < addresses@.len() && a != b implies #[trigger] addresses@[a]@
                != #[trigger] addresses@[b]@ by {
                assert(t[a].0 == self.wallets@[a].0@);
                assert(t[b].0 == self.wallets@[b].0@);
            }
            assert forall|k: Seq<char>|
                self@.contains_key(k) <==> exists|i: int|
                    0 <= i < addresses@.len() && #[trigger] addresses@[i]@ == k by {
                if self@.contains_key(k) {
                    let j = choose|j: int| 0 <= j < t.len() && #[trigger] t[j].0 == k;
                    assert(addresses@[j]@ == k);
                }
                if exists|i: int| 0 <= i < addresses@.len() && #[trigger] addresses@[i]@ == k {
                    let j = choose|j: int| 0 <= j < addresses@.len() && #[trigger] addresses@[j]@ == k;
                    assert(t[j].0 == k);
                }
            }
        }
        addresses
    }

    /// The wallet stored under `address`, if any.
    pub fn get_wallet(&self, address: &str) -> (res: Option<&Wallet>)
        ensures
            res is Some <==> self@.contains_key(address@),
            res matches Some(w) ==> w@ == self@[address@],
    {
        proof {
            use_type_invariant(self);
        }
        let key: String = address.to_owned();
        match crate::table::find_key(&self.wallets, &key) {
            Some(i) => {
                proof {
                    let t = table_view(self.wallets@);
                    lemma_table_get_at(t, i as int);
                    assert(t[i as int].0 == address@);
                }
                Some(&self.wallets[i].1)
            },
            None => None,
        }
    }
}

/// Reading a store back after storing `w` under `address` gives `w` there and
/// leaves every other address as it was.
pub proof fn lemma_get_after_insert(
    before: Map<Seq<char>, WalletView>,
    address: Seq<char>,
    w: WalletView,
    other: Seq<char>,
)
    ensures
        before.insert(address, w).contains_key(address),
        before.insert(address, w)[address] == w,
        other != address ==> (before.insert(address, w).contains_key(other)
            <==> before.contains_key(other)),
        other != address && before.contains_key(other) ==> before.insert(address, w)[other]
            == before[other],
{
}

/// The wallet that `create_wallet` stores under the address it returns has a
/// 32-byte public key whose address is that address.
pub proof fn lemma_created_wallet_has_its_address(
    before: Map<Seq<char>, WalletView>,
    after: Map<Seq<char>, WalletView>,
    address: Seq<char>,
    w: WalletView,
    seed: Seq<u8>,
)
    requires
        keypair_from_seed(w, seed),
        address == address_of(w.public_key),
        after == before.insert(address, w),
    ensures
        after.contains_key(address),
        after[address].public_key.len() == 32,
        address_of(after[address].public_key) == address,
        after[address].secret_key.subrange(32, 64) == after[address].public_key,
{
    assert((seed + w.public_key).subrange(32, 64) =~= w.public_key);
}

} // verus!
