use blockchain::wallet::{pub_hash_key, Wallet, Wallets};
use crypto::digest::Digest;
use crypto::ripemd160::Ripemd160;
use crypto::sha2::Sha256;

fn reference_hash_pub_key(key: &[u8]) -> Vec<u8> {
    let mut first = key.to_vec();
    let mut sha = Sha256::new();
    sha.input(key);
    sha.result(&mut first[..32]);
    let mut ripe = Ripemd160::new();
    ripe.input(&first);
    let mut out = vec![0u8; 20];
    ripe.result(&mut out);
    out
}

#[test]
fn pub_hash_key_of_32_byte_key() {
    let key: Vec<u8> = (0u8..32).collect();
    let mut hashed = key.clone();
    pub_hash_key(&mut hashed);
    assert_eq!(hashed.len(), 20);
    assert_eq!(hashed, reference_hash_pub_key(&key));
}

#[test]
fn pub_hash_key_keeps_bytes_past_32() {
    let key: Vec<u8> = (0u8..40).collect();
    let mut hashed = key.clone();
    pub_hash_key(&mut hashed);
    assert_eq!(hashed.len(), 20);
    assert_eq!(hashed, reference_hash_pub_key(&key));
    let mut shorter: Vec<u8> = (0u8..32).collect();
    pub_hash_key(&mut shorter);
    assert_ne!(hashed, shorter);
}

#[test]
fn new_wallet_secret_key_ends_with_public_key() {
    let w = Wallet::new().unwrap();
    assert_eq!(w.public_key.len(), 32);
    assert_eq!(w.secret_key.len(), 64);
    assert_eq!(&w.secret_key[32..], &w.public_key[..]);
}

#[test]
fn address_is_base58_script_address_of_key_hash() {
    let w = Wallet { secret_key: vec![0; 64], public_key: (0u8..32).collect() };
    let address = w.get_address();
    let expected = bitcoincash_addr::Address {
        body: reference_hash_pub_key(&w.public_key),
        scheme: bitcoincash_addr::Scheme::Base58,
        hash_type: bitcoincash_addr::HashType::Script,
        ..Default::default()
    }
    .encode()
    .unwrap();
    assert_eq!(address, expected);
    assert!(address.starts_with('3'));
}

#[test]
fn created_wallet_is_found_by_its_address() {
    let mut ws = Wallets::empty();
    assert!(ws.get_all_addresses().is_empty());
    let a = ws.create_wallet().unwrap();
    let b = ws.create_wallet().unwrap();
    assert_ne!(a, b);
    let wa = ws.get_wallet(&a).unwrap();
    assert_eq!(wa.get_address(), a);
    let wb = ws.get_wallet(&b).unwrap();
    assert_eq!(wb.get_address(), b);
    let mut all = ws.get_all_addresses();
    all.sort();
    let mut expected = vec![a, b];
    expected.sort();
    assert_eq!(all, expected);
    assert!(ws.get_wallet("nowhere").is_none());
}

#[test]
fn insert_wallet_replaces_existing_entry() {
    let mut ws = Wallets::empty();
    let w1 = Wallet { secret_key: vec![1; 64], public_key: vec![1; 32] };
    let w2 = Wallet { secret_key: vec![2; 64], public_key: vec![2; 32] };
    ws.insert_wallet("addr".to_string(), w1.clone());
    ws.insert_wallet("other".to_string(), w1.clone());
    ws.insert_wallet("addr".to_string(), w2.clone());
    assert_eq!(ws.get_wallet("addr"), Some(&w2));
    assert_eq!(ws.get_wallet("other"), Some(&w1));
    assert_eq!(ws.get_all_addresses().len(), 2);
}

#[test]
fn wallet_from_seed_known_answer() {
    let seed: [u8; 32] = [
        0x26, 0x27, 0xf6, 0x85, 0x97, 0x15, 0xad, 0x1d, 0xd2, 0x94, 0xdd, 0xc4, 0x76, 0x19, 0x39, 0x31,
        0xf1, 0xad, 0xb5, 0x58, 0xf0, 0x93, 0x97, 0x32, 0x19, 0x2b, 0xd1, 0xc0, 0xfd, 0x16, 0x8e, 0x4e,
    ];
    let w = Wallet::from_seed(&seed);
    let expected_public: Vec<u8> = vec![
        0x5d, 0x6d, 0x23, 0x6b, 0x52, 0xd1, 0x8e, 0x3a, 0xb6, 0xd6, 0x07, 0x2f, 0xb6, 0xe4, 0xc7, 0xd4,
        0x6b, 0xd5, 0x9a, 0xd9, 0xcc, 0x19, 0x47, 0x26, 0x5f, 0x00, 0xb7, 0x20, 0xfa, 0x2c, 0x8f, 0x66,
    ];
    assert_eq!(w.public_key, expected_public);
    assert_eq!(&w.secret_key[..32], &seed[..]);
    assert_eq!(&w.secret_key[32..], &expected_public[..]);
}
