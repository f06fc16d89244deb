use blockchain::block::{Block, TARGET_HEXT};
use blockchain::error::Error;
use crypto::digest::Digest;
use crypto::sha2::Sha256;

fn reference_hash(prev: &str, data: &str, timestamp: u128, nonce: i32) -> String {
    let bytes = bincode::serialize(&(prev.to_string(), data.to_string(), timestamp, TARGET_HEXT, nonce)).unwrap();
    let mut hasher = Sha256::new();
    hasher.input(&bytes);
    let mut digest = [0u8; 32];
    hasher.result(&mut digest);
    digest.iter().map(|b| format!("{:02x}", b)).collect()
}

#[test]
fn prepare_hash_data_is_bincode_of_hashed_fields() {
    let b = Block::from_parts(1, "c".to_string(), "ab".to_string(), String::new(), 0, 2);
    let bytes = b.prepare_hash_data().unwrap();
    let mut expected: Vec<u8> = vec![2, 0, 0, 0, 0, 0, 0, 0, b'a', b'b'];
    expected.extend_from_slice(&[1, 0, 0, 0, 0, 0, 0, 0, b'c']);
    expected.extend_from_slice(&[1, 0, 0, 0, 0, 0, 0, 0, 0, 0, 0, 0, 0, 0, 0, 0]);
    expected.extend_from_slice(&[4, 0, 0, 0, 0, 0, 0, 0]);
    expected.extend_from_slice(&[2, 0, 0, 0]);
    assert_eq!(bytes, expected);
}

#[test]
fn prepare_hash_data_encodes_negative_nonce_and_utf8() {
    let b = Block::from_parts(0x0102, "é".to_string(), String::new(), String::new(), 0, -1);
    let bytes = b.prepare_hash_data().unwrap();
    let mut expected: Vec<u8> = vec![0, 0, 0, 0, 0, 0, 0, 0];
    expected.extend_from_slice(&[2, 0, 0, 0, 0, 0, 0, 0, 0xc3, 0xa9]);
    expected.extend_from_slice(&[0x02, 0x01, 0, 0, 0, 0, 0, 0, 0, 0, 0, 0, 0, 0, 0, 0]);
    expected.extend_from_slice(&[4, 0, 0, 0, 0, 0, 0, 0]);
    expected.extend_from_slice(&[0xff, 0xff, 0xff, 0xff]);
    assert_eq!(bytes, expected);
}

#[test]
fn mine_block_finds_least_valid_nonce() {
    let b = Block::mine_block("data".to_string(), "prev".to_string(), 3, 1_700_000_000_000).unwrap();
    let hash = b.get_hash();
    assert_eq!(hash.len(), 64);
    assert!(hash.starts_with("0000"));
    assert_eq!(hash, reference_hash("prev", "data", 1_700_000_000_000, b.get_nonce()));
    assert!(b.get_nonce() >= 0);
    for n in 0..b.get_nonce() {
        assert!(!reference_hash("prev", "data", 1_700_000_000_000, n).starts_with("0000"));
    }
    assert_eq!(b.get_height(), 3);
    assert_eq!(b.get_transaction(), "data");
    assert_eq!(b.get_prev_hash(), "prev");
    assert_eq!(b.get_timestamp(), 1_700_000_000_000);
    assert_eq!(b.validate(), Ok(true));
}

#[test]
fn validate_rejects_other_nonce() {
    let b = Block::mine_block("x".to_string(), String::new(), 0, 42).unwrap();
    let expected = reference_hash("", "x", 42, b.get_nonce() + 1).starts_with("0000");
    let other = Block::from_parts(42, "x".to_string(), String::new(), String::new(), 0, b.get_nonce() + 1);
    assert_eq!(other.validate(), Ok(expected));
}

#[test]
fn run_proof_of_work_starts_from_current_nonce() {
    let first = Block::mine_block("y".to_string(), "p".to_string(), 1, 7).unwrap();
    let mut b = Block::from_parts(7, "y".to_string(), "p".to_string(), String::new(), 1, first.get_nonce() + 1);
    assert_eq!(b.run_proof_of_work(), Ok(()));
    assert!(b.get_nonce() > first.get_nonce());
    assert!(b.get_hash().starts_with("0000"));
    assert_eq!(b.get_hash(), reference_hash("p", "y", 7, b.get_nonce()));
}

#[test]
fn run_proof_of_work_reports_exhausted_nonces() {
    // Only i32::MAX is left to try; it is tried and, unless it happens to
    // solve the puzzle, the search reports that the nonces ran out.
    let mut b = Block::from_parts(9, "z".to_string(), String::new(), String::new(), 0, i32::MAX);
    let solves = reference_hash("", "z", 9, i32::MAX).starts_with("0000");
    let res = b.run_proof_of_work();
    if solves {
        assert_eq!(res, Ok(()));
    } else {
        assert_eq!(res, Err(Error::NonceExhausted));
    }
}

#[test]
fn new_block_mines_with_current_time() {
    let b = Block::new_block("Genesis".to_string(), String::new(), 0).unwrap();
    assert!(b.get_hash().starts_with("0000"));
    assert!(b.get_timestamp() > 1_600_000_000_000);
    assert_eq!(b.get_hash(), reference_hash("", "Genesis", b.get_timestamp(), b.get_nonce()));
    assert_eq!(b.get_transaction(), "Genesis");
    assert_eq!(b.get_height(), 0);
}

#[test]
fn mined_hash_is_64_lowercase_hex_digits() {
    let b = Block::mine_block("hex".to_string(), "p".to_string(), 2, 5).unwrap();
    let hash = b.get_hash();
    assert_eq!(hash.len(), 64);
    assert!(hash.chars().all(|c| c.is_ascii_digit() || ('a'..='f').contains(&c)));
}
