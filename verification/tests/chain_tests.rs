use blockchain::blockchain::{balance_of, find_UTXO, find_transaction, find_unspent_transactions, get_prev_TXs};
use blockchain::error::Error;
use blockchain::hashing::is_cashaddr_payload_too_short;
use blockchain::transaction::{TXInput, TXOutput, Transaction};
use blockchain::wallet::{pub_hash_key, Wallet};

fn key(seed: u8) -> Vec<u8> {
    (0u8..32).map(|i| i.wrapping_add(seed)).collect()
}

fn key_hash(seed: u8) -> Vec<u8> {
    let mut k = key(seed);
    pub_hash_key(&mut k);
    k
}

fn coinbase(id: &str, to: u8, value: i32) -> Transaction {
    Transaction {
        id: id.to_string(),
        vin: vec![TXInput { txid: String::new(), vout: -1, pub_key: Vec::new() }],
        vout: vec![TXOutput { value, pub_key_hash: key_hash(to) }],
    }
}

fn spend(id: &str, from: u8, prev: &str, prev_out: i32, outs: Vec<(i32, u8)>) -> Transaction {
    Transaction {
        id: id.to_string(),
        vin: vec![TXInput { txid: prev.to_string(), vout: prev_out, pub_key: key(from) }],
        vout: outs.into_iter().map(|(value, to)| TXOutput { value, pub_key_hash: key_hash(to) }).collect(),
    }
}

// Newest block first: alice (1) received 10 in "cb1" and paid 3 of it to bob (2).
fn sample_chain() -> Vec<Vec<Transaction>> {
    vec![vec![spend("t1", 1, "cb1", 0, vec![(3, 2), (7, 1)])], vec![coinbase("cb1", 1, 10)]]
}

#[test]
fn utxo_excludes_spent_outputs() {
    let utxos = find_UTXO(&sample_chain());
    assert_eq!(utxos.len(), 1);
    assert_eq!(utxos[0].0, "t1");
    let values: Vec<i32> = utxos[0].1.outputs.iter().map(|o| o.value).collect();
    assert_eq!(values, vec![3, 7]);
}

#[test]
fn utxo_of_empty_chain_is_empty() {
    assert!(find_UTXO(&Vec::new()).is_empty());
    assert!(find_UTXO(&vec![Vec::new()]).is_empty());
}

#[test]
fn utxo_keeps_unspent_outputs_of_one_transaction() {
    // "t2" spends only output 1 of "t1": output 0 of "t1" stays.
    let chain = vec![
        vec![spend("t2", 1, "t1", 1, vec![(7, 3)])],
        vec![spend("t1", 1, "cb1", 0, vec![(3, 2), (7, 1)])],
        vec![coinbase("cb1", 1, 10)],
    ];
    let utxos = find_UTXO(&chain);
    assert_eq!(utxos.len(), 2);
    let t1 = utxos.iter().find(|(id, _)| id == "t1").unwrap();
    assert_eq!(t1.1.outputs.len(), 1);
    assert_eq!(t1.1.outputs[0].value, 3);
    let t2 = utxos.iter().find(|(id, _)| id == "t2").unwrap();
    assert_eq!(t2.1.outputs[0].value, 7);
}

#[test]
fn coinbase_inputs_spend_nothing() {
    // A coinbase input naming txid "" and vout -1 is not recorded as spent.
    let chain = vec![vec![coinbase("cb2", 2, 5)], vec![coinbase("", 1, 1)]];
    let utxos = find_UTXO(&chain);
    assert_eq!(utxos.len(), 2);
}

#[test]
fn unspent_transactions_for_each_address() {
    let chain = sample_chain();
    let alice = find_unspent_transactions(&chain, &key_hash(1));
    assert_eq!(alice.len(), 1);
    assert_eq!(alice[0].id, "t1");
    let bob = find_unspent_transactions(&chain, &key_hash(2));
    assert_eq!(bob.len(), 1);
    assert_eq!(bob[0].id, "t1");
    assert!(find_unspent_transactions(&chain, &key_hash(3)).is_empty());
}

#[test]
fn unspent_transaction_listed_once_per_output() {
    let chain = vec![vec![spend("t1", 1, "cb1", 0, vec![(4, 2), (6, 2)])], vec![coinbase("cb1", 1, 10)]];
    let bob = find_unspent_transactions(&chain, &key_hash(2));
    assert_eq!(bob.len(), 2);
    assert_eq!(bob[0], bob[1]);
}

#[test]
fn find_transaction_by_id() {
    let chain = sample_chain();
    let tx = find_transaction(&chain, "cb1").unwrap();
    assert_eq!(tx, coinbase("cb1", 1, 10));
    assert_eq!(find_transaction(&chain, "missing"), Err(Error::TransactionNotFound));
}

#[test]
fn previous_transactions_of_inputs() {
    let chain = sample_chain();
    let t1 = spend("t1", 1, "cb1", 0, vec![(3, 2), (7, 1)]);
    let prev = get_prev_TXs(&chain, &t1).unwrap();
    assert_eq!(prev.len(), 1);
    assert_eq!(prev[0].0, "cb1");
    assert_eq!(prev[0].1, coinbase("cb1", 1, 10));
    let dangling = spend("t9", 1, "nope", 0, vec![(1, 1)]);
    assert_eq!(get_prev_TXs(&chain, &dangling), Err(Error::TransactionNotFound));
}

#[test]
fn is_coinbase_and_unlocking() {
    let cb = coinbase("cb1", 1, 10);
    assert!(cb.is_coinbase());
    let t1 = spend("t1", 1, "cb1", 0, vec![(3, 2)]);
    assert!(!t1.is_coinbase());
    assert!(t1.vin[0].can_unlock_output_with(&key_hash(1)));
    assert!(!t1.vin[0].can_unlock_output_with(&key_hash(2)));
    assert!(t1.vout[0].can_be_unlock_with(&key_hash(2)));
    assert!(!t1.vout[0].can_be_unlock_with(&key_hash(1)));
}

fn address(seed: u8) -> String {
    Wallet { secret_key: Vec::new(), public_key: key(seed) }.get_address()
}

#[test]
fn balance_sums_unspent_outputs_of_address() {
    let chain = sample_chain();
    assert_eq!(balance_of(&chain, &address(1)), Some(7));
    assert_eq!(balance_of(&chain, &address(2)), Some(3));
    assert_eq!(balance_of(&chain, &address(3)), Some(0));
    assert_eq!(balance_of(&Vec::new(), &address(1)), Some(0));
}

#[test]
fn balance_of_undecodable_address_is_none() {
    assert_eq!(balance_of(&sample_chain(), "not an address"), None);
}

#[test]
fn balance_after_new_head_block() {
    // Bob (2) spends his output 0 of "t1" paying 1 to carol (3) and 2 back.
    let mut chain = sample_chain();
    chain.insert(0, vec![spend("t2", 2, "t1", 0, vec![(1, 3), (2, 2)])]);
    assert_eq!(balance_of(&chain, &address(1)), Some(7));
    assert_eq!(balance_of(&chain, &address(2)), Some(2));
    assert_eq!(balance_of(&chain, &address(3)), Some(1));
    let utxos = find_UTXO(&chain);
    let t2 = utxos.iter().find(|(id, _)| id == "t2").unwrap();
    assert_eq!(t2.1.outputs.iter().map(|o| o.value).collect::<Vec<_>>(), vec![1, 2]);
    let t1 = utxos.iter().find(|(id, _)| id == "t1").unwrap();
    assert_eq!(t1.1.outputs.iter().map(|o| o.value).collect::<Vec<_>>(), vec![7]);
}

fn cashaddr_polymod(v: &[u8]) -> u64 {
    let mut c: u64 = 1;
    for d in v {
        let c0 = (c >> 35) as u8;
        c = ((c & 0x0007_ffff_ffff) << 5) ^ u64::from(*d);
        if c0 & 0x01 != 0 {
            c ^= 0x0098_f2bc_8e61;
        }
        if c0 & 0x02 != 0 {
            c ^= 0x0079_b76d_99e2;
        }
        if c0 & 0x04 != 0 {
            c ^= 0x00f3_3e5f_b3c4;
        }
        if c0 & 0x08 != 0 {
            c ^= 0x00ae_2eab_e2a8;
        }
        if c0 & 0x10 != 0 {
            c ^= 0x001e_4f43_e470;
        }
    }
    c ^ 1
}

#[test]
fn balance_of_checksummed_empty_cashaddr_is_none() {
    // "bitcoincash:" followed by the 8 checksum symbols of an empty payload:
    // the checksum holds, but there is no version byte.
    let charset = b"qpzry9x8gf2tvdw0s3jn54khce6mua7l";
    let mut input: Vec<u8> = "bitcoincash".bytes().map(|c| c & 0x1f).collect();
    input.push(0);
    input.extend_from_slice(&[0; 8]);
    let checksum = cashaddr_polymod(&input);
    let symbols: String = (0..8).rev().map(|i| charset[((checksum >> (i * 5)) & 31) as usize] as char).collect();
    let address = format!("bitcoincash:{}", symbols);
    assert!(is_cashaddr_payload_too_short(&address));
    assert_eq!(balance_of(&sample_chain(), &address), None);
    assert_eq!(balance_of(&sample_chain(), "bitcoincash:qqqqqqqqq"), None);
}

#[test]
fn short_cashaddr_form() {
    assert!(is_cashaddr_payload_too_short("a:123456789"));
    assert!(!is_cashaddr_payload_too_short("a:1234567890"));
    assert!(!is_cashaddr_payload_too_short("a:b:c"));
    assert!(!is_cashaddr_payload_too_short("abc"));
    assert!(is_cashaddr_payload_too_short(":"));
    assert!(!is_cashaddr_payload_too_short(&address(1)));
}
