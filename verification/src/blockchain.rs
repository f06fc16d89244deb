//! What the chain's transactions say: which outputs are still unspent, which
//! transactions pay an address, and where a transaction is.
//!
//! A chain is given as the transaction lists of its blocks in the order the
//! chain is walked: newest block first, each block's transactions in order.

use vstd::multiset::Multiset;
use vstd::prelude::*;

use crate::error::{Error, Result};
use crate::table::{
    find_key, has_key, keys_distinct, lemma_table_get_at, table_get, table_insert, table_view,
};
use crate::transaction::{
    copy_outputs, outputs_view, Transaction, TransactionView, TXInputView, TXOutput,
    TXOutputView, TXOutputs,
};
use crate::hashing::{
    address_body, cashaddr_payload_too_short, decode_address_body, is_cashaddr_payload_too_short,
};
use crate::wallet::hash_pub_key;

verus! {

/// The transaction values of each block.
pub open spec fn chain_view(chain: Seq<Vec<Transaction>>) -> Seq<Seq<TransactionView>> {
    chain.map_values(|b: Vec<Transaction>| b@.map_values(|t: Transaction| t@))
}

/// All transactions of the chain in walking order.
pub open spec fn chain_txs(chain: Seq<Vec<Transaction>>) -> Seq<TransactionView> {
    chain_view(chain).flatten_alt()
}

/// The outputs that a transaction's inputs spend, as `(txid, vout)`.
pub open spec fn input_refs(tx: TransactionView) -> Seq<(Seq<char>, i32)> {
    tx.vin.map_values(|i: TXInputView| (i.txid, i.vout))
}

/// The outputs spent by the non-coinbase transactions of `txs`, in order.
pub open spec fn spent_refs(txs: Seq<TransactionView>) -> Seq<(Seq<char>, i32)>
    decreases txs.len(),
{
    if txs.len() == 0 {
        seq![]
    } else {
        spent_refs(txs.drop_last()) + if txs.last().is_coinbase() {
            Seq::<(Seq<char>, i32)>::empty()
        } else {
            input_refs(txs.last())
        }
    }
}

/// The first `m` outputs of `tx`, without those that `spent` lists.
pub open spec fn unspent_prefix(
    tx: TransactionView,
    spent: Seq<(Seq<char>, i32)>,
    m: int,
) -> Seq<TXOutputView>
    decreases m,
{
    if m <= 0 {
        seq![]
    } else {
        unspent_prefix(tx, spent, m - 1) + if spent.contains((tx.id, (m - 1) as i32)) {
            Seq::<TXOutputView>::empty()
        } else {
            seq![tx.vout[m - 1]]
        }
    }
}

/// The unspent outputs of the transactions with id `id`, when the chain is
/// walked as `txs`: an output counts as spent when a transaction met earlier
/// in the walk spends it.
pub open spec fn utxo_of(txs: Seq<TransactionView>, id: Seq<char>) -> Seq<TXOutputView>
    decreases txs.len(),
{
    if txs.len() == 0 {
        seq![]
    } else {
        utxo_of(txs.drop_last(), id) + if txs.last().id == id {
            unspent_prefix(txs.last(), spent_refs(txs.drop_last()), txs.last().vout.len() as int)
        } else {
            Seq::<TXOutputView>::empty()
        }
    }
}

/// The entry of the unspent-output map for `id`: absent when there is none.
pub open spec fn utxo_entry(txs: Seq<TransactionView>, id: Seq<char>) -> Option<Seq<TXOutputView>> {
    if utxo_of(txs, id).len() > 0 {
        Some(utxo_of(txs, id))
    } else {
        None
    }
}

/// `utxo_entry` part-way through a transaction: `m` of its outputs are done.
spec fn partial_entry(
    txs: Seq<TransactionView>,
    tx: TransactionView,
    m: int,
    id: Seq<char>,
) -> Option<Seq<TXOutputView>> {
    let outs = utxo_of(txs, id) + if tx.id == id {
        unspent_prefix(tx, spent_refs(txs), m)
    } else {
        Seq::<TXOutputView>::empty()
    };
    if outs.len() > 0 {
        Some(outs)
    } else {
        None
    }
}

/// The table maps each id to its unspent outputs and holds no other id.
pub open spec fn is_utxo_table(
    t: Seq<(Seq<char>, Seq<TXOutputView>)>,
    txs: Seq<TransactionView>,
) -> bool {
    &&& keys_distinct(t)
    &&& forall|id: Seq<char>| #[trigger] table_get(t, id) == utxo_entry(txs, id)
}

/// The walked prefix after `t` transactions of block `b`.
pub open spec fn walked(v: Seq<Seq<TransactionView>>, b: int, t: int) -> Seq<TransactionView> {
    v.take(b).flatten_alt() + v[b].take(t)
}

proof fn lemma_flatten_step(v: Seq<Seq<TransactionView>>, b: int)
    requires
        0 <= b < v.len(),
    ensures
        v.take(b + 1).flatten_alt() == v.take(b).flatten_alt() + v[b],
{
    assert(v.take(b + 1).drop_last() =~= v.take(b));
}

/// The walked prefix is a prefix of the whole walk, and the next transaction
/// of the walk is the block's next one.
proof fn lemma_walked_prefix(v: Seq<Seq<TransactionView>>, b: int, t: int)
    requires
        0 <= b < v.len(),
        0 <= t <= v[b].len(),
    ensures
        walked(v, b, t).len() + (v[b].len() - t) <= v.flatten_alt().len(),
        v.flatten_alt().take(walked(v, b, t).len() as int) == walked(v, b, t),
        t < v[b].len() ==> v.flatten_alt()[walked(v, b, t).len() as int] == v[b][t],
    decreases v.len(),
{
    let p = walked(v, b, t);
    let f = v.flatten_alt();
    if b == v.len() - 1 {
        assert(v.drop_last() =~= v.take(b));
        assert(f == v.take(b).flatten_alt() + v[b]);
        assert(f.take(p.len() as int) =~= p);
    } else {
        lemma_walked_prefix(v.drop_last(), b, t);
        assert(v.drop_last().take(b) =~= v.take(b));
        assert(v.drop_last()[b] == v[b]);
        let g = v.drop_last().flatten_alt();
        assert(f == g + v.last());
        assert(f.take(p.len() as int) =~= g.take(p.len() as int));
        if t < v[b].len() {
            assert(f[p.len() as int] == g[p.len() as int]);
        }
    }
}

/// The walk starts empty.
proof fn lemma_walk_start(v: Seq<Seq<TransactionView>>)
    ensures
        v.take(0).flatten_alt() == Seq::<TransactionView>::empty(),
{
    assert(v.take(0) =~= Seq::<Seq<TransactionView>>::empty());
}

/// Entering block `b`: its transactions are those of `chain[b]`, and none of
/// them is walked yet.
proof fn lemma_block_start(chain: Seq<Vec<Transaction>>, b: int)
    requires
        0 <= b < chain.len(),
    ensures
        chain_view(chain)[b] == chain[b]@.map_values(|t: Transaction| t@),
        walked(chain_view(chain), b, 0) == chain_view(chain).take(b).flatten_alt(),
{
    let v = chain_view(chain);
    assert(v[b].take(0) =~= Seq::<TransactionView>::empty());
    assert(walked(v, b, 0) =~= v.take(b).flatten_alt());
}

/// Walking one more transaction of block `b`.
proof fn lemma_walk_next(v: Seq<Seq<TransactionView>>, b: int, t: int)
    requires
        0 <= b < v.len(),
        0 <= t < v[b].len(),
    ensures
        walked(v, b, t + 1) == walked(v, b, t).push(v[b][t]),
{
    assert(v[b].take(t + 1) =~= v[b].take(t).push(v[b][t]));
    assert(walked(v, b, t + 1) =~= walked(v, b, t).push(v[b][t]));
}

/// Leaving block `b`: the walk so far is that of the first `b + 1` blocks.
proof fn lemma_block_end(v: Seq<Seq<TransactionView>>, b: int)
    requires
        0 <= b < v.len(),
    ensures
        walked(v, b, v[b].len() as int) == v.take(b + 1).flatten_alt(),
{
    lemma_flatten_step(v, b);
    assert(v[b].take(v[b].len() as int) =~= v[b]);
}

/// After the last block the walk is the whole chain.
proof fn lemma_walk_end(v: Seq<Seq<TransactionView>>)
    ensures
        v.take(v.len() as int).flatten_alt() == v.flatten_alt(),
{
    assert(v.take(v.len() as int) =~= v);
}

/// A list of spent outputs with the ids taken by their views.
pub open spec fn spent_view(spent: Seq<(String, i32)>) -> Seq<(Seq<char>, i32)> {
    spent.map_values(|p: (String, i32)| (p.0@, p.1))
}

/// Whether `spent` lists output `vout` of transaction `id`.
fn spent_contains(spent: &Vec<(String, i32)>, id: &String, vout: i32) -> (res: bool)
    ensures
        res == spent_view(spent@).contains((id@, vout)),
{
    let ghost sv = spent_view(spent@);
    let mut i: usize = 0;
    while i < spent.len()
        invariant
            sv == spent_view(spent@),
            i <= spent@.len(),
            forall|j: int| 0 <= j < i ==> sv[j] != (id@, vout),
        decreases spent@.len() - i,
    {
        if spent[i].1 == vout && spent[i].0 == *id {
            assert(sv[i as int] == (id@, vout));
            return true;
        }
        i = i + 1;
    }
    false
}

/// Appends `out` to the outputs stored under `key`, adding the key if absent.
fn add_output(table: &mut Vec<(String, TXOutputs)>, key: &String, out: TXOutput)
    requires
        keys_distinct(table_view(old(table)@)),
    ensures
        keys_distinct(table_view(final(table)@)),
        forall|id: Seq<char>|
            #[trigger] table_get(table_view(final(table)@), id) == if id == key@ {
                Some(
                    match table_get(table_view(old(table)@), id) {
                        Some(v) => v.push(out@),
                        None => seq![out@],
                    },
                )
            } else {
                table_get(table_view(old(table)@), id)
            },
{
    let ghost old_t = table_view(table@);
    match find_key(table, key) {
        Some(i) => {
            let mut outs = copy_outputs(&table[i].1.outputs);
            let ghost out_v = out@;
            outs.push(out);
            let k = table[i].0.clone();
            table.set(i, (k, TXOutputs { outputs: outs }));
            proof {
                let new_t = table_view(table@);
                assert(outputs_view(outs@) =~= old_t[i as int].1.push(out_v));
                assert(new_t =~= old_t.update(i as int, (key@, old_t[i as int].1.push(out_v))));
                assert(old_t[i as int].0 == key@);
                assert forall|a: int, b: int|
                    0 <= a < new_t.len() && 0 <= b < new_t.len() && a != b implies #[trigger] new_t[a].0
                    != #[trigger] new_t[b].0 by {
                    assert(new_t[a].0 == old_t[a].0);
                    assert(new_t[b].0 == old_t[b].0);
                }
                lemma_table_get_at(old_t, i as int);
                lemma_table_get_at(new_t, i as int);
                assert forall|id: Seq<char>| #[trigger]
                    table_get(new_t, id) == if id == key@ {
                        Some(
                            match table_get(old_t, id) {
                                Some(v) => v.push(out_v),
                                None => seq![out_v],
                            },
                        )
                    } else {
                        table_get(old_t, id)
                    } by {
                    if id != key@ {
                        if has_key(old_t, id) {
                            let j = choose|j: int| 0 <= j < old_t.len() && #[trigger] old_t[j].0 == id;
                            lemma_table_get_at(old_t, j);
                            lemma_table_get_at(new_t, j);
                        } else {
                            if has_key(new_t, id) {
                                let j = choose|j: int| 0 <= j < new_t.len() && #[trigger] new_t[j].0 == id;
                                assert(old_t[j].0 == id);
                            }
                        }
                    }
                }
            }
        },
        None => {
            let mut outs: Vec<TXOutput> = Vec::new();
            let ghost out_v = out@;
            outs.push(out);
            table.push((key.clone(), TXOutputs { outputs: outs }));
            proof {
                let new_t = table_view(table@);
                assert(outputs_view(outs@) =~= seq![out_v]);
                assert(new_t =~= old_t.push((key@, seq![out_v])));
                assert forall|a: int, b: int|
                    0 <= a < new_t.len() && 0 <= b < new_t.len() && a != b implies #[trigger] new_t[a].0
                    != #[trigger] new_t[b].0 by {
                    if a < old_t.len() && b < old_t.len() {
                        assert(new_t[a].0 == old_t[a].0);
                        assert(new_t[b].0 == old_t[b].0);
                    } else if a < old_t.len() {
                        assert(old_t[a].0 != key@);
                    } else if b < old_t.len() {
                        assert(old_t[b].0 != key@);
                    }
                }
                lemma_table_get_at(new_t, old_t.len() as int);
                assert forall|id: Seq<char>| #[trigger]
                    table_get(new_t, id) == if id == key@ {
                        Some(
                            match table_get(old_t, id) {
                                Some(v) => v.push(out_v),
                                None => seq![out_v],
                            },
                        )
                    } else {
                        table_get(old_t, id)
                    } by {
                    if id != key@ {
                        if has_key(old_t, id) {
                            let j = choose|j: int| 0 <= j < old_t.len() && #[trigger] old_t[j].0 == id;
                            lemma_table_get_at(old_t, j);
                            lemma_table_get_at(new_t, j);
                        } else {
                            if has_key(new_t, id) {
                                let j = choose|j: int| 0 <= j < new_t.len() && #[trigger] new_t[j].0 == id;
                                assert(old_t[j].0 == id);
                            }
                        }
                    }
                }
            }
        },
    }
}

/// Appends the outputs that `tx`'s inputs spend to `spent`, unless `tx` is a
/// coinbase transaction.
fn record_spent(tx: &Transaction, spent: &mut Vec<(String, i32)>)
    ensures
        spent_view(final(spent)@) == spent_view(old(spent)@) + if tx@.is_coinbase() {
            Seq::<(Seq<char>, i32)>::empty()
        } else {
            input_refs(tx@)
        },
{
    if !tx.is_coinbase() {
        let n = tx.vin.len();
        let mut j: usize = 0;
        while j < n
            invariant
                n == tx.vin@.len(),
                j <= n,
                !tx@.is_coinbase(),
                spent_view(spent@) == spent_view(old(spent)@) + input_refs(tx@).take(j as int),
            decreases n - j,
        {
            let ghost before = spent@;
            spent.push((tx.vin[j].txid.clone(), tx.vin[j].vout));
            proof {
                assert(spent_view(spent@) =~= spent_view(before).push(input_refs(tx@)[j as int]));
                assert(input_refs(tx@).take(j + 1) =~= input_refs(tx@).take(j as int).push(
                    input_refs(tx@)[j as int],
                ));
            }
            j = j + 1;
        }
        assert(input_refs(tx@).take(n as int) =~= input_refs(tx@));
    } else {
        assert(spent_view(spent@) =~= spent_view(spent@) + Seq::<(Seq<char>, i32)>::empty());
    }
}

/// One transaction of the walk for `find_UTXO`: its unspent outputs are added
/// under its id, then the outputs its inputs spend are recorded.
fn utxo_step(
    tx: &Transaction,
    table: &mut Vec<(String, TXOutputs)>,
    spent: &mut Vec<(String, i32)>,
    Ghost(prefix): Ghost<Seq<TransactionView>>,
)
    requires
        is_utxo_table(table_view(old(table)@), prefix),
        spent_view(old(spent)@) == spent_refs(prefix),
    ensures
        is_utxo_table(table_view(final(table)@), prefix.push(tx@)),
        spent_view(final(spent)@) == spent_refs(prefix.push(tx@)),
{
    let n = tx.vout.len();
    proof {
        assert forall|id: Seq<char>|
            #[trigger] partial_entry(prefix, tx@, 0, id) == utxo_entry(prefix, id) by {
            assert(utxo_of(prefix, id) + Seq::<TXOutputView>::empty() =~= utxo_of(prefix, id));
        }
    }
    let mut index: usize = 0;
    while index < n
        invariant
            n == tx.vout@.len(),
            index <= n,
            spent_view(spent@) == spent_refs(prefix),
            keys_distinct(table_view(table@)),
            forall|id: Seq<char>|
                #[trigger] table_get(table_view(table@), id) == partial_entry(
                    prefix,
                    tx@,
                    index as int,
                    id,
                ),
        decreases n - index,
    {
        let ghost before = table_view(table@);
        let kept = !spent_contains(spent, &tx.id, index as i32);
        if kept {
            add_output(table, &tx.id, tx.vout[index].duplicate());
        }
        proof {
            let m = index as int;
            assert(tx@.vout[m] == tx.vout@[m]@);
            assert forall|id: Seq<char>|
                #[trigger] table_get(table_view(table@), id) == partial_entry(
                    prefix,
                    tx@,
                    m + 1,
                    id,
                ) by {
                let outs = utxo_of(prefix, id) + if tx@.id == id {
                    unspent_prefix(tx@, spent_refs(prefix), m)
                } else {
                    Seq::<TXOutputView>::empty()
                };
                if tx@.id == id {
                    if kept {
                        assert(utxo_of(prefix, id) + unspent_prefix(tx@, spent_refs(prefix), m + 1)
                            =~= outs.push(tx@.vout[m]));
                        if outs.len() == 0 {
                            assert(outs.push(tx@.vout[m]) =~= seq![tx@.vout[m]]);
                        }
                    } else {
                        assert(utxo_of(prefix, id) + unspent_prefix(tx@, spent_refs(prefix), m + 1)
                            =~= outs);
                    }
                }
            }
        }
        index = index + 1;
    }
    proof {
        let next = prefix.push(tx@);
        assert(next.drop_last() =~= prefix);
        assert forall|id: Seq<char>|
            #[trigger] table_get(table_view(table@), id) == utxo_entry(next, id) by {
            assert(partial_entry(prefix, tx@, n as int, id) == utxo_entry(next, id));
        }
    }
    record_spent(tx, spent);
    proof {
        let next = prefix.push(tx@);
        assert(next.drop_last() =~= prefix);
    }
}

/// The unspent outputs of the chain, by transaction id: each id whose
/// transactions keep an output that no transaction met earlier in the walk
/// spends, with those outputs in order; no other id.
#[allow(non_snake_case)]
pub fn find_UTXO(chain: &Vec<Vec<Transaction>>) -> (res: Vec<(String, TXOutputs)>)
    ensures
        is_utxo_table(table_view(res@), chain_txs(chain@)),
{
    let mut utxos: Vec<(String, TXOutputs)> = Vec::new();
    let mut spend_txos: Vec<(String, i32)> = Vec::new();
    let ghost v = chain_view(chain@);
    let ghost mut prefix: Seq<TransactionView> = Seq::empty();
    proof {
        lemma_walk_start(v);
        assert(table_view(utxos@) =~= Seq::<(Seq<char>, Seq<TXOutputView>)>::empty());
        assert(spent_view(spend_txos@) =~= Seq::<(Seq<char>, i32)>::empty());
    }
    let nb = chain.len();
    let mut b: usize = 0;
    while b < nb
        invariant
            nb == chain@.len(),
            b <= nb,
            v == chain_view(chain@),
            prefix == v.take(b as int).flatten_alt(),
            is_utxo_table(table_view(utxos@), prefix),
            spent_view(spend_txos@) == spent_refs(prefix),
        decreases nb - b,
    {
        let block = &chain[b];
        let nt = block.len();
        proof {
            lemma_block_start(chain@, b as int);
        }
        let mut t: usize = 0;
        while t < nt
            invariant
                nb == chain@.len(),
                b < nb,
                nt == block@.len(),
                block@ == chain@[b as int]@,
                t <= nt,
                v == chain_view(chain@),
                v[b as int] == block@.map_values(|t: Transaction| t@),
                prefix == walked(v, b as int, t as int),
                is_utxo_table(table_view(utxos@), prefix),
                spent_view(spend_txos@) == spent_refs(prefix),
            decreases nt - t,
        {
            utxo_step(&block[t], &mut utxos, &mut spend_txos, Ghost(prefix));
            proof {
                lemma_walk_next(v, b as int, t as int);
                prefix = prefix.push(block@[t as int]@);
            }
            t = t + 1;
        }
        proof {
            lemma_block_end(v, b as int);
        }
        b = b + 1;
    }
    proof {
        lemma_walk_end(v);
    }
    utxos
}

/// The outputs that the inputs of `tx` (the first `j`) made with the key
/// hashing to `address` spend.
pub open spec fn unlocking_refs(tx: TransactionView, address: Seq<u8>, j: int) -> Seq<(Seq<char>, i32)>
    decreases j,
{
    if j <= 0 {
        seq![]
    } else {
        unlocking_refs(tx, address, j - 1) + if hash_pub_key(tx.vin[j - 1].pub_key) == address {
            seq![(tx.vin[j - 1].txid, tx.vin[j - 1].vout)]
        } else {
            Seq::<(Seq<char>, i32)>::empty()
        }
    }
}

/// The outputs spent, in `txs`, by non-coinbase inputs made with the key
/// hashing to `address`.
pub open spec fn spent_by_address(txs: Seq<TransactionView>, address: Seq<u8>) -> Seq<(Seq<char>, i32)>
    decreases txs.len(),
{
    if txs.len() == 0 {
        seq![]
    } else {
        spent_by_address(txs.drop_last(), address) + if txs.last().is_coinbase() {
            Seq::<(Seq<char>, i32)>::empty()
        } else {
            unlocking_refs(txs.last(), address, txs.last().vin.len() as int)
        }
    }
}

/// `tx` once for each of its first `m` outputs that is locked to `address` and
/// not listed in `spent`.
pub open spec fn paying_copies(
    tx: TransactionView,
    spent: Seq<(Seq<char>, i32)>,
    address: Seq<u8>,
    m: int,
) -> Seq<TransactionView>
    decreases m,
{
    if m <= 0 {
        seq![]
    } else {
        paying_copies(tx, spent, address, m - 1) + if !spent.contains((tx.id, (m - 1) as i32))
            && tx.vout[m - 1].pub_key_hash == address {
            seq![tx]
        } else {
            Seq::<TransactionView>::empty()
        }
    }
}

/// The transactions with an output locked to `address` that no input made with
/// the address's key, met earlier in the walk, spends: a transaction appears
/// once per such output.
pub open spec fn unspent_txs(txs: Seq<TransactionView>, address: Seq<u8>) -> Seq<TransactionView>
    decreases txs.len(),
{
    if txs.len() == 0 {
        seq![]
    } else {
        unspent_txs(txs.drop_last(), address) + paying_copies(
            txs.last(),
            spent_by_address(txs.drop_last(), address),
            address,
            txs.last().vout.len() as int,
        )
    }
}

/// Every input of a non-coinbase transaction of the chain carries a key of at
/// least 32 bytes (hashing a shorter key panics).
pub open spec fn input_keys_hashable(v: Seq<Seq<TransactionView>>) -> bool {
    forall|b: int, t: int, j: int|
        0 <= b < v.len() && 0 <= t < v[b].len() && !v[b][t].is_coinbase() && 0 <= j
            < v[b][t].vin.len() ==> #[trigger] v[b][t].vin[j].pub_key.len() >= 32
}

/// The values of a list of transactions.
pub open spec fn txs_view(txs: Seq<Transaction>) -> Seq<TransactionView> {
    txs.map_values(|t: Transaction| t@)
}

/// Records the outputs that the inputs of `tx` made with `address`'s key
/// spend, unless `tx` is a coinbase transaction.
fn record_spent_by_address(tx: &Transaction, address: &[u8], spent: &mut Vec<(String, i32)>)
    requires
        !tx@.is_coinbase() ==> forall|j: int|
            0 <= j < tx@.vin.len() ==> #[trigger] tx@.vin[j].pub_key.len() >= 32,
    ensures
        spent_view(final(spent)@) == spent_view(old(spent)@) + if tx@.is_coinbase() {
            Seq::<(Seq<char>, i32)>::empty()
        } else {
            unlocking_refs(tx@, address@, tx@.vin.len() as int)
        },
{
    if !tx.is_coinbase() {
        let n = tx.vin.len();
        let mut j: usize = 0;
        while j < n
            invariant
                n == tx.vin@.len(),
                j <= n,
                !tx@.is_coinbase(),
                forall|k: int| 0 <= k < tx@.vin.len() ==> #[trigger] tx@.vin[k].pub_key.len() >= 32,
                spent_view(spent@) == spent_view(old(spent)@) + unlocking_refs(
                    tx@,
                    address@,
                    j as int,
                ),
            decreases n - j,
        {
            let ghost before = spent@;
            assert(tx@.vin[j as int] == tx.vin@[j as int]@);
            assert(tx@.vin[j as int].pub_key.len() >= 32);
            if tx.vin[j].can_unlock_output_with(address) {
                spent.push((tx.vin[j].txid.clone(), tx.vin[j].vout));
                assert(spent_view(spent@) =~= spent_view(before).push(
                    (tx@.vin[j as int].txid, tx@.vin[j as int].vout),
                ));
            }
            proof {
                assert(spent_view(spent@) =~= spent_view(old(spent)@) + unlocking_refs(
                    tx@,
                    address@,
                    j + 1,
                ));
            }
            j = j + 1;
        }
    } else {
        assert(spent_view(spent@) =~= spent_view(spent@) + Seq::<(Seq<char>, i32)>::empty());
    }
}

/// One transaction of the walk for `find_unspent_transactions`.
fn unspent_step(
    tx: &Transaction,
    address: &[u8],
    found: &mut Vec<Transaction>,
    spent: &mut Vec<(String, i32)>,
    Ghost(prefix): Ghost<Seq<TransactionView>>,
)
    requires
        txs_view(old(found)@) == unspent_txs(prefix, address@),
        spent_view(old(spent)@) == spent_by_address(prefix, address@),
        !tx@.is_coinbase() ==> forall|j: int|
            0 <= j < tx@.vin.len() ==> #[trigger] tx@.vin[j].pub_key.len() >= 32,
    ensures
        txs_view(final(found)@) == unspent_txs(prefix.push(tx@), address@),
        spent_view(final(spent)@) == spent_by_address(prefix.push(tx@), address@),
{
    let n = tx.vout.len();
    let ghost s = spent_by_address(prefix, address@);
    assert(txs_view(found@) =~= unspent_txs(prefix, address@) + paying_copies(tx@, s, address@, 0));
    let mut index: usize = 0;
    while index < n
        invariant
            n == tx.vout@.len(),
            index <= n,
            s == spent_by_address(prefix, address@),
            spent_view(spent@) == s,
            txs_view(found@) == unspent_txs(prefix, address@) + paying_copies(
                tx@,
                s,
                address@,
                index as int,
            ),
        decreases n - index,
    {
        let ghost before = found@;
        if !spent_contains(spent, &tx.id, index as i32) {
            assert(tx@.vout[index as int] == tx.vout@[index as int]@);
            if tx.vout[index].can_be_unlock_with(address) {
                found.push(tx.duplicate());
                assert(txs_view(found@) =~= txs_view(before).push(tx@));
            }
        }
        proof {
            assert(txs_view(found@) =~= unspent_txs(prefix, address@) + paying_copies(
                tx@,
                s,
                address@,
                index + 1,
            ));
        }
        index = index + 1;
    }
    record_spent_by_address(tx, address, spent);
    proof {
        let next = prefix.push(tx@);
        assert(next.drop_last() =~= prefix);
    }
}

/// The transactions of the chain that pay `address` and whose payment no
/// input made with the address's key, met earlier in the walk, spends: a
/// transaction is listed once per such output, in walking order.
pub fn find_unspent_transactions(chain: &Vec<Vec<Transaction>>, address: &[u8]) -> (res: Vec<
    Transaction,
>)
    requires
        input_keys_hashable(chain_view(chain@)),
    ensures
        txs_view(res@) == unspent_txs(chain_txs(chain@), address@),
{
    let mut unspend_txs: Vec<Transaction> = Vec::new();
    let mut spent_txos: Vec<(String, i32)> = Vec::new();
    let ghost v = chain_view(chain@);
    let ghost mut prefix: Seq<TransactionView> = Seq::empty();
    proof {
        lemma_walk_start(v);
        assert(txs_view(unspend_txs@) =~= Seq::<TransactionView>::empty());
        assert(spent_view(spent_txos@) =~= Seq::<(Seq<char>, i32)>::empty());
    }
    let nb = chain.len();
    let mut b: usize = 0;
    while b < nb
        invariant
            nb == chain@.len(),
            b <= nb,
            v == chain_view(chain@),
            input_keys_hashable(v),
            prefix == v.take(b as int).flatten_alt(),
            txs_view(unspend_txs@) == unspent_txs(prefix, address@),
            spent_view(spent_txos@) == spent_by_address(prefix, address@),
        decreases nb - b,
    {
        let block = &chain[b];
        let nt = block.len();
        proof {
            lemma_block_start(chain@, b as int);
        }
        let mut t: usize = 0;
        while t < nt
            invariant
                nb == chain@.len(),
                b < nb,
                nt == block@.len(),
                block@ == chain@[b as int]@,
                t <= nt,
                v == chain_view(chain@),
                input_keys_hashable(v),
                v[b as int] == block@.map_values(|t: Transaction| t@),
                prefix == walked(v, b as int, t as int),
                txs_view(unspend_txs@) == unspent_txs(prefix, address@),
                spent_view(spent_txos@) == spent_by_address(prefix, address@),
            decreases nt - t,
        {
            proof {
                assert(v[b as int][t as int] == block@[t as int]@);
                assert forall|j: int|
                    0 <= j < block@[t as int]@.vin.len() && !block@[t as int]@.is_coinbase()
                    implies #[trigger] block@[t as int]@.vin[j].pub_key.len() >= 32 by {
                    assert(v[b as int][t as int].vin[j].pub_key.len() >= 32);
                }
            }
            unspent_step(&block[t], address, &mut unspend_txs, &mut spent_txos, Ghost(prefix));
            proof {
                lemma_walk_next(v, b as int, t as int);
                prefix = prefix.push(block@[t as int]@);
            }
            t = t + 1;
        }
        proof {
            lemma_block_end(v, b as int);
        }
        b = b + 1;
    }
    proof {
        lemma_walk_end(v);
    }
    unspend_txs
}

/// Some transaction of `txs` has id `id`.
pub open spec fn has_tx_with_id(txs: Seq<TransactionView>, id: Seq<char>) -> bool {
    exists|k: int| 0 <= k < txs.len() && #[trigger] txs[k].id == id
}

/// `k` is the position of the first transaction of `txs` with id `id`.
pub open spec fn is_first_with_id(txs: Seq<TransactionView>, id: Seq<char>, k: int) -> bool {
    &&& 0 <= k < txs.len()
    &&& txs[k].id == id
    &&& forall|j: int| 0 <= j < k ==> #[trigger] txs[j].id != id
}

/// The first transaction of `txs` with id `id` (meaningful when there is one).
pub open spec fn first_tx_with_id(txs: Seq<TransactionView>, id: Seq<char>) -> TransactionView {
    txs[choose|k: int| is_first_with_id(txs, id, k)]
}

proof fn lemma_first_tx_with_id(txs: Seq<TransactionView>, id: Seq<char>, k: int)
    requires
        is_first_with_id(txs, id, k),
    ensures
        first_tx_with_id(txs, id) == txs[k],
{
    let c = choose|c: int| is_first_with_id(txs, id, c);
    assert(is_first_with_id(txs, id, c));
    if c < k {
        assert(txs[c].id != id);
    } else if k < c {
        assert(txs[k].id != id);
    }
}

/// The first transaction met in the walk whose id is `id`.
pub fn find_transaction(chain: &Vec<Vec<Transaction>>, id: &str) -> (res: Result<Transaction>)
    ensures
        res is Ok <==> has_tx_with_id(chain_txs(chain@), id@),
        res matches Ok(tx) ==> tx@ == first_tx_with_id(chain_txs(chain@), id@) && tx@.id == id@,
        res matches Err(e) ==> e == Error::TransactionNotFound,
{
    let id_string: String = id.to_owned();
    let ghost v = chain_view(chain@);
    let ghost txs = chain_txs(chain@);
    let ghost mut prefix: Seq<TransactionView> = Seq::empty();
    proof {
        lemma_walk_start(v);
    }
    let nb = chain.len();
    let mut b: usize = 0;
    while b < nb
        invariant
            nb == chain@.len(),
            b <= nb,
            v == chain_view(chain@),
            txs == v.flatten_alt(),
            id_string@ == id@,
            prefix == v.take(b as int).flatten_alt(),
            forall|j: int| 0 <= j < prefix.len() ==> #[trigger] prefix[j].id != id@,
        decreases nb - b,
    {
        let block = &chain[b];
        let nt = block.len();
        proof {
            lemma_block_start(chain@, b as int);
        }
        let mut t: usize = 0;
        while t < nt
            invariant
                nb == chain@.len(),
                b < nb,
                nt == block@.len(),
                block@ == chain@[b as int]@,
                t <= nt,
                v == chain_view(chain@),
                txs == v.flatten_alt(),
                id_string@ == id@,
                v[b as int] == block@.map_values(|t: Transaction| t@),
                prefix == walked(v, b as int, t as int),
                forall|j: int| 0 <= j < prefix.len() ==> #[trigger] prefix[j].id != id@,
            decreases nt - t,
        {
            if block[t].id == id_string {
                proof {
                    lemma_walked_prefix(v, b as int, t as int);
                    let k = prefix.len() as int;
                    assert(v[b as int][t as int] == block@[t as int]@);
                    assert forall|j: int| 0 <= j < k implies #[trigger] txs[j].id != id@ by {
                        assert(txs.take(k)[j] == txs[j]);
                    }
                    assert(is_first_with_id(txs, id@, k));
                    lemma_first_tx_with_id(txs, id@, k);
                }
                return Ok(block[t].duplicate());
            }
            proof {
                lemma_walk_next(v, b as int, t as int);
                prefix = prefix.push(block@[t as int]@);
            }
            t = t + 1;
        }
        proof {
            lemma_block_end(v, b as int);
        }
        b = b + 1;
    }
    proof {
        lemma_walk_end(v);
        if has_tx_with_id(txs, id@) {
            let k = choose|k: int| 0 <= k < txs.len() && #[trigger] txs[k].id == id@;
            assert(prefix[k].id != id@);
        }
    }
    Err(Error::TransactionNotFound)
}

/// Some input of `tx` spends an output of transaction `id`.
pub open spec fn spends_from(tx: TransactionView, id: Seq<char>) -> bool {
    exists|j: int| 0 <= j < tx.vin.len() && #[trigger] tx.vin[j].txid == id
}

/// The transactions whose outputs the inputs of `tx` spend, by id: for each
/// input, the first transaction met in the walk with the input's `txid`.
/// Fails when some input's transaction is not in the chain.
#[allow(non_snake_case)]
pub fn get_prev_TXs(chain: &Vec<Vec<Transaction>>, tx: &Transaction) -> (res: Result<
    Vec<(String, Transaction)>,
>)
    ensures
        res is Ok <==> forall|j: int|
            0 <= j < tx@.vin.len() ==> has_tx_with_id(chain_txs(chain@), #[trigger] tx@.vin[j].txid),
        res matches Ok(prev) ==> {
            &&& keys_distinct(table_view(prev@))
            &&& forall|id: Seq<char>| #[trigger]
                table_get(table_view(prev@), id) == if spends_from(tx@, id) {
                    Some(first_tx_with_id(chain_txs(chain@), id))
                } else {
                    None
                }
            &&& forall|j: int|
                0 <= j < tx@.vin.len() ==> table_get(table_view(prev@), #[trigger] tx@.vin[j].txid)
                    == Some(first_tx_with_id(chain_txs(chain@), tx@.vin[j].txid))
            &&& forall|id: Seq<char>|
                #[trigger] table_get(table_view(prev@), id) is Some ==> exists|j: int|
                    0 <= j < tx@.vin.len() && tx@.vin[j].txid == id
        },
        res matches Err(e) ==> e == Error::TransactionNotFound,
{
    let ghost txs = chain_txs(chain@);
    let mut prev_TXs: Vec<(String, Transaction)> = Vec::new();
    proof {
        assert(table_view(prev_TXs@) =~= Seq::<(Seq<char>, TransactionView)>::empty());
    }
    let n = tx.vin.len();
    let mut j: usize = 0;
    while j < n
        invariant
            n == tx.vin@.len(),
            j <= n,
            txs == chain_txs(chain@),
            forall|i: int| 0 <= i < j ==> has_tx_with_id(txs, #[trigger] tx@.vin[i].txid),
            keys_distinct(table_view(prev_TXs@)),
            forall|id: Seq<char>| #[trigger]
                table_get(table_view(prev_TXs@), id) == if exists|i: int|
                    0 <= i < j && #[trigger] tx@.vin[i].txid == id {
                    Some(first_tx_with_id(txs, id))
                } else {
                    None
                },
        decreases n - j,
    {
        assert(tx@.vin[j as int] == tx.vin@[j as int]@);
        let prev = match find_transaction(chain, tx.vin[j].txid.as_str()) {
            Ok(p) => p,
            Err(e) => {
                assert(!has_tx_with_id(txs, tx@.vin[j as int].txid));
                return Err(e);
            },
        };
        let ghost before = table_view(prev_TXs@);
        let key = prev.id.clone();
        table_insert(&mut prev_TXs, key, prev);
        proof {
            let jj = j as int;
            assert forall|id: Seq<char>| #[trigger]
                table_get(table_view(prev_TXs@), id) == if exists|i: int|
                    0 <= i < jj + 1 && #[trigger] tx@.vin[i].txid == id {
                    Some(first_tx_with_id(txs, id))
                } else {
                    None
                } by {
                if id != tx@.vin[jj].txid {
                    if exists|i: int| 0 <= i < jj + 1 && #[trigger] tx@.vin[i].txid == id {
                        let i = choose|i: int| 0 <= i < jj + 1 && #[trigger] tx@.vin[i].txid == id;
                        assert(i < jj);
                    }
                } else {
                    assert(0 <= jj < jj + 1 && tx@.vin[jj].txid == id);
                }
            }
        }
        j = j + 1;
    }
    proof {
        assert forall|id: Seq<char>| #[trigger]
            table_get(table_view(prev_TXs@), id) == if spends_from(tx@, id) {
                Some(first_tx_with_id(txs, id))
            } else {
                None
            } by {
            if spends_from(tx@, id) {
                let i = choose|i: int| 0 <= i < tx@.vin.len() && #[trigger] tx@.vin[i].txid == id;
                assert(0 <= i < n && tx@.vin[i].txid == id);
            }
        }
        assert forall|i: int| 0 <= i < tx@.vin.len() implies table_get(
            table_view(prev_TXs@),
            #[trigger] tx@.vin[i].txid,
        ) == Some(first_tx_with_id(txs, tx@.vin[i].txid)) by {
            assert(spends_from(tx@, tx@.vin[i].txid));
        }
    }
    Ok(prev_TXs)
}

proof fn lemma_unspent_prefix_element(tx: TransactionView, spent: Seq<(Seq<char>, i32)>, m: int, i: int)
    requires
        0 <= m <= tx.vout.len(),
        0 <= i < unspent_prefix(tx, spent, m).len(),
    ensures
        exists|j: int|
            0 <= j < m && #[trigger] tx.vout[j] == unspent_prefix(tx, spent, m)[i] && !spent.contains(
                (tx.id, j as i32),
            ),
    decreases m,
{
    let prev = unspent_prefix(tx, spent, m - 1);
    if i < prev.len() {
        lemma_unspent_prefix_element(tx, spent, m - 1, i);
        let j = choose|j: int|
            0 <= j < m - 1 && #[trigger] tx.vout[j] == prev[i] && !spent.contains((tx.id, j as i32));
        assert(tx.vout[j] == unspent_prefix(tx, spent, m)[i]);
    } else {
        assert(tx.vout[m - 1] == unspent_prefix(tx, spent, m)[i]);
    }
}

proof fn lemma_unspent_prefix_complete(tx: TransactionView, spent: Seq<(Seq<char>, i32)>, m: int, j: int)
    requires
        0 <= j < m <= tx.vout.len(),
        !spent.contains((tx.id, j as i32)),
    ensures
        unspent_prefix(tx, spent, m).contains(tx.vout[j]),
    decreases m,
{
    if j < m - 1 {
        lemma_unspent_prefix_complete(tx, spent, m - 1, j);
        let prev = unspent_prefix(tx, spent, m - 1);
        let k = choose|k: int| 0 <= k < prev.len() && prev[k] == tx.vout[j];
        assert(unspent_prefix(tx, spent, m)[k] == tx.vout[j]);
    } else {
        let prev = unspent_prefix(tx, spent, m - 1);
        assert(unspent_prefix(tx, spent, m)[prev.len() as int] == tx.vout[j]);
    }
}

/// Soundness of the unspent-output map: every output it lists under `id` is an
/// output of a transaction with that id which no input met earlier in the walk
/// spends.
pub proof fn lemma_utxo_lists_only_unspent_outputs(txs: Seq<TransactionView>, id: Seq<char>, i: int)
    requires
        0 <= i < utxo_of(txs, id).len(),
    ensures
        exists|k: int, j: int|
            #![trigger txs[k].vout[j]]
            0 <= k < txs.len() && txs[k].id == id && 0 <= j < txs[k].vout.len() && txs[k].vout[j]
                == utxo_of(txs, id)[i] && !spent_refs(txs.take(k)).contains((id, j as i32)),
    decreases txs.len(),
{
    let p = txs.drop_last();
    let head = utxo_of(p, id);
    if i < head.len() {
        lemma_utxo_lists_only_unspent_outputs(p, id, i);
        let (k, j) = choose|k: int, j: int|
            #![trigger p[k].vout[j]]
            0 <= k < p.len() && p[k].id == id && 0 <= j < p[k].vout.len() && p[k].vout[j] == head[i]
                && !spent_refs(p.take(k)).contains((id, j as i32));
        assert(p.take(k) =~= txs.take(k));
        assert(txs[k] == p[k]);
        assert(txs[k].vout[j] == utxo_of(txs, id)[i]);
    } else {
        let last = txs.last();
        let k = txs.len() - 1;
        assert(last.id == id);
        lemma_unspent_prefix_element(last, spent_refs(p), last.vout.len() as int, i - head.len());
        let j = choose|j: int|
            0 <= j < last.vout.len() && #[trigger] last.vout[j] == unspent_prefix(
                last,
                spent_refs(p),
                last.vout.len() as int,
            )[i - head.len()] && !spent_refs(p).contains((last.id, j as i32));
        assert(txs.take(k) =~= p);
        assert(txs[k].vout[j] == utxo_of(txs, id)[i]);
    }
}

/// Completeness of the unspent-output map: every output of a transaction with
/// id `id` that no input met earlier in the walk spends is listed under `id`.
pub proof fn lemma_utxo_lists_every_unspent_output(
    txs: Seq<TransactionView>,
    id: Seq<char>,
    k: int,
    j: int,
)
    requires
        0 <= k < txs.len(),
        txs[k].id == id,
        0 <= j < txs[k].vout.len(),
        !spent_refs(txs.take(k)).contains((id, j as i32)),
    ensures
        utxo_of(txs, id).contains(txs[k].vout[j]),
    decreases txs.len(),
{
    let p = txs.drop_last();
    if k < txs.len() - 1 {
        assert(p.take(k) =~= txs.take(k));
        assert(p[k] == txs[k]);
        lemma_utxo_lists_every_unspent_output(p, id, k, j);
        let head = utxo_of(p, id);
        let x = choose|x: int| 0 <= x < head.len() && head[x] == txs[k].vout[j];
        assert(utxo_of(txs, id)[x] == txs[k].vout[j]);
    } else {
        assert(txs.take(k) =~= p);
        let last = txs.last();
        lemma_unspent_prefix_complete(last, spent_refs(p), last.vout.len() as int, j);
        let tail = unspent_prefix(last, spent_refs(p), last.vout.len() as int);
        let x = choose|x: int| 0 <= x < tail.len() && tail[x] == last.vout[j];
        assert(utxo_of(txs, id)[utxo_of(p, id).len() + x] == txs[k].vout[j]);
    }
}

proof fn lemma_paying_copies_pay(
    tx: TransactionView,
    spent: Seq<(Seq<char>, i32)>,
    address: Seq<u8>,
    m: int,
    i: int,
)
    requires
        0 <= m <= tx.vout.len(),
        0 <= i < paying_copies(tx, spent, address, m).len(),
    ensures
        paying_copies(tx, spent, address, m)[i] == tx,
        exists|j: int|
            0 <= j < m && #[trigger] tx.vout[j].pub_key_hash == address && !spent.contains(
                (tx.id, j as i32),
            ),
    decreases m,
{
    let prev = paying_copies(tx, spent, address, m - 1);
    if i < prev.len() {
        lemma_paying_copies_pay(tx, spent, address, m - 1, i);
    } else {
        assert(tx.vout[m - 1].pub_key_hash == address);
    }
}

/// Every transaction that `find_unspent_transactions` lists for `address` is a
/// transaction of the walk with an output locked to `address`.
pub proof fn lemma_unspent_txs_pay_address(txs: Seq<TransactionView>, address: Seq<u8>, i: int)
    requires
        0 <= i < unspent_txs(txs, address).len(),
    ensures
        exists|k: int| 0 <= k < txs.len() && #[trigger] txs[k] == unspent_txs(txs, address)[i],
        exists|j: int|
            0 <= j < unspent_txs(txs, address)[i].vout.len()
                && #[trigger] unspent_txs(txs, address)[i].vout[j].pub_key_hash == address,
    decreases txs.len(),
{
    let p = txs.drop_last();
    let head = unspent_txs(p, address);
    if i < head.len() {
        lemma_unspent_txs_pay_address(p, address, i);
        let k = choose|k: int| 0 <= k < p.len() && #[trigger] p[k] == head[i];
        assert(txs[k] == p[k]);
        assert(unspent_txs(txs, address)[i] == head[i]);
    } else {
        let last = txs.last();
        lemma_paying_copies_pay(
            last,
            spent_by_address(p, address),
            address,
            last.vout.len() as int,
            i - head.len(),
        );
        assert(txs[txs.len() - 1] == unspent_txs(txs, address)[i]);
    }
}

/// The total value of the outputs locked to `body`.
pub open spec fn locked_value(outs: Seq<TXOutputView>, body: Seq<u8>) -> int
    decreases outs.len(),
{
    if outs.len() == 0 {
        0
    } else {
        locked_value(outs.drop_last(), body) + if outs.last().pub_key_hash == body {
            outs.last().value as int
        } else {
            0
        }
    }
}

/// The total value of the unspent outputs of the walk locked to `body`
/// (the outputs `utxo_of` lists, summed over every transaction).
pub open spec fn chain_balance(txs: Seq<TransactionView>, body: Seq<u8>) -> int
    decreases txs.len(),
{
    if txs.len() == 0 {
        0
    } else {
        chain_balance(txs.drop_last(), body) + locked_value(
            unspent_prefix(txs.last(), spent_refs(txs.drop_last()), txs.last().vout.len() as int),
            body,
        )
    }
}

/// How many outputs the transactions have in all.
pub open spec fn output_count(txs: Seq<TransactionView>) -> nat
    decreases txs.len(),
{
    if txs.len() == 0 {
        0
    } else {
        output_count(txs.drop_last()) + txs.last().vout.len()
    }
}

proof fn lemma_output_count_take(txs: Seq<TransactionView>, k: int)
    requires
        0 <= k <= txs.len(),
    ensures
        output_count(txs.take(k)) <= output_count(txs),
    decreases txs.len(),
{
    if k < txs.len() {
        assert(txs.drop_last().take(k) =~= txs.take(k));
        lemma_output_count_take(txs.drop_last(), k);
    } else {
        assert(txs.take(k) =~= txs);
    }
}

/// One transaction of the walk for `balance_of`: adds its unspent outputs
/// locked to `body`, then records what its inputs spend.
fn balance_step(
    tx: &Transaction,
    body: &Vec<u8>,
    spent: &mut Vec<(String, i32)>,
    total: &mut i128,
    Ghost(prefix): Ghost<Seq<TransactionView>>,
)
    requires
        spent_view(old(spent)@) == spent_refs(prefix),
        *old(total) == chain_balance(prefix, body@),
        output_count(prefix) + tx@.vout.len() <= usize::MAX,
        -(2147483648 * output_count(prefix)) <= *old(total) <= 2147483647 * output_count(prefix),
    ensures
        spent_view(final(spent)@) == spent_refs(prefix.push(tx@)),
        *final(total) == chain_balance(prefix.push(tx@), body@),
        -(2147483648 * output_count(prefix.push(tx@))) <= *final(total) <= 2147483647
            * output_count(prefix.push(tx@)),
{
    let ghost s = spent_refs(prefix);
    let ghost c0 = output_count(prefix);
    let n = tx.vout.len();
    assert(locked_value(unspent_prefix(tx@, s, 0), body@) == 0);
    let mut index: usize = 0;
    while index < n
        invariant
            n == tx.vout@.len(),
            index <= n,
            s == spent_refs(prefix),
            spent_view(spent@) == s,
            c0 == output_count(prefix),
            c0 + n <= usize::MAX,
            *total == chain_balance(prefix, body@) + locked_value(
                unspent_prefix(tx@, s, index as int),
                body@,
            ),
            -(2147483648 * (c0 + index)) <= *total <= 2147483647 * (c0 + index),
        decreases n - index,
    {
        let ghost before = unspent_prefix(tx@, s, index as int);
        let ghost t0 = *total;
        let ghost m = index as int;
        assert(tx@.vout[m] == tx.vout@[m]@);
        if !spent_contains(spent, &tx.id, index as i32) {
            let ghost next = before.push(tx@.vout[m]);
            assert(unspent_prefix(tx@, s, m + 1) =~= next);
            assert(next.drop_last() =~= before);
            if tx.vout[index].can_be_unlock_with(body.as_slice()) {
                *total = *total + tx.vout[index].value as i128;
            }
        } else {
            assert(unspent_prefix(tx@, s, m + 1) =~= before);
        }
        index = index + 1;
    }
    record_spent(tx, spent);
    proof {
        let next = prefix.push(tx@);
        assert(next.drop_last() =~= prefix);
    }
}

/// The balance of `address`: `None` where the address does not decode (which
/// includes every string that `cashaddr_payload_too_short` describes), and
/// otherwise the total value of the chain's unspent outputs locked to the
/// address's body, coinbase outputs included: what the entries of the
/// unspent-output map hold for the address, summed. The chain's outputs, being
/// in memory, number at most `usize::MAX`.
pub fn balance_of(chain: &Vec<Vec<Transaction>>, address: &str) -> (res: Option<i128>)
    requires
        output_count(chain_txs(chain@)) <= usize::MAX,
    ensures
        res is Some <==> !cashaddr_payload_too_short(address@) && address_body(address@) is Some,
        res is Some ==> res.unwrap() == chain_balance(
            chain_txs(chain@),
            address_body(address@).unwrap(),
        ),
        res is Some ==> forall|t: Seq<(Seq<char>, Seq<TXOutputView>)>|
            #[trigger] is_utxo_table(t, chain_txs(chain@)) ==> table_balance(
                t,
                address_body(address@).unwrap(),
            ) == res.unwrap(),
{
    if is_cashaddr_payload_too_short(address) {
        return None;
    }
    let body = match decode_address_body(address) {
        Some(b) => b,
        None => {
            return None;
        },
    };
    let mut balance: i128 = 0;
    let mut spent: Vec<(String, i32)> = Vec::new();
    let ghost v = chain_view(chain@);
    let ghost txs = chain_txs(chain@);
    let ghost mut prefix: Seq<TransactionView> = Seq::empty();
    proof {
        lemma_walk_start(v);
        assert(spent_view(spent@) =~= Seq::<(Seq<char>, i32)>::empty());
    }
    let nb = chain.len();
    let mut b: usize = 0;
    while b < nb
        invariant
            nb == chain@.len(),
            b <= nb,
            v == chain_view(chain@),
            txs == v.flatten_alt(),
            output_count(txs) <= usize::MAX,
            prefix == v.take(b as int).flatten_alt(),
            balance == chain_balance(prefix, body@),
            -(2147483648 * output_count(prefix)) <= balance <= 2147483647 * output_count(prefix),
            spent_view(spent@) == spent_refs(prefix),
        decreases nb - b,
    {
        let block = &chain[b];
        let nt = block.len();
        proof {
            lemma_block_start(chain@, b as int);
        }
        let mut t: usize = 0;
        while t < nt
            invariant
                nb == chain@.len(),
                b < nb,
                nt == block@.len(),
                block@ == chain@[b as int]@,
                t <= nt,
                v == chain_view(chain@),
                txs == v.flatten_alt(),
                output_count(txs) <= usize::MAX,
                v[b as int] == block@.map_values(|t: Transaction| t@),
                prefix == walked(v, b as int, t as int),
                balance == chain_balance(prefix, body@),
                -(2147483648 * output_count(prefix)) <= balance <= 2147483647 * output_count(
                    prefix,
                ),
                spent_view(spent@) == spent_refs(prefix),
            decreases nt - t,
        {
            proof {
                lemma_walked_prefix(v, b as int, t as int);
                let k = prefix.len() as int;
                assert(v[b as int][t as int] == block@[t as int]@);
                assert(txs.take(k + 1) =~= prefix.push(block@[t as int]@));
                lemma_output_count_take(txs, k + 1);
                assert(prefix.push(block@[t as int]@).drop_last() =~= prefix);
            }
            balance_step(&block[t], &body, &mut spent, &mut balance, Ghost(prefix));
            proof {
                lemma_walk_next(v, b as int, t as int);
                prefix = prefix.push(block@[t as int]@);
            }
            t = t + 1;
        }
        proof {
            lemma_block_end(v, b as int);
        }
        b = b + 1;
    }
    proof {
        lemma_walk_end(v);
        assert forall|t: Seq<(Seq<char>, Seq<TXOutputView>)>|
            #[trigger] is_utxo_table(t, txs) implies table_balance(t, body@) == balance by {
            lemma_balance_is_sum_over_utxo_map(t, txs, body@);
        }
    }
    Some(balance)
}

/// `utxo_of` when, besides what the walk spends, the outputs `extra` lists are
/// spent as well.
pub open spec fn utxo_given(
    txs: Seq<TransactionView>,
    id: Seq<char>,
    extra: Seq<(Seq<char>, i32)>,
) -> Seq<TXOutputView>
    decreases txs.len(),
{
    if txs.len() == 0 {
        seq![]
    } else {
        utxo_given(txs.drop_last(), id, extra) + if txs.last().id == id {
            unspent_prefix(
                txs.last(),
                extra + spent_refs(txs.drop_last()),
                txs.last().vout.len() as int,
            )
        } else {
            Seq::<TXOutputView>::empty()
        }
    }
}

/// What a transaction's inputs spend: nothing for a coinbase transaction.
pub open spec fn spends_of(tx: TransactionView) -> Seq<(Seq<char>, i32)> {
    if tx.is_coinbase() {
        Seq::<(Seq<char>, i32)>::empty()
    } else {
        input_refs(tx)
    }
}

proof fn lemma_spent_refs_head(tx: TransactionView, txs: Seq<TransactionView>)
    ensures
        spent_refs(seq![tx] + txs) == spends_of(tx) + spent_refs(txs),
    decreases txs.len(),
{
    let all = seq![tx] + txs;
    if txs.len() == 0 {
        assert(all =~= seq![tx]);
        assert(all.drop_last() =~= Seq::<TransactionView>::empty());
        assert(spent_refs(Seq::<TransactionView>::empty()) =~= Seq::<(Seq<char>, i32)>::empty());
        assert(spends_of(tx) + spent_refs(txs) =~= spends_of(tx));
        assert(all.last() == tx);
        assert(spent_refs(all) == spent_refs(all.drop_last()) + spends_of(tx));
        assert(spent_refs(all) =~= spends_of(tx));
    } else {
        lemma_spent_refs_head(tx, txs.drop_last());
        assert(all.drop_last() =~= seq![tx] + txs.drop_last());
        assert(all.last() == txs.last());
        let x = if txs.last().is_coinbase() {
            Seq::<(Seq<char>, i32)>::empty()
        } else {
            input_refs(txs.last())
        };
        assert(spent_refs(all) =~= spends_of(tx) + spent_refs(txs.drop_last()) + x);
    }
}

proof fn lemma_unspent_prefix_nothing_spent(tx: TransactionView, m: int)
    requires
        0 <= m <= tx.vout.len(),
    ensures
        unspent_prefix(tx, Seq::<(Seq<char>, i32)>::empty(), m) == tx.vout.take(m),
    decreases m,
{
    if m > 0 {
        lemma_unspent_prefix_nothing_spent(tx, m - 1);
        assert(!Seq::<(Seq<char>, i32)>::empty().contains((tx.id, (m - 1) as i32)));
        assert(tx.vout.take(m) =~= tx.vout.take(m - 1).push(tx.vout[m - 1]));
        assert(unspent_prefix(tx, Seq::<(Seq<char>, i32)>::empty(), m) =~= tx.vout.take(m - 1)
            + seq![tx.vout[m - 1]]);
    } else {
        assert(tx.vout.take(0) =~= Seq::<TXOutputView>::empty());
    }
}

/// The unspent-output map when a transaction `tx` is put at the head of the
/// walk (in a new newest block): `tx`'s own outputs are all unspent and come
/// first under its id, and under every id the outputs of the older walk stay
/// except those that `tx`'s inputs spend (none for a coinbase transaction).
pub proof fn lemma_utxo_after_new_head(tx: TransactionView, older: Seq<TransactionView>, id: Seq<char>)
    ensures
        utxo_of(seq![tx] + older, id) == (if tx.id == id {
            tx.vout
        } else {
            Seq::<TXOutputView>::empty()
        }) + utxo_given(older, id, spends_of(tx)),
        tx.is_coinbase() ==> utxo_given(older, id, spends_of(tx)) == utxo_of(older, id),
    decreases older.len(),
{
    let all = seq![tx] + older;
    let head = if tx.id == id {
        tx.vout
    } else {
        Seq::<TXOutputView>::empty()
    };
    if older.len() == 0 {
        assert(all =~= seq![tx]);
        assert(all.drop_last() =~= Seq::<TransactionView>::empty());
        lemma_unspent_prefix_nothing_spent(tx, tx.vout.len() as int);
        assert(tx.vout.take(tx.vout.len() as int) =~= tx.vout);
        assert(spent_refs(Seq::<TransactionView>::empty()) =~= Seq::<(Seq<char>, i32)>::empty());
        assert(utxo_of(Seq::<TransactionView>::empty(), id) =~= Seq::<TXOutputView>::empty());
        assert(all.last() == tx);
        assert(utxo_of(all, id) =~= head);
        assert(head + utxo_given(older, id, spends_of(tx)) =~= head);
    } else {
        lemma_utxo_after_new_head(tx, older.drop_last(), id);
        assert(all.drop_last() =~= seq![tx] + older.drop_last());
        assert(all.last() == older.last());
        lemma_spent_refs_head(tx, older.drop_last());
        let tail = if older.last().id == id {
            unspent_prefix(
                older.last(),
                spends_of(tx) + spent_refs(older.drop_last()),
                older.last().vout.len() as int,
            )
        } else {
            Seq::<TXOutputView>::empty()
        };
        assert(utxo_of(all, id) =~= head + utxo_given(older.drop_last(), id, spends_of(tx))
            + tail);
        assert(utxo_given(older, id, spends_of(tx)) =~= utxo_given(
            older.drop_last(),
            id,
            spends_of(tx),
        ) + tail);
        if tx.is_coinbase() {
            assert(spends_of(tx) + spent_refs(older.drop_last()) =~= spent_refs(older.drop_last()));
        }
    }
}

proof fn lemma_paying_copies_complete(
    tx: TransactionView,
    spent: Seq<(Seq<char>, i32)>,
    address: Seq<u8>,
    m: int,
    j: int,
)
    requires
        0 <= j < m <= tx.vout.len(),
        tx.vout[j].pub_key_hash == address,
        !spent.contains((tx.id, j as i32)),
    ensures
        paying_copies(tx, spent, address, m).contains(tx),
    decreases m,
{
    let prev = paying_copies(tx, spent, address, m - 1);
    if j < m - 1 {
        lemma_paying_copies_complete(tx, spent, address, m - 1, j);
        let x = choose|x: int| 0 <= x < prev.len() && prev[x] == tx;
        assert(paying_copies(tx, spent, address, m)[x] == tx);
    } else {
        assert(paying_copies(tx, spent, address, m)[prev.len() as int] == tx);
    }
}

/// Completeness of `find_unspent_transactions`: a transaction of the walk with
/// an output locked to `address` that no input made with the address's key,
/// met earlier in the walk, spends is listed.
pub proof fn lemma_unspent_txs_lists_every_payment(
    txs: Seq<TransactionView>,
    address: Seq<u8>,
    k: int,
    j: int,
)
    requires
        0 <= k < txs.len(),
        0 <= j < txs[k].vout.len(),
        txs[k].vout[j].pub_key_hash == address,
        !spent_by_address(txs.take(k), address).contains((txs[k].id, j as i32)),
    ensures
        unspent_txs(txs, address).contains(txs[k]),
    decreases txs.len(),
{
    let p = txs.drop_last();
    if k < txs.len() - 1 {
        assert(p.take(k) =~= txs.take(k));
        assert(p[k] == txs[k]);
        lemma_unspent_txs_lists_every_payment(p, address, k, j);
        let head = unspent_txs(p, address);
        let x = choose|x: int| 0 <= x < head.len() && head[x] == txs[k];
        assert(unspent_txs(txs, address)[x] == txs[k]);
    } else {
        assert(txs.take(k) =~= p);
        let last = txs.last();
        let sp = spent_by_address(p, address);
        lemma_paying_copies_complete(last, sp, address, last.vout.len() as int, j);
        let tail = paying_copies(last, sp, address, last.vout.len() as int);
        let x = choose|x: int| 0 <= x < tail.len() && tail[x] == last;
        assert(unspent_txs(txs, address)[unspent_txs(p, address).len() + x] == txs[k]);
    }
}

/// The first `m` outputs of `tx` that `spent` does not list but `named` does.
pub open spec fn named_prefix(
    tx: TransactionView,
    spent: Seq<(Seq<char>, i32)>,
    named: Seq<(Seq<char>, i32)>,
    m: int,
) -> Seq<TXOutputView>
    decreases m,
{
    if m <= 0 {
        seq![]
    } else {
        named_prefix(tx, spent, named, m - 1) + if !spent.contains((tx.id, (m - 1) as i32))
            && named.contains((tx.id, (m - 1) as i32)) {
            seq![tx.vout[m - 1]]
        } else {
            Seq::<TXOutputView>::empty()
        }
    }
}

/// The outputs that `utxo_of` lists under `id` and that `named` names.
pub open spec fn utxo_named(
    txs: Seq<TransactionView>,
    id: Seq<char>,
    named: Seq<(Seq<char>, i32)>,
) -> Seq<TXOutputView>
    decreases txs.len(),
{
    if txs.len() == 0 {
        seq![]
    } else {
        utxo_named(txs.drop_last(), id, named) + if txs.last().id == id {
            named_prefix(txs.last(), spent_refs(txs.drop_last()), named, txs.last().vout.len() as int)
        } else {
            Seq::<TXOutputView>::empty()
        }
    }
}

proof fn lemma_empty_to_multiset()
    ensures
        Seq::<TXOutputView>::empty().to_multiset() =~= Multiset::<TXOutputView>::empty(),
{
    broadcast use vstd::multiset::group_multiset_axioms;

    let e = Seq::<TXOutputView>::empty();
    e.to_multiset_ensures();
    assert forall|a: TXOutputView| e.to_multiset().count(a) == 0 by {
        assert(!e.contains(a));
    }
}

proof fn lemma_contains_concat<A>(a: Seq<A>, b: Seq<A>, x: A)
    ensures
        (a + b).contains(x) <==> (a.contains(x) || b.contains(x)),
{
    if a.contains(x) {
        let i = choose|i: int| 0 <= i < a.len() && a[i] == x;
        assert((a + b)[i] == x);
    }
    if b.contains(x) {
        let i = choose|i: int| 0 <= i < b.len() && b[i] == x;
        assert((a + b)[a.len() + i] == x);
    }
    if (a + b).contains(x) {
        let i = choose|i: int| 0 <= i < (a + b).len() && (a + b)[i] == x;
        if i < a.len() {
            assert(a[i] == x);
        } else {
            assert(b[i - a.len()] == x);
        }
    }
}

proof fn lemma_unspent_prefix_split(
    tx: TransactionView,
    spent: Seq<(Seq<char>, i32)>,
    named: Seq<(Seq<char>, i32)>,
    m: int,
)
    requires
        0 <= m <= tx.vout.len(),
    ensures
        unspent_prefix(tx, spent, m).to_multiset() =~= unspent_prefix(tx, named + spent, m).to_multiset().add(
            named_prefix(tx, spent, named, m).to_multiset(),
        ),
    decreases m,
{
    broadcast use vstd::multiset::group_multiset_axioms, vstd::seq_lib::to_multiset_build;

    if m == 0 {
        assert(unspent_prefix(tx, spent, 0) =~= Seq::<TXOutputView>::empty());
        assert(unspent_prefix(tx, named + spent, 0) =~= Seq::<TXOutputView>::empty());
        assert(named_prefix(tx, spent, named, 0) =~= Seq::<TXOutputView>::empty());
        lemma_empty_to_multiset();
    } else {
        lemma_unspent_prefix_split(tx, spent, named, m - 1);
        let x = (tx.id, (m - 1) as i32);
        let o = tx.vout[m - 1];
        lemma_contains_concat(named, spent, x);
        let u = unspent_prefix(tx, spent, m - 1);
        let g = unspent_prefix(tx, named + spent, m - 1);
        let n = named_prefix(tx, spent, named, m - 1);
        if spent.contains(x) {
            assert(unspent_prefix(tx, spent, m) =~= u);
            assert(unspent_prefix(tx, named + spent, m) =~= g);
            assert(named_prefix(tx, spent, named, m) =~= n);
        } else if named.contains(x) {
            assert(unspent_prefix(tx, spent, m) =~= u.push(o));
            assert(unspent_prefix(tx, named + spent, m) =~= g);
            assert(named_prefix(tx, spent, named, m) =~= n.push(o));
        } else {
            assert(unspent_prefix(tx, spent, m) =~= u.push(o));
            assert(unspent_prefix(tx, named + spent, m) =~= g.push(o));
            assert(named_prefix(tx, spent, named, m) =~= n);
        }
    }
}

/// Under every id, the listed outputs are those that stay listed when the
/// outputs in `named` are spent as well, together with those that `named` names.
proof fn lemma_utxo_split(txs: Seq<TransactionView>, id: Seq<char>, named: Seq<(Seq<char>, i32)>)
    ensures
        utxo_of(txs, id).to_multiset() =~= utxo_given(txs, id, named).to_multiset().add(
            utxo_named(txs, id, named).to_multiset(),
        ),
    decreases txs.len(),
{
    broadcast use vstd::multiset::group_multiset_axioms, vstd::seq_lib::lemma_multiset_commutative;

    if txs.len() == 0 {
        lemma_empty_to_multiset();
        assert(utxo_of(txs, id) =~= Seq::<TXOutputView>::empty());
        assert(utxo_given(txs, id, named) =~= Seq::<TXOutputView>::empty());
        assert(utxo_named(txs, id, named) =~= Seq::<TXOutputView>::empty());
    } else {
        lemma_utxo_split(txs.drop_last(), id, named);
        let last = txs.last();
        let sp = spent_refs(txs.drop_last());
        if last.id == id {
            lemma_unspent_prefix_split(last, sp, named, last.vout.len() as int);
        } else {
            lemma_empty_to_multiset();
        }
    }
}

/// The unspent-output map after a new head transaction `tx`, counted as a
/// multiset under every id: the outputs of `tx` (under its id) are added, and
/// the older unspent outputs that `tx`'s inputs name are taken away; those are
/// all among the older unspent outputs.
pub proof fn lemma_utxo_after_new_head_counted(
    tx: TransactionView,
    older: Seq<TransactionView>,
    id: Seq<char>,
)
    ensures
        utxo_named(older, id, spends_of(tx)).to_multiset().subset_of(utxo_of(older, id).to_multiset()),
        utxo_of(seq![tx] + older, id).to_multiset() =~= (if tx.id == id {
            tx.vout
        } else {
            Seq::<TXOutputView>::empty()
        }).to_multiset().add(utxo_of(older, id).to_multiset()).sub(
            utxo_named(older, id, spends_of(tx)).to_multiset(),
        ),
{
    broadcast use vstd::multiset::group_multiset_axioms, vstd::seq_lib::lemma_multiset_commutative;

    lemma_utxo_after_new_head(tx, older, id);
    lemma_utxo_split(older, id, spends_of(tx));
}

/// The outputs that a transaction's inputs name are all of its inputs, in
/// order: one `(txid, vout)` for each input.
pub proof fn lemma_input_refs_lists_every_input(tx: TransactionView)
    ensures
        input_refs(tx).len() == tx.vin.len(),
        forall|j: int|
            0 <= j < tx.vin.len() ==> #[trigger] input_refs(tx)[j] == (
                tx.vin[j].txid,
                tx.vin[j].vout,
            ),
{
}

/// An output counts as spent by `txs` exactly when some input of a
/// non-coinbase transaction of `txs` names it.
pub proof fn lemma_spent_refs_are_inputs(txs: Seq<TransactionView>, x: (Seq<char>, i32))
    ensures
        spent_refs(txs).contains(x) <==> exists|k: int, j: int|
            #![trigger txs[k].vin[j]]
            0 <= k < txs.len() && !txs[k].is_coinbase() && 0 <= j < txs[k].vin.len() && (
                txs[k].vin[j].txid,
                txs[k].vin[j].vout,
            ) == x,
    decreases txs.len(),
{
    if txs.len() == 0 {
        assert(!spent_refs(txs).contains(x));
    } else {
        let p = txs.drop_last();
        let last = txs.last();
        let extra = if last.is_coinbase() {
            Seq::<(Seq<char>, i32)>::empty()
        } else {
            input_refs(last)
        };
        lemma_spent_refs_are_inputs(p, x);
        lemma_contains_concat(spent_refs(p), extra, x);
        assert(spent_refs(txs) == spent_refs(p) + extra);
        if spent_refs(txs).contains(x) {
            if spent_refs(p).contains(x) {
                let (k, j) = choose|k: int, j: int|
                    #![trigger p[k].vin[j]]
                    0 <= k < p.len() && !p[k].is_coinbase() && 0 <= j < p[k].vin.len() && (
                        p[k].vin[j].txid,
                        p[k].vin[j].vout,
                    ) == x;
                assert(txs[k] == p[k]);
                assert(txs[k].vin[j] == p[k].vin[j]);
            } else {
                let j = choose|j: int| 0 <= j < extra.len() && extra[j] == x;
                let k = txs.len() - 1;
                assert(txs[k] == last);
                assert(txs[k].vin[j] == last.vin[j]);
            }
        }
        if exists|k: int, j: int|
            #![trigger txs[k].vin[j]]
            0 <= k < txs.len() && !txs[k].is_coinbase() && 0 <= j < txs[k].vin.len() && (
                txs[k].vin[j].txid,
                txs[k].vin[j].vout,
            ) == x {
            let (k, j) = choose|k: int, j: int|
                #![trigger txs[k].vin[j]]
                0 <= k < txs.len() && !txs[k].is_coinbase() && 0 <= j < txs[k].vin.len() && (
                    txs[k].vin[j].txid,
                    txs[k].vin[j].vout,
                ) == x;
            if k < txs.len() - 1 {
                assert(p[k] == txs[k]);
                assert(p[k].vin[j] == txs[k].vin[j]);
            } else {
                assert(txs[k] == last);
                assert(extra[j] == x);
            }
        }
    }
}

/// Soundness of the unspent-output map in terms of inputs: every output listed
/// under `id` is output `j` of a transaction `k` with that id such that no
/// input of a non-coinbase transaction met before `k` in the walk names
/// `(id, j)`.
pub proof fn lemma_utxo_lists_no_output_an_earlier_input_names(
    txs: Seq<TransactionView>,
    id: Seq<char>,
    i: int,
)
    requires
        0 <= i < utxo_of(txs, id).len(),
    ensures
        exists|k: int, j: int|
            #![trigger txs[k].vout[j]]
            0 <= k < txs.len() && txs[k].id == id && 0 <= j < txs[k].vout.len() && txs[k].vout[j]
                == utxo_of(txs, id)[i] && forall|k2: int, j2: int|
                #![trigger txs[k2].vin[j2]]
                0 <= k2 < k && !txs[k2].is_coinbase() && 0 <= j2 < txs[k2].vin.len() ==> !(
                txs[k2].vin[j2].txid == id && txs[k2].vin[j2].vout == j as i32),
{
    lemma_utxo_lists_only_unspent_outputs(txs, id, i);
    let (k, j) = choose|k: int, j: int|
        #![trigger txs[k].vout[j]]
        0 <= k < txs.len() && txs[k].id == id && 0 <= j < txs[k].vout.len() && txs[k].vout[j]
            == utxo_of(txs, id)[i] && !spent_refs(txs.take(k)).contains((id, j as i32));
    let pre = txs.take(k);
    lemma_spent_refs_are_inputs(pre, (id, j as i32));
    assert forall|k2: int, j2: int|
        #![trigger txs[k2].vin[j2]]
        0 <= k2 < k && !txs[k2].is_coinbase() && 0 <= j2 < txs[k2].vin.len() implies !(
        txs[k2].vin[j2].txid == id && txs[k2].vin[j2].vout == j as i32) by {
        assert(pre[k2] == txs[k2]);
        assert(pre[k2].vin[j2] == txs[k2].vin[j2]);
    }
    assert(txs[k].vout[j] == utxo_of(txs, id)[i]);
}

/// The outputs that the first `m` inputs of `tx` made with `address`'s key
/// name: each such input's `(txid, vout)`, and nothing else.
proof fn lemma_unlocking_refs_prefix(tx: TransactionView, address: Seq<u8>, m: int, x: (Seq<char>, i32))
    requires
        0 <= m <= tx.vin.len(),
    ensures
        unlocking_refs(tx, address, m).contains(x) <==> exists|j: int|
            0 <= j < m && hash_pub_key(#[trigger] tx.vin[j].pub_key) == address && (
                tx.vin[j].txid,
                tx.vin[j].vout,
            ) == x,
    decreases m,
{
    if m <= 0 {
        assert(!unlocking_refs(tx, address, m).contains(x));
    } else {
        lemma_unlocking_refs_prefix(tx, address, m - 1, x);
        let prev = unlocking_refs(tx, address, m - 1);
        let extra = if hash_pub_key(tx.vin[m - 1].pub_key) == address {
            seq![(tx.vin[m - 1].txid, tx.vin[m - 1].vout)]
        } else {
            Seq::<(Seq<char>, i32)>::empty()
        };
        lemma_contains_concat(prev, extra, x);
        assert(unlocking_refs(tx, address, m) == prev + extra);
        if extra.contains(x) {
            assert(extra[0] == x);
            assert(hash_pub_key(tx.vin[m - 1].pub_key) == address);
        }
        if exists|j: int|
            0 <= j < m && hash_pub_key(#[trigger] tx.vin[j].pub_key) == address && (
                tx.vin[j].txid,
                tx.vin[j].vout,
            ) == x {
            let j = choose|j: int|
                0 <= j < m && hash_pub_key(#[trigger] tx.vin[j].pub_key) == address && (
                    tx.vin[j].txid,
                    tx.vin[j].vout,
                ) == x;
            if j == m - 1 {
                assert(extra[0] == x);
            }
        }
    }
}

/// The outputs that the inputs of `tx` made with the key hashing to `address`
/// name: every such input is recorded, and no other.
pub proof fn lemma_unlocking_refs_are_matching_inputs(tx: TransactionView, address: Seq<u8>)
    ensures
        forall|j: int|
            0 <= j < tx.vin.len() && hash_pub_key(#[trigger] tx.vin[j].pub_key) == address
                ==> unlocking_refs(tx, address, tx.vin.len() as int).contains(
                (tx.vin[j].txid, tx.vin[j].vout),
            ),
        forall|x: (Seq<char>, i32)|
            #[trigger] unlocking_refs(tx, address, tx.vin.len() as int).contains(x) ==> exists|j: int|
                0 <= j < tx.vin.len() && hash_pub_key(#[trigger] tx.vin[j].pub_key) == address && (
                    tx.vin[j].txid,
                    tx.vin[j].vout,
                ) == x,
{
    let n = tx.vin.len() as int;
    assert forall|j: int|
        0 <= j < tx.vin.len() && hash_pub_key(#[trigger] tx.vin[j].pub_key) == address
            implies unlocking_refs(tx, address, n).contains((tx.vin[j].txid, tx.vin[j].vout)) by {
        lemma_unlocking_refs_prefix(tx, address, n, (tx.vin[j].txid, tx.vin[j].vout));
    }
    assert forall|x: (Seq<char>, i32)|
        #[trigger] unlocking_refs(tx, address, n).contains(x) implies exists|j: int|
            0 <= j < tx.vin.len() && hash_pub_key(#[trigger] tx.vin[j].pub_key) == address && (
                tx.vin[j].txid,
                tx.vin[j].vout,
            ) == x by {
        lemma_unlocking_refs_prefix(tx, address, n, x);
    }
}

/// An output counts as spent by `address` in `txs` exactly when some input made
/// with the address's key, in a non-coinbase transaction of `txs`, names it.
pub proof fn lemma_spent_by_address_are_inputs(
    txs: Seq<TransactionView>,
    address: Seq<u8>,
    x: (Seq<char>, i32),
)
    ensures
        spent_by_address(txs, address).contains(x) <==> exists|k: int, j: int|
            #![trigger txs[k].vin[j]]
            0 <= k < txs.len() && !txs[k].is_coinbase() && 0 <= j < txs[k].vin.len()
                && hash_pub_key(txs[k].vin[j].pub_key) == address && (
                txs[k].vin[j].txid,
                txs[k].vin[j].vout,
            ) == x,
    decreases txs.len(),
{
    if txs.len() == 0 {
        assert(!spent_by_address(txs, address).contains(x));
    } else {
        let p = txs.drop_last();
        let last = txs.last();
        let k = txs.len() - 1;
        let n = last.vin.len() as int;
        let extra = if last.is_coinbase() {
            Seq::<(Seq<char>, i32)>::empty()
        } else {
            unlocking_refs(last, address, n)
        };
        lemma_spent_by_address_are_inputs(p, address, x);
        lemma_contains_concat(spent_by_address(p, address), extra, x);
        lemma_unlocking_refs_prefix(last, address, n, x);
        assert(spent_by_address(txs, address) == spent_by_address(p, address) + extra);
        assert(txs[k] == last);
        if spent_by_address(txs, address).contains(x) {
            if spent_by_address(p, address).contains(x) {
                let (k1, j1) = choose|k1: int, j1: int|
                    #![trigger p[k1].vin[j1]]
                    0 <= k1 < p.len() && !p[k1].is_coinbase() && 0 <= j1 < p[k1].vin.len()
                        && hash_pub_key(p[k1].vin[j1].pub_key) == address && (
                        p[k1].vin[j1].txid,
                        p[k1].vin[j1].vout,
                    ) == x;
                assert(txs[k1] == p[k1]);
                assert(txs[k1].vin[j1] == p[k1].vin[j1]);
            } else {
                assert(!last.is_coinbase());
                let j1 = choose|j1: int|
                    0 <= j1 < n && hash_pub_key(#[trigger] last.vin[j1].pub_key) == address && (
                        last.vin[j1].txid,
                        last.vin[j1].vout,
                    ) == x;
                assert(txs[k].vin[j1] == last.vin[j1]);
            }
        }
        if exists|k1: int, j1: int|
            #![trigger txs[k1].vin[j1]]
            0 <= k1 < txs.len() && !txs[k1].is_coinbase() && 0 <= j1 < txs[k1].vin.len()
                && hash_pub_key(txs[k1].vin[j1].pub_key) == address && (
                txs[k1].vin[j1].txid,
                txs[k1].vin[j1].vout,
            ) == x {
            let (k1, j1) = choose|k1: int, j1: int|
                #![trigger txs[k1].vin[j1]]
                0 <= k1 < txs.len() && !txs[k1].is_coinbase() && 0 <= j1 < txs[k1].vin.len()
                    && hash_pub_key(txs[k1].vin[j1].pub_key) == address && (
                    txs[k1].vin[j1].txid,
                    txs[k1].vin[j1].vout,
                ) == x;
            if k1 < k {
                assert(p[k1] == txs[k1]);
                assert(p[k1].vin[j1] == txs[k1].vin[j1]);
            } else {
                assert(last.vin[j1] == txs[k1].vin[j1]);
            }
        }
    }
}

proof fn lemma_unspent_txs_listed_unspent(txs: Seq<TransactionView>, address: Seq<u8>, i: int)
    requires
        0 <= i < unspent_txs(txs, address).len(),
    ensures
        exists|k: int, j: int|
            #![trigger txs[k].vout[j]]
            0 <= k < txs.len() && txs[k] == unspent_txs(txs, address)[i] && 0 <= j
                < txs[k].vout.len() && txs[k].vout[j].pub_key_hash == address
                && !spent_by_address(txs.take(k), address).contains((txs[k].id, j as i32)),
    decreases txs.len(),
{
    let p = txs.drop_last();
    let head = unspent_txs(p, address);
    if i < head.len() {
        lemma_unspent_txs_listed_unspent(p, address, i);
        let (k, j) = choose|k: int, j: int|
            #![trigger p[k].vout[j]]
            0 <= k < p.len() && p[k] == head[i] && 0 <= j < p[k].vout.len() && p[k].vout[j].pub_key_hash
                == address && !spent_by_address(p.take(k), address).contains((p[k].id, j as i32));
        assert(p.take(k) =~= txs.take(k));
        assert(txs[k] == p[k]);
        assert(unspent_txs(txs, address)[i] == head[i]);
        assert(txs[k].vout[j] == p[k].vout[j]);
    } else {
        let last = txs.last();
        let k = txs.len() - 1;
        let sp = spent_by_address(p, address);
        lemma_paying_copies_pay(last, sp, address, last.vout.len() as int, i - head.len());
        let j = choose|j: int|
            0 <= j < last.vout.len() && #[trigger] last.vout[j].pub_key_hash == address
                && !sp.contains((last.id, j as i32));
        assert(txs.take(k) =~= p);
        assert(txs[k] == last);
        assert(txs[k] == unspent_txs(txs, address)[i]);
        assert(txs[k].vout[j] == last.vout[j]);
    }
}

/// Soundness of `find_unspent_transactions` in terms of inputs: every listed
/// transaction is a transaction `k` of the walk with an output `j` locked to
/// `address` that no input made with the address's key, in a non-coinbase
/// transaction met before `k`, names.
pub proof fn lemma_unspent_txs_lists_only_unspent_payments(
    txs: Seq<TransactionView>,
    address: Seq<u8>,
    i: int,
)
    requires
        0 <= i < unspent_txs(txs, address).len(),
    ensures
        exists|k: int, j: int|
            #![trigger txs[k].vout[j]]
            0 <= k < txs.len() && txs[k] == unspent_txs(txs, address)[i] && 0 <= j
                < txs[k].vout.len() && txs[k].vout[j].pub_key_hash == address && forall|
                k2: int,
                j2: int,
            |
                #![trigger txs[k2].vin[j2]]
                0 <= k2 < k && !txs[k2].is_coinbase() && 0 <= j2 < txs[k2].vin.len()
                    && hash_pub_key(txs[k2].vin[j2].pub_key) == address ==> !(txs[k2].vin[j2].txid
                    == txs[k].id && txs[k2].vin[j2].vout == j as i32),
{
    lemma_unspent_txs_listed_unspent(txs, address, i);
    let (k, j) = choose|k: int, j: int|
        #![trigger txs[k].vout[j]]
        0 <= k < txs.len() && txs[k] == unspent_txs(txs, address)[i] && 0 <= j < txs[k].vout.len()
            && txs[k].vout[j].pub_key_hash == address && !spent_by_address(txs.take(k), address).contains(
            (txs[k].id, j as i32),
        );
    let pre = txs.take(k);
    lemma_spent_by_address_are_inputs(pre, address, (txs[k].id, j as i32));
    assert forall|k2: int, j2: int|
        #![trigger txs[k2].vin[j2]]
        0 <= k2 < k && !txs[k2].is_coinbase() && 0 <= j2 < txs[k2].vin.len() && hash_pub_key(
            txs[k2].vin[j2].pub_key,
        ) == address implies !(txs[k2].vin[j2].txid == txs[k].id && txs[k2].vin[j2].vout
        == j as i32) by {
        assert(pre[k2] == txs[k2]);
        assert(pre[k2].vin[j2] == txs[k2].vin[j2]);
    }
    assert(txs[k].vout[j].pub_key_hash == address);
}

/// A transaction spends from `id` exactly when one of its inputs, whichever,
/// carries `id`.
pub proof fn lemma_spends_from_any_input(tx: TransactionView, id: Seq<char>)
    ensures
        spends_from(tx, id) <==> exists|j: int| 0 <= j < tx.vin.len() && tx.vin[j].txid == id,
        forall|j: int| 0 <= j < tx.vin.len() ==> spends_from(tx, #[trigger] tx.vin[j].txid),
{
    assert forall|j: int| 0 <= j < tx.vin.len() implies spends_from(tx, #[trigger] tx.vin[j].txid) by {
        assert(tx.vin[j].txid == tx.vin[j].txid);
    }
}

/// The value locked to `body` adds up over lists of outputs.
pub proof fn lemma_locked_value_concat(a: Seq<TXOutputView>, b: Seq<TXOutputView>, body: Seq<u8>)
    ensures
        locked_value(a + b, body) == locked_value(a, body) + locked_value(b, body),
    decreases b.len(),
{
    if b.len() == 0 {
        assert(a + b =~= a);
    } else {
        lemma_locked_value_concat(a, b.drop_last(), body);
        assert((a + b).drop_last() =~= a + b.drop_last());
        assert((a + b).last() == b.last());
    }
}

/// A single output adds its value to what is locked to `body` exactly when it
/// is locked to `body`; no output adds anything else.
pub proof fn lemma_locked_value_single(o: TXOutputView, body: Seq<u8>)
    ensures
        locked_value(seq![o], body) == if o.pub_key_hash == body {
            o.value as int
        } else {
            0
        },
        locked_value(Seq::<TXOutputView>::empty(), body) == 0,
{
    assert(seq![o].drop_last() =~= Seq::<TXOutputView>::empty());
    assert(locked_value(Seq::<TXOutputView>::empty(), body) == 0);
    assert(seq![o].last() == o);
}

/// The total value locked to `body` among the unspent outputs listed under
/// each of `ids`.
pub open spec fn balance_by_ids(txs: Seq<TransactionView>, ids: Seq<Seq<char>>, body: Seq<u8>) -> int
    decreases ids.len(),
{
    if ids.len() == 0 {
        0
    } else {
        balance_by_ids(txs, ids.drop_last(), body) + locked_value(utxo_of(txs, ids.last()), body)
    }
}

proof fn lemma_balance_by_ids_of_empty(ids: Seq<Seq<char>>, body: Seq<u8>)
    ensures
        balance_by_ids(Seq::<TransactionView>::empty(), ids, body) == 0,
    decreases ids.len(),
{
    if ids.len() > 0 {
        lemma_balance_by_ids_of_empty(ids.drop_last(), body);
        assert(utxo_of(Seq::<TransactionView>::empty(), ids.last()) =~= Seq::<TXOutputView>::empty());
    }
}

proof fn lemma_balance_by_ids_step(txs: Seq<TransactionView>, ids: Seq<Seq<char>>, body: Seq<u8>)
    requires
        txs.len() > 0,
        ids.no_duplicates(),
    ensures
        balance_by_ids(txs, ids, body) == balance_by_ids(txs.drop_last(), ids, body) + if ids.contains(
            txs.last().id,
        ) {
            locked_value(
                unspent_prefix(txs.last(), spent_refs(txs.drop_last()), txs.last().vout.len() as int),
                body,
            )
        } else {
            0
        },
    decreases ids.len(),
{
    let x = txs.last().id;
    let p = txs.drop_last();
    let u = unspent_prefix(txs.last(), spent_refs(p), txs.last().vout.len() as int);
    if ids.len() == 0 {
        assert(!ids.contains(x));
    } else {
        let q = ids.drop_last();
        let y = ids.last();
        assert forall|a: int, b: int| 0 <= a < q.len() && 0 <= b < q.len() && a != b implies q[a]
            != q[b] by {
            assert(q[a] == ids[a] && q[b] == ids[b]);
        }
        lemma_balance_by_ids_step(txs, q, body);
        let tail = if y == x {
            u
        } else {
            Seq::<TXOutputView>::empty()
        };
        assert(utxo_of(txs, y) == utxo_of(p, y) + tail);
        lemma_locked_value_concat(utxo_of(p, y), tail, body);
        if q.contains(x) {
            let a = choose|a: int| 0 <= a < q.len() && q[a] == x;
            assert(ids[a] == x);
            assert(ids[ids.len() - 1] == y);
            assert(y != x);
        }
        if ids.contains(x) {
            let a = choose|a: int| 0 <= a < ids.len() && ids[a] == x;
            if a < ids.len() - 1 {
                assert(q[a] == x);
            }
        }
        if y == x {
            assert(ids[ids.len() - 1] == x);
        }
    }
}

/// The balance is the sum, over any list of distinct ids that holds every id
/// with an unspent output, of the value locked to `body` among that id's
/// unspent outputs, coinbase outputs included.
pub proof fn lemma_chain_balance_sums_utxo(txs: Seq<TransactionView>, ids: Seq<Seq<char>>, body: Seq<u8>)
    requires
        ids.no_duplicates(),
        forall|id: Seq<char>| #[trigger] utxo_of(txs, id).len() > 0 ==> ids.contains(id),
    ensures
        chain_balance(txs, body) == balance_by_ids(txs, ids, body),
    decreases txs.len(),
{
    if txs.len() == 0 {
        lemma_balance_by_ids_of_empty(ids, body);
        assert(txs =~= Seq::<TransactionView>::empty());
    } else {
        let p = txs.drop_last();
        let last = txs.last();
        let u = unspent_prefix(last, spent_refs(p), last.vout.len() as int);
        assert forall|id: Seq<char>| #[trigger] utxo_of(p, id).len() > 0 implies ids.contains(id) by {
            assert(utxo_of(txs, id).len() >= utxo_of(p, id).len());
        }
        lemma_chain_balance_sums_utxo(p, ids, body);
        lemma_balance_by_ids_step(txs, ids, body);
        if u.len() > 0 {
            assert(utxo_of(txs, last.id) == utxo_of(p, last.id) + u);
            assert(utxo_of(txs, last.id).len() > 0);
        } else {
            assert(locked_value(u, body) == 0);
        }
    }
}

/// The keys of a table, in order.
pub open spec fn table_keys<W>(t: Seq<(Seq<char>, W)>) -> Seq<Seq<char>> {
    t.map_values(|e: (Seq<char>, W)| e.0)
}

/// The total value locked to `body` over all the outputs a table holds.
pub open spec fn table_balance(t: Seq<(Seq<char>, Seq<TXOutputView>)>, body: Seq<u8>) -> int
    decreases t.len(),
{
    if t.len() == 0 {
        0
    } else {
        table_balance(t.drop_last(), body) + locked_value(t.last().1, body)
    }
}

proof fn lemma_table_balance_by_keys(
    t: Seq<(Seq<char>, Seq<TXOutputView>)>,
    txs: Seq<TransactionView>,
    body: Seq<u8>,
)
    requires
        forall|i: int| 0 <= i < t.len() ==> #[trigger] t[i].1 == utxo_of(txs, t[i].0),
    ensures
        table_balance(t, body) == balance_by_ids(txs, table_keys(t), body),
    decreases t.len(),
{
    if t.len() > 0 {
        let q = t.drop_last();
        assert forall|i: int| 0 <= i < q.len() implies #[trigger] q[i].1 == utxo_of(txs, q[i].0) by {
            assert(q[i] == t[i]);
        }
        lemma_table_balance_by_keys(q, txs, body);
        assert(table_keys(t).drop_last() =~= table_keys(q));
        assert(t[t.len() - 1].1 == utxo_of(txs, t[t.len() - 1].0));
    }
}

/// What `getbalance` computes: the sum, over the entries of the chain's
/// unspent-output map, of the values of the outputs locked to the address.
/// That sum is the chain's balance for the address, coinbase outputs included.
pub proof fn lemma_balance_is_sum_over_utxo_map(
    t: Seq<(Seq<char>, Seq<TXOutputView>)>,
    txs: Seq<TransactionView>,
    body: Seq<u8>,
)
    requires
        is_utxo_table(t, txs),
    ensures
        table_balance(t, body) == chain_balance(txs, body),
{
    let ids = table_keys(t);
    assert forall|i: int| 0 <= i < t.len() implies #[trigger] t[i].1 == utxo_of(txs, t[i].0) by {
        lemma_table_get_at(t, i);
        assert(table_get(t, t[i].0) == utxo_entry(txs, t[i].0));
    }
    lemma_table_balance_by_keys(t, txs, body);
    assert forall|a: int, b: int| 0 <= a < ids.len() && 0 <= b < ids.len() && a != b implies ids[a]
        != ids[b] by {
        assert(ids[a] == t[a].0 && ids[b] == t[b].0);
    }
    assert forall|id: Seq<char>| #[trigger] utxo_of(txs, id).len() > 0 implies ids.contains(id) by {
        assert(table_get(t, id) == utxo_entry(txs, id));
        assert(has_key(t, id));
        let i = choose|i: int| 0 <= i < t.len() && #[trigger] t[i].0 == id;
        assert(ids[i] == id);
    }
    lemma_chain_balance_sums_utxo(txs, ids, body);
}

/// A chain of one transaction (such as a fresh chain holding only its genesis
/// coinbase) has as balance the value its outputs lock to the address.
pub proof fn lemma_single_transaction_balance(tx: TransactionView, body: Seq<u8>)
    ensures
        chain_balance(seq![tx], body) == locked_value(tx.vout, body),
{
    let txs = seq![tx];
    lemma_unspent_prefix_nothing_spent(tx, tx.vout.len() as int);
    assert(tx.vout.take(tx.vout.len() as int) =~= tx.vout);
    assert(txs.drop_last() =~= Seq::<TransactionView>::empty());
    assert(spent_refs(Seq::<TransactionView>::empty()) =~= Seq::<(Seq<char>, i32)>::empty());
    assert(chain_balance(Seq::<TransactionView>::empty(), body) == 0);
    assert(txs.last() == tx);
}

proof fn lemma_first_index_exists(txs: Seq<TransactionView>, id: Seq<char>)
    requires
        has_tx_with_id(txs, id),
    ensures
        exists|k: int| is_first_with_id(txs, id, k),
    decreases txs.len(),
{
    let p = txs.drop_last();
    if has_tx_with_id(p, id) {
        lemma_first_index_exists(p, id);
        let k = choose|k: int| is_first_with_id(p, id, k);
        assert forall|j: int| 0 <= j < k implies #[trigger] txs[j].id != id by {
            assert(p[j] == txs[j]);
        }
        assert(is_first_with_id(txs, id, k));
    } else {
        let k = txs.len() - 1;
        let w = choose|w: int| 0 <= w < txs.len() && #[trigger] txs[w].id == id;
        if w < k {
            assert(p[w].id == id);
        }
        assert forall|j: int| 0 <= j < k implies #[trigger] txs[j].id != id by {
            assert(p[j] == txs[j]);
            if txs[j].id == id {
                assert(p[j].id == id);
            }
        }
        assert(is_first_with_id(txs, id, k));
    }
}

/// The transaction that `find_transaction` gives for an id of the walk is the
/// first one met: it carries the id and no transaction before it does.
pub proof fn lemma_first_tx_with_id_is_first(txs: Seq<TransactionView>, id: Seq<char>)
    requires
        has_tx_with_id(txs, id),
    ensures
        exists|k: int|
            #![trigger txs[k]]
            0 <= k < txs.len() && txs[k] == first_tx_with_id(txs, id) && txs[k].id == id && forall|
                j: int,
            |
                0 <= j < k ==> #[trigger] txs[j].id != id,
{
    lemma_first_index_exists(txs, id);
    let k = choose|k: int| is_first_with_id(txs, id, k);
    lemma_first_tx_with_id(txs, id, k);
    assert(txs[k] == first_tx_with_id(txs, id));
}

proof fn lemma_paying_copies_unspent_count(tx: TransactionView, address: Seq<u8>, m: int)
    requires
        0 <= m <= tx.vout.len(),
    ensures
        paying_copies(tx, Seq::<(Seq<char>, i32)>::empty(), address, m).len() == tx.vout.take(m).filter(
            |o: TXOutputView| o.pub_key_hash == address,
        ).len(),
        forall|i: int|
            0 <= i < paying_copies(tx, Seq::<(Seq<char>, i32)>::empty(), address, m).len()
                ==> #[trigger] paying_copies(tx, Seq::<(Seq<char>, i32)>::empty(), address, m)[i]
                == tx,
    decreases m,
{
    let pred = |o: TXOutputView| o.pub_key_hash == address;
    let none = Seq::<(Seq<char>, i32)>::empty();
    reveal(Seq::filter);
    if m == 0 {
        assert(tx.vout.take(0) =~= Seq::<TXOutputView>::empty());
    } else {
        lemma_paying_copies_unspent_count(tx, address, m - 1);
        assert(tx.vout.take(m).drop_last() =~= tx.vout.take(m - 1));
        assert(tx.vout.take(m).last() == tx.vout[m - 1]);
        assert(!none.contains((tx.id, (m - 1) as i32)));
        let prev = paying_copies(tx, none, address, m - 1);
        assert forall|i: int|
            0 <= i < paying_copies(tx, none, address, m).len() implies #[trigger] paying_copies(
            tx,
            none,
            address,
            m,
        )[i] == tx by {
            if i < prev.len() {
                assert(paying_copies(tx, none, address, m)[i] == prev[i]);
            }
        }
    }
}

/// A walk of a single transaction lists that transaction once for each of its
/// outputs locked to `address`, and nothing else.
pub proof fn lemma_unspent_txs_of_one_transaction(tx: TransactionView, address: Seq<u8>)
    ensures
        unspent_txs(seq![tx], address).len() == tx.vout.filter(
            |o: TXOutputView| o.pub_key_hash == address,
        ).len(),
        forall|i: int|
            0 <= i < unspent_txs(seq![tx], address).len() ==> #[trigger] unspent_txs(
                seq![tx],
                address,
            )[i] == tx,
{
    let txs = seq![tx];
    let none = Seq::<(Seq<char>, i32)>::empty();
    assert(txs.drop_last() =~= Seq::<TransactionView>::empty());
    assert(txs.last() == tx);
    assert(spent_by_address(Seq::<TransactionView>::empty(), address) =~= none);
    assert(unspent_txs(Seq::<TransactionView>::empty(), address) =~= Seq::<TransactionView>::empty());
    lemma_paying_copies_unspent_count(tx, address, tx.vout.len() as int);
    assert(tx.vout.take(tx.vout.len() as int) =~= tx.vout);
    let copies = paying_copies(tx, none, address, tx.vout.len() as int);
    assert(unspent_txs(txs, address) =~= copies);
}

} // verus!
