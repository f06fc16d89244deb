//! The transactions that blocks of the chain carry: inputs that spend earlier
//! outputs, and outputs that lock a value to a public-key hash.

use vstd::prelude::*;

use crate::wallet::{hash_pub_key, pub_hash_key};

verus! {

/// An input: it spends output number `vout` of the transaction `txid`, and
/// carries the spender's public key.
#[derive(Debug, Clone, PartialEq)]
pub struct TXInput {
    pub txid: String,
    pub vout: i32,
    pub pub_key: Vec<u8>,
}

/// An output: `value` locked to the public-key hash `pub_key_hash`.
#[derive(Debug, Clone, PartialEq)]
pub struct TXOutput {
    pub value: i32,
    pub pub_key_hash: Vec<u8>,
}

/// The outputs of one transaction that are still unspent.
#[derive(Debug, Clone, PartialEq)]
pub struct TXOutputs {
    pub outputs: Vec<TXOutput>,
}

/// A transaction.
#[derive(Debug, Clone, PartialEq)]
pub struct Transaction {
    pub id: String,
    pub vin: Vec<TXInput>,
    pub vout: Vec<TXOutput>,
}

/// The value of an input.
pub struct TXInputView {
    pub txid: Seq<char>,
    pub vout: i32,
    pub pub_key: Seq<u8>,
}

/// The value of an output.
pub struct TXOutputView {
    pub value: i32,
    pub pub_key_hash: Seq<u8>,
}

/// The value of a transaction.
pub struct TransactionView {
    pub id: Seq<char>,
    pub vin: Seq<TXInputView>,
    pub vout: Seq<TXOutputView>,
}

impl View for TXInput {
    type V = TXInputView;

    open spec fn view(&self) -> TXInputView {
        TXInputView { txid: self.txid@, vout: self.vout, pub_key: self.pub_key@ }
    }
}

impl View for TXOutput {
    type V = TXOutputView;

    open spec fn view(&self) -> TXOutputView {
        TXOutputView { value: self.value, pub_key_hash: self.pub_key_hash@ }
    }
}

/// The values of a sequence of outputs.
pub open spec fn outputs_view(outs: Seq<TXOutput>) -> Seq<TXOutputView> {
    outs.map_values(|o: TXOutput| o@)
}

impl View for TXOutputs {
    type V = Seq<TXOutputView>;

    open spec fn view(&self) -> Seq<TXOutputView> {
        outputs_view(self.outputs@)
    }
}

impl View for Transaction {
    type V = TransactionView;

    open spec fn view(&self) -> TransactionView {
        TransactionView {
            id: self.id@,
            vin: self.vin@.map_values(|i: TXInput| i@),
            vout: outputs_view(self.vout@),
        }
    }
}

impl TransactionView {
    /// A coinbase transaction has one input, which refers to no transaction
    /// (empty id) and to output `-1`.
    pub open spec fn is_coinbase(self) -> bool {
        &&& self.vin.len() == 1
        &&& self.vin[0].txid.len() == 0
        &&& self.vin[0].vout == -1
    }
}

/// Whether two byte strings are equal.
pub fn bytes_equal(a: &[u8], b: &[u8]) -> (res: bool)
    ensures
        res == (a@ == b@),
{
    if a.len() != b.len() {
        return false;
    }
    let mut i: usize = 0;
    while i < a.len()
        invariant
            a@.len() == b@.len(),
            i <= a@.len(),
            forall|j: int| 0 <= j < i ==> a@[j] == b@[j],
        decreases a@.len() - i,
    {
        if a[i] != b[i] {
            return false;
        }
        i = i + 1;
    }
    assert(a@ =~= b@);
    true
}

/// A copy of a byte vector.
pub fn copy_bytes(v: &Vec<u8>) -> (res: Vec<u8>)
    ensures
        res@ == v@,
{
    let mut res: Vec<u8> = Vec::new();
    let mut i: usize = 0;
    while i < v.len()
        invariant
            i <= v@.len(),
            res@ == v@.take(i as int),
        decreases v@.len() - i,
    {
        res.push(v[i]);
        i = i + 1;
        assert(res@ =~= v@.take(i as int));
    }
    assert(v@.take(v@.len() as int) =~= v@);
    res
}

impl TXInput {
    /// A copy of this input.
    pub fn duplicate(&self) -> (res: TXInput)
        ensures
            res@ == self@,
    {
        TXInput { txid: self.txid.clone(), vout: self.vout, pub_key: copy_bytes(&self.pub_key) }
    }

    /// Whether this input was made with the key whose hash is `unlocking_data`:
    /// the hash (SHA-256 then RIPEMD-160) of its public key equals it.
    pub fn can_unlock_output_with(&self, unlocking_data: &[u8]) -> (res: bool)
        requires
            self.pub_key@.len() >= 32,
        ensures
            res == (hash_pub_key(self.pub_key@) == unlocking_data@),
    {
        let mut pubkeyhash = copy_bytes(&self.pub_key);
        pub_hash_key(&mut pubkeyhash);
        bytes_equal(pubkeyhash.as_slice(), unlocking_data)
    }
}

impl TXOutput {
    /// A copy of this output.
    pub fn duplicate(&self) -> (res: TXOutput)
        ensures
            res@ == self@,
    {
        TXOutput { value: self.value, pub_key_hash: copy_bytes(&self.pub_key_hash) }
    }

    /// Whether this output is locked to the public-key hash `unlocking_data`.
    pub fn can_be_unlock_with(&self, unlocking_data: &[u8]) -> (res: bool)
        ensures
            res == (self.pub_key_hash@ == unlocking_data@),
    {
        bytes_equal(self.pub_key_hash.as_slice(), unlocking_data)
    }
}

/// A copy of a sequence of outputs.
pub fn copy_outputs(v: &Vec<TXOutput>) -> (res: Vec<TXOutput>)
    ensures
        outputs_view(res@) == outputs_view(v@),
{
    let mut res: Vec<TXOutput> = Vec::new();
    let mut i: usize = 0;
    while i < v.len()
        invariant
            i <= v@.len(),
            res@.len() == i,
            forall|j: int| 0 <= j < i ==> #[trigger] res@[j]@ == v@[j]@,
        decreases v@.len() - i,
    {
        res.push(v[i].duplicate());
        i = i + 1;
    }
    assert(outputs_view(res@) =~= outputs_view(v@));
    res
}

impl Transaction {
    /// A copy of this transaction.
    pub fn duplicate(&self) -> (res: Transaction)
        ensures
            res@ == self@,
    {
        let mut vin: Vec<TXInput> = Vec::new();
        let mut i: usize = 0;
        while i < self.vin.len()
            invariant
                i <= self.vin@.len(),
                vin@.len() == i,
                forall|j: int| 0 <= j < i ==> #[trigger] vin@[j]@ == self.vin@[j]@,
            decreases self.vin@.len() - i,
        {
            vin.push(self.vin[i].duplicate());
            i = i + 1;
        }
        assert(vin@.map_values(|x: TXInput| x@) =~= self.vin@.map_values(|x: TXInput| x@));
        Transaction { id: self.id.clone(), vin, vout: copy_outputs(&self.vout) }
    }

    /// Whether this is a coinbase transaction (see `TransactionView::is_coinbase`).
    pub fn is_coinbase(&self) -> (res: bool)
        ensures
            res == self@.is_coinbase(),
    {
        self.vin.len() == 1 && self.vin[0].txid.as_str().is_empty() && self.vin[0].vout == -1
    }
}

} // verus!
