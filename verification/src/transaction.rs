//! Transactions as the shielded pool sees them: the nullifiers that their
//! spends reveal and the note commitments that their outputs add.

use crate::hash::{FrHash, Uint256};
use vstd::prelude::*;

verus! {

/// An amount, in the smallest unit.
pub type CAmount = i64;

/// A transparent script, kept as its bytes.
pub struct Script {
    pub bytes: Vec<u8>,
}

impl Script {
    /// An independent copy of the script.
    pub fn duplicate(&self) -> (out: Script)
        ensures
            out.bytes@ == self.bytes@,
    {
        let mut bytes: Vec<u8> = Vec::new();
        let mut i: usize = 0;
        while i < self.bytes.len()
            invariant
                i <= self.bytes@.len(),
                bytes@ == self.bytes@.take(i as int),
            decreases self.bytes@.len() - i,
        {
            bytes.push(self.bytes[i]);
            i = i + 1;
            assert(bytes@ =~= self.bytes@.take(i as int));
        }
        assert(bytes@ =~= self.bytes@);
        Script { bytes }
    }
}

/// A reference to one shielded output: the transaction and the index of the
/// output in it.
#[derive(Clone, Copy, Debug, Hash)]
pub struct SaplingOutPoint {
    pub hash: FrHash,
    pub n: usize,
}

impl PartialEq for SaplingOutPoint {
    fn eq(&self, other: &SaplingOutPoint) -> (r: bool) {
        self.n == other.n && self.hash == other.hash
    }
}

impl Eq for SaplingOutPoint {

}

impl vstd::std_specs::cmp::PartialEqSpecImpl for SaplingOutPoint {
    open spec fn obeys_eq_spec() -> bool {
        true
    }

    open spec fn eq_spec(&self, other: &SaplingOutPoint) -> bool {
        self.n == other.n && self.hash@ == other.hash@
    }
}

/// A shielded spend: it reveals the nullifier of the note that it spends.
#[derive(Clone, Copy, Debug)]
pub struct SaplingSpendDescription {
    pub cv: [u8; 32],
    pub anchor: FrHash,
    pub nullifier: Uint256,
    pub rk: [u8; 32],
    pub zkproof: [u8; 192],
    pub spend_auth_sig: Option<[u8; 64]>,
}

/// A shielded output: it adds the commitment `cmu` of a new note to the tree.
#[derive(Clone, Copy, Debug)]
pub struct SaplingOutputDescription {
    pub cv: [u8; 32],
    pub cmu: FrHash,
    pub ephemeral_key: [u8; 32],
    pub zkproof: [u8; 192],
}

/// A transparent input.
pub struct TxIn {
    pub prevout: SaplingOutPoint,
    pub script_sig: Script,
}

/// A transparent output.
pub struct TxOut {
    pub n_value: i64,
    pub script_pub_key: Script,
}

impl TxOut {
    /// Whether this output is the null output, whose value is -1.
    pub fn is_null(&self) -> (out: bool)
        ensures
            out == (self.n_value == -1),
    {
        self.n_value == -1
    }
}

/// A transaction, as it comes in a block or over the network.
pub struct Transaction {
    pub hash: FrHash,
    pub coinbase: bool,
    pub vin: Vec<TxIn>,
    pub vout: Vec<TxOut>,
    pub v_shielded_spend: Vec<SaplingSpendDescription>,
    pub v_shielded_output: Vec<SaplingOutputDescription>,
    pub balancing_value: i64,
    pub binding_sig: [u8; 64],
}

/// The model of a transaction: what it holds, field by field.
pub struct TransactionView {
    pub hash: Seq<u8>,
    pub coinbase: bool,
    pub inputs: Seq<(SaplingOutPoint, Seq<u8>)>,
    pub outputs: Seq<(i64, Seq<u8>)>,
    pub shielded_spends: Seq<SaplingSpendDescription>,
    pub shielded_outputs: Seq<SaplingOutputDescription>,
    pub balancing_value: i64,
    pub binding_sig: Seq<u8>,
}

impl View for Transaction {
    type V = TransactionView;

    open spec fn view(&self) -> TransactionView {
        TransactionView {
            hash: self.hash@,
            coinbase: self.coinbase,
            inputs: Seq::new(
                self.vin@.len(),
                |i: int| (self.vin@[i].prevout, self.vin@[i].script_sig.bytes@),
            ),
            outputs: Seq::new(
                self.vout@.len(),
                |i: int| (self.vout@[i].n_value, self.vout@[i].script_pub_key.bytes@),
            ),
            shielded_spends: self.v_shielded_spend@,
            shielded_outputs: self.v_shielded_output@,
            balancing_value: self.balancing_value,
            binding_sig: self.binding_sig@,
        }
    }
}

/// The nullifiers of `spends`, in order.
pub open spec fn nullifiers_of(spends: Seq<SaplingSpendDescription>) -> Seq<Seq<u8>> {
    Seq::new(spends.len(), |i: int| spends[i].nullifier@)
}

/// The note commitments of `outputs`, in order.
pub open spec fn commitments_of(outputs: Seq<SaplingOutputDescription>) -> Seq<Seq<u8>> {
    Seq::new(outputs.len(), |i: int| outputs[i].cmu@)
}

impl Transaction {
    /// The nullifiers that the shielded spends reveal, in order.
    pub open spec fn nullifiers(&self) -> Seq<Seq<u8>> {
        nullifiers_of(self.v_shielded_spend@)
    }

    /// The note commitments that the shielded outputs add, in order.
    pub open spec fn commitments(&self) -> Seq<Seq<u8>> {
        commitments_of(self.v_shielded_output@)
    }

    /// Whether this is the coinbase transaction of its block.
    pub fn is_coin_base(&self) -> (out: bool)
        ensures
            out == self.coinbase,
    {
        self.coinbase
    }

    /// Whether `other` holds the same as this transaction.
    pub open spec fn same_as(&self, other: &Transaction) -> bool {
        self@ == other@
    }

    /// An independent copy of the transaction.
    pub fn duplicate(&self) -> (out: Transaction)
        ensures
            out.same_as(self),
    {
        let mut vin: Vec<TxIn> = Vec::new();
        let mut i: usize = 0;
        while i < self.vin.len()
            invariant
                i <= self.vin@.len(),
                vin@.len() == i,
                forall|j: int|
                    0 <= j < i ==> (#[trigger] vin@[j]).prevout == self.vin@[j].prevout
                        && vin@[j].script_sig.bytes@ == self.vin@[j].script_sig.bytes@,
            decreases self.vin@.len() - i,
        {
            vin.push(
                TxIn { prevout: self.vin[i].prevout, script_sig: self.vin[i].script_sig.duplicate() },
            );
            i = i + 1;
        }
        let mut vout: Vec<TxOut> = Vec::new();
        let mut i: usize = 0;
        while i < self.vout.len()
            invariant
                i <= self.vout@.len(),
                vout@.len() == i,
                forall|j: int|
                    0 <= j < i ==> (#[trigger] vout@[j]).n_value == self.vout@[j].n_value
                        && vout@[j].script_pub_key.bytes@ == self.vout@[j].script_pub_key.bytes@,
            decreases self.vout@.len() - i,
        {
            vout.push(
                TxOut {
                    n_value: self.vout[i].n_value,
                    script_pub_key: self.vout[i].script_pub_key.duplicate(),
                },
            );
            i = i + 1;
        }
        let mut spends: Vec<SaplingSpendDescription> = Vec::new();
        let mut i: usize = 0;
        while i < self.v_shielded_spend.len()
            invariant
                i <= self.v_shielded_spend@.len(),
                spends@ == self.v_shielded_spend@.take(i as int),
            decreases self.v_shielded_spend@.len() - i,
        {
            spends.push(self.v_shielded_spend[i]);
            i = i + 1;
            assert(spends@ =~= self.v_shielded_spend@.take(i as int));
        }
        assert(spends@ =~= self.v_shielded_spend@);
        let mut outputs: Vec<SaplingOutputDescription> = Vec::new();
        let mut i: usize = 0;
        while i < self.v_shielded_output.len()
            invariant
                i <= self.v_shielded_output@.len(),
                outputs@ == self.v_shielded_output@.take(i as int),
            decreases self.v_shielded_output@.len() - i,
        {
            outputs.push(self.v_shielded_output[i]);
            i = i + 1;
            assert(outputs@ =~= self.v_shielded_output@.take(i as int));
        }
        assert(outputs@ =~= self.v_shielded_output@);
        let out: Transaction = Transaction {
            hash: self.hash,
            coinbase: self.coinbase,
            vin,
            vout,
            v_shielded_spend: spends,
            v_shielded_output: outputs,
            balancing_value: self.balancing_value,
            binding_sig: self.binding_sig,
        };
        proof {
            assert(out@.inputs =~= self@.inputs);
            assert(out@.outputs =~= self@.outputs);
        }
        out
    }
}

/// An input of a transaction: the transaction and the index of the input.
pub struct SaplingInPoint<'a> {
    pub ptx: &'a Transaction,
    pub n: usize,
}

impl<'a> SaplingInPoint<'a> {
    /// The input `index` of `tx`.
    pub fn new(tx: &'a Transaction, index: usize) -> (out: SaplingInPoint<'a>)
        ensures
            out.ptx == tx,
            out.n == index,
    {
        SaplingInPoint { ptx: tx, n: index }
    }
}

/// What is needed to undo one transparent input.
pub struct TxInUndo {}

/// What is needed to undo a transaction.
pub struct TxUndo {
    pub vpreout: Vec<TxInUndo>,
}

} // verus!
