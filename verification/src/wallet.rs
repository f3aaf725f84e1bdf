//! The wallet's witness cache: for every note of the wallet a bounded history
//! of witnesses, advanced leaf for leaf as blocks are connected and taken back
//! as they are disconnected.

use crate::block::{Block, BlockIndex};
use crate::bytemap::ByteMap;
use crate::hash::{FrHash, Uint256};
use crate::keystore::{
    address_of_key, address_of_key_spec, key_and_address, key_and_address_spec, random_seed,
    with_address, KeyStore,
};
use crate::notes::{
    append_note_commitement, appended, copied, copy_check_all, copy_previous_witnesses,
    decrement_check_all, decrement_note_data, decremented, first_error, has_room, heightened,
    lemma_first_error_ok, lemma_first_error_none, note_append_check, note_copy_check,
    note_decrement_check, note_height_check, update_witness_heights, witness_note_if_mine,
    witnessed, NoteDataMap, NoteView, OutPointView, SaplingNoteData, WalletError,
    WITNESS_CACHE_SIZE,
};
use crate::transaction::{SaplingOutPoint, Transaction, TransactionView};
use crate::tree::{SaplingMerkleTree, TreeFull, TreeView};
use crate::merkle::merkle_root;
use crate::witness::{witness_of, witness_root, SaplingWitness, WitnessView};
use vstd::arithmetic::power2::pow2;
use vstd::prelude::*;

verus! {

/// A transaction of the wallet, with the notes that it brought.
pub struct WalletTransaction {
    pub tx: Transaction,
    pub map_sapling_data: NoteDataMap,
}

impl WalletTransaction {
    /// The record of `tx`, with no notes yet.
    pub fn new(tx: Transaction) -> (out: WalletTransaction)
        ensures
            out.tx == tx,
            out.map_sapling_data.wf(),
            out.map_sapling_data.keys@.len() == 0,
    {
        WalletTransaction { tx, map_sapling_data: NoteDataMap::new() }
    }
}

/// One shielded output of a block: the transaction that holds it, its index
/// in that transaction, and the note commitment that it adds to the tree.
pub struct OutputRef {
    pub txhash: Seq<u8>,
    pub index: nat,
    pub cm: Seq<u8>,
}

/// The shielded outputs of `tx`, in order.
pub open spec fn tx_outputs(tx: Transaction) -> Seq<OutputRef> {
    Seq::new(
        tx.v_shielded_output@.len(),
        |k: int| OutputRef { txhash: tx.hash@, index: k as nat, cm: tx.v_shielded_output@[k].cmu@ },
    )
}

/// The shielded outputs of the transactions `txs`, in block order.
pub open spec fn block_outputs(txs: Seq<Transaction>) -> Seq<OutputRef>
    decreases txs.len(),
{
    if txs.len() == 0 {
        Seq::empty()
    } else {
        block_outputs(txs.drop_last()) + tx_outputs(txs.last())
    }
}

/// The note commitments of `outs`, in order.
pub open spec fn commitments(outs: Seq<OutputRef>) -> Seq<Seq<u8>> {
    Seq::new(outs.len(), |k: int| outs[k].cm)
}

/// Whether the note with key `key`, kept under the transaction `owner`, is
/// the note of the output `o`.
pub open spec fn is_output(owner: Seq<u8>, key: OutPointView, o: OutputRef) -> bool {
    o.txhash == owner && key == (OutPointView { hash: o.txhash, n: o.index })
}

/// A note after the output `o` was replayed, `earlier` being the outputs of
/// the block before it and `pre` the tree before the block: its newest
/// witness takes in the commitment, and if the note is that of `o` itself, it
/// gets the witness of `o` in the tree.
pub open spec fn replay_step(
    n: NoteView,
    owner: Seq<u8>,
    key: OutPointView,
    height: int,
    pre: TreeView,
    earlier: Seq<OutputRef>,
    o: OutputRef,
) -> NoteView {
    let a = appended(n, height, o.cm);
    if is_output(owner, key, o) {
        witnessed(a, height, witness_of(pre.leaves + commitments(earlier.push(o)), pre.depth))
    } else {
        a
    }
}

/// A note after the outputs `outs` of a block were replayed in order.
pub open spec fn replayed(
    n: NoteView,
    owner: Seq<u8>,
    key: OutPointView,
    height: int,
    pre: TreeView,
    outs: Seq<OutputRef>,
) -> NoteView
    decreases outs.len(),
{
    if outs.len() == 0 {
        n
    } else {
        replay_step(
            replayed(n, owner, key, height, pre, outs.drop_last()),
            owner,
            key,
            height,
            pre,
            outs.drop_last(),
            outs.last(),
        )
    }
}

/// A note after the block at `height` with the outputs `outs` was connected:
/// carried forward, advanced through every output, and set to `height`.
pub open spec fn connected(
    n: NoteView,
    owner: Seq<u8>,
    key: OutPointView,
    height: int,
    pre: TreeView,
    outs: Seq<OutputRef>,
) -> NoteView {
    heightened(replayed(copied(n, height), owner, key, height, pre, outs), height)
}

/// The first error that `check` finds among the notes of the transactions, in
/// order.
pub open spec fn wallet_first_error(
    notes: Seq<Seq<NoteView>>,
    check: spec_fn(NoteView) -> Result<(), WalletError>,
) -> Result<(), WalletError>
    decreases notes.len(),
{
    if notes.len() == 0 {
        Ok(())
    } else {
        match wallet_first_error(notes.drop_last(), check) {
            Err(e) => Err(e),
            Ok(_) => first_error(notes.last(), check),
        }
    }
}

/// Whether the newest witness of every note that is being advanced to
/// `height` can take in `count` more leaves.
pub open spec fn all_have_room(notes: Seq<Seq<NoteView>>, height: int, count: nat) -> bool {
    forall|t: int, i: int|
        0 <= t < notes.len() && 0 <= i < notes[t].len() ==> has_room(
            #[trigger] notes[t][i],
            height,
            count,
        )
}

/// Whether the wallet can follow the block at `height` with the outputs
/// `outs`, `pre` being the tree before the block: every note must be in
/// order, and the tree and every witness must have room for the outputs.
pub open spec fn connect_check(
    notes: Seq<Seq<NoteView>>,
    height: int,
    pre: TreeView,
    outs: Seq<OutputRef>,
) -> Result<(), WalletError> {
    match wallet_first_error(
        notes,
        |n: NoteView| note_copy_check(n, height, WITNESS_CACHE_SIZE as nat),
    ) {
        Err(e) => Err(e),
        Ok(_) => if pre.leaves.len() + outs.len() <= pow2(pre.depth) && all_have_room(
            notes,
            height,
            outs.len(),
        ) {
            Ok(())
        } else {
            Err(WalletError::TreeFull)
        },
    }
}

/// The tree after a wallet with the notes `notes` was asked to follow the
/// block at `height` with the outputs `outs`, `pre` being the tree before the
/// block: the tree with the note commitments of the outputs appended in
/// order where the wallet can follow, and the tree as it was where it cannot.
pub open spec fn tree_after_connect(
    notes: Seq<Seq<NoteView>>,
    height: int,
    pre: TreeView,
    outs: Seq<OutputRef>,
) -> TreeView {
    if connect_check(notes, height, pre, outs).is_ok() {
        TreeView { leaves: pre.leaves + commitments(outs), depth: pre.depth }
    } else {
        pre
    }
}

/// Whether the wallet can undo the block at `height`: it must have history
/// left, and every note must be in order.
pub open spec fn disconnect_check(notes: Seq<Seq<NoteView>>, cache_size: nat, height: int) -> Result<
    (),
    WalletError,
> {
    if cache_size == 0 {
        Err(WalletError::RollbackTooDeep)
    } else {
        wallet_first_error(
            notes,
            |n: NoteView| note_decrement_check(n, height, WITNESS_CACHE_SIZE as nat),
        )
    }
}

/// Where no error is found in the wallet, none is found in any transaction.
pub proof fn lemma_wallet_first_error_ok(
    notes: Seq<Seq<NoteView>>,
    check: spec_fn(NoteView) -> Result<(), WalletError>,
)
    requires
        wallet_first_error(notes, check).is_ok(),
    ensures
        forall|t: int| 0 <= t < notes.len() ==> (#[trigger] first_error(notes[t], check)).is_ok(),
    decreases notes.len(),
{
    if notes.len() > 0 {
        lemma_wallet_first_error_ok(notes.drop_last(), check);
        assert forall|t: int| 0 <= t < notes.len() implies (#[trigger] first_error(
            notes[t],
            check,
        )).is_ok() by {
            if t < notes.len() - 1 {
                assert(notes.drop_last()[t] == notes[t]);
            }
        }
    }
}

/// An error among the first transactions is the error of the wallet.
pub proof fn lemma_wallet_first_error_prefix(
    notes: Seq<Seq<NoteView>>,
    check: spec_fn(NoteView) -> Result<(), WalletError>,
    upto: int,
)
    requires
        0 <= upto <= notes.len(),
        wallet_first_error(notes.take(upto), check).is_err(),
    ensures
        wallet_first_error(notes, check) == wallet_first_error(notes.take(upto), check),
    decreases notes.len() - upto,
{
    if upto < notes.len() {
        let next: Seq<Seq<NoteView>> = notes.take(upto + 1);
        assert(next.drop_last() =~= notes.take(upto));
        lemma_wallet_first_error_prefix(notes, check, upto + 1);
    } else {
        assert(notes.take(upto) =~= notes);
    }
}

/// The outputs of the first transactions of a block come first among the
/// outputs of the block.
pub proof fn lemma_block_outputs_prefix(txs: Seq<Transaction>, upto: int)
    requires
        0 <= upto <= txs.len(),
    ensures
        block_outputs(txs.take(upto)).len() <= block_outputs(txs).len(),
    decreases txs.len() - upto,
{
    if upto < txs.len() {
        assert(txs.take(upto + 1).drop_last() =~= txs.take(upto));
        lemma_block_outputs_prefix(txs, upto + 1);
    } else {
        assert(txs.take(upto) =~= txs);
    }
}

/// The number of shielded outputs of `block`, unless it is above `limit`.
pub fn count_outputs(block: &Block, limit: u64) -> (out: Option<u64>)
    ensures
        match out {
            Some(n) => n == block_outputs(block.vtx@).len() && n <= limit,
            None => block_outputs(block.vtx@).len() > limit,
        },
{
    let mut total: u64 = 0;
    let mut j: usize = 0;
    assert(block.vtx@.take(0) =~= Seq::<Transaction>::empty());
    while j < block.vtx.len()
        invariant
            j <= block.vtx@.len(),
            total == block_outputs(block.vtx@.take(j as int)).len(),
            total <= limit,
        decreases block.vtx@.len() - j,
    {
        let count: usize = block.vtx[j].v_shielded_output.len();
        proof {
            assert(block.vtx@.take(j + 1).drop_last() =~= block.vtx@.take(j as int));
            lemma_block_outputs_prefix(block.vtx@, j + 1);
        }
        if count as u64 > limit - total {
            return None;
        }
        total = total + count as u64;
        j = j + 1;
    }
    assert(block.vtx@.take(j as int) =~= block.vtx@);
    Some(total)
}

/// The model of a transaction of the wallet: the transaction, and its notes
/// with their keys.
pub struct TxModel {
    pub tx: TransactionView,
    pub keys: Seq<OutPointView>,
    pub notes: Seq<NoteView>,
}

/// The model of the wallet: its transactions in the order in which they were
/// added, and how many blocks of witness history it holds.
pub struct WalletModel {
    pub txs: Seq<TxModel>,
    pub cache_size: nat,
}

/// The views of `keys`, in order.
pub open spec fn key_views(keys: Seq<SaplingOutPoint>) -> Seq<OutPointView> {
    Seq::new(keys.len(), |i: int| keys[i]@)
}

/// Whether the wallet holds a transaction with the hash `hash`.
pub open spec fn model_has(m: WalletModel, hash: Seq<u8>) -> bool {
    exists|t: int| 0 <= t < m.txs.len() && (#[trigger] m.txs[t]).tx.hash == hash
}

/// The notes of all transactions of the wallet.
pub open spec fn model_notes(m: WalletModel) -> Seq<Seq<NoteView>> {
    Seq::new(m.txs.len(), |t: int| m.txs[t].notes)
}

/// The wallet after it was shown the transaction `tx` with the notes that it
/// brings for the wallet: a transaction that brings notes is added, unless
/// the wallet holds it.
pub open spec fn model_involve(
    m: WalletModel,
    tx: TransactionView,
    keys: Seq<OutPointView>,
    notes: Seq<NoteView>,
) -> WalletModel {
    if model_has(m, tx.hash) || keys.len() == 0 {
        m
    } else {
        WalletModel { txs: m.txs.push(TxModel { tx, keys, notes }), ..m }
    }
}

/// The wallet after the block at `height` with the outputs `outs` was
/// connected, `pre` being the tree before the block.
pub open spec fn model_connect(
    m: WalletModel,
    height: int,
    pre: TreeView,
    outs: Seq<OutputRef>,
) -> WalletModel {
    WalletModel {
        txs: Seq::new(
            m.txs.len(),
            |t: int|
                TxModel {
                    notes: Seq::new(
                        m.txs[t].notes.len(),
                        |i: int|
                            connected(
                                m.txs[t].notes[i],
                                m.txs[t].tx.hash,
                                m.txs[t].keys[i],
                                height,
                                pre,
                                outs,
                            ),
                    ),
                    ..m.txs[t]
                },
        ),
        cache_size: if m.cache_size < WITNESS_CACHE_SIZE {
            m.cache_size + 1
        } else {
            m.cache_size
        },
    }
}

/// The wallet after the block at `height` was disconnected.
pub open spec fn model_disconnect(m: WalletModel, height: int) -> WalletModel {
    WalletModel {
        txs: Seq::new(
            m.txs.len(),
            |t: int|
                TxModel {
                    notes: Seq::new(
                        m.txs[t].notes.len(),
                        |i: int| decremented(m.txs[t].notes[i], height),
                    ),
                    ..m.txs[t]
                },
        ),
        cache_size: (m.cache_size - 1) as nat,
    }
}

/// The wallet: its transactions with their notes, and how many blocks of
/// witness history it holds.
pub struct Wallet {
    map_wallet: ByteMap<WalletTransaction>,
    witness_cache_size: usize,
    n_time_first_key: i64,
    key_store: KeyStore,
    seed: [u8; 32],
}

impl View for Wallet {
    type V = WalletModel;

    closed spec fn view(&self) -> WalletModel {
        WalletModel {
            txs: Seq::new(
                self.map_wallet.values@.len(),
                |t: int|
                    TxModel {
                        tx: self.map_wallet.values@[t].tx@,
                        keys: key_views(self.map_wallet.values@[t].map_sapling_data.keys@),
                        notes: self.map_wallet.values@[t].map_sapling_data.notes(),
                    },
            ),
            cache_size: self.witness_cache_size as nat,
        }
    }
}

impl Wallet {
    /// What the model holds, in terms of the accessors.
    pub proof fn lemma_view(&self)
        requires
            self.wf(),
        ensures
            self@.txs.len() == self.tx_count(),
            self@.cache_size == self.cache_size(),
            model_notes(self@) == self.all_notes(),
            forall|t: int|
                0 <= t < self.tx_count() ==> (#[trigger] self@.txs[t]).tx == self.tx(t)@
                    && self@.txs[t].tx.hash == self.owner(t) && self@.txs[t].keys == key_views(
                    self.keys(t),
                ) && self@.txs[t].notes == self.notes(t),
            forall|hash: Seq<u8>| model_has(self@, hash) == #[trigger] self.has_tx(hash),
    {
        assert(model_notes(self@) =~= self.all_notes());
        assert forall|hash: Seq<u8>| model_has(self@, hash) == #[trigger] self.has_tx(hash) by {
            if model_has(self@, hash) {
                let t: int = choose|t: int|
                    0 <= t < self@.txs.len() && (#[trigger] self@.txs[t]).tx.hash == hash;
                assert(self.map_wallet.values@[t].tx.hash@ == self.map_wallet.keys@[t]@);
                self.map_wallet.lemma_entry(t);
            }
            if self.has_tx(hash) {
                let t: int = crate::bytemap::index_of(self.map_wallet.keys@, hash);
                assert(crate::bytemap::key_at(self.map_wallet.keys@, hash, t));
                assert(self.map_wallet.values@[t].tx.hash@ == self.map_wallet.keys@[t]@);
                assert(self@.txs[t].tx.hash == hash);
            }
        }
    }

    /// A wallet of the same shape whose notes are those of `before` after a
    /// block was connected has the model of `before` after that block.
    pub proof fn lemma_model_connect(
        &self,
        before: &Wallet,
        height: int,
        pre: TreeView,
        outs: Seq<OutputRef>,
    )
        requires
            self.wf(),
            before.wf(),
            self.same_shape(before),
            self.cache_size() == if before.cache_size() < WITNESS_CACHE_SIZE {
                before.cache_size() + 1
            } else {
                before.cache_size()
            },
            forall|t: int, i: int|
                0 <= t < before.tx_count() && 0 <= i < before.notes(t).len() ==> #[trigger] self.note(
                    t,
                    i,
                ) == connected(
                    before.note(t, i),
                    before.owner(t),
                    before.keys(t)[i]@,
                    height,
                    pre,
                    outs,
                ),
        ensures
            self@ == model_connect(before@, height, pre, outs),
    {
        let target: WalletModel = model_connect(before@, height, pre, outs);
        assert(self@.txs.len() == target.txs.len());
        assert forall|t: int| 0 <= t < self@.txs.len() implies self@.txs[t] == target.txs[t] by {
            assert(self.map_wallet.values@[t].tx == before.map_wallet.values@[t].tx);
            assert(before.map_wallet.values@[t].tx.hash@ == before.map_wallet.keys@[t]@);
            assert(self@.txs[t].notes.len() == target.txs[t].notes.len());
            assert forall|i: int| 0 <= i < self@.txs[t].notes.len() implies self@.txs[t].notes[i]
                == target.txs[t].notes[i] by {
                assert(self.note(t, i) == connected(
                    before.note(t, i),
                    before.owner(t),
                    before.keys(t)[i]@,
                    height,
                    pre,
                    outs,
                ));
            }
            assert(self@.txs[t].notes =~= target.txs[t].notes);
        }
        assert(self@.txs =~= target.txs);
    }

    /// A wallet of the same shape whose notes are those of `before` after a
    /// block was disconnected has the model of `before` after that.
    pub proof fn lemma_model_disconnect(&self, before: &Wallet, height: int)
        requires
            self.wf(),
            before.wf(),
            self.same_shape(before),
            self.cache_size() == before.cache_size() - 1,
            forall|t: int, i: int|
                0 <= t < before.tx_count() && 0 <= i < before.notes(t).len() ==> #[trigger] self.note(
                    t,
                    i,
                ) == decremented(before.note(t, i), height),
        ensures
            self@ == model_disconnect(before@, height),
    {
        let target: WalletModel = model_disconnect(before@, height);
        assert(self@.txs.len() == target.txs.len());
        assert forall|t: int| 0 <= t < self@.txs.len() implies self@.txs[t] == target.txs[t] by {
            assert(self.map_wallet.values@[t].tx == before.map_wallet.values@[t].tx);
            assert(self@.txs[t].notes.len() == target.txs[t].notes.len());
            assert forall|i: int| 0 <= i < self@.txs[t].notes.len() implies self@.txs[t].notes[i]
                == target.txs[t].notes[i] by {
                assert(self.note(t, i) == decremented(before.note(t, i), height));
            }
            assert(self@.txs[t].notes =~= target.txs[t].notes);
        }
        assert(self@.txs =~= target.txs);
    }

    /// The transactions are stored under their hashes, their notes are well
    /// formed, and the history is no longer than its bound.
    pub closed spec fn wf(&self) -> bool {
        &&& self.map_wallet.wf()
        &&& self.key_store.wf()
        &&& self.witness_cache_size <= WITNESS_CACHE_SIZE
        &&& forall|t: int|
            0 <= t < self.map_wallet.values@.len() ==> (
            #[trigger] self.map_wallet.values@[t]).map_sapling_data.wf()
                && self.map_wallet.values@[t].tx.hash@ == self.map_wallet.keys@[t]@
    }

    /// The number of transactions of the wallet.
    pub closed spec fn tx_count(&self) -> nat {
        self.map_wallet.values@.len()
    }

    /// The hash of the transaction at index `t`.
    pub closed spec fn owner(&self, t: int) -> Seq<u8> {
        self.map_wallet.keys@[t]@
    }

    /// The transaction at index `t`.
    pub closed spec fn tx(&self, t: int) -> Transaction {
        self.map_wallet.values@[t].tx
    }

    /// The keys of the notes of the transaction at index `t`.
    pub closed spec fn keys(&self, t: int) -> Seq<SaplingOutPoint> {
        self.map_wallet.values@[t].map_sapling_data.keys@
    }

    /// The notes of the transaction at index `t`, in the order of their keys.
    pub closed spec fn notes(&self, t: int) -> Seq<NoteView> {
        self.map_wallet.values@[t].map_sapling_data.notes()
    }

    /// The note at index `i` of the transaction at index `t`.
    pub open spec fn note(&self, t: int, i: int) -> NoteView {
        self.notes(t)[i]
    }

    /// The notes of all transactions.
    pub open spec fn all_notes(&self) -> Seq<Seq<NoteView>> {
        Seq::new(self.tx_count(), |t: int| self.notes(t))
    }

    /// How many blocks of witness history the wallet holds.
    pub closed spec fn cache_size(&self) -> nat {
        self.witness_cache_size as nat
    }

    /// Whether `other` holds the same transactions with notes under the same
    /// keys, whatever the notes hold.
    pub closed spec fn same_shape(&self, other: &Wallet) -> bool {
        &&& self.map_wallet.keys@ == other.map_wallet.keys@
        &&& self.map_wallet.values@.len() == other.map_wallet.values@.len()
        &&& self.n_time_first_key == other.n_time_first_key
        &&& self.key_store == other.key_store
        &&& self.seed == other.seed
        &&& forall|t: int|
            0 <= t < self.map_wallet.values@.len() ==> (#[trigger] self.map_wallet.values@[t]).tx
                == other.map_wallet.values@[t].tx
                && self.map_wallet.values@[t].map_sapling_data.keys@
                == other.map_wallet.values@[t].map_sapling_data.keys@
                && self.map_wallet.values@[t].map_sapling_data.values@.len()
                == other.map_wallet.values@[t].map_sapling_data.values@.len()
    }

    /// What the same shape means for the accessors.
    pub proof fn lemma_same_shape(&self, other: &Wallet)
        requires
            self.same_shape(other),
        ensures
            self.tx_count() == other.tx_count(),
            self.spec_seed() == other.spec_seed(),
            self.addresses() == other.addresses(),
            forall|t: int|
                0 <= t < self.tx_count() ==> #[trigger] self.owner(t) == other.owner(t) && self.tx(
                    t,
                ) == other.tx(t) && self.keys(t) == other.keys(t) && self.notes(t).len()
                    == other.notes(t).len(),
    {
        assert forall|t: int| 0 <= t < self.tx_count() implies #[trigger] self.owner(t)
            == other.owner(t) && self.tx(t) == other.tx(t) && self.keys(t) == other.keys(t)
            && self.notes(t).len() == other.notes(t).len() by {
            assert(self.map_wallet.values@[t].tx == other.map_wallet.values@[t].tx);
        }
    }

    /// The seed of the wallet.
    pub closed spec fn spec_seed(&self) -> Seq<u8> {
        self.seed@
    }

    /// The payment addresses that the wallet has keys for, in the order in
    /// which they were added.
    pub closed spec fn addresses(&self) -> Seq<Seq<u8>> {
        self.key_store.addresses()
    }

    /// Whether the wallet holds a transaction with the hash `hash`.
    pub closed spec fn has_tx(&self, hash: Seq<u8>) -> bool {
        self.map_wallet@.dom().contains(hash)
    }

    /// A wallet without transactions, without keys and without history.
    pub fn new() -> (out: Wallet)
        ensures
            out.wf(),
            out.tx_count() == 0,
            out.cache_size() == 0,
            out@ == (WalletModel { txs: Seq::empty(), cache_size: 0 }),
            out.addresses() == Seq::<Seq<u8>>::empty(),
            out.spec_seed() == Seq::new(32, |i: int| 0u8),
    {
        let seed: [u8; 32] = Uint256::zero().bytes;
        let out: Wallet = Wallet {
            map_wallet: ByteMap::new(),
            witness_cache_size: 0,
            n_time_first_key: 0,
            key_store: KeyStore::new(),
            seed,
        };
        assert(out@.txs =~= Seq::<TxModel>::empty());
        out
    }

    /// How many blocks of witness history the wallet holds.
    pub fn witness_cache_size(&self) -> (out: usize)
        ensures
            out == self.cache_size(),
    {
        self.witness_cache_size
    }

    /// The number of transactions of the wallet.
    pub fn len(&self) -> (out: usize)
        ensures
            out == self.tx_count(),
    {
        self.map_wallet.values.len()
    }

    /// The first error among the notes of the wallet that are to be carried
    /// forward to `height`.
    fn copy_check_wallet(&self, height: i32) -> (out: Result<(), WalletError>)
        requires
            self.wf(),
        ensures
            out == wallet_first_error(
                self.all_notes(),
                |n: NoteView| note_copy_check(n, height as int, WITNESS_CACHE_SIZE as nat),
            ),
    {
        let ghost check = |n: NoteView| note_copy_check(n, height as int, WITNESS_CACHE_SIZE as nat);
        let mut t: usize = 0;
        assert(self.all_notes().take(0) =~= Seq::<Seq<NoteView>>::empty());
        while t < self.map_wallet.values.len()
            invariant
                self.wf(),
                t <= self.map_wallet.values@.len(),
                check == |n: NoteView| note_copy_check(n, height as int, WITNESS_CACHE_SIZE as nat),
                wallet_first_error(self.all_notes().take(t as int), check).is_ok(),
            decreases self.map_wallet.values@.len() - t,
        {
            let checked: Result<(), WalletError> =
                self.map_wallet.values[t].map_sapling_data.copy_check(
                height,
                WITNESS_CACHE_SIZE,
            );
            proof {
                let upto: Seq<Seq<NoteView>> = self.all_notes().take(t + 1);
                assert(upto.drop_last() =~= self.all_notes().take(t as int));
                assert(upto.last() == self.notes(t as int));
                assert(copy_check_all(self.notes(t as int), height as int, WITNESS_CACHE_SIZE as nat)
                    == first_error(self.notes(t as int), check));
                if checked.is_err() {
                    lemma_wallet_first_error_prefix(self.all_notes(), check, t + 1);
                }
            }
            if checked.is_err() {
                return checked;
            }
            t = t + 1;
        }
        assert(self.all_notes().take(t as int) =~= self.all_notes());
        Ok(())
    }

    /// The first error among the notes of the wallet from which the block at
    /// `height` is to be undone.
    fn decrement_check_wallet(&self, height: i32) -> (out: Result<(), WalletError>)
        requires
            self.wf(),
        ensures
            out == wallet_first_error(
                self.all_notes(),
                |n: NoteView| note_decrement_check(n, height as int, WITNESS_CACHE_SIZE as nat),
            ),
    {
        let ghost check = |n: NoteView| note_decrement_check(n, height as int, WITNESS_CACHE_SIZE as nat);
        let mut t: usize = 0;
        assert(self.all_notes().take(0) =~= Seq::<Seq<NoteView>>::empty());
        while t < self.map_wallet.values.len()
            invariant
                self.wf(),
                t <= self.map_wallet.values@.len(),
                check == |n: NoteView| note_decrement_check(n, height as int, WITNESS_CACHE_SIZE as nat),
                wallet_first_error(self.all_notes().take(t as int), check).is_ok(),
            decreases self.map_wallet.values@.len() - t,
        {
            let checked: Result<(), WalletError> =
                self.map_wallet.values[t].map_sapling_data.decrement_check(
                height,
                WITNESS_CACHE_SIZE,
            );
            proof {
                let upto: Seq<Seq<NoteView>> = self.all_notes().take(t + 1);
                assert(upto.drop_last() =~= self.all_notes().take(t as int));
                assert(upto.last() == self.notes(t as int));
                assert(decrement_check_all(self.notes(t as int), height as int, WITNESS_CACHE_SIZE as nat)
                    == first_error(self.notes(t as int), check));
                if checked.is_err() {
                    lemma_wallet_first_error_prefix(self.all_notes(), check, t + 1);
                }
            }
            if checked.is_err() {
                return checked;
            }
            t = t + 1;
        }
        assert(self.all_notes().take(t as int) =~= self.all_notes());
        Ok(())
    }

    /// Whether the newest witness of every note of the wallet that is being
    /// advanced to `height` can take in `count` more leaves.
    fn room_check_wallet(&self, height: i32, count: u64) -> (out: bool)
        requires
            self.wf(),
        ensures
            out == all_have_room(self.all_notes(), height as int, count as nat),
    {
        let mut t: usize = 0;
        while t < self.map_wallet.values.len()
            invariant
                self.wf(),
                t <= self.map_wallet.values@.len(),
                forall|u: int, i: int|
                    0 <= u < t && 0 <= i < self.all_notes()[u].len() ==> has_room(
                        #[trigger] self.all_notes()[u][i],
                        height as int,
                        count as nat,
                    ),
            decreases self.map_wallet.values@.len() - t,
        {
            let room: bool = self.map_wallet.values[t].map_sapling_data.room_check(height, count);
            if !room {
                proof {
                    let i: int = choose|i: int|
                        0 <= i < self.notes(t as int).len() && !has_room(
                            #[trigger] self.notes(t as int)[i],
                            height as int,
                            count as nat,
                        );
                    assert(!has_room(self.all_notes()[t as int][i], height as int, count as nat));
                }
                return false;
            }
            proof {
                assert forall|i: int| 0 <= i < self.all_notes()[t as int].len() implies has_room(
                    #[trigger] self.all_notes()[t as int][i],
                    height as int,
                    count as nat,
                ) by {
                    assert(has_room(self.notes(t as int)[i], height as int, count as nat));
                }
            }
            t = t + 1;
        }
        true
    }

    /// Carries every note of the wallet forward to `height`.
    fn copy_all(&mut self, height: i32)
        requires
            old(self).wf(),
            forall|t: int|
                0 <= t < old(self).tx_count() ==> (#[trigger] copy_check_all(
                    old(self).notes(t),
                    height as int,
                    WITNESS_CACHE_SIZE as nat,
                )).is_ok(),
        ensures
            final(self).wf(),
            final(self).same_shape(old(self)),
            final(self).cache_size() == old(self).cache_size(),
            forall|t: int, i: int|
                0 <= t < old(self).tx_count() && 0 <= i < old(self).notes(t).len()
                    ==> #[trigger] final(self).note(t, i) == copied(
                    old(self).note(t, i),
                    height as int,
                ),
    {
        let mut t: usize = 0;
        while t < self.map_wallet.values.len()
            invariant
                self.wf(),
                self.same_shape(old(self)),
                self.witness_cache_size == old(self).witness_cache_size,
                t <= self.map_wallet.values@.len(),
                forall|u: int|
                    0 <= u < old(self).tx_count() ==> (#[trigger] copy_check_all(
                        old(self).notes(u),
                        height as int,
                        WITNESS_CACHE_SIZE as nat,
                    )).is_ok(),
                forall|u: int, i: int|
                    0 <= u < t && 0 <= i < old(self).notes(u).len() ==> #[trigger] self.note(u, i)
                        == copied(old(self).note(u, i), height as int),
                forall|u: int|
                    t <= u < self.map_wallet.values@.len() ==> #[trigger] self.map_wallet.values@[u]
                        == old(self).map_wallet.values@[u],
            decreases self.map_wallet.values@.len() - t,
        {
            let ghost before: Wallet = *self;
            proof {
                assert(copy_check_all(
                    old(self).notes(t as int),
                    height as int,
                    WITNESS_CACHE_SIZE as nat,
                ).is_ok());
            }
            let size: usize = WITNESS_CACHE_SIZE;
            let done: Result<(), WalletError> = copy_previous_witnesses(
                &mut self.map_wallet.values[t].map_sapling_data,
                height,
                size,
            );
            proof {
                assert forall|u: int, i: int|
                    0 <= u < t + 1 && 0 <= i < old(self).notes(u).len() implies #[trigger] self.note(
                    u,
                    i,
                ) == copied(old(self).note(u, i), height as int) by {
                    if u < t {
                        assert(self.map_wallet.values@[u] == before.map_wallet.values@[u]);
                        assert(self.note(u, i) == before.note(u, i));
                    }
                }
            }
            t = t + 1;
        }
    }

    /// Lets the newest witness of every note of the wallet that is being
    /// advanced to `height` take in the leaf `cm`.
    fn append_all(&mut self, height: i32, cm: FrHash)
        requires
            old(self).wf(),
            forall|t: int, i: int|
                0 <= t < old(self).tx_count() && 0 <= i < old(self).notes(t).len() ==> (
                #[trigger] note_append_check(
                    old(self).note(t, i),
                    height as int,
                    WITNESS_CACHE_SIZE as nat,
                )).is_ok(),
        ensures
            final(self).wf(),
            final(self).same_shape(old(self)),
            final(self).cache_size() == old(self).cache_size(),
            forall|t: int, i: int|
                0 <= t < old(self).tx_count() && 0 <= i < old(self).notes(t).len()
                    ==> #[trigger] final(self).note(t, i) == appended(
                    old(self).note(t, i),
                    height as int,
                    cm@,
                ),
    {
        let mut t: usize = 0;
        while t < self.map_wallet.values.len()
            invariant
                self.wf(),
                self.same_shape(old(self)),
                self.witness_cache_size == old(self).witness_cache_size,
                t <= self.map_wallet.values@.len(),
                forall|u: int, i: int|
                    0 <= u < old(self).tx_count() && 0 <= i < old(self).notes(u).len() ==> (
                    #[trigger] note_append_check(
                        old(self).note(u, i),
                        height as int,
                        WITNESS_CACHE_SIZE as nat,
                    )).is_ok(),
                forall|u: int, i: int|
                    0 <= u < t && 0 <= i < old(self).notes(u).len() ==> #[trigger] self.note(u, i)
                        == appended(old(self).note(u, i), height as int, cm@),
                forall|u: int|
                    t <= u < self.map_wallet.values@.len() ==> #[trigger] self.map_wallet.values@[u]
                        == old(self).map_wallet.values@[u],
            decreases self.map_wallet.values@.len() - t,
        {
            let ghost before: Wallet = *self;
            let ghost check = |n: NoteView|
                note_append_check(n, height as int, WITNESS_CACHE_SIZE as nat);
            proof {
                assert forall|i: int| 0 <= i < old(self).notes(t as int).len() implies (
                #[trigger] check(old(self).notes(t as int)[i])).is_ok() by {
                    assert(note_append_check(
                        old(self).note(t as int, i),
                        height as int,
                        WITNESS_CACHE_SIZE as nat,
                    ).is_ok());
                }
                lemma_first_error_none(old(self).notes(t as int), check);
            }
            let size: usize = WITNESS_CACHE_SIZE;
            let done: Result<(), WalletError> = append_note_commitement(
                &mut self.map_wallet.values[t].map_sapling_data,
                height,
                size,
                cm,
            );
            proof {
                assert forall|u: int, i: int|
                    0 <= u < t + 1 && 0 <= i < old(self).notes(u).len() implies #[trigger] self.note(
                    u,
                    i,
                ) == appended(old(self).note(u, i), height as int, cm@) by {
                    if u < t {
                        assert(self.map_wallet.values@[u] == before.map_wallet.values@[u]);
                        assert(self.note(u, i) == before.note(u, i));
                    }
                }
            }
            t = t + 1;
        }
    }

    /// Raises the height of every note of the wallet that is being advanced
    /// to `height` to that height.
    fn heights_all(&mut self, height: i32)
        requires
            old(self).wf(),
            forall|t: int, i: int|
                0 <= t < old(self).tx_count() && 0 <= i < old(self).notes(t).len() ==> (
                #[trigger] note_height_check(
                    old(self).note(t, i),
                    height as int,
                    WITNESS_CACHE_SIZE as nat,
                )).is_ok(),
        ensures
            final(self).wf(),
            final(self).same_shape(old(self)),
            final(self).cache_size() == old(self).cache_size(),
            forall|t: int, i: int|
                0 <= t < old(self).tx_count() && 0 <= i < old(self).notes(t).len()
                    ==> #[trigger] final(self).note(t, i) == heightened(
                    old(self).note(t, i),
                    height as int,
                ),
    {
        let mut t: usize = 0;
        while t < self.map_wallet.values.len()
            invariant
                self.wf(),
                self.same_shape(old(self)),
                self.witness_cache_size == old(self).witness_cache_size,
                t <= self.map_wallet.values@.len(),
                forall|u: int, i: int|
                    0 <= u < old(self).tx_count() && 0 <= i < old(self).notes(u).len() ==> (
                    #[trigger] note_height_check(
                        old(self).note(u, i),
                        height as int,
                        WITNESS_CACHE_SIZE as nat,
                    )).is_ok(),
                forall|u: int, i: int|
                    0 <= u < t && 0 <= i < old(self).notes(u).len() ==> #[trigger] self.note(u, i)
                        == heightened(old(self).note(u, i), height as int),
                forall|u: int|
                    t <= u < self.map_wallet.values@.len() ==> #[trigger] self.map_wallet.values@[u]
                        == old(self).map_wallet.values@[u],
            decreases self.map_wallet.values@.len() - t,
        {
            let ghost before: Wallet = *self;
            let ghost check = |n: NoteView|
                note_height_check(n, height as int, WITNESS_CACHE_SIZE as nat);
            proof {
                assert forall|i: int| 0 <= i < old(self).notes(t as int).len() implies (
                #[trigger] check(old(self).notes(t as int)[i])).is_ok() by {
                    assert(note_height_check(
                        old(self).note(t as int, i),
                        height as int,
                        WITNESS_CACHE_SIZE as nat,
                    ).is_ok());
                }
                lemma_first_error_none(old(self).notes(t as int), check);
            }
            let size: usize = WITNESS_CACHE_SIZE;
            let done: Result<(), WalletError> = update_witness_heights(
                &mut self.map_wallet.values[t].map_sapling_data,
                height,
                size,
            );
            proof {
                assert forall|u: int, i: int|
                    0 <= u < t + 1 && 0 <= i < old(self).notes(u).len() implies #[trigger] self.note(
                    u,
                    i,
                ) == heightened(old(self).note(u, i), height as int) by {
                    if u < t {
                        assert(self.map_wallet.values@[u] == before.map_wallet.values@[u]);
                        assert(self.note(u, i) == before.note(u, i));
                    }
                }
            }
            t = t + 1;
        }
    }

    /// Undoes the block at `height` for every note of the wallet.
    fn decrement_all(&mut self, height: i32)
        requires
            old(self).wf(),
            forall|t: int|
                0 <= t < old(self).tx_count() ==> (#[trigger] decrement_check_all(
                    old(self).notes(t),
                    height as int,
                    WITNESS_CACHE_SIZE as nat,
                )).is_ok(),
        ensures
            final(self).wf(),
            final(self).same_shape(old(self)),
            final(self).cache_size() == old(self).cache_size(),
            forall|t: int, i: int|
                0 <= t < old(self).tx_count() && 0 <= i < old(self).notes(t).len()
                    ==> #[trigger] final(self).note(t, i) == decremented(
                    old(self).note(t, i),
                    height as int,
                ),
    {
        let mut t: usize = 0;
        while t < self.map_wallet.values.len()
            invariant
                self.wf(),
                self.same_shape(old(self)),
                self.witness_cache_size == old(self).witness_cache_size,
                t <= self.map_wallet.values@.len(),
                forall|u: int|
                    0 <= u < old(self).tx_count() ==> (#[trigger] decrement_check_all(
                        old(self).notes(u),
                        height as int,
                        WITNESS_CACHE_SIZE as nat,
                    )).is_ok(),
                forall|u: int, i: int|
                    0 <= u < t && 0 <= i < old(self).notes(u).len() ==> #[trigger] self.note(u, i)
                        == decremented(old(self).note(u, i), height as int),
                forall|u: int|
                    t <= u < self.map_wallet.values@.len() ==> #[trigger] self.map_wallet.values@[u]
                        == old(self).map_wallet.values@[u],
            decreases self.map_wallet.values@.len() - t,
        {
            let ghost before: Wallet = *self;
            proof {
                assert(decrement_check_all(
                    old(self).notes(t as int),
                    height as int,
                    WITNESS_CACHE_SIZE as nat,
                ).is_ok());
            }
            let size: usize = WITNESS_CACHE_SIZE;
            let done: Result<(), WalletError> = decrement_note_data(
                &mut self.map_wallet.values[t].map_sapling_data,
                height,
                size,
            );
            proof {
                assert forall|u: int, i: int|
                    0 <= u < t + 1 && 0 <= i < old(self).notes(u).len() implies #[trigger] self.note(
                    u,
                    i,
                ) == decremented(old(self).note(u, i), height as int) by {
                    if u < t {
                        assert(self.map_wallet.values@[u] == before.map_wallet.values@[u]);
                        assert(self.note(u, i) == before.note(u, i));
                    }
                }
            }
            t = t + 1;
        }
    }

    /// Advances the witnesses of every note of the wallet through the block
    /// `pblock_in` at the height of `pindex`, and `sapling_tree`, the tree
    /// before the block, with them: every note is carried forward, every
    /// shielded output of the block is replayed in block order, and every
    /// note is set to the height of the block. Where the wallet cannot follow,
    /// the error is returned, and neither the wallet nor the tree is changed.
    pub fn increment_note_witnesses(
        &mut self,
        pindex: &BlockIndex,
        pblock_in: &Block,
        sapling_tree: &mut SaplingMerkleTree,
    ) -> (out: Result<(), WalletError>)
        requires
            old(self).wf(),
            old(sapling_tree).wf(),
        ensures
            final(self).wf(),
            final(sapling_tree).wf(),
            final(self).same_shape(old(self)),
            final(sapling_tree).spec_depth() == old(sapling_tree).spec_depth(),
            out == connect_check(
                old(self).all_notes(),
                pindex.n_height as int,
                old(sapling_tree).model(),
                block_outputs(pblock_in.vtx@),
            ),
            out.is_err() ==> *final(self) == *old(self) && *final(sapling_tree) == *old(
                sapling_tree,
            ),
            final(sapling_tree).model() == tree_after_connect(
                old(self).all_notes(),
                pindex.n_height as int,
                old(sapling_tree).model(),
                block_outputs(pblock_in.vtx@),
            ),
            out.is_ok() ==> final(self).cache_size() == if old(self).cache_size()
                < WITNESS_CACHE_SIZE {
                old(self).cache_size() + 1
            } else {
                old(self).cache_size()
            },
            out.is_ok() ==> final(sapling_tree)@ == old(sapling_tree)@ + commitments(
                block_outputs(pblock_in.vtx@),
            ),
            out.is_ok() ==> forall|t: int, i: int|
                0 <= t < old(self).tx_count() && 0 <= i < old(self).notes(t).len()
                    ==> #[trigger] final(self).note(t, i) == connected(
                    old(self).note(t, i),
                    old(self).owner(t),
                    old(self).keys(t)[i]@,
                    pindex.n_height as int,
                    old(sapling_tree).model(),
                    block_outputs(pblock_in.vtx@),
                ),
            out.is_ok() ==> final(self)@ == model_connect(
                old(self)@,
                pindex.n_height as int,
                old(sapling_tree).model(),
                block_outputs(pblock_in.vtx@),
            ),
            out.is_ok() ==> forall|t: int, i: int|
                0 <= t < old(self).tx_count() && 0 <= i < old(self).notes(t).len() && old(
                    self,
                ).note(t, i).height <= pindex.n_height ==> (#[trigger] final(self).note(
                    t,
                    i,
                )).height == pindex.n_height && (final(self).note(t, i).witnesses.len()
                    <= WITNESS_CACHE_SIZE || final(self).note(t, i) == old(self).note(t, i)),
    {
        let height: i32 = pindex.n_height;
        let ghost h: int = height as int;
        let ghost pre: TreeView = sapling_tree.model();
        let ghost outs: Seq<OutputRef> = block_outputs(pblock_in.vtx@);
        let ghost check = |n: NoteView| note_copy_check(n, h, WITNESS_CACHE_SIZE as nat);
        let checked: Result<(), WalletError> = self.copy_check_wallet(height);
        if checked.is_err() {
            return checked;
        }
        let limit: u64 = sapling_tree.remaining();
        let total: u64 = match count_outputs(pblock_in, limit) {
            Some(n) => n,
            None => {
                return Err(WalletError::TreeFull);
            },
        };
        if !self.room_check_wallet(height, total) {
            return Err(WalletError::TreeFull);
        }
        proof {
            lemma_wallet_first_error_ok(self.all_notes(), check);
            assert forall|t: int| 0 <= t < self.tx_count() implies (#[trigger] copy_check_all(
                self.notes(t),
                h,
                WITNESS_CACHE_SIZE as nat,
            )).is_ok() by {
                assert(self.all_notes()[t] == self.notes(t));
                assert(first_error(self.all_notes()[t], check).is_ok());
            }
        }
        self.copy_all(height);
        let ghost carried: Wallet = *self;
        if self.witness_cache_size < WITNESS_CACHE_SIZE {
            self.witness_cache_size = self.witness_cache_size + 1;
        }
        let ghost start: Wallet = *self;
        proof {
            start.lemma_same_shape(old(self));
            assert forall|t: int, i: int|
                0 <= t < old(self).tx_count() && 0 <= i < old(self).notes(t).len() implies has_room(
                #[trigger] self.note(t, i),
                h,
                total as nat,
            ) && (self.note(t, i).height < h ==> self.note(t, i).witnesses.len()
                <= WITNESS_CACHE_SIZE) by {
                let n: NoteView = old(self).note(t, i);
                assert(self.note(t, i) == carried.note(t, i));
                assert(self.note(t, i) == copied(n, h));
                assert(has_room(old(self).all_notes()[t][i], h, total as nat));
                assert(copy_check_all(old(self).notes(t), h, WITNESS_CACHE_SIZE as nat).is_ok());
                lemma_first_error_ok(old(self).notes(t), check);
                assert(check(old(self).notes(t)[i]).is_ok());
            }
            assert forall|t: int, i: int|
                0 <= t < old(self).tx_count() && 0 <= i < old(self).notes(t).len()
                    implies #[trigger] self.note(t, i) == replayed(
                copied(old(self).note(t, i), h),
                old(self).owner(t),
                old(self).keys(t)[i]@,
                h,
                pre,
                Seq::<OutputRef>::empty(),
            ) by {
                assert(self.note(t, i) == carried.note(t, i));
            }
            assert(pre.leaves + commitments(Seq::<OutputRef>::empty()) =~= pre.leaves);
            assert(pblock_in.vtx@.take(0) =~= Seq::<Transaction>::empty());
        }
        let ghost mut processed: Seq<OutputRef> = Seq::empty();
        let mut j: usize = 0;
        while j < pblock_in.vtx.len()
            invariant
                self.wf(),
                sapling_tree.wf(),
                old(self).wf(),
                self.same_shape(old(self)),
                self.cache_size() == start.cache_size(),
                sapling_tree.spec_depth() == pre.depth,
                h == height,
                outs == block_outputs(pblock_in.vtx@),
                total == outs.len(),
                pre.leaves.len() + total <= pow2(pre.depth),
                j <= pblock_in.vtx@.len(),
                processed == block_outputs(pblock_in.vtx@.take(j as int)),
                sapling_tree@ == pre.leaves + commitments(processed),
                forall|t: int, i: int|
                    0 <= t < old(self).tx_count() && 0 <= i < old(self).notes(t).len()
                        ==> #[trigger] self.note(t, i) == replayed(
                        copied(old(self).note(t, i), h),
                        old(self).owner(t),
                        old(self).keys(t)[i]@,
                        h,
                        pre,
                        processed,
                    ),
                forall|t: int, i: int|
                    0 <= t < old(self).tx_count() && 0 <= i < old(self).notes(t).len() ==> has_room(
                        #[trigger] self.note(t, i),
                        h,
                        (total - processed.len()) as nat,
                    ) && (self.note(t, i).height < h ==> self.note(t, i).witnesses.len()
                        <= WITNESS_CACHE_SIZE),
            decreases pblock_in.vtx@.len() - j,
        {
            let tx: &Transaction = &pblock_in.vtx[j];
            let ours: Option<usize> = self.map_wallet.position(&tx.hash.to_bytes());
            let ghost before_tx: Seq<OutputRef> = processed;
            proof {
                assert(pblock_in.vtx@.take(j + 1).drop_last() =~= pblock_in.vtx@.take(j as int));
                lemma_block_outputs_prefix(pblock_in.vtx@, j + 1);
                assert(tx_outputs(*tx).take(0) =~= Seq::<OutputRef>::empty());
                assert(before_tx + Seq::<OutputRef>::empty() =~= before_tx);
            }
            let mut k: usize = 0;
            while k < tx.v_shielded_output.len()
                invariant
                    self.wf(),
                    sapling_tree.wf(),
                    old(self).wf(),
                    self.same_shape(old(self)),
                    self.cache_size() == start.cache_size(),
                        sapling_tree.spec_depth() == pre.depth,
                    h == height,
                    total == outs.len(),
                    pre.leaves.len() + total <= pow2(pre.depth),
                    j < pblock_in.vtx@.len(),
                    *tx == pblock_in.vtx@[j as int],
                    k <= tx.v_shielded_output@.len(),
                    before_tx.len() + tx.v_shielded_output@.len() <= total,
                    processed == before_tx + tx_outputs(*tx).take(k as int),
                    sapling_tree@ == pre.leaves + commitments(processed),
                    ours.is_some() == self.map_wallet@.dom().contains(tx.hash@),
                    ours matches Some(t) ==> t < self.map_wallet.keys@.len()
                        && self.map_wallet.keys@[t as int]@ == tx.hash@,
                    forall|t: int, i: int|
                        0 <= t < old(self).tx_count() && 0 <= i < old(self).notes(t).len()
                            ==> #[trigger] self.note(t, i) == replayed(
                            copied(old(self).note(t, i), h),
                            old(self).owner(t),
                            old(self).keys(t)[i]@,
                            h,
                            pre,
                            processed,
                        ),
                    forall|t: int, i: int|
                        0 <= t < old(self).tx_count() && 0 <= i < old(self).notes(t).len()
                            ==> has_room(
                            #[trigger] self.note(t, i),
                            h,
                            (total - processed.len()) as nat,
                        ) && (self.note(t, i).height < h ==> self.note(t, i).witnesses.len()
                            <= WITNESS_CACHE_SIZE),
                decreases tx.v_shielded_output@.len() - k,
            {
                let cm: FrHash = tx.v_shielded_output[k].cmu;
                let ghost o: OutputRef = tx_outputs(*tx)[k as int];
                let ghost earlier: Seq<OutputRef> = processed;
                let ghost prev: Wallet = *self;
                proof {
                    prev.lemma_same_shape(old(self));
                    assert forall|t: int, i: int|
                        0 <= t < prev.tx_count() && 0 <= i < prev.notes(t).len() implies (
                    #[trigger] note_append_check(prev.note(t, i), h, WITNESS_CACHE_SIZE as nat)).is_ok() by {
                        assert(has_room(prev.note(t, i), h, (total - earlier.len()) as nat));
                    }
                }
                let grown: Result<(), TreeFull> = sapling_tree.append(cm);
                self.append_all(height, cm);
                let ghost mid: Wallet = *self;
                match ours {
                    Some(t) => {
                        let witness: SaplingWitness = sapling_tree.witness().unwrap();
                        let key: SaplingOutPoint = SaplingOutPoint { hash: tx.hash, n: k };
                        let size: usize = WITNESS_CACHE_SIZE;
                        let minted: bool = witness_note_if_mine(
                            &mut self.map_wallet.values[t].map_sapling_data,
                            height,
                            size,
                            cm,
                            key,
                            witness,
                        );
                    },
                    None => {},
                }
                proof {
                    processed = earlier.push(o);
                    assert(tx_outputs(*tx).take(k + 1) =~= tx_outputs(*tx).take(k as int).push(o));
                    assert(processed =~= before_tx + tx_outputs(*tx).take(k + 1));
                    assert(processed.drop_last() =~= earlier);
                    assert(commitments(processed) =~= commitments(earlier).push(cm@));
                    assert(sapling_tree@ =~= pre.leaves + commitments(processed));
                    mid.lemma_same_shape(&prev);
                    assert forall|t: int, i: int|
                        0 <= t < old(self).tx_count() && 0 <= i < old(self).notes(t).len() implies (
                    #[trigger] self.note(t, i)) == replay_step(
                        prev.note(t, i),
                        old(self).owner(t),
                        old(self).keys(t)[i]@,
                        h,
                        pre,
                        earlier,
                        o,
                    ) by {
                        assert(mid.note(t, i) == appended(prev.note(t, i), h, cm@));
                        match ours {
                            Some(mine) => {
                                if t != mine {
                                    assert(self.map_wallet.values@[t] == mid.map_wallet.values@[t]);
                                    assert(self.map_wallet.keys@[t]@
                                        != self.map_wallet.keys@[mine as int]@);
                                }
                            },
                            None => {
                                self.map_wallet.lemma_entry(t);
                            },
                        }
                    }
                    assert forall|t: int, i: int|
                        0 <= t < old(self).tx_count() && 0 <= i < old(self).notes(t).len() implies (
                    #[trigger] self.note(t, i)) == replayed(
                        copied(old(self).note(t, i), h),
                        old(self).owner(t),
                        old(self).keys(t)[i]@,
                        h,
                        pre,
                        processed,
                    ) && has_room(self.note(t, i), h, (total - processed.len()) as nat) && (
                    self.note(t, i).height < h ==> self.note(t, i).witnesses.len()
                        <= WITNESS_CACHE_SIZE) by {
                        lemma_replay_step_keeps(
                            prev.note(t, i),
                            old(self).owner(t),
                            old(self).keys(t)[i]@,
                            h,
                            pre,
                            earlier,
                            o,
                            total as nat,
                            WITNESS_CACHE_SIZE as nat,
                        );
                    }
                }
                k = k + 1;
            }
            proof {
                assert(tx_outputs(*tx).take(k as int) =~= tx_outputs(*tx));
            }
            j = j + 1;
        }
        proof {
            assert(pblock_in.vtx@.take(j as int) =~= pblock_in.vtx@);
            let mid: Wallet = *self;
            mid.lemma_same_shape(old(self));
        }
        let ghost replay_done: Wallet = *self;
        self.heights_all(height);
        proof {
            self.lemma_same_shape(&replay_done);
            replay_done.lemma_same_shape(old(self));
            self.lemma_model_connect(old(self), h, pre, outs);
            assert forall|t: int, i: int|
                0 <= t < old(self).tx_count() && 0 <= i < old(self).notes(t).len() && old(
                    self,
                ).note(t, i).height <= h implies (#[trigger] self.note(t, i)).height == h && (
            self.note(t, i).witnesses.len() <= WITNESS_CACHE_SIZE || self.note(t, i) == old(
                self,
            ).note(t, i)) by {
                let n: NoteView = old(self).note(t, i);
                lemma_replayed_shape(
                    copied(n, h),
                    old(self).owner(t),
                    old(self).keys(t)[i]@,
                    h,
                    pre,
                    outs,
                );
                if n.height < h {
                    assert(copy_check_all(old(self).notes(t), h, WITNESS_CACHE_SIZE as nat).is_ok());
                    lemma_first_error_ok(old(self).notes(t), check);
                    assert(check(old(self).notes(t)[i]).is_ok());
                }
            }
        }
        Ok(())
    }

    /// Takes the witnesses of every note of the wallet back from the block at
    /// the height of `pindex`: a note that was advanced at that height loses
    /// its newest witness and is one block lower. Where the wallet has no
    /// history left, or a note is out of order, the error is returned and the
    /// wallet is not changed.
    pub fn decrement_note_witnesses(&mut self, pindex: &BlockIndex) -> (out: Result<
        (),
        WalletError,
    >)
        requires
            old(self).wf(),
        ensures
            final(self).wf(),
            final(self).same_shape(old(self)),
            out == disconnect_check(
                old(self).all_notes(),
                old(self).cache_size(),
                pindex.n_height as int,
            ),
            out.is_err() ==> *final(self) == *old(self),
            out.is_ok() ==> final(self).cache_size() == old(self).cache_size() - 1,
            out.is_ok() ==> forall|t: int, i: int|
                0 <= t < old(self).tx_count() && 0 <= i < old(self).notes(t).len()
                    ==> #[trigger] final(self).note(t, i) == decremented(
                    old(self).note(t, i),
                    pindex.n_height as int,
                ),
            out.is_ok() ==> final(self)@ == model_disconnect(old(self)@, pindex.n_height as int),
    {
        let height: i32 = pindex.n_height;
        let ghost check = |n: NoteView|
            note_decrement_check(n, height as int, WITNESS_CACHE_SIZE as nat);
        if self.witness_cache_size == 0 {
            proof {
                self.lemma_same_shape_self();
            }
            return Err(WalletError::RollbackTooDeep);
        }
        let checked: Result<(), WalletError> = self.decrement_check_wallet(height);
        if checked.is_err() {
            proof {
                self.lemma_same_shape_self();
            }
            return checked;
        }
        proof {
            lemma_wallet_first_error_ok(self.all_notes(), check);
            assert forall|t: int| 0 <= t < self.tx_count() implies (#[trigger] decrement_check_all(
                self.notes(t),
                height as int,
                WITNESS_CACHE_SIZE as nat,
            )).is_ok() by {
                assert(self.all_notes()[t] == self.notes(t));
                assert(first_error(self.all_notes()[t], check).is_ok());
            }
        }
        self.decrement_all(height);
        let ghost undone: Wallet = *self;
        self.witness_cache_size = self.witness_cache_size - 1;
        proof {
            assert forall|t: int, i: int|
                0 <= t < old(self).tx_count() && 0 <= i < old(self).notes(t).len()
                    implies #[trigger] self.note(t, i) == decremented(
                old(self).note(t, i),
                height as int,
            ) by {
                assert(self.note(t, i) == undone.note(t, i));
            }
            self.lemma_model_disconnect(old(self), height as int);
        }
        Ok(())
    }

    /// A wallet has the same shape as itself.
    pub proof fn lemma_same_shape_self(&self)
        ensures
            self.same_shape(self),
    {
    }

    /// Follows the chain by one block: with `added`, the block `pblock` at
    /// `pindex` was connected and the witnesses are advanced through it from
    /// `sapling_tree`, the tree before the block; without, the block was
    /// disconnected and the witnesses are taken back.
    pub fn chain_tip(
        &mut self,
        pindex: &BlockIndex,
        pblock: &Block,
        sapling_tree: &mut SaplingMerkleTree,
        added: bool,
    ) -> (out: Result<(), WalletError>)
        requires
            old(self).wf(),
            old(sapling_tree).wf(),
        ensures
            final(self).wf(),
            final(sapling_tree).wf(),
            final(self).same_shape(old(self)),
            final(sapling_tree).spec_depth() == old(sapling_tree).spec_depth(),
            out == if added {
                connect_check(
                    old(self).all_notes(),
                    pindex.n_height as int,
                    old(sapling_tree).model(),
                    block_outputs(pblock.vtx@),
                )
            } else {
                disconnect_check(
                    old(self).all_notes(),
                    old(self).cache_size(),
                    pindex.n_height as int,
                )
            },
            out.is_err() ==> *final(self) == *old(self) && *final(sapling_tree) == *old(
                sapling_tree,
            ),
            out.is_ok() && added ==> final(sapling_tree)@ == old(sapling_tree)@ + commitments(
                block_outputs(pblock.vtx@),
            ),
            out.is_ok() && !added ==> *final(sapling_tree) == *old(sapling_tree),
            out.is_ok() ==> forall|t: int, i: int|
                0 <= t < old(self).tx_count() && 0 <= i < old(self).notes(t).len()
                    ==> #[trigger] final(self).note(t, i) == if added {
                    connected(
                        old(self).note(t, i),
                        old(self).owner(t),
                        old(self).keys(t)[i]@,
                        pindex.n_height as int,
                        old(sapling_tree).model(),
                        block_outputs(pblock.vtx@),
                    )
                } else {
                    decremented(old(self).note(t, i), pindex.n_height as int)
                },
            out.is_ok() ==> final(self)@ == if added {
                model_connect(
                    old(self)@,
                    pindex.n_height as int,
                    old(sapling_tree).model(),
                    block_outputs(pblock.vtx@),
                )
            } else {
                model_disconnect(old(self)@, pindex.n_height as int)
            },
    {
        if added {
            self.increment_note_witnesses(pindex, pblock, sapling_tree)
        } else {
            self.decrement_note_witnesses(pindex)
        }
    }
}

/// The root that the first witness among `fronts` gives, if there is one.
pub open spec fn first_root(fronts: Seq<Option<WitnessView>>) -> Option<Seq<u8>>
    decreases fronts.len(),
{
    if fronts.len() == 0 {
        None
    } else {
        match first_root(fronts.drop_last()) {
            Some(r) => Some(r),
            None => match fronts.last() {
                Some(w) => Some(witness_root(w)),
                None => None,
            },
        }
    }
}

/// Whether all the witnesses among `fronts` give the same root.
pub open spec fn roots_agree(fronts: Seq<Option<WitnessView>>) -> bool {
    forall|a: int, b: int|
        0 <= a < fronts.len() && 0 <= b < fronts.len() ==> match (
            #[trigger] fronts[a],
            #[trigger] fronts[b],
        ) {
            (Some(x), Some(y)) => witness_root(x) == witness_root(y),
            _ => true,
        }
}

/// The view of an optional reference to a witness.
pub open spec fn witness_option_view(w: Option<&SaplingWitness>) -> Option<WitnessView> {
    match w {
        Some(x) => Some(x@),
        None => None,
    }
}

impl Wallet {
    /// The note of the output `op`, if the wallet holds it: the note with the
    /// key `op` of the transaction with the hash of `op`.
    pub closed spec fn note_of(&self, op: OutPointView) -> Option<NoteView> {
        if self.map_wallet@.dom().contains(op.hash) {
            let notes = self.map_wallet@[op.hash].map_sapling_data;
            if notes.contains(op) {
                Some(notes.as_map()[op])
            } else {
                None
            }
        } else {
            None
        }
    }

    /// The newest witness of the note of the output `op`, if the wallet holds
    /// that note and the note has a witness.
    pub open spec fn front_of(&self, op: OutPointView) -> Option<WitnessView> {
        match self.note_of(op) {
            Some(n) => newest(n),
            None => None,
        }
    }

    /// The note of an output is the note under its key among the notes of
    /// its transaction.
    pub proof fn lemma_note_of(&self, t: int, i: int)
        requires
            self.wf(),
            0 <= t < self.tx_count(),
            0 <= i < self.notes(t).len(),
            self.keys(t)[i]@.hash == self.owner(t),
        ensures
            self.note_of(self.keys(t)[i]@) == Some(self.note(t, i)),
    {
        self.map_wallet.lemma_entry(t);
        self.map_wallet.values@[t].map_sapling_data.lemma_entry(i);
    }

    /// The newest witnesses of the notes of the outputs `ops`, in order.
    pub open spec fn fronts_of(&self, ops: Seq<&SaplingOutPoint>) -> Seq<Option<WitnessView>> {
        Seq::new(ops.len(), |k: int| self.front_of(ops[k]@))
    }

    /// The seed of the wallet.
    pub fn seed(&self) -> (out: [u8; 32])
        ensures
            out@ == self.spec_seed(),
    {
        self.seed
    }

    /// The payment addresses that the wallet has keys for, in the order in
    /// which they were added.
    pub fn get_sapling_payment_addresses(&self) -> (out: Vec<[u8; 43]>)
        ensures
            out@.len() == self.addresses().len(),
            forall|i: int| 0 <= i < out@.len() ==> (#[trigger] out@[i])@ == self.addresses()[i],
    {
        self.key_store.get_sapling_payment_addresses()
    }

    /// Whether `other` holds the same transactions, notes and history.
    pub closed spec fn same_ledger(&self, other: &Wallet) -> bool {
        &&& self.map_wallet == other.map_wallet
        &&& self.witness_cache_size == other.witness_cache_size
        &&& self.n_time_first_key == other.n_time_first_key
    }

    /// The key that the wallet holds for `address`, if it holds the address.
    pub closed spec fn key_of(&self, address: Seq<u8>) -> Option<Seq<u8>> {
        self.key_store.key_of(address)
    }

    /// Adds the spending key `xsk` with its payment address `address` to the
    /// keys of the wallet. Where the wallet holds the address, the key of that
    /// address is replaced. Returns whether the address is new.
    pub fn add_z_key(&mut self, xsk: &[u8; 169], address: &[u8; 43]) -> (out: bool)
        requires
            old(self).wf(),
        ensures
            final(self).wf(),
            final(self).same_ledger(old(self)),
            final(self).spec_seed() == old(self).spec_seed(),
            out == !old(self).addresses().contains(address@),
            final(self).addresses() == with_address(old(self).addresses(), address@),
            final(self).key_of(address@) == Some(xsk@),
            forall|other: Seq<u8>|
                other != address@ ==> #[trigger] final(self).key_of(other) == old(self).key_of(
                    other,
                ),
    {
        self.key_store.add_spending_key(*xsk, *address)
    }

    /// Adds the spending key `xsk` to the keys of the wallet, with its default
    /// payment address, and returns the address; `None`, and nothing added,
    /// where `xsk` is not the encoding of a valid key.
    pub fn add_spending_key_to_wallet(&mut self, xsk: &[u8; 169]) -> (out: Option<[u8; 43]>)
        requires
            old(self).wf(),
        ensures
            final(self).wf(),
            final(self).same_ledger(old(self)),
            final(self).spec_seed() == old(self).spec_seed(),
            match address_of_key_spec(xsk@) {
                None => out.is_none() && *final(self) == *old(self),
                Some(address) => {
                    &&& out matches Some(a) && a@ == address
                    &&& final(self).key_of(address) == Some(xsk@)
                    &&& final(self).addresses() == with_address(old(self).addresses(), address)
                },
            },
    {
        match address_of_key(xsk) {
            None => None,
            Some(address) => {
                let added: bool = self.add_z_key(xsk, &address);
                Some(address)
            },
        }
    }

    /// Whether this wallet is `before` after `seed` was made its seed, with
    /// `out` as what was returned: where the seed gives no valid key, nothing
    /// is changed and nothing returned; else the seed is stored, the master
    /// spending key of the seed is held for its default payment address, and
    /// that address is returned.
    pub open spec fn seeded(&self, before: &Wallet, seed: Seq<u8>, out: Option<[u8; 43]>) -> bool {
        match key_and_address_spec(seed) {
            None => out.is_none() && *self == *before,
            Some((key, address)) => {
                &&& out matches Some(a) && a@ == address
                &&& self.spec_seed() == seed
                &&& self.key_of(address) == Some(key)
                &&& self.addresses() == with_address(before.addresses(), address)
            },
        }
    }

    /// Makes `seed` the seed of the wallet, adds the master spending key of
    /// the seed to the keys of the wallet, and returns the default payment
    /// address of that key; `None`, and nothing changed, where the seed gives
    /// no valid key.
    pub fn set_seed(&mut self, seed: [u8; 32]) -> (out: Option<[u8; 43]>)
        requires
            old(self).wf(),
        ensures
            final(self).wf(),
            final(self).same_ledger(old(self)),
            final(self).seeded(old(self), seed@, out),
    {
        match key_and_address(&seed) {
            None => None,
            Some((key, address)) => {
                self.seed = seed;
                let added: bool = self.add_z_key(&key, &address);
                Some(address)
            },
        }
    }

    /// Gives the wallet a fresh random seed, as `set_seed` does, and returns
    /// the default payment address; `None`, and nothing changed, where the
    /// seed that was drawn gives no valid key. Which seed is drawn is not
    /// known beforehand: the wallet is seeded with some seed of 32 bytes.
    pub fn generate_new_seed(&mut self) -> (out: Option<[u8; 43]>)
        requires
            old(self).wf(),
        ensures
            final(self).wf(),
            final(self).same_ledger(old(self)),
            exists|seed: Seq<u8>|
                seed.len() == 32 && #[trigger] final(self).seeded(old(self), seed, out),
            out.is_none() ==> *final(self) == *old(self),
            out matches Some(a) ==> key_and_address_spec(final(self).spec_seed()) matches Some(
                (key, address),
            ) && a@ == address && final(self).key_of(address) == Some(key),
    {
        let random_bytes: [u8; 32] = random_seed();
        let out: Option<[u8; 43]> = self.set_seed(random_bytes);
        assert(self.seeded(old(self), random_bytes@, out));
        out
    }

    /// Adds the key of the all-zero seed to the keys of the wallet, and
    /// returns its default payment address.
    pub fn get_new_z_address(&mut self) -> (out: Option<[u8; 43]>)
        requires
            old(self).wf(),
        ensures
            final(self).wf(),
            final(self).same_ledger(old(self)),
            final(self).spec_seed() == old(self).spec_seed(),
            match key_and_address_spec(Seq::new(32, |i: int| 0u8)) {
                None => out.is_none() && *final(self) == *old(self),
                Some((key, address)) => {
                    &&& out matches Some(a) && a@ == address
                    &&& final(self).key_of(address) == Some(key)
                    &&& final(self).addresses() == with_address(old(self).addresses(), address)
                },
            },
    {
        let seed: [u8; 32] = Uint256::zero().bytes;
        match key_and_address(&seed) {
            None => None,
            Some((key, address)) => {
                let added: bool = self.add_z_key(&key, &address);
                Some(address)
            },
        }
    }

    /// Takes the seed of the wallet from the first 32 bytes of `contents`, as
    /// `set_seed` does; `None`, and nothing changed, where there are fewer
    /// bytes or the seed gives no valid key.
    pub fn load_from_bytes(&mut self, contents: &Vec<u8>) -> (out: Option<[u8; 43]>)
        requires
            old(self).wf(),
        ensures
            final(self).wf(),
            final(self).same_ledger(old(self)),
            contents@.len() < 32 ==> out.is_none() && *final(self) == *old(self),
            contents@.len() >= 32 ==> match key_and_address_spec(contents@.take(32)) {
                None => out.is_none() && *final(self) == *old(self),
                Some((key, address)) => {
                    &&& out matches Some(a) && a@ == address
                    &&& final(self).spec_seed() == contents@.take(32)
                    &&& final(self).key_of(address) == Some(key)
                    &&& final(self).addresses() == with_address(old(self).addresses(), address)
                },
            },
    {
        if contents.len() < 32 {
            return None;
        }
        let mut seed: [u8; 32] = Uint256::zero().bytes;
        let mut i: usize = 0;
        while i < 32
            invariant
                i <= 32,
                contents@.len() >= 32,
                forall|j: int| 0 <= j < i ==> seed@[j] == contents@[j],
            decreases 32 - i,
        {
            seed[i] = contents[i];
            i = i + 1;
        }
        assert(seed@ =~= contents@.take(32));
        self.set_seed(seed)
    }

    /// Whether the wallet holds a transaction with the hash `hash`.
    pub fn contains_tx(&self, hash: &FrHash) -> (out: bool)
        requires
            self.wf(),
        ensures
            out == self.has_tx(hash@),
    {
        self.map_wallet.contains_key(&hash.to_bytes())
    }

    /// The transaction of the wallet with the hash `hash`, with its notes.
    pub fn get_wallet_tx(&self, hash: &FrHash) -> (out: Option<&WalletTransaction>)
        requires
            self.wf(),
        ensures
            out.is_some() == self.has_tx(hash@),
            out matches Some(wtx) ==> wtx.map_sapling_data.wf() && exists|t: int|
                0 <= t < self.tx_count() && #[trigger] self.owner(t) == hash@ && wtx.tx == self.tx(
                    t,
                ) && wtx.map_sapling_data.keys@ == self.keys(t) && wtx.map_sapling_data.notes()
                    == self.notes(t),
    {
        match self.map_wallet.position(&hash.to_bytes()) {
            Some(t) => {
                assert(self.owner(t as int) == hash@);
                Some(&self.map_wallet.values[t])
            },
            None => None,
        }
    }

    /// The note of the output `op`, if the wallet holds it.
    pub fn get_note(&self, op: &SaplingOutPoint) -> (out: Option<&SaplingNoteData>)
        requires
            self.wf(),
        ensures
            match out {
                Some(nd) => nd.wf() && self.note_of(op@) == Some(nd@),
                None => self.note_of(op@).is_none(),
            },
    {
        match self.map_wallet.position(&op.hash.to_bytes()) {
            Some(t) => {
                let notes: &NoteDataMap = &self.map_wallet.values[t].map_sapling_data;
                match notes.position(op) {
                    Some(i) => {
                        proof {
                            notes.lemma_entry(i as int);
                        }
                        Some(&notes.values[i])
                    },
                    None => None,
                }
            },
            None => None,
        }
    }

    /// Whether the wallet holds the transactions of `before` and then `wtx`.
    pub closed spec fn holds_also(&self, before: &Wallet, wtx: WalletTransaction) -> bool {
        &&& self.map_wallet.values@ == before.map_wallet.values@.push(wtx)
        &&& self.witness_cache_size == before.witness_cache_size
    }

    /// Adds the transaction `wtx_in` with its notes to the wallet, unless the
    /// wallet holds a transaction with that hash, or the transaction comes
    /// from the loading of the wallet. Returns `true`.
    pub fn add_to_wallet(&mut self, wtx_in: WalletTransaction, f_from_load_wallet: bool) -> (out:
        bool)
        requires
            old(self).wf(),
            wtx_in.map_sapling_data.wf(),
        ensures
            final(self).wf(),
            out,
            final(self).cache_size() == old(self).cache_size(),
            final(self).addresses() == old(self).addresses(),
            final(self).spec_seed() == old(self).spec_seed(),
            f_from_load_wallet || old(self).has_tx(wtx_in.tx.hash@) ==> *final(self) == *old(self),
            !f_from_load_wallet && !old(self).has_tx(wtx_in.tx.hash@) ==> {
                &&& final(self).tx_count() == old(self).tx_count() + 1
                &&& final(self).has_tx(wtx_in.tx.hash@)
                &&& forall|t: int|
                    0 <= t < old(self).tx_count() ==> {
                        &&& #[trigger] final(self).owner(t) == old(self).owner(t)
                        &&& final(self).tx(t) == old(self).tx(t)
                        &&& final(self).keys(t) == old(self).keys(t)
                        &&& final(self).notes(t) == old(self).notes(t)
                    }
                &&& final(self).owner(old(self).tx_count() as int) == wtx_in.tx.hash@
                &&& final(self).tx(old(self).tx_count() as int) == wtx_in.tx
                &&& final(self).keys(old(self).tx_count() as int) == wtx_in.map_sapling_data.keys@
                &&& final(self).notes(old(self).tx_count() as int)
                    == wtx_in.map_sapling_data.notes()
                &&& final(self).holds_also(old(self), wtx_in)
            },
    {
        if f_from_load_wallet {
            return true;
        }
        let key: [u8; 32] = wtx_in.tx.hash.to_bytes();
        if !self.map_wallet.contains_key(&key) {
            let ghost before: ByteMap<WalletTransaction> = self.map_wallet;
            self.map_wallet.insert(key, wtx_in);
            proof {
                assert(self.map_wallet.values@ =~= before.values@.push(wtx_in)) by {
                    let n: int = before.keys@.len() as int;
                    self.map_wallet.lemma_entry(n);
                    assert(self.map_wallet.values@.len() == n + 1);
                    assert forall|t: int| 0 <= t < n implies self.map_wallet.values@[t]
                        == before.values@[t] by {
                        self.map_wallet.lemma_entry(t);
                        before.lemma_entry(t);
                    }
                }
            }
        }
        true
    }

    /// Adds `tx` to the wallet if it brings notes of the wallet:
    /// `sapling_note_data` holds the notes of the outputs of `tx` that belong
    /// to the wallet. A transaction that the wallet holds is left as it is.
    /// Returns `false` where the wallet holds the transaction and `f_update`
    /// is not set, and `true` otherwise.
    pub fn add_to_wallet_if_invloving_me(
        &mut self,
        tx: &Transaction,
        block: &Block,
        f_update: bool,
        sapling_note_data: NoteDataMap,
    ) -> (out: bool)
        requires
            old(self).wf(),
            sapling_note_data.wf(),
        ensures
            final(self).wf(),
            out == !(old(self).has_tx(tx.hash@) && !f_update),
            final(self).cache_size() == old(self).cache_size(),
            final(self).addresses() == old(self).addresses(),
            final(self).spec_seed() == old(self).spec_seed(),
            old(self).has_tx(tx.hash@) || sapling_note_data.keys@.len() == 0 ==> *final(self)
                == *old(self),
            !old(self).has_tx(tx.hash@) && sapling_note_data.keys@.len() > 0 ==> {
                &&& final(self).tx_count() == old(self).tx_count() + 1
                &&& final(self).has_tx(tx.hash@)
                &&& forall|t: int|
                    0 <= t < old(self).tx_count() ==> {
                        &&& #[trigger] final(self).owner(t) == old(self).owner(t)
                        &&& final(self).tx(t) == old(self).tx(t)
                        &&& final(self).keys(t) == old(self).keys(t)
                        &&& final(self).notes(t) == old(self).notes(t)
                    }
                &&& final(self).owner(old(self).tx_count() as int) == tx.hash@
                &&& final(self).tx(old(self).tx_count() as int).same_as(tx)
                &&& final(self).keys(old(self).tx_count() as int) == sapling_note_data.keys@
                &&& final(self).notes(old(self).tx_count() as int) == sapling_note_data.notes()
            },
            final(self)@ == model_involve(
                old(self)@,
                tx@,
                key_views(sapling_note_data.keys@),
                sapling_note_data.notes(),
            ),
    {
        proof {
            self.lemma_view();
        }
        let f_existed: bool = self.contains_tx(&tx.hash);
        if f_existed && !f_update {
            return false;
        }
        if f_existed || sapling_note_data.len() > 0 {
            let mut wtx: WalletTransaction = WalletTransaction::new(tx.duplicate());
            if sapling_note_data.len() > 0 {
                wtx.map_sapling_data = sapling_note_data;
            }
            let added: bool = self.add_to_wallet(wtx, false);
            proof {
                if !f_existed {
                    self.lemma_pushed(old(self), wtx);
                }
            }
            return added;
        }
        true
    }

    /// A wallet that holds the transactions of `before` and then `wtx` has the
    /// model of `before` with the model of `wtx` pushed.
    proof fn lemma_pushed(&self, before: &Wallet, wtx: WalletTransaction)
        requires
            self.map_wallet.values@ == before.map_wallet.values@.push(wtx),
            self.witness_cache_size == before.witness_cache_size,
        ensures
            self@ == (WalletModel {
                txs: before@.txs.push(
                    TxModel {
                        tx: wtx.tx@,
                        keys: key_views(wtx.map_sapling_data.keys@),
                        notes: wtx.map_sapling_data.notes(),
                    },
                ),
                ..before@
            }),
    {
        assert(self@.txs =~= before@.txs.push(
            TxModel {
                tx: wtx.tx@,
                keys: key_views(wtx.map_sapling_data.keys@),
                notes: wtx.map_sapling_data.notes(),
            },
        ));
    }

    /// The newest witness of the note of each of the outputs `notes`, and
    /// the root that they give. A note that the wallet does not hold, or
    /// that has no witness, gives none. Where two witnesses give different
    /// roots, the wallet is out of step with itself, and that is the error.
    pub fn get_sapling_note_witnesses(&self, notes: Vec<&SaplingOutPoint>) -> (out: Result<
        (Vec<Option<&SaplingWitness>>, Option<FrHash>),
        WalletError,
    >)
        requires
            self.wf(),
        ensures
            out.is_ok() == roots_agree(self.fronts_of(notes@)),
            out matches Err(e) ==> e == WalletError::WitnessRootMismatch,
            out matches Ok((witnesses, rt)) ==> {
                &&& witnesses@.len() == notes@.len()
                &&& forall|k: int|
                    0 <= k < notes@.len() ==> witness_option_view(#[trigger] witnesses@[k])
                        == self.fronts_of(notes@)[k]
                &&& match rt {
                    Some(r) => first_root(self.fronts_of(notes@)) == Some(r@),
                    None => first_root(self.fronts_of(notes@)).is_none(),
                }
            },
    {
        let ghost fronts: Seq<Option<WitnessView>> = self.fronts_of(notes@);
        let mut rt: Option<FrHash> = None;
        let mut witnesses: Vec<Option<&SaplingWitness>> = Vec::new();
        let mut k: usize = 0;
        assert(fronts.take(0) =~= Seq::<Option<WitnessView>>::empty());
        while k < notes.len()
            invariant
                self.wf(),
                fronts == self.fronts_of(notes@),
                k <= notes@.len(),
                witnesses@.len() == k,
                forall|a: int|
                    0 <= a < k ==> witness_option_view(#[trigger] witnesses@[a]) == fronts[a],
                match rt {
                    Some(r) => first_root(fronts.take(k as int)) == Some(r@),
                    None => first_root(fronts.take(k as int)).is_none(),
                },
                forall|a: int|
                    0 <= a < k ==> (#[trigger] fronts[a] matches Some(w) ==> rt matches Some(r)
                        && witness_root(w) == r@),
            decreases notes@.len() - k,
        {
            let found: Option<&SaplingWitness> = match self.get_note(notes[k]) {
                Some(nd) => nd.front(),
                None => None,
            };
            proof {
                assert(fronts.take(k + 1).drop_last() =~= fronts.take(k as int));
                assert(fronts.take(k + 1).last() == fronts[k as int]);
                assert(witness_option_view(found) == fronts[k as int]);
            }
            match found {
                Some(witness) => {
                    let r: FrHash = witness.root();
                    match rt {
                        None => {
                            proof {
                                assert forall|a: int| 0 <= a < k implies (
                                #[trigger] fronts[a]).is_none() by {}
                            }
                            rt = Some(r);
                        },
                        Some(root) => {
                            if !(root == r) {
                                proof {
                                    lemma_first_root_some(fronts.take(k as int));
                                    let b: int = choose|b: int|
                                        0 <= b < k && (#[trigger] fronts.take(k as int)[b]).is_some();
                                    assert(fronts[b].is_some());
                                    assert(fronts[k as int].is_some());
                                }
                                return Err(WalletError::WitnessRootMismatch);
                            }
                        },
                    }
                },
                None => {},
            }
            witnesses.push(found);
            k = k + 1;
        }
        proof {
            assert(fronts.take(k as int) =~= fronts);
        }
        Ok((witnesses, rt))
    }
}

/// Where the first root is there, a witness is.
pub proof fn lemma_first_root_some(fronts: Seq<Option<WitnessView>>)
    requires
        first_root(fronts).is_some(),
    ensures
        exists|b: int| 0 <= b < fronts.len() && (#[trigger] fronts[b]).is_some(),
    decreases fronts.len(),
{
    if fronts.len() > 0 {
        if first_root(fronts.drop_last()).is_some() {
            lemma_first_root_some(fronts.drop_last());
            let b: int = choose|b: int|
                0 <= b < fronts.drop_last().len() && (#[trigger] fronts.drop_last()[b]).is_some();
            assert(fronts[b].is_some());
        } else {
            assert(fronts[fronts.len() - 1].is_some());
        }
    }
}

/// One step of the replay keeps a note within the room that is left and
/// within the history that the wallet holds.
pub proof fn lemma_replay_step_keeps(
    n: NoteView,
    owner: Seq<u8>,
    key: OutPointView,
    height: int,
    pre: TreeView,
    earlier: Seq<OutputRef>,
    o: OutputRef,
    total: nat,
    cache_size: nat,
)
    requires
        earlier.len() < total,
        pre.leaves.len() + total <= pow2(pre.depth),
        has_room(n, height, (total - earlier.len()) as nat),
        n.height < height ==> n.witnesses.len() <= cache_size,
        cache_size >= 1,
    ensures
        has_room(
            replay_step(n, owner, key, height, pre, earlier, o),
            height,
            (total - earlier.len() - 1) as nat,
        ),
        replay_step(n, owner, key, height, pre, earlier, o).height < height ==> replay_step(
            n,
            owner,
            key,
            height,
            pre,
            earlier,
            o,
        ).witnesses.len() <= cache_size,
{
}

/// The replay of a block leaves a note alone that is not being advanced, and
/// otherwise leaves it below the height of the block, with as many witnesses
/// as it had, or with one.
pub proof fn lemma_replayed_shape(
    n: NoteView,
    owner: Seq<u8>,
    key: OutPointView,
    height: int,
    pre: TreeView,
    outs: Seq<OutputRef>,
)
    ensures
        n.height >= height ==> replayed(n, owner, key, height, pre, outs) == n,
        n.height < height ==> replayed(n, owner, key, height, pre, outs).height < height,
        replayed(n, owner, key, height, pre, outs).witnesses.len() == n.witnesses.len()
            || replayed(n, owner, key, height, pre, outs).witnesses.len() == 1,
        replayed(n, owner, key, height, pre, outs).height == n.height || replayed(
            n,
            owner,
            key,
            height,
            pre,
            outs,
        ).height == height - 1,
    decreases outs.len(),
{
    if outs.len() > 0 {
        lemma_replayed_shape(n, owner, key, height, pre, outs.drop_last());
    }
}

/// The replay of a block in which no output is the note's own only lets the
/// newest witness of the note take in the leaves: the height, the number of
/// witnesses, and every older witness stay.
pub proof fn lemma_replayed_foreign(
    n: NoteView,
    owner: Seq<u8>,
    key: OutPointView,
    height: int,
    pre: TreeView,
    outs: Seq<OutputRef>,
)
    requires
        forall|k: int| 0 <= k < outs.len() ==> !is_output(owner, key, #[trigger] outs[k]),
    ensures
        replayed(n, owner, key, height, pre, outs).height == n.height,
        replayed(n, owner, key, height, pre, outs).witnesses.len() == n.witnesses.len(),
        forall|i: int|
            1 <= i < n.witnesses.len() ==> #[trigger] replayed(
                n,
                owner,
                key,
                height,
                pre,
                outs,
            ).witnesses[i] == n.witnesses[i],
    decreases outs.len(),
{
    if outs.len() > 0 {
        let rest: Seq<OutputRef> = outs.drop_last();
        assert forall|k: int| 0 <= k < rest.len() implies !is_output(
            owner,
            key,
            #[trigger] rest[k],
        ) by {
            assert(rest[k] == outs[k]);
        }
        lemma_replayed_foreign(n, owner, key, height, pre, rest);
        assert(!is_output(owner, key, outs[outs.len() - 1]));
    }
}

/// After a block was connected at `height`, a note that was not ahead of the
/// block is at that height, and it holds no more witnesses than the bound
/// allows, if it held no more before.
pub proof fn lemma_connected_bounds(
    n: NoteView,
    owner: Seq<u8>,
    key: OutPointView,
    height: int,
    pre: TreeView,
    outs: Seq<OutputRef>,
)
    requires
        n.witnesses.len() <= WITNESS_CACHE_SIZE,
    ensures
        connected(n, owner, key, height, pre, outs).witnesses.len() <= WITNESS_CACHE_SIZE,
        n.height <= height ==> connected(n, owner, key, height, pre, outs).height == height,
{
    lemma_replayed_shape(copied(n, height), owner, key, height, pre, outs);
}

/// The tree after a block does not depend on the notes that the wallet
/// tracks. Of two wallets whose notes are in order and whose witnesses have
/// room for the outputs of the block, each leaves the same tree behind, and
/// where the tree has room for the outputs, its root is the root over the
/// leaves from before the block and then the note commitments of the block.
pub proof fn lemma_tree_independent_of_notes(
    notes_a: Seq<Seq<NoteView>>,
    notes_b: Seq<Seq<NoteView>>,
    height: int,
    pre: TreeView,
    outs: Seq<OutputRef>,
)
    requires
        wallet_first_error(
            notes_a,
            |n: NoteView| note_copy_check(n, height, WITNESS_CACHE_SIZE as nat),
        ).is_ok(),
        wallet_first_error(
            notes_b,
            |n: NoteView| note_copy_check(n, height, WITNESS_CACHE_SIZE as nat),
        ).is_ok(),
        all_have_room(notes_a, height, outs.len()),
        all_have_room(notes_b, height, outs.len()),
    ensures
        connect_check(notes_a, height, pre, outs) == connect_check(notes_b, height, pre, outs),
        tree_after_connect(notes_a, height, pre, outs) == tree_after_connect(
            notes_b,
            height,
            pre,
            outs,
        ),
        pre.leaves.len() + outs.len() <= pow2(pre.depth) ==> merkle_root(
            tree_after_connect(notes_a, height, pre, outs).leaves,
            tree_after_connect(notes_a, height, pre, outs).depth,
        ) == merkle_root(pre.leaves + commitments(outs), pre.depth),
{
}

/// The newest witness of a note, if it has one.
pub open spec fn newest(n: NoteView) -> Option<WitnessView> {
    if n.witnesses.len() > 0 {
        Some(n.witnesses[0])
    } else {
        None
    }
}

/// Connecting a block at `height` and disconnecting it again brings back the
/// height and the newest witness of a note that was advanced up to the block
/// below, unless the note had witnesses and yet an output of the block is
/// its own.
pub proof fn lemma_connect_then_disconnect_note(
    n: NoteView,
    owner: Seq<u8>,
    key: OutPointView,
    height: int,
    pre: TreeView,
    outs: Seq<OutputRef>,
)
    requires
        height >= 0,
        n.height == height - 1,
        n.witnesses.len() == 0 || forall|k: int|
            0 <= k < outs.len() ==> !is_output(owner, key, #[trigger] outs[k]),
    ensures
        decremented(connected(n, owner, key, height, pre, outs), height).height == n.height,
        newest(decremented(connected(n, owner, key, height, pre, outs), height)) == newest(n),
{
    let c: NoteView = copied(n, height);
    lemma_replayed_shape(c, owner, key, height, pre, outs);
    if n.witnesses.len() > 0 {
        lemma_replayed_foreign(c, owner, key, height, pre, outs);
        let r: NoteView = replayed(c, owner, key, height, pre, outs);
        assert(c.witnesses.len() >= 2);
        assert(r.witnesses[1] == c.witnesses[1]);
        assert(c.witnesses[1] == n.witnesses[0]);
    }
}

/// The replay of a block keeps the newest witness of a note in step with
/// the tree: if it was a witness in the tree before the block, it is one in
/// the tree with the outputs replayed so far.
pub proof fn lemma_replayed_in_step(
    n: NoteView,
    owner: Seq<u8>,
    key: OutPointView,
    height: int,
    pre: TreeView,
    outs: Seq<OutputRef>,
)
    requires
        n.height < height,
        n.witnesses.len() > 0 ==> n.witnesses[0].leaves == pre.leaves && n.witnesses[0].depth
            == pre.depth,
    ensures
        replayed(n, owner, key, height, pre, outs).height < height,
        replayed(n, owner, key, height, pre, outs).witnesses.len() > 0 ==> replayed(
            n,
            owner,
            key,
            height,
            pre,
            outs,
        ).witnesses[0].leaves == pre.leaves + commitments(outs) && replayed(
            n,
            owner,
            key,
            height,
            pre,
            outs,
        ).witnesses[0].depth == pre.depth,
    decreases outs.len(),
{
    if outs.len() > 0 {
        let rest: Seq<OutputRef> = outs.drop_last();
        lemma_replayed_in_step(n, owner, key, height, pre, rest);
        assert(rest.push(outs.last()) =~= outs);
        assert(pre.leaves + commitments(rest) + seq![outs.last().cm] =~= pre.leaves + commitments(
            outs,
        ));
    } else {
        assert(pre.leaves + commitments(outs) =~= pre.leaves);
    }
}

/// After a block was connected, the newest witness of a note that was
/// advanced through it gives the root of the tree after the block, if it was
/// in step with the tree before the block.
pub proof fn lemma_connected_in_step(
    n: NoteView,
    owner: Seq<u8>,
    key: OutPointView,
    height: int,
    pre: TreeView,
    outs: Seq<OutputRef>,
)
    requires
        n.height < height,
        n.witnesses.len() > 0 ==> n.witnesses[0].leaves == pre.leaves && n.witnesses[0].depth
            == pre.depth,
    ensures
        newest(connected(n, owner, key, height, pre, outs)) matches Some(w) ==> witness_root(w)
            == merkle_root(pre.leaves + commitments(outs), pre.depth),
{
    lemma_replayed_in_step(copied(n, height), owner, key, height, pre, outs);
}

} // verus!
