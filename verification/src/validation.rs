//! Connecting and disconnecting blocks: the coin view takes in the nullifiers
//! and the note commitments of a block, and the wallet follows with the same
//! leaves in the same order.

use crate::block::{Block, BlockIndex, ValidationState};
use crate::coins::{
    cache_get_anchor, cache_pop_anchor, cache_push_anchor, cache_set_nullifiers, keyed_by_root,
    lemma_set_nullifiers, option_model, option_view, tree_root, CacheView, CoinViewCache,
    CoinsView,
};
use crate::hash::Uint256;
use crate::notes::WalletError;
use crate::proofs::ProofVerifier;
use crate::transaction::Transaction;
use crate::tree::{SaplingMerkleTree, TreeFull, TreeView, TREE_DEPTH};
use crate::wallet::{
    block_outputs, commitments, connect_check, connected, count_outputs, disconnect_check,
    lemma_block_outputs_prefix, tx_outputs, OutputRef, Wallet,
};
use vstd::arithmetic::power2::pow2;
use vstd::prelude::*;

verus! {

/// Why a block could not be connected or disconnected.
#[derive(Clone, Copy, Debug, PartialEq, Eq, Structural)]
pub enum ChainError {
    /// The coin view holds no tree for its best anchor.
    MissingAnchor,
    /// The tree has no room for the note commitments of the block.
    TreeFull,
    /// The block did not pass the checks that do not depend on the chain.
    Rejected,
    /// The coin view followed the block, but the wallet could not.
    Wallet(WalletError),
}

/// The model of the empty tree of the full depth.
pub open spec fn empty_tree() -> TreeView {
    TreeView { leaves: Seq::empty(), depth: TREE_DEPTH as nat }
}

/// The view after the tree at its best anchor was looked up, and that tree;
/// where there is no best anchor yet, the tree is the empty tree.
pub open spec fn resolve_best_tree(c: CacheView) -> (CacheView, Option<TreeView>) {
    match c.best_anchor {
        None => (c, Some(empty_tree())),
        Some(rt) => cache_get_anchor(c, rt),
    }
}

/// The view after the nullifiers of all of `txs` were marked as spent, or as
/// unspent.
pub open spec fn spend_all(c: CacheView, txs: Seq<Transaction>, spent: bool) -> CacheView
    decreases txs.len(),
{
    if txs.len() == 0 {
        c
    } else {
        cache_set_nullifiers(spend_all(c, txs.drop_last(), spent), txs.last().nullifiers(), spent)
    }
}

/// The view after a block with the transactions `txs` was connected on top
/// of the tree `pre`, and whether that could be done: the nullifiers of the
/// block are spent, the tree with the commitments of the block is the best
/// anchor, and the block is the best block. Where the tree has no room, the
/// view stays as it is.
pub open spec fn connect_from(
    c: CacheView,
    pre: TreeView,
    txs: Seq<Transaction>,
    block_hash: Seq<u8>,
) -> (CacheView, Result<(), ChainError>) {
    let outs = block_outputs(txs);
    if pre.leaves.len() + outs.len() > pow2(pre.depth) {
        (c, Err(ChainError::TreeFull))
    } else {
        let spent = spend_all(c, txs, true);
        let pushed = cache_push_anchor(
            spent,
            TreeView { leaves: pre.leaves + commitments(outs), depth: pre.depth },
        );
        (CacheView { best_block: Some(block_hash), ..pushed }, Ok(()))
    }
}

/// The view after a block with the transactions `txs` was connected, and
/// whether that could be done.
pub open spec fn connect_block_view(c: CacheView, txs: Seq<Transaction>, block_hash: Seq<u8>) -> (
    CacheView,
    Result<(), ChainError>,
) {
    let (looked, pre) = resolve_best_tree(c);
    match pre {
        None => (looked, Err(ChainError::MissingAnchor)),
        Some(tree) => connect_from(looked, tree, txs, block_hash),
    }
}

/// The hash that stands for the block below the first block.
pub open spec fn null_hash() -> Seq<u8> {
    Seq::new(32, |i: int| 0u8)
}

/// The view after a block with the transactions `txs` was disconnected: the
/// nullifiers of the block are unspent, and the anchor and the block below
/// are the best.
pub open spec fn disconnect_block_view(
    c: CacheView,
    txs: Seq<Transaction>,
    prev_root: Option<Seq<u8>>,
    prev_hash: Option<Seq<u8>>,
) -> CacheView {
    let unspent = spend_all(c, txs, false);
    let popped = cache_pop_anchor(unspent, prev_root);
    CacheView {
        best_block: Some(
            match prev_hash {
                Some(h) => h,
                None => null_hash(),
            },
        ),
        ..popped
    }
}

/// Marking nullifiers changes nothing but the nullifier entries.
pub proof fn lemma_spend_all(c: CacheView, txs: Seq<Transaction>, spent: bool)
    ensures
        spend_all(c, txs, spent).best_anchor == c.best_anchor,
        spend_all(c, txs, spent).anchors == c.anchors,
        spend_all(c, txs, spent).best_block == c.best_block,
        spend_all(c, txs, spent).base == c.base,
    decreases txs.len(),
{
    if txs.len() > 0 {
        lemma_spend_all(c, txs.drop_last(), spent);
        lemma_set_nullifiers(spend_all(c, txs.drop_last(), spent), txs.last().nullifiers(), spent);
    }
}

/// Connecting a block and disconnecting it again brings back the best anchor
/// of the view, and the root of the tree at the best anchor, in a view that
/// holds every tree under its root.
pub proof fn lemma_connect_then_disconnect_view(
    c: CacheView,
    txs: Seq<Transaction>,
    block_hash: Seq<u8>,
    prev_hash: Option<Seq<u8>>,
)
    requires
        keyed_by_root(c),
        connect_block_view(c, txs, block_hash).1.is_ok(),
    ensures
        ({
            let connected = connect_block_view(c, txs, block_hash).0;
            let undone = disconnect_block_view(connected, txs, c.best_anchor, prev_hash);
            &&& undone.best_anchor == c.best_anchor
            &&& resolve_best_tree(c).1.is_some()
            &&& resolve_best_tree(undone).1.is_some()
            &&& tree_root(resolve_best_tree(undone).1.unwrap()) == tree_root(
                resolve_best_tree(c).1.unwrap(),
            )
        }),
{
    let (looked, pre) = resolve_best_tree(c);
    let tree: TreeView = pre.unwrap();
    let spent = spend_all(looked, txs, true);
    lemma_spend_all(looked, txs, true);
    let connected = connect_block_view(c, txs, block_hash).0;
    lemma_spend_all(connected, txs, false);
}

/// Connecting a block to a coin view and disconnecting it again brings back
/// the best anchor of the view, and the root of the tree at the best anchor.
pub proof fn lemma_connect_then_disconnect(
    view: &CoinViewCache,
    txs: Seq<Transaction>,
    block_hash: Seq<u8>,
    prev_hash: Option<Seq<u8>>,
)
    requires
        view.wf(),
        connect_block_view(view@, txs, block_hash).1.is_ok(),
    ensures
        ({
            let connected = connect_block_view(view@, txs, block_hash).0;
            let undone = disconnect_block_view(connected, txs, view@.best_anchor, prev_hash);
            &&& undone.best_anchor == view@.best_anchor
            &&& resolve_best_tree(view@).1.is_some()
            &&& resolve_best_tree(undone).1.is_some()
            &&& tree_root(resolve_best_tree(undone).1.unwrap()) == tree_root(
                resolve_best_tree(view@).1.unwrap(),
            )
        }),
{
    view.lemma_keyed_by_root();
    lemma_connect_then_disconnect_view(view@, txs, block_hash, prev_hash);
}

/// Marks the nullifiers that `tx` reveals as spent in `inputs`.
pub fn update_coins(tx: &Transaction, inputs: &mut CoinViewCache, height: i32)
    requires
        old(inputs).wf(),
    ensures
        final(inputs).wf(),
        final(inputs)@ == cache_set_nullifiers(old(inputs)@, tx.nullifiers(), true),
{
    inputs.set_nullifiers(tx, true);
}

/// The tree at the best anchor of `view`, or the empty tree where the view
/// has no best anchor yet; `None` where the view holds no tree for its best
/// anchor.
pub fn best_tree(view: &mut CoinViewCache) -> (out: Option<SaplingMerkleTree>)
    requires
        old(view).wf(),
    ensures
        final(view).wf(),
        (final(view)@, option_model(out)) == resolve_best_tree(old(view)@),
        out matches Some(tree) ==> tree.wf(),
{
    match view.get_best_anchor() {
        Some(anchor) => view.get_sapling_anchor_at(anchor),
        None => Some(SaplingMerkleTree::new()),
    }
}

/// Connects `block` to `view` on top of `tree`, the tree before the block:
/// marks the nullifiers of every transaction as spent, appends the note
/// commitments of its outputs to the tree in block order, and makes the tree
/// the best anchor and the block the best block. Returns the tree after the
/// block. Where the tree has no room for the block, nothing is changed.
pub fn connect_block_from(
    block: &Block,
    pindex: &BlockIndex,
    view: &mut CoinViewCache,
    tree: SaplingMerkleTree,
) -> (out: Result<(), ChainError>)
    requires
        old(view).wf(),
        tree.wf(),
    ensures
        final(view).wf(),
        (final(view)@, out) == connect_from(
            old(view)@,
            tree.model(),
            block.vtx@,
            pindex.block_hash@,
        ),
{
    let mut tree: SaplingMerkleTree = tree;
    let ghost pre: TreeView = tree.model();
    let ghost start: CacheView = view@;
    let total: u64 = match count_outputs(block, tree.remaining()) {
        Some(n) => n,
        None => {
            return Err(ChainError::TreeFull);
        },
    };
    proof {
        assert(block.vtx@.take(0) =~= Seq::<Transaction>::empty());
        assert(pre.leaves + commitments(Seq::<OutputRef>::empty()) =~= pre.leaves);
    }
    let mut j: usize = 0;
    while j < block.vtx.len()
        invariant
            view.wf(),
            tree.wf(),
            tree.spec_depth() == pre.depth,
            j <= block.vtx@.len(),
            total == block_outputs(block.vtx@).len(),
            pre.leaves.len() + total <= pow2(pre.depth),
            view@ == spend_all(start, block.vtx@.take(j as int), true),
            tree@ == pre.leaves + commitments(block_outputs(block.vtx@.take(j as int))),
        decreases block.vtx@.len() - j,
    {
        let tx: &Transaction = &block.vtx[j];
        update_coins(tx, view, pindex.n_height);
        let ghost before: Seq<OutputRef> = block_outputs(block.vtx@.take(j as int));
        proof {
            assert(block.vtx@.take(j + 1).drop_last() =~= block.vtx@.take(j as int));
            lemma_block_outputs_prefix(block.vtx@, j + 1);
            assert(tx_outputs(*tx).take(0) =~= Seq::<OutputRef>::empty());
            assert(before + Seq::<OutputRef>::empty() =~= before);
        }
        let mut k: usize = 0;
        while k < tx.v_shielded_output.len()
            invariant
                tree.wf(),
                tree.spec_depth() == pre.depth,
                k <= tx.v_shielded_output@.len(),
                before.len() + tx.v_shielded_output@.len() <= total,
                pre.leaves.len() + total <= pow2(pre.depth),
                tree@ == pre.leaves + commitments(before + tx_outputs(*tx).take(k as int)),
            decreases tx.v_shielded_output@.len() - k,
        {
            let ghost earlier: Seq<OutputRef> = before + tx_outputs(*tx).take(k as int);
            let grown: Result<(), TreeFull> = tree.append(tx.v_shielded_output[k].cmu);
            proof {
                let o: OutputRef = tx_outputs(*tx)[k as int];
                assert(tx_outputs(*tx).take(k + 1) =~= tx_outputs(*tx).take(k as int).push(o));
                assert(before + tx_outputs(*tx).take(k + 1) =~= earlier.push(o));
                assert(commitments(earlier.push(o)) =~= commitments(earlier).push(o.cm));
                assert(tree@ =~= pre.leaves + commitments(before + tx_outputs(*tx).take(k + 1)));
            }
            k = k + 1;
        }
        proof {
            assert(tx_outputs(*tx).take(k as int) =~= tx_outputs(*tx));
        }
        j = j + 1;
    }
    proof {
        assert(block.vtx@.take(j as int) =~= block.vtx@);
    }
    view.push_anchor(tree);
    view.set_best_block(pindex.get_block_hash());
    Ok(())
}

/// Connects `block` to `view`: looks up the tree at the best anchor, an
/// empty tree where there is none yet, and connects the block on top of it.
/// The view is updated whether or not `f_just_check` is set: a caller that
/// only checks hands in a view that it throws away.
pub fn connect_block(
    block: &Block,
    state: &ValidationState,
    pindex: &BlockIndex,
    view: &mut CoinViewCache,
    f_just_check: bool,
) -> (out: Result<(), ChainError>)
    requires
        old(view).wf(),
    ensures
        final(view).wf(),
        (final(view)@, out) == connect_block_view(old(view)@, block.vtx@, pindex.block_hash@),
{
    match best_tree(view) {
        Some(tree) => connect_block_from(block, pindex, view, tree),
        None => Err(ChainError::MissingAnchor),
    }
}

/// Disconnects `block` from `view`: marks the nullifiers of every
/// transaction as unspent, and makes the anchor and the block below the best.
pub fn disconnect_block(
    block: &Block,
    state: &ValidationState,
    pindex: &BlockIndex,
    view: &mut CoinViewCache,
)
    requires
        old(view).wf(),
    ensures
        final(view).wf(),
        final(view)@ == disconnect_block_view(
            old(view)@,
            block.vtx@,
            option_view(pindex.prev_final_sapling_root),
            match pindex.prev_block_hash {
                Some(h) => Some(h@),
                None => None,
            },
        ),
{
    let ghost start: CacheView = view@;
    let mut j: usize = 0;
    assert(block.vtx@.take(0) =~= Seq::<Transaction>::empty());
    while j < block.vtx.len()
        invariant
            view.wf(),
            j <= block.vtx@.len(),
            view@ == spend_all(start, block.vtx@.take(j as int), false),
        decreases block.vtx@.len() - j,
    {
        view.set_nullifiers(&block.vtx[j], false);
        proof {
            assert(block.vtx@.take(j + 1).drop_last() =~= block.vtx@.take(j as int));
        }
        j = j + 1;
    }
    assert(block.vtx@.take(j as int) =~= block.vtx@);
    view.pop_anchor(pindex.prev_final_sapling_root);
    match pindex.prev_block_hash {
        Some(h) => view.set_best_block(h),
        None => view.set_best_block(Uint256::zero()),
    }
}

/// What became of the wallet when a block was connected, given what the coin
/// view made of it: the wallet is told of the block only where the view took
/// it.
pub open spec fn tip_result(
    view_result: Result<(), ChainError>,
    wallet_result: Result<(), WalletError>,
) -> Result<(), ChainError> {
    match view_result {
        Err(e) => Err(e),
        Ok(_) => match wallet_result {
            Err(e) => Err(ChainError::Wallet(e)),
            Ok(_) => Ok(()),
        },
    }
}

/// Makes `pblock` the tip: connects it to the coin view, and then lets the
/// wallet advance its witnesses through the same leaves, from the tree before
/// the block. Where the view cannot take the block, the wallet is not told.
/// Where the wallet cannot follow, the view has taken the block all the same.
pub fn connect_tip(
    pcoins_tip: &mut CoinViewCache,
    wallet: &mut Wallet,
    state: &ValidationState,
    pindex_new: &BlockIndex,
    pblock: &Block,
) -> (out: Result<(), ChainError>)
    requires
        old(pcoins_tip).wf(),
        old(wallet).wf(),
    ensures
        final(pcoins_tip).wf(),
        final(wallet).wf(),
        final(wallet).same_shape(old(wallet)),
        final(pcoins_tip)@ == connect_block_view(
            old(pcoins_tip)@,
            pblock.vtx@,
            pindex_new.block_hash@,
        ).0,
        connect_block_view(old(pcoins_tip)@, pblock.vtx@, pindex_new.block_hash@).1.is_err() ==> out
            == connect_block_view(old(pcoins_tip)@, pblock.vtx@, pindex_new.block_hash@).1
            && *final(wallet) == *old(wallet),
        connect_block_view(old(pcoins_tip)@, pblock.vtx@, pindex_new.block_hash@).1.is_ok() ==> {
            let pre = resolve_best_tree(old(pcoins_tip)@).1.unwrap();
            let followed = connect_check(
                old(wallet).all_notes(),
                pindex_new.n_height as int,
                pre,
                block_outputs(pblock.vtx@),
            );
            &&& out == tip_result(Ok(()), followed)
            &&& followed.is_err() ==> *final(wallet) == *old(wallet)
            &&& followed.is_ok() ==> forall|t: int, i: int|
                0 <= t < old(wallet).tx_count() && 0 <= i < old(wallet).notes(t).len()
                    ==> #[trigger] final(wallet).note(t, i) == connected(
                    old(wallet).note(t, i),
                    old(wallet).owner(t),
                    old(wallet).keys(t)[i]@,
                    pindex_new.n_height as int,
                    pre,
                    block_outputs(pblock.vtx@),
                )
        },
{
    let mut old_sapling_tree: SaplingMerkleTree = match best_tree(pcoins_tip) {
        Some(tree) => tree,
        None => {
            proof {
                wallet.lemma_same_shape_self();
            }
            return Err(ChainError::MissingAnchor);
        },
    };
    let connected: Result<(), ChainError> = connect_block_from(
        pblock,
        pindex_new,
        pcoins_tip,
        old_sapling_tree.clone(),
    );
    match connected {
        Err(e) => {
            proof {
                wallet.lemma_same_shape_self();
            }
            Err(e)
        },
        Ok(_) => {
            match wallet.chain_tip(pindex_new, pblock, &mut old_sapling_tree, true) {
                Ok(_) => Ok(()),
                Err(e) => Err(ChainError::Wallet(e)),
            }
        },
    }
}

/// Takes the tip `pblock` back: disconnects it from the coin view, and then
/// lets the wallet take its witnesses back. Where the wallet cannot, the view
/// has dropped the block all the same.
pub fn disconnect_tip(
    pcoins_tip: &mut CoinViewCache,
    wallet: &mut Wallet,
    state: &ValidationState,
    pindex: &BlockIndex,
    pblock: &Block,
) -> (out: Result<(), ChainError>)
    requires
        old(pcoins_tip).wf(),
        old(wallet).wf(),
    ensures
        final(pcoins_tip).wf(),
        final(wallet).wf(),
        final(wallet).same_shape(old(wallet)),
        final(pcoins_tip)@ == disconnect_block_view(
            old(pcoins_tip)@,
            pblock.vtx@,
            option_view(pindex.prev_final_sapling_root),
            match pindex.prev_block_hash {
                Some(h) => Some(h@),
                None => None,
            },
        ),
        out == tip_result(
            Ok(()),
            disconnect_check(
                old(wallet).all_notes(),
                old(wallet).cache_size(),
                pindex.n_height as int,
            ),
        ),
        out.is_err() ==> *final(wallet) == *old(wallet),
        out.is_ok() ==> final(wallet).cache_size() == old(wallet).cache_size() - 1,
        out.is_ok() ==> forall|t: int, i: int|
            0 <= t < old(wallet).tx_count() && 0 <= i < old(wallet).notes(t).len()
                ==> #[trigger] final(wallet).note(t, i) == crate::notes::decremented(
                old(wallet).note(t, i),
                pindex.n_height as int,
            ),
{
    disconnect_block(pblock, state, pindex, pcoins_tip);
    match wallet.decrement_note_witnesses(pindex) {
        Ok(_) => Ok(()),
        Err(e) => Err(ChainError::Wallet(e)),
    }
}

/// Whether no value occurs twice in `s`.
pub open spec fn no_duplicates(s: Seq<Seq<u8>>) -> bool {
    forall|i: int, j: int| 0 <= i < j < s.len() ==> s[i] != s[j]
}

/// Whether `tx` passes the checks that need no proof verification: no
/// nullifier occurs twice among its shielded spends, and a coinbase
/// transaction has neither shielded spends nor shielded outputs.
pub open spec fn transaction_is_sane(tx: Transaction) -> bool {
    &&& no_duplicates(tx.nullifiers())
    &&& tx.coinbase ==> tx.v_shielded_spend@.len() == 0 && tx.v_shielded_output@.len() == 0
}

/// Checks `tx` without verifying its proofs.
pub fn check_transaction_without_proof_verification(tx: &Transaction, state: &ValidationState) -> (out:
    bool)
    ensures
        out == transaction_is_sane(*tx),
{
    let ghost nfs: Seq<Seq<u8>> = tx.nullifiers();
    let mut j: usize = 0;
    while j < tx.v_shielded_spend.len()
        invariant
            nfs == tx.nullifiers(),
            j <= tx.v_shielded_spend@.len(),
            forall|a: int, b: int| 0 <= a < b < j ==> nfs[a] != nfs[b],
        decreases tx.v_shielded_spend@.len() - j,
    {
        let mut i: usize = 0;
        while i < j
            invariant
                nfs == tx.nullifiers(),
                j < tx.v_shielded_spend@.len(),
                i <= j,
                forall|a: int| 0 <= a < i ==> nfs[a] != nfs[j as int],
            decreases j - i,
        {
            if tx.v_shielded_spend[i].nullifier == tx.v_shielded_spend[j].nullifier {
                assert(nfs[i as int] == nfs[j as int]);
                return false;
            }
            i = i + 1;
        }
        j = j + 1;
    }
    if tx.is_coin_base() {
        if tx.v_shielded_spend.len() > 0 {
            return false;
        }
        if tx.v_shielded_output.len() > 0 {
            return false;
        }
    }
    true
}

/// Checks `tx` as far as that needs neither the chain nor its proofs.
pub fn check_transaction(tx: &Transaction, state: &ValidationState) -> (out: bool)
    ensures
        out == transaction_is_sane(*tx),
{
    if !check_transaction_without_proof_verification(tx, state) {
        return false;
    }
    true
}

/// Whether every transaction of `txs` is sane.
pub open spec fn all_sane(txs: Seq<Transaction>) -> bool {
    forall|j: int| 0 <= j < txs.len() ==> transaction_is_sane(#[trigger] txs[j])
}

/// Checks the header of `block`. Nothing of a header bears on the shielded
/// pool, so every header passes.
pub fn check_block_header(block: &Block, state: &ValidationState, f_check_pow: bool) -> (out: bool)
    ensures
        out,
{
    true
}

/// Checks `block` as a whole, without its transactions: its header has to
/// pass. No proof is verified for that, so `verifier` is not asked.
pub fn check_block(
    block: &Block,
    state: &ValidationState,
    verifier: &ProofVerifier,
    f_check_pow: bool,
    f_check_merkle_root: bool,
) -> (out: bool)
    ensures
        out,
{
    if !check_block_header(block, state, f_check_pow) {
        return false;
    }
    true
}

/// Accepts the header of `block`: it has to pass the header check.
pub fn accept_block_header(block: &Block, state: &ValidationState) -> (out: bool)
    ensures
        out,
{
    check_block_header(block, state, true)
}

/// Accepts `block`: its header has to be accepted, and each of its
/// transactions has to pass the checks that need neither the chain nor
/// proofs.
pub fn accept_block(block: &Block, state: &ValidationState) -> (out: bool)
    ensures
        out == all_sane(block.vtx@),
{
    if !accept_block_header(block, state) {
        return false;
    }
    let mut j: usize = 0;
    while j < block.vtx.len()
        invariant
            j <= block.vtx@.len(),
            forall|a: int| 0 <= a < j ==> transaction_is_sane(#[trigger] block.vtx@[a]),
        decreases block.vtx@.len() - j,
    {
        if !check_transaction(&block.vtx[j], state) {
            return false;
        }
        j = j + 1;
    }
    true
}

/// One step towards the best chain: makes `pblock` the tip.
pub fn active_best_chain_step(
    pcoins_tip: &mut CoinViewCache,
    wallet: &mut Wallet,
    state: &ValidationState,
    pindex_most_work: &BlockIndex,
    pblock: &Block,
) -> (out: Result<(), ChainError>)
    requires
        old(pcoins_tip).wf(),
        old(wallet).wf(),
    ensures
        final(pcoins_tip).wf(),
        final(wallet).wf(),
        final(wallet).same_shape(old(wallet)),
        final(pcoins_tip)@ == connect_block_view(
            old(pcoins_tip)@,
            pblock.vtx@,
            pindex_most_work.block_hash@,
        ).0,
        out == tip_result(
            connect_block_view(old(pcoins_tip)@, pblock.vtx@, pindex_most_work.block_hash@).1,
            connect_check(
                old(wallet).all_notes(),
                pindex_most_work.n_height as int,
                resolve_best_tree(old(pcoins_tip)@).1.unwrap(),
                block_outputs(pblock.vtx@),
            ),
        ),
        out.is_err() ==> *final(wallet) == *old(wallet),
        out.is_ok() ==> forall|t: int, i: int|
            0 <= t < old(wallet).tx_count() && 0 <= i < old(wallet).notes(t).len()
                ==> #[trigger] final(wallet).note(t, i) == connected(
                old(wallet).note(t, i),
                old(wallet).owner(t),
                old(wallet).keys(t)[i]@,
                pindex_most_work.n_height as int,
                resolve_best_tree(old(pcoins_tip)@).1.unwrap(),
                block_outputs(pblock.vtx@),
            ),
{
    connect_tip(pcoins_tip, wallet, state, pindex_most_work, pblock)
}

/// Makes the chain that ends in `pblock` the active one. The block comes right
/// after the tip, so this is one step.
pub fn active_best_chain(
    pcoins_tip: &mut CoinViewCache,
    wallet: &mut Wallet,
    state: &ValidationState,
    pindex: &BlockIndex,
    pblock: &Block,
) -> (out: Result<(), ChainError>)
    requires
        old(pcoins_tip).wf(),
        old(wallet).wf(),
    ensures
        final(pcoins_tip).wf(),
        final(wallet).wf(),
        final(wallet).same_shape(old(wallet)),
        final(pcoins_tip)@ == connect_block_view(
            old(pcoins_tip)@,
            pblock.vtx@,
            pindex.block_hash@,
        ).0,
        out == tip_result(
            connect_block_view(old(pcoins_tip)@, pblock.vtx@, pindex.block_hash@).1,
            connect_check(
                old(wallet).all_notes(),
                pindex.n_height as int,
                resolve_best_tree(old(pcoins_tip)@).1.unwrap(),
                block_outputs(pblock.vtx@),
            ),
        ),
        out.is_err() ==> *final(wallet) == *old(wallet),
        out.is_ok() ==> forall|t: int, i: int|
            0 <= t < old(wallet).tx_count() && 0 <= i < old(wallet).notes(t).len()
                ==> #[trigger] final(wallet).note(t, i) == connected(
                old(wallet).note(t, i),
                old(wallet).owner(t),
                old(wallet).keys(t)[i]@,
                pindex.n_height as int,
                resolve_best_tree(old(pcoins_tip)@).1.unwrap(),
                block_outputs(pblock.vtx@),
            ),
{
    active_best_chain_step(pcoins_tip, wallet, state, pindex, pblock)
}

/// Takes in a new block: where it is accepted, it is made the tip. A block
/// that is not accepted changes nothing.
pub fn process_new_block(
    pcoins_tip: &mut CoinViewCache,
    wallet: &mut Wallet,
    state: &ValidationState,
    pindex: &BlockIndex,
    pblock: &Block,
) -> (out: Result<(), ChainError>)
    requires
        old(pcoins_tip).wf(),
        old(wallet).wf(),
    ensures
        final(pcoins_tip).wf(),
        final(wallet).wf(),
        final(wallet).same_shape(old(wallet)),
        !all_sane(pblock.vtx@) ==> out == Err::<(), ChainError>(ChainError::Rejected)
            && *final(pcoins_tip) == *old(pcoins_tip) && *final(wallet) == *old(wallet),
        all_sane(pblock.vtx@) ==> final(pcoins_tip)@ == connect_block_view(
            old(pcoins_tip)@,
            pblock.vtx@,
            pindex.block_hash@,
        ).0 && out == tip_result(
            connect_block_view(old(pcoins_tip)@, pblock.vtx@, pindex.block_hash@).1,
            connect_check(
                old(wallet).all_notes(),
                pindex.n_height as int,
                resolve_best_tree(old(pcoins_tip)@).1.unwrap(),
                block_outputs(pblock.vtx@),
            ),
        ),
        out.is_err() ==> *final(wallet) == *old(wallet),
        out.is_ok() ==> forall|t: int, i: int|
            0 <= t < old(wallet).tx_count() && 0 <= i < old(wallet).notes(t).len()
                ==> #[trigger] final(wallet).note(t, i) == connected(
                old(wallet).note(t, i),
                old(wallet).owner(t),
                old(wallet).keys(t)[i]@,
                pindex.n_height as int,
                resolve_best_tree(old(pcoins_tip)@).1.unwrap(),
                block_outputs(pblock.vtx@),
            ),
{
    if !accept_block(pblock, state) {
        proof {
            wallet.lemma_same_shape_self();
        }
        return Err(ChainError::Rejected);
    }
    active_best_chain(pcoins_tip, wallet, state, pindex, pblock)
}

} // verus!
