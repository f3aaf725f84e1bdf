//! Scanning blocks for the wallet: the notes that a block brings are added to
//! the wallet, and the witnesses of the wallet are advanced through the block.

use crate::block::{Block, BlockIndex};
use crate::coins::{cache_get_anchor, CacheView, CoinViewCache, CoinsView};
use crate::notes::{NoteDataMap, NoteView, OutPointView, SaplingNoteData, WalletError};
use crate::transaction::{SaplingOutPoint, Transaction};
use crate::tree::{SaplingMerkleTree, TreeView};
use crate::validation::{empty_tree, ChainError};
use crate::wallet::{
    block_outputs, connect_check, key_views, model_connect, model_involve, model_notes, Wallet,
    WalletModel,
};
use vstd::prelude::*;

verus! {

/// A block to scan: its place in the chain, the block, and for each of its
/// transactions the notes that it brings for the wallet.
pub struct ScanBlock {
    pub index: BlockIndex,
    pub block: Block,
    pub notes: Vec<NoteDataMap>,
}

/// The keys of the notes that transaction `j` of a block brings.
pub open spec fn found_keys(notes: Seq<NoteDataMap>, j: int) -> Seq<OutPointView> {
    if 0 <= j < notes.len() {
        key_views(notes[j].keys@)
    } else {
        Seq::empty()
    }
}

/// The notes that transaction `j` of a block brings.
pub open spec fn found_notes(notes: Seq<NoteDataMap>, j: int) -> Seq<NoteView> {
    if 0 <= j < notes.len() {
        notes[j].notes()
    } else {
        Seq::empty()
    }
}

/// The wallet after it was shown the transactions `txs` of a block in order,
/// each with the notes that it brings.
pub open spec fn model_take_in(m: WalletModel, txs: Seq<Transaction>, notes: Seq<NoteDataMap>) -> WalletModel
    decreases txs.len(),
{
    if txs.len() == 0 {
        m
    } else {
        model_involve(
            model_take_in(m, txs.drop_last(), notes),
            txs.last()@,
            found_keys(notes, txs.len() - 1),
            found_notes(notes, txs.len() - 1),
        )
    }
}

/// The view after the tree before the block at `index` was looked up, and
/// that tree: the tree at the root that the block below left, or the empty
/// tree for the first block.
pub open spec fn tree_before(c: CacheView, index: BlockIndex) -> (CacheView, Option<TreeView>) {
    match index.prev_final_sapling_root {
        Some(rt) => cache_get_anchor(c, rt@),
        None => (c, Some(empty_tree())),
    }
}

/// The wallet and the view after a block was scanned, and whether that could
/// be done. Where the view holds no tree for the root before the block,
/// nothing is done. Else the transactions that bring notes are added to the
/// wallet, and the witnesses of the wallet are advanced through the block;
/// where the wallet cannot follow the block, the transactions stay added.
pub open spec fn scan_block_model(
    m: WalletModel,
    c: CacheView,
    index: BlockIndex,
    txs: Seq<Transaction>,
    notes: Seq<NoteDataMap>,
) -> (WalletModel, CacheView, Result<(), ChainError>) {
    let (looked, tree) = tree_before(c, index);
    match tree {
        None => (m, looked, Err(ChainError::MissingAnchor)),
        Some(pre) => {
            let taken = model_take_in(m, txs, notes);
            match connect_check(
                model_notes(taken),
                index.n_height as int,
                pre,
                block_outputs(txs),
            ) {
                Err(e) => (taken, looked, Err(ChainError::Wallet(e))),
                Ok(_) => (
                    model_connect(taken, index.n_height as int, pre, block_outputs(txs)),
                    looked,
                    Ok(()),
                ),
            }
        },
    }
}

/// The wallet and the view after the blocks `blocks` were scanned in order,
/// up to the first that could not be scanned.
pub open spec fn scan_model(m: WalletModel, c: CacheView, blocks: Seq<ScanBlock>) -> (
    WalletModel,
    CacheView,
    Result<(), ChainError>,
)
    decreases blocks.len(),
{
    if blocks.len() == 0 {
        (m, c, Ok(()))
    } else {
        let (before, view, result) = scan_model(m, c, blocks.drop_last());
        if result.is_err() {
            (before, view, result)
        } else {
            scan_block_model(
                before,
                view,
                blocks.last().index,
                blocks.last().block.vtx@,
                blocks.last().notes@,
            )
        }
    }
}

/// Once a block could not be scanned, the scan goes no further.
pub proof fn lemma_scan_stops(m: WalletModel, c: CacheView, blocks: Seq<ScanBlock>, upto: int)
    requires
        0 <= upto <= blocks.len(),
        scan_model(m, c, blocks.take(upto)).2.is_err(),
    ensures
        scan_model(m, c, blocks) == scan_model(m, c, blocks.take(upto)),
    decreases blocks.len() - upto,
{
    if upto < blocks.len() {
        assert(blocks.take(upto + 1).drop_last() =~= blocks.take(upto));
        lemma_scan_stops(m, c, blocks, upto + 1);
    } else {
        assert(blocks.take(upto) =~= blocks);
    }
}

/// The notes that belong to the wallet among the outputs of a transaction
/// with the hash `hash` and `outputs` shielded outputs, by their keys:
/// `attributed` lists the outputs that one of the wallet's incoming viewing
/// keys decrypts, each with that key. An index beyond the outputs is passed
/// over, and of two entries for one output the later counts.
pub open spec fn attributed_notes(hash: Seq<u8>, outputs: nat, attributed: Seq<(usize, [u8; 32])>) -> Map<
    OutPointView,
    NoteView,
>
    decreases attributed.len(),
{
    if attributed.len() == 0 {
        Map::empty()
    } else {
        let before = attributed_notes(hash, outputs, attributed.drop_last());
        let (n, ivk) = attributed.last();
        if n < outputs {
            before.insert(
                OutPointView { hash, n: n as nat },
                NoteView {
                    ivk: ivk@,
                    witnesses: Seq::empty(),
                    height: crate::notes::UNINITIALIZED_HEIGHT as int,
                    nullifier: None,
                },
            )
        } else {
            before
        }
    }
}

/// The keys of the notes that belong to the wallet among the outputs of a
/// transaction, in the order in which `attributed` first lists them.
pub open spec fn attributed_keys(hash: Seq<u8>, outputs: nat, attributed: Seq<(usize, [u8; 32])>) -> Seq<
    OutPointView,
>
    decreases attributed.len(),
{
    if attributed.len() == 0 {
        Seq::empty()
    } else {
        let before = attributed_keys(hash, outputs, attributed.drop_last());
        let key = OutPointView { hash, n: attributed.last().0 as nat };
        if attributed.last().0 < outputs && !before.contains(key) {
            before.push(key)
        } else {
            before
        }
    }
}

impl Wallet {
    /// The notes that `tx` brings for the wallet, fresh and without
    /// witnesses: `attributed` lists the outputs of `tx` that one of the
    /// wallet's incoming viewing keys decrypts, each with that key.
    pub fn find_my_sapling_notes(&self, tx: &Transaction, attributed: &Vec<(usize, [u8; 32])>) -> (out:
        NoteDataMap)
        ensures
            out.wf(),
            out.as_map() == attributed_notes(
                tx.hash@,
                tx.v_shielded_output@.len(),
                attributed@,
            ),
            key_views(out.keys@) == attributed_keys(
                tx.hash@,
                tx.v_shielded_output@.len(),
                attributed@,
            ),
    {
        let mut out: NoteDataMap = NoteDataMap::new();
        let mut a: usize = 0;
        proof {
            assert(attributed@.take(0) =~= Seq::<(usize, [u8; 32])>::empty());
            assert(out.as_map() =~= Map::<OutPointView, NoteView>::empty());
            assert(key_views(out.keys@) =~= Seq::<OutPointView>::empty());
        }
        while a < attributed.len()
            invariant
                out.wf(),
                a <= attributed@.len(),
                out.as_map() == attributed_notes(
                    tx.hash@,
                    tx.v_shielded_output@.len(),
                    attributed@.take(a as int),
                ),
                key_views(out.keys@) == attributed_keys(
                    tx.hash@,
                    tx.v_shielded_output@.len(),
                    attributed@.take(a as int),
                ),
            decreases attributed@.len() - a,
        {
            let n: usize = attributed[a].0;
            let ivk: [u8; 32] = attributed[a].1;
            let ghost before: NoteDataMap = out;
            proof {
                assert(attributed@.take(a + 1).drop_last() =~= attributed@.take(a as int));
                assert(attributed@.take(a + 1).last() == attributed@[a as int]);
            }
            if n < tx.v_shielded_output.len() {
                let key: SaplingOutPoint = SaplingOutPoint { hash: tx.hash, n };
                out.insert(key, SaplingNoteData::new(ivk));
                proof {
                    let listed: Seq<OutPointView> = key_views(before.keys@);
                    if before.contains(key@) {
                        let i: int = choose|i: int| before.key_at(key@, i);
                        assert(listed[i] == key@);
                        assert(key_views(out.keys@) =~= listed);
                    } else {
                        if listed.contains(key@) {
                            let i: int = choose|i: int| 0 <= i < listed.len() && listed[i] == key@;
                            assert(before.key_at(key@, i));
                        }
                        assert(key_views(out.keys@) =~= listed.push(key@));
                    }
                }
            }
            a = a + 1;
        }
        assert(attributed@.take(a as int) =~= attributed@);
        out
    }

    /// Scans one block: looks up the tree before the block, adds the
    /// transactions of the block that bring notes to the wallet, where
    /// `notes` holds for each transaction the notes that it brings, and
    /// advances the witnesses of the wallet through the block. The seed and
    /// the payment addresses of the wallet stay as they are.
    pub fn scan_block(
        &mut self,
        pcoins_tip: &mut CoinViewCache,
        pindex: &BlockIndex,
        block: &Block,
        notes: Vec<NoteDataMap>,
        f_update: bool,
    ) -> (out: Result<(), ChainError>)
        requires
            old(self).wf(),
            old(pcoins_tip).wf(),
            forall|j: int| 0 <= j < notes@.len() ==> (#[trigger] notes@[j]).wf(),
        ensures
            final(self).wf(),
            final(pcoins_tip).wf(),
            (final(self)@, final(pcoins_tip)@, out) == scan_block_model(
                old(self)@,
                old(pcoins_tip)@,
                *pindex,
                block.vtx@,
                notes@,
            ),
            final(self).addresses() == old(self).addresses(),
            final(self).spec_seed() == old(self).spec_seed(),
    {
        let ghost found: Seq<NoteDataMap> = notes@;
        let mut remaining: Vec<NoteDataMap> = notes;
        let found_tree: Option<SaplingMerkleTree> = match pindex.prev_final_sapling_root {
            Some(rt) => pcoins_tip.get_sapling_anchor_at(rt),
            None => Some(SaplingMerkleTree::new()),
        };
        let mut sapling_tree: SaplingMerkleTree = match found_tree {
            Some(tree) => tree,
            None => {
                return Err(ChainError::MissingAnchor);
            },
        };
        let mut j: usize = 0;
        assert(block.vtx@.take(0) =~= Seq::<Transaction>::empty());
        while j < block.vtx.len()
            invariant
                self.wf(),
                j <= block.vtx@.len(),
                remaining@.len() == found.len(),
                forall|k: int| 0 <= k < found.len() ==> (#[trigger] found[k]).wf(),
                forall|k: int| j <= k < found.len() ==> #[trigger] remaining@[k] == found[k],
                self@ == model_take_in(old(self)@, block.vtx@.take(j as int), found),
                self.addresses() == old(self).addresses(),
                self.spec_seed() == old(self).spec_seed(),
            decreases block.vtx@.len() - j,
        {
            let mut mine: NoteDataMap = NoteDataMap::new();
            if j < remaining.len() {
                core::mem::swap(&mut mine, &mut remaining[j]);
            }
            proof {
                assert(block.vtx@.take(j + 1).drop_last() =~= block.vtx@.take(j as int));
                assert(block.vtx@.take(j + 1).last() == block.vtx@[j as int]);
                assert(key_views(mine.keys@) == found_keys(found, j as int));
                assert(mine.notes() == found_notes(found, j as int));
            }
            let involved: bool = self.add_to_wallet_if_invloving_me(
                &block.vtx[j],
                block,
                f_update,
                mine,
            );
            j = j + 1;
        }
        proof {
            assert(block.vtx@.take(j as int) =~= block.vtx@);
            self.lemma_view();
        }
        let ghost taken_in: Wallet = *self;
        let advanced: Result<(), WalletError> = self.chain_tip(
            pindex,
            block,
            &mut sapling_tree,
            true,
        );
        proof {
            self.lemma_same_shape(&taken_in);
        }
        match advanced {
            Ok(_) => Ok(()),
            Err(e) => Err(ChainError::Wallet(e)),
        }
    }

    /// Scans the blocks `blocks` in order, one after the other, and stops at
    /// the first that cannot be scanned; what was scanned before stays. The
    /// seed and the payment addresses of the wallet stay as they are.
    pub fn scan_for_wallet_transactions(
        &mut self,
        pcoins_tip: &mut CoinViewCache,
        blocks: Vec<ScanBlock>,
        f_update: bool,
    ) -> (out: Result<(), ChainError>)
        requires
            old(self).wf(),
            old(pcoins_tip).wf(),
            forall|b: int, j: int|
                0 <= b < blocks@.len() && 0 <= j < blocks@[b].notes@.len() ==> (
                #[trigger] blocks@[b].notes@[j]).wf(),
        ensures
            final(self).wf(),
            final(pcoins_tip).wf(),
            (final(self)@, final(pcoins_tip)@, out) == scan_model(
                old(self)@,
                old(pcoins_tip)@,
                blocks@,
            ),
            final(self).addresses() == old(self).addresses(),
            final(self).spec_seed() == old(self).spec_seed(),
    {
        let ghost all: Seq<ScanBlock> = blocks@;
        let mut rest: Vec<ScanBlock> = blocks;
        let mut b: usize = 0;
        assert(all.take(0) =~= Seq::<ScanBlock>::empty());
        while b < rest.len()
            invariant
                self.wf(),
                pcoins_tip.wf(),
                all == blocks@,
                b <= all.len(),
                rest@.len() == all.len(),
                forall|k: int| b <= k < all.len() ==> #[trigger] rest@[k] == all[k],
                forall|k: int, j: int|
                    0 <= k < all.len() && 0 <= j < all[k].notes@.len() ==> (
                    #[trigger] all[k].notes@[j]).wf(),
                (self@, pcoins_tip@, Ok::<(), ChainError>(())) == scan_model(
                    old(self)@,
                    old(pcoins_tip)@,
                    all.take(b as int),
                ),
                self.addresses() == old(self).addresses(),
                self.spec_seed() == old(self).spec_seed(),
            decreases all.len() - b,
        {
            let mut notes: Vec<NoteDataMap> = Vec::new();
            core::mem::swap(&mut notes, &mut rest[b].notes);
            proof {
                assert(all.take(b + 1).drop_last() =~= all.take(b as int));
                assert(all.take(b + 1).last() == all[b as int]);
                assert(notes@ == all[b as int].notes@);
                assert(rest@[b as int].index == all[b as int].index);
                assert(rest@[b as int].block == all[b as int].block);
                assert forall|j: int| 0 <= j < notes@.len() implies (#[trigger] notes@[j]).wf() by {
                    assert(all[b as int].notes@[j].wf());
                }
            }
            let ghost wallet_before: WalletModel = self@;
            let ghost view_before: CacheView = pcoins_tip@;
            let scanned: Result<(), ChainError> = self.scan_block(
                pcoins_tip,
                &rest[b].index,
                &rest[b].block,
                notes,
                f_update,
            );
            proof {
                assert(scan_model(old(self)@, old(pcoins_tip)@, all.take(b + 1)) == scan_block_model(
                    wallet_before,
                    view_before,
                    all[b as int].index,
                    all[b as int].block.vtx@,
                    all[b as int].notes@,
                ));
            }
            if scanned.is_err() {
                proof {
                    lemma_scan_stops(old(self)@, old(pcoins_tip)@, all, b + 1);
                }
                return scanned;
            }
            b = b + 1;
        }
        assert(all.take(b as int) =~= all);
        Ok(())
    }
}

} // verus!
