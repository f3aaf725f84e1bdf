//! The pool of transactions that wait for a block, and the admission of a
//! transaction to it.

use crate::block::ValidationState;
use crate::bytemap::ByteMap;
use crate::coins::{cache_get_anchor, cache_get_nullifier, CacheView, CoinViewCache, CoinsView};
use crate::hash::{FrHash, Uint256};
use crate::notes::OutPointView;
use crate::proofs::{contextual_check_transaction, shielded_ok, ProofVerifier};
use crate::transaction::{SaplingOutPoint, SaplingSpendDescription, Transaction};
use crate::validation::{check_transaction, transaction_is_sane};
use vstd::prelude::*;

verus! {

/// A transaction in the pool.
pub struct TxMemPoolEntry {
    pub tx: Transaction,
}

impl TxMemPoolEntry {
    /// The entry of `tx`, with a copy of the transaction.
    pub fn new(tx: &Transaction) -> (out: TxMemPoolEntry)
        ensures
            out.tx.same_as(tx),
    {
        TxMemPoolEntry { tx: tx.duplicate() }
    }
}

/// The model of the pool: the hashes of its transactions, the transparent
/// outputs that they spend, and the nullifiers that they reveal.
pub struct MemPoolView {
    pub txs: Set<Seq<u8>>,
    pub inputs: Set<OutPointView>,
    pub nullifiers: Set<Seq<u8>>,
}

/// The transparent outputs that `tx` spends.
pub open spec fn inputs_of(tx: Transaction) -> Set<OutPointView> {
    Set::new(|p: OutPointView| exists|i: int| 0 <= i < tx.vin@.len() && tx.vin@[i].prevout@ == p)
}

/// The nullifiers that `tx` reveals.
pub open spec fn nullifier_set(tx: Transaction) -> Set<Seq<u8>> {
    Set::new(|n: Seq<u8>| tx.nullifiers().contains(n))
}

/// The pool after `tx` was added under `hash`.
pub open spec fn pool_added(p: MemPoolView, hash: Seq<u8>, tx: Transaction) -> MemPoolView {
    MemPoolView {
        txs: p.txs.insert(hash),
        inputs: p.inputs.union(inputs_of(tx)),
        nullifiers: p.nullifiers.union(nullifier_set(tx)),
    }
}

/// Whether `tx` clashes with the pool: the pool holds it, or a transaction of
/// the pool spends one of its transparent inputs or reveals one of its
/// nullifiers.
pub open spec fn clashes(p: MemPoolView, tx: Transaction) -> bool {
    ||| p.txs.contains(tx.hash@)
    ||| exists|i: int| 0 <= i < tx.vin@.len() && p.inputs.contains(#[trigger] tx.vin@[i].prevout@)
    ||| exists|i: int|
        0 <= i < tx.v_shielded_spend@.len() && p.nullifiers.contains(
            #[trigger] tx.v_shielded_spend@[i].nullifier@,
        )
}

/// The view after it was asked whether the shielded spends `spends` can be
/// made, and the answer: none of their nullifiers may be spent, and the view
/// must hold a tree for each of their anchors. The view is asked spend by
/// spend, up to the first that cannot be made.
pub open spec fn shield_requirements(c: CacheView, spends: Seq<SaplingSpendDescription>) -> (
    CacheView,
    bool,
)
    decreases spends.len(),
{
    if spends.len() == 0 {
        (c, true)
    } else {
        let (before, ok) = shield_requirements(c, spends.drop_last());
        if !ok {
            (before, false)
        } else {
            let (asked, spent) = cache_get_nullifier(before, spends.last().nullifier@);
            if spent {
                (asked, false)
            } else {
                let (looked, tree) = cache_get_anchor(asked, spends.last().anchor@);
                (looked, tree.is_some())
            }
        }
    }
}

/// Whether the shielded spends of `tx` can be made in `view`: none of their
/// nullifiers is spent, and the view holds a tree for each of their anchors.
pub fn have_shield_requirements(view: &mut CoinViewCache, tx: &Transaction) -> (out: bool)
    requires
        old(view).wf(),
    ensures
        final(view).wf(),
        (final(view)@, out) == shield_requirements(old(view)@, tx.v_shielded_spend@),
{
    let ghost spends: Seq<SaplingSpendDescription> = tx.v_shielded_spend@;
    let mut i: usize = 0;
    assert(spends.take(0) =~= Seq::<SaplingSpendDescription>::empty());
    while i < tx.v_shielded_spend.len()
        invariant
            view.wf(),
            spends == tx.v_shielded_spend@,
            i <= spends.len(),
            (view@, true) == shield_requirements(old(view)@, spends.take(i as int)),
        decreases spends.len() - i,
    {
        let spend: &SaplingSpendDescription = &tx.v_shielded_spend[i];
        proof {
            assert(spends.take(i + 1).drop_last() =~= spends.take(i as int));
            assert(spends.take(i + 1).last() == *spend);
        }
        let spent: bool = view.get_nullifier(spend.nullifier);
        let known: bool = if spent {
            false
        } else {
            view.get_sapling_anchor_at(spend.anchor).is_some()
        };
        if !known {
            proof {
                lemma_requirements_fail(old(view)@, spends, i + 1);
            }
            return false;
        }
        i = i + 1;
    }
    assert(spends.take(i as int) =~= spends);
    true
}

/// Once a spend cannot be made, the view is asked no further.
pub proof fn lemma_requirements_fail(
    c: CacheView,
    spends: Seq<SaplingSpendDescription>,
    upto: int,
)
    requires
        0 <= upto <= spends.len(),
        !shield_requirements(c, spends.take(upto)).1,
    ensures
        shield_requirements(c, spends) == shield_requirements(c, spends.take(upto)),
    decreases spends.len() - upto,
{
    if upto < spends.len() {
        assert(spends.take(upto + 1).drop_last() =~= spends.take(upto));
        lemma_requirements_fail(c, spends, upto + 1);
    } else {
        assert(spends.take(upto) =~= spends);
    }
}

/// The pool of transactions that wait for a block.
pub struct TxMemPool {
    map_tx: ByteMap<TxMemPoolEntry>,
    map_next_tx: Vec<SaplingOutPoint>,
    map_sapling_nullifiers: ByteMap<FrHash>,
}

impl View for TxMemPool {
    type V = MemPoolView;

    closed spec fn view(&self) -> MemPoolView {
        MemPoolView {
            txs: self.map_tx@.dom(),
            inputs: Set::new(
                |p: OutPointView|
                    exists|i: int| 0 <= i < self.map_next_tx@.len() && self.map_next_tx@[i]@ == p,
            ),
            nullifiers: self.map_sapling_nullifiers@.dom(),
        }
    }
}

impl TxMemPool {
    /// The maps of the pool are in order.
    pub closed spec fn wf(&self) -> bool {
        self.map_tx.wf() && self.map_sapling_nullifiers.wf()
    }

    /// An empty pool.
    pub fn new() -> (out: TxMemPool)
        ensures
            out.wf(),
            out@ == (MemPoolView { txs: Set::empty(), inputs: Set::empty(), nullifiers: Set::empty() }),
    {
        let out: TxMemPool = TxMemPool {
            map_tx: ByteMap::new(),
            map_next_tx: Vec::new(),
            map_sapling_nullifiers: ByteMap::new(),
        };
        assert(out@.txs =~= Set::<Seq<u8>>::empty());
        assert(out@.inputs =~= Set::<OutPointView>::empty());
        assert(out@.nullifiers =~= Set::<Seq<u8>>::empty());
        out
    }

    /// Whether the pool holds a transaction with the hash `hash`.
    pub fn contains(&self, hash: FrHash) -> (out: bool)
        requires
            self.wf(),
        ensures
            out == self@.txs.contains(hash@),
    {
        self.map_tx.contains_key(&hash.to_bytes())
    }

    /// Whether a transaction of the pool reveals `nullifier`.
    pub fn nullifier_exists(&self, nullifier: Uint256) -> (out: bool)
        requires
            self.wf(),
        ensures
            out == self@.nullifiers.contains(nullifier@),
    {
        self.map_sapling_nullifiers.contains_key(&nullifier.bytes)
    }

    /// Whether a transaction of the pool spends the transparent output `prevout`.
    pub fn spends_input(&self, prevout: &SaplingOutPoint) -> (out: bool)
        ensures
            out == self@.inputs.contains(prevout@),
    {
        let mut i: usize = 0;
        while i < self.map_next_tx.len()
            invariant
                i <= self.map_next_tx@.len(),
                forall|j: int| 0 <= j < i ==> self.map_next_tx@[j]@ != prevout@,
            decreases self.map_next_tx@.len() - i,
        {
            if self.map_next_tx[i] == *prevout {
                return true;
            }
            i = i + 1;
        }
        false
    }

    /// Adds the transaction of `entry` to the pool under `hash`, with the
    /// transparent outputs that it spends and the nullifiers that it reveals.
    /// Nothing is checked.
    pub fn add_unchecked(&mut self, hash: FrHash, entry: TxMemPoolEntry)
        requires
            old(self).wf(),
        ensures
            final(self).wf(),
            final(self)@ == pool_added(old(self)@, hash@, entry.tx),
    {
        let ghost tx: Transaction = entry.tx;
        let ghost start: MemPoolView = self@;
        let ghost listed: Seq<SaplingOutPoint> = self.map_next_tx@;
        let mut i: usize = 0;
        while i < entry.tx.vin.len()
            invariant
                self.wf(),
                entry.tx == tx,
                i <= tx.vin@.len(),
                self@.txs == start.txs,
                self@.nullifiers == start.nullifiers,
                self.map_next_tx@.len() == listed.len() + i,
                forall|j: int| 0 <= j < listed.len() ==> self.map_next_tx@[j] == listed[j],
                forall|j: int|
                    0 <= j < i ==> self.map_next_tx@[listed.len() + j] == tx.vin@[j].prevout,
            decreases tx.vin@.len() - i,
        {
            self.map_next_tx.push(entry.tx.vin[i].prevout);
            i = i + 1;
        }
        proof {
            assert forall|p: OutPointView|
                self@.inputs.contains(p) == start.inputs.union(inputs_of(tx)).contains(p) by {
                if self@.inputs.contains(p) {
                    let j: int = choose|j: int|
                        0 <= j < self.map_next_tx@.len() && self.map_next_tx@[j]@ == p;
                    if j < listed.len() {
                        assert(listed[j]@ == p);
                    } else {
                        assert(tx.vin@[j - listed.len()].prevout@ == p);
                    }
                }
                if start.inputs.contains(p) {
                    let j: int = choose|j: int| 0 <= j < listed.len() && listed[j]@ == p;
                    assert(self.map_next_tx@[j]@ == p);
                }
                if inputs_of(tx).contains(p) {
                    let j: int = choose|j: int| 0 <= j < tx.vin@.len() && tx.vin@[j].prevout@ == p;
                    assert(self.map_next_tx@[listed.len() + j]@ == p);
                }
            }
            assert(self@.inputs =~= start.inputs.union(inputs_of(tx)));
        }
        let ghost nfs: Seq<Seq<u8>> = tx.nullifiers();
        let mut k: usize = 0;
        proof {
            assert(nfs.take(0) =~= Seq::<Seq<u8>>::empty());
            assert(self@.nullifiers =~= start.nullifiers.union(nfs.take(0).to_set()));
        }
        while k < entry.tx.v_shielded_spend.len()
            invariant
                self.wf(),
                entry.tx == tx,
                nfs == tx.nullifiers(),
                k <= tx.v_shielded_spend@.len(),
                self@.txs == start.txs,
                self@.inputs == start.inputs.union(inputs_of(tx)),
                self@.nullifiers == start.nullifiers.union(nfs.take(k as int).to_set()),
            decreases tx.v_shielded_spend@.len() - k,
        {
            self.map_sapling_nullifiers.insert(entry.tx.v_shielded_spend[k].nullifier.bytes, hash);
            proof {
                let more: Seq<Seq<u8>> = nfs.take(k + 1);
                assert(more =~= nfs.take(k as int).push(nfs[k as int]));
                assert forall|n: Seq<u8>|
                    more.to_set().contains(n) == (nfs.take(k as int).to_set().contains(n) || n
                        == nfs[k as int]) by {
                    if more.contains(n) {
                        let j: int = choose|j: int| 0 <= j < more.len() && more[j] == n;
                        if j < k {
                            assert(nfs.take(k as int)[j] == n);
                        }
                    }
                    if nfs.take(k as int).contains(n) {
                        let j: int = choose|j: int| 0 <= j < k && nfs.take(k as int)[j] == n;
                        assert(more[j] == n);
                    }
                    assert(more[k as int] == nfs[k as int]);
                }
                assert(self@.nullifiers =~= start.nullifiers.union(more.to_set()));
            }
            k = k + 1;
        }
        proof {
            assert(nfs.take(k as int) =~= nfs);
            assert(nfs.to_set() =~= nullifier_set(tx));
        }
        self.map_tx.insert(hash.to_bytes(), entry);
        proof {
            assert(self@.txs =~= start.txs.insert(hash@));
        }
    }
}

/// What the admission of `tx` does to the pool and to the view, and whether
/// `tx` is admitted, given the verdict `proofs_ok` on its shielded parts: it
/// has to pass that, be no coinbase, clash with nothing in the pool, and its
/// shielded spends have to be possible in the view. The view is asked only
/// where everything before holds.
pub open spec fn admission(p: MemPoolView, c: CacheView, tx: Transaction, proofs_ok: bool) -> (
    MemPoolView,
    CacheView,
    bool,
) {
    if !proofs_ok || tx.coinbase || clashes(p, tx) {
        (p, c, false)
    } else {
        let (asked, ok) = shield_requirements(c, tx.v_shielded_spend@);
        if ok {
            (pool_added(p, tx.hash@, tx), asked, true)
        } else {
            (p, asked, false)
        }
    }
}

/// Whether the pool holds `tx`, or a transaction that clashes with it.
pub fn clashes_with_pool(pool: &TxMemPool, tx: &Transaction) -> (out: bool)
    requires
        pool.wf(),
    ensures
        out == clashes(pool@, *tx),
{
    if pool.contains(tx.hash) {
        return true;
    }
    let mut i: usize = 0;
    while i < tx.vin.len()
        invariant
            i <= tx.vin@.len(),
            forall|j: int| 0 <= j < i ==> !pool@.inputs.contains(#[trigger] tx.vin@[j].prevout@),
        decreases tx.vin@.len() - i,
    {
        if pool.spends_input(&tx.vin[i].prevout) {
            return true;
        }
        i = i + 1;
    }
    let mut k: usize = 0;
    while k < tx.v_shielded_spend.len()
        invariant
            pool.wf(),
            k <= tx.v_shielded_spend@.len(),
            forall|j: int|
                0 <= j < k ==> !pool@.nullifiers.contains(
                    #[trigger] tx.v_shielded_spend@[j].nullifier@,
                ),
        decreases tx.v_shielded_spend@.len() - k,
    {
        if pool.nullifier_exists(tx.v_shielded_spend[k].nullifier) {
            return true;
        }
        k = k + 1;
    }
    false
}

/// Admits `tx` to the pool, given the verdict `proofs_ok` on its shielded
/// parts.
pub fn admit_to_mem_pool(
    pool: &mut TxMemPool,
    tx: &Transaction,
    view: &mut CoinViewCache,
    proofs_ok: bool,
) -> (out: bool)
    requires
        old(pool).wf(),
        old(view).wf(),
    ensures
        final(pool).wf(),
        final(view).wf(),
        (final(pool)@, final(view)@, out) == admission(old(pool)@, old(view)@, *tx, proofs_ok),
{
    if !proofs_ok {
        return false;
    }
    if tx.is_coin_base() {
        return false;
    }
    if clashes_with_pool(pool, tx) {
        return false;
    }
    if !have_shield_requirements(view, tx) {
        return false;
    }
    let entry: TxMemPoolEntry = TxMemPoolEntry::new(tx);
    proof {
        lemma_same_admission(old(pool)@, old(view)@, *tx, entry.tx, proofs_ok);
    }
    pool.add_unchecked(tx.hash, entry);
    true
}

/// Admits `tx` to the pool if it passes every check: the checks that need
/// neither the chain nor proofs, the verification of its shielded parts
/// against `sighash` by `verifier`, and the admission proper. A
/// transaction that does not pass the first checks leaves the pool and the
/// view as they are. Any other is admitted as `admission` says, with the
/// verdict that `shielded_ok` gives on its shielded parts.
pub fn accept_to_mem_pool(
    pool: &mut TxMemPool,
    state: &ValidationState,
    tx: &Transaction,
    pcoins_tip: &mut CoinViewCache,
    sighash: &[u8; 32],
    verifier: &ProofVerifier,
) -> (out: bool)
    requires
        old(pool).wf(),
        old(pcoins_tip).wf(),
    ensures
        final(pool).wf(),
        final(pcoins_tip).wf(),
        !transaction_is_sane(*tx) ==> !out && final(pool)@ == old(pool)@ && final(pcoins_tip)@
            == old(pcoins_tip)@,
        transaction_is_sane(*tx) ==> admission(
            old(pool)@,
            old(pcoins_tip)@,
            *tx,
            shielded_ok(*tx, sighash@, *verifier),
        ) == (final(pool)@, final(pcoins_tip)@, out),
{
    if !check_transaction(tx, state) {
        return false;
    }
    let proofs_ok: bool = contextual_check_transaction(tx, state, sighash, verifier);
    admit_to_mem_pool(pool, tx, pcoins_tip, proofs_ok)
}

/// Two transactions that hold the same are admitted alike, up to which of
/// them the pool then holds.
pub proof fn lemma_same_admission(
    p: MemPoolView,
    c: CacheView,
    a: Transaction,
    b: Transaction,
    proofs_ok: bool,
)
    requires
        b.same_as(&a),
    ensures
        admission(p, c, a, proofs_ok).1 == admission(p, c, b, proofs_ok).1,
        admission(p, c, a, proofs_ok).2 == admission(p, c, b, proofs_ok).2,
        admission(p, c, a, proofs_ok).0 == admission(p, c, b, proofs_ok).0,
{
    assert(a.nullifiers() =~= b.nullifiers());
    assert(a.vin@.len() == b.vin@.len()) by {
        assert(a@.inputs.len() == b@.inputs.len());
    }
    assert forall|i: int| 0 <= i < a.vin@.len() implies #[trigger] a.vin@[i].prevout
        == b.vin@[i].prevout by {
        assert(a@.inputs[i] == b@.inputs[i]);
    }
    assert(inputs_of(a) =~= inputs_of(b)) by {
        assert forall|q: OutPointView| inputs_of(a).contains(q) == inputs_of(b).contains(q) by {
            if inputs_of(a).contains(q) {
                let i: int = choose|i: int| 0 <= i < a.vin@.len() && a.vin@[i].prevout@ == q;
                assert(b.vin@[i].prevout@ == q);
            }
            if inputs_of(b).contains(q) {
                let i: int = choose|i: int| 0 <= i < b.vin@.len() && b.vin@[i].prevout@ == q;
                assert(a.vin@[i].prevout@ == q);
            }
        }
    }
    assert(nullifier_set(a) =~= nullifier_set(b));
    assert(clashes(p, a) == clashes(p, b)) by {
        if clashes(p, a) && !p.txs.contains(a.hash@) {
            if exists|i: int| 0 <= i < a.vin@.len() && p.inputs.contains(#[trigger] a.vin@[i].prevout@) {
                let i: int = choose|i: int|
                    0 <= i < a.vin@.len() && p.inputs.contains(#[trigger] a.vin@[i].prevout@);
                assert(p.inputs.contains(b.vin@[i].prevout@));
            } else {
                let i: int = choose|i: int|
                    0 <= i < a.v_shielded_spend@.len() && p.nullifiers.contains(
                        #[trigger] a.v_shielded_spend@[i].nullifier@,
                    );
                assert(p.nullifiers.contains(b.v_shielded_spend@[i].nullifier@));
            }
        }
        if clashes(p, b) && !p.txs.contains(b.hash@) {
            if exists|i: int| 0 <= i < b.vin@.len() && p.inputs.contains(#[trigger] b.vin@[i].prevout@) {
                let i: int = choose|i: int|
                    0 <= i < b.vin@.len() && p.inputs.contains(#[trigger] b.vin@[i].prevout@);
                assert(p.inputs.contains(a.vin@[i].prevout@));
            } else {
                let i: int = choose|i: int|
                    0 <= i < b.v_shielded_spend@.len() && p.nullifiers.contains(
                        #[trigger] b.v_shielded_spend@[i].nullifier@,
                    );
                assert(p.nullifiers.contains(a.v_shielded_spend@[i].nullifier@));
            }
        }
    }
}

} // verus!
