//! The coin view: a cache of commitment trees by their root and of spent flags
//! by nullifier, laid over a base store that it asks on a miss.

use crate::bytemap::{has_key, index_of, key_at, ByteMap};
use crate::hash::{FrHash, Uint256};
use crate::merkle::merkle_root;
use crate::transaction::Transaction;
use crate::tree::{SaplingMerkleTree, TreeView};
use vstd::prelude::*;

verus! {

/// What the cache knows of one anchor: whether a tree with that root exists,
/// and the tree.
pub struct AnchorsSaplingCacheEntry {
    pub entered: bool,
    pub tree: SaplingMerkleTree,
    pub flags: char,
}

/// The model of an anchor entry.
pub struct AnchorView {
    pub entered: bool,
    pub tree: TreeView,
}

impl AnchorsSaplingCacheEntry {
    /// An entry for `tree` that is not yet marked as present.
    pub fn new(tree: SaplingMerkleTree) -> (out: AnchorsSaplingCacheEntry)
        ensures
            !out.entered,
            out.tree == tree,
            out.flags == '\0',
    {
        AnchorsSaplingCacheEntry { entered: false, tree, flags: '\0' }
    }

    /// The model of the entry.
    pub open spec fn model(&self) -> AnchorView {
        AnchorView { entered: self.entered, tree: self.tree.model() }
    }
}

/// What the cache knows of one nullifier: whether it is spent, and whether
/// the base store has yet to be told.
#[derive(Clone, Copy, Debug, PartialEq, Eq, Structural)]
pub struct NullifiersCacheEntry {
    pub entered: bool,
    pub dirty: bool,
}

impl NullifiersCacheEntry {
    /// An entry that is neither spent nor dirty.
    pub fn new() -> (out: NullifiersCacheEntry)
        ensures
            !out.entered,
            !out.dirty,
    {
        NullifiersCacheEntry { entered: false, dirty: false }
    }
}

/// The model of the base store.
pub struct BaseView {
    pub best_anchor: Option<Seq<u8>>,
    pub anchors: Map<Seq<u8>, TreeView>,
    pub nullifiers: Map<Seq<u8>, bool>,
    pub best_block: Option<Seq<u8>>,
    pub anchor_reads: nat,
    pub nullifier_reads: nat,
}

/// The model of the cache: what it holds itself, over its base store.
pub struct CacheView {
    pub best_anchor: Option<Seq<u8>>,
    pub anchors: Map<Seq<u8>, AnchorView>,
    pub nullifiers: Map<Seq<u8>, NullifiersCacheEntry>,
    pub best_block: Option<Seq<u8>>,
    pub base: BaseView,
}

/// The root of a tree.
pub open spec fn tree_root(t: TreeView) -> Seq<u8> {
    merkle_root(t.leaves, t.depth)
}

/// A counter of reads after one more read; it stops at the largest `u64`.
pub open spec fn count_read(n: nat) -> nat {
    if n < u64::MAX {
        n + 1
    } else {
        n
    }
}

/// The base store after a lookup of the tree with root `rt`, and what it found.
pub open spec fn base_get_anchor(b: BaseView, rt: Seq<u8>) -> (BaseView, Option<TreeView>) {
    (
        BaseView { anchor_reads: count_read(b.anchor_reads), ..b },
        if b.anchors.dom().contains(rt) {
            Some(b.anchors[rt])
        } else {
            None
        },
    )
}

/// The base store after a lookup of the nullifier `nf`, and whether it is spent.
pub open spec fn base_get_nullifier(b: BaseView, nf: Seq<u8>) -> (BaseView, bool) {
    (
        BaseView { nullifier_reads: count_read(b.nullifier_reads), ..b },
        b.nullifiers.dom().contains(nf) && b.nullifiers[nf],
    )
}

/// The base store after `tree` was stored as the best anchor.
pub open spec fn base_push_anchor(b: BaseView, tree: TreeView) -> BaseView {
    BaseView {
        best_anchor: Some(tree_root(tree)),
        anchors: b.anchors.insert(tree_root(tree), tree),
        ..b
    }
}

/// The cache after a lookup of the tree with root `rt`, and what it found.
/// It asks the base store only when it holds no entry for `rt`, and keeps
/// what the base store found.
pub open spec fn cache_get_anchor(c: CacheView, rt: Seq<u8>) -> (CacheView, Option<TreeView>) {
    if c.anchors.dom().contains(rt) {
        (
            c,
            if c.anchors[rt].entered {
                Some(c.anchors[rt].tree)
            } else {
                None
            },
        )
    } else {
        let (base, found) = base_get_anchor(c.base, rt);
        match found {
            Some(tree) => (
                CacheView {
                    anchors: c.anchors.insert(rt, AnchorView { entered: true, tree }),
                    base,
                    ..c
                },
                Some(tree),
            ),
            None => (CacheView { base, ..c }, None),
        }
    }
}

/// The cache after a lookup of the nullifier `nf`, and whether it is spent.
/// It asks the base store only when it holds no entry for `nf`, and keeps the
/// answer.
pub open spec fn cache_get_nullifier(c: CacheView, nf: Seq<u8>) -> (CacheView, bool) {
    if c.nullifiers.dom().contains(nf) {
        (c, c.nullifiers[nf].entered)
    } else {
        let (base, spent) = base_get_nullifier(c.base, nf);
        (
            CacheView {
                nullifiers: c.nullifiers.insert(
                    nf,
                    NullifiersCacheEntry { entered: spent, dirty: false },
                ),
                base,
                ..c
            },
            spent,
        )
    }
}

/// The cache after each of `nfs` was marked as spent, or as unspent, and dirty.
pub open spec fn cache_set_nullifiers(c: CacheView, nfs: Seq<Seq<u8>>, spent: bool) -> CacheView
    decreases nfs.len(),
{
    if nfs.len() == 0 {
        c
    } else {
        let before = cache_set_nullifiers(c, nfs.drop_last(), spent);
        CacheView {
            nullifiers: before.nullifiers.insert(
                nfs.last(),
                NullifiersCacheEntry { entered: spent, dirty: true },
            ),
            ..before
        }
    }
}

/// The cache after `tree` was made the best anchor.
pub open spec fn cache_push_anchor(c: CacheView, tree: TreeView) -> CacheView {
    CacheView {
        best_anchor: Some(tree_root(tree)),
        anchors: c.anchors.insert(tree_root(tree), AnchorView { entered: true, tree }),
        ..c
    }
}

/// The cache after its best anchor was taken back: `to` is the best anchor,
/// and the entry of the anchor that was the best is marked as absent, unless
/// that anchor is `to` itself.
pub open spec fn cache_pop_anchor(c: CacheView, to: Option<Seq<u8>>) -> CacheView {
    CacheView {
        best_anchor: to,
        anchors: match c.best_anchor {
            Some(rt) if c.anchors.dom().contains(rt) && to != Some(rt) => c.anchors.insert(
                rt,
                AnchorView { entered: false, tree: c.anchors[rt].tree },
            ),
            _ => c.anchors,
        },
        ..c
    }
}

/// Setting nullifiers changes nothing but the nullifier entries, and sets the
/// entry of each of them.
pub proof fn lemma_set_nullifiers(c: CacheView, nfs: Seq<Seq<u8>>, spent: bool)
    ensures
        cache_set_nullifiers(c, nfs, spent).best_anchor == c.best_anchor,
        cache_set_nullifiers(c, nfs, spent).anchors == c.anchors,
        cache_set_nullifiers(c, nfs, spent).best_block == c.best_block,
        cache_set_nullifiers(c, nfs, spent).base == c.base,
        forall|i: int|
            0 <= i < nfs.len() ==> cache_set_nullifiers(c, nfs, spent).nullifiers.dom().contains(
                #[trigger] nfs[i],
            ) && cache_set_nullifiers(c, nfs, spent).nullifiers[nfs[i]] == (NullifiersCacheEntry {
                entered: spent,
                dirty: true,
            }),
        forall|k: Seq<u8>|
            !nfs.contains(k) ==> (#[trigger] cache_set_nullifiers(
                c,
                nfs,
                spent,
            ).nullifiers.dom().contains(k) == c.nullifiers.dom().contains(k)) && (
            c.nullifiers.dom().contains(k) ==> cache_set_nullifiers(c, nfs, spent).nullifiers[k]
                == c.nullifiers[k]),
    decreases nfs.len(),
{
    if nfs.len() > 0 {
        let rest: Seq<Seq<u8>> = nfs.drop_last();
        lemma_set_nullifiers(c, rest, spent);
        assert forall|k: Seq<u8>| !nfs.contains(k) implies !rest.contains(k) && k != nfs.last() by {
            if rest.contains(k) {
                let j: int = choose|j: int| 0 <= j < rest.len() && rest[j] == k;
                assert(nfs[j] == k);
            }
            assert(nfs[nfs.len() - 1] == nfs.last());
        }
        assert forall|i: int| 0 <= i < nfs.len() - 1 implies #[trigger] nfs[i] == rest[i] by {}
    }
}

/// After the nullifiers `nfs` were set as spent, a lookup of any of them finds
/// it spent, and does not ask the base store.
pub proof fn lemma_set_then_get_nullifier(c: CacheView, nfs: Seq<Seq<u8>>, i: int)
    requires
        0 <= i < nfs.len(),
    ensures
        cache_get_nullifier(cache_set_nullifiers(c, nfs, true), nfs[i]).1,
        cache_get_nullifier(cache_set_nullifiers(c, nfs, true), nfs[i]).0 == cache_set_nullifiers(
            c,
            nfs,
            true,
        ),
{
    lemma_set_nullifiers(c, nfs, true);
}

/// After nullifiers were set, a lookup of a nullifier that is not among them,
/// and that neither the cache nor the base store held, finds it unspent.
pub proof fn lemma_untouched_nullifier(c: CacheView, nfs: Seq<Seq<u8>>, spent: bool, nf: Seq<u8>)
    requires
        !nfs.contains(nf),
        !c.nullifiers.dom().contains(nf),
        !c.base.nullifiers.dom().contains(nf),
    ensures
        !cache_get_nullifier(cache_set_nullifiers(c, nfs, spent), nf).1,
{
    lemma_set_nullifiers(c, nfs, spent);
}

/// Two lookups of one root in a row find the same, and the second changes
/// nothing. If the first finds a tree, or the cache held an entry for the
/// root, the base store is read once at most over both lookups.
pub proof fn lemma_get_anchor_twice(c: CacheView, rt: Seq<u8>)
    ensures
        ({
            let (c1, r1) = cache_get_anchor(c, rt);
            let (c2, r2) = cache_get_anchor(c1, rt);
            &&& r2 == r1
            &&& (r1.is_some() || c.anchors.dom().contains(rt)) ==> c2 == c1
            &&& r1.is_some() && !c.anchors.dom().contains(rt) ==> c2.base.anchor_reads
                == count_read(c.base.anchor_reads)
            &&& c.anchors.dom().contains(rt) ==> c2.base.anchor_reads == c.base.anchor_reads
        }),
{
}

/// A source of commitment trees by root and of spent flags by nullifier.
pub trait CoinsView {
    /// Whether the view is in a state that its operations keep.
    spec fn wf(&self) -> bool;

    /// The root of the latest commitment tree, once there is one.
    fn get_best_anchor(&self) -> (out: Option<FrHash>)
        requires
            self.wf(),
    ;

    /// The commitment tree with root `rt`, if the view knows of one.
    fn get_sapling_anchor_at(&mut self, rt: FrHash) -> (out: Option<SaplingMerkleTree>)
        requires
            old(self).wf(),
        ensures
            final(self).wf(),
            out matches Some(tree) ==> tree.wf() && tree_root(tree.model()) == rt@,
    ;

    /// Whether `nullifier` is spent.
    fn get_nullifier(&mut self, nullifier: Uint256) -> (out: bool)
        requires
            old(self).wf(),
        ensures
            final(self).wf(),
    ;

    /// Makes `tree` the latest commitment tree.
    fn push_anchor(&mut self, tree: SaplingMerkleTree)
        requires
            old(self).wf(),
            tree.wf(),
        ensures
            final(self).wf(),
    ;

    /// Records the hash of the block at the tip.
    fn set_best_block(&mut self, block_hash: Uint256)
        requires
            old(self).wf(),
        ensures
            final(self).wf(),
    ;
}

/// Whether every tree that the base store holds is held under its root.
pub open spec fn stored_by_root(b: BaseView) -> bool {
    forall|k: Seq<u8>| b.anchors.dom().contains(k) ==> tree_root(#[trigger] b.anchors[k]) == k
}

/// Whether every tree that the view holds as present is held under its root.
pub open spec fn keyed_by_root(c: CacheView) -> bool {
    &&& forall|k: Seq<u8>|
        c.anchors.dom().contains(k) && (#[trigger] c.anchors[k]).entered ==> tree_root(
            c.anchors[k].tree,
        ) == k
    &&& stored_by_root(c.base)
}

/// The views of the trees that a map holds.
pub open spec fn tree_models(m: Map<Seq<u8>, SaplingMerkleTree>) -> Map<Seq<u8>, TreeView> {
    Map::new(|k: Seq<u8>| m.dom().contains(k), |k: Seq<u8>| m[k].model())
}

/// The views of the anchor entries that a map holds.
pub open spec fn anchor_models(m: Map<Seq<u8>, AnchorsSaplingCacheEntry>) -> Map<
    Seq<u8>,
    AnchorView,
> {
    Map::new(|k: Seq<u8>| m.dom().contains(k), |k: Seq<u8>| m[k].model())
}

/// The view of an optional digest.
pub open spec fn option_view(h: Option<FrHash>) -> Option<Seq<u8>> {
    match h {
        Some(x) => Some(x@),
        None => None,
    }
}

/// The view of an optional 256-bit value.
pub open spec fn option_view256(h: Option<Uint256>) -> Option<Seq<u8>> {
    match h {
        Some(x) => Some(x@),
        None => None,
    }
}

/// The model of an optional tree.
pub open spec fn option_model(t: Option<SaplingMerkleTree>) -> Option<TreeView> {
    match t {
        Some(x) => Some(x.model()),
        None => None,
    }
}

/// The base store, held in memory: the trees and spent flags that were
/// committed to it. It counts the lookups that reach it.
pub struct CoinViewDB {
    best_anchor: Option<FrHash>,
    anchors: ByteMap<SaplingMerkleTree>,
    nullifiers: ByteMap<bool>,
    best_block: Option<Uint256>,
    anchor_reads: u64,
    nullifier_reads: u64,
}

impl View for CoinViewDB {
    type V = BaseView;

    closed spec fn view(&self) -> BaseView {
        BaseView {
            best_anchor: option_view(self.best_anchor),
            anchors: tree_models(self.anchors@),
            nullifiers: self.nullifiers@,
            best_block: option_view256(self.best_block),
            anchor_reads: self.anchor_reads as nat,
            nullifier_reads: self.nullifier_reads as nat,
        }
    }
}

impl CoinViewDB {
    /// A base store in order holds every tree under its root.
    pub proof fn lemma_stored_by_root(&self)
        requires
            self.wf(),
        ensures
            stored_by_root(self@),
    {
        assert forall|k: Seq<u8>| self@.anchors.dom().contains(k) implies tree_root(
            #[trigger] self@.anchors[k],
        ) == k by {
            let i: int = index_of(self.anchors.keys@, k);
            assert(key_at(self.anchors.keys@, k, i));
            self.anchors.lemma_entry(i);
        }
    }

    /// An empty base store.
    pub fn new() -> (out: CoinViewDB)
        ensures
            out.wf(),
            out@ == (BaseView {
                best_anchor: None,
                anchors: Map::empty(),
                nullifiers: Map::empty(),
                best_block: None,
                anchor_reads: 0,
                nullifier_reads: 0,
            }),
    {
        let out: CoinViewDB = CoinViewDB {
            best_anchor: None,
            anchors: ByteMap::new(),
            nullifiers: ByteMap::new(),
            best_block: None,
            anchor_reads: 0,
            nullifier_reads: 0,
        };
        assert(tree_models(out.anchors@) =~= Map::<Seq<u8>, TreeView>::empty());
        out
    }

    /// Records whether `nullifier` is spent.
    pub fn set_nullifier(&mut self, nullifier: Uint256, spent: bool)
        requires
            old(self).wf(),
        ensures
            final(self).wf(),
            final(self)@ == (BaseView {
                nullifiers: old(self)@.nullifiers.insert(nullifier@, spent),
                ..old(self)@
            }),
    {
        self.nullifiers.insert(nullifier.bytes, spent);
    }

    /// How many lookups of a tree have reached the store; the count stops at
    /// the largest `u64`.
    pub fn anchor_reads(&self) -> (out: u64)
        ensures
            out == self@.anchor_reads,
    {
        self.anchor_reads
    }

    /// How many lookups of a nullifier have reached the store; the count
    /// stops at the largest `u64`.
    pub fn nullifier_reads(&self) -> (out: u64)
        ensures
            out == self@.nullifier_reads,
    {
        self.nullifier_reads
    }

    /// The hash of the block at the tip, once one was recorded.
    pub fn best_block(&self) -> (out: Option<Uint256>)
        ensures
            option_view256(out) == self@.best_block,
    {
        self.best_block
    }
}

impl CoinsView for CoinViewDB {
    /// The maps are in order, and every tree is stored under its root.
    closed spec fn wf(&self) -> bool {
        &&& self.anchors.wf()
        &&& self.nullifiers.wf()
        &&& forall|i: int|
            0 <= i < self.anchors.values@.len() ==> (#[trigger] self.anchors.values@[i]).wf()
                && tree_root(self.anchors.values@[i].model()) == self.anchors.keys@[i]@
    }

    /// The root of the tree that was stored last, once there is one.
    fn get_best_anchor(&self) -> (out: Option<FrHash>)
        ensures
            option_view(out) == self@.best_anchor,
    {
        self.best_anchor
    }

    /// A copy of the tree stored under the root `rt`, if there is one. The
    /// lookup is counted.
    fn get_sapling_anchor_at(&mut self, rt: FrHash) -> (out: Option<SaplingMerkleTree>)
        ensures
            (final(self)@, option_model(out)) == base_get_anchor(old(self)@, rt@),
    {
        if self.anchor_reads < u64::MAX {
            self.anchor_reads = self.anchor_reads + 1;
        }
        let key: [u8; 32] = rt.to_bytes();
        match self.anchors.position(&key) {
            Some(i) => {
                proof {
                    self.anchors.lemma_entry(i as int);
                }
                Some(self.anchors.values[i].clone())
            },
            None => None,
        }
    }

    /// Whether `nullifier` is recorded as spent. The lookup is counted.
    fn get_nullifier(&mut self, nullifier: Uint256) -> (out: bool)
        ensures
            (final(self)@, out) == base_get_nullifier(old(self)@, nullifier@),
    {
        if self.nullifier_reads < u64::MAX {
            self.nullifier_reads = self.nullifier_reads + 1;
        }
        match self.nullifiers.get(&nullifier.bytes) {
            Some(spent) => *spent,
            None => false,
        }
    }

    /// Stores `tree` under its root, and makes that root the best anchor.
    fn push_anchor(&mut self, tree: SaplingMerkleTree)
        ensures
            final(self)@ == base_push_anchor(old(self)@, tree.model()),
    {
        let root: FrHash = tree.root();
        let ghost before: ByteMap<SaplingMerkleTree> = self.anchors;
        let found: Option<usize> = self.anchors.position(&root.to_bytes());
        self.anchors.insert(root.to_bytes(), tree);
        self.best_anchor = Some(root);
        proof {
            assert(tree_models(self.anchors@) =~= tree_models(before@).insert(root@, tree.model()));
            assert forall|i: int| 0 <= i < self.anchors.values@.len() implies (
            #[trigger] self.anchors.values@[i]).wf() && tree_root(self.anchors.values@[i].model())
                == self.anchors.keys@[i]@ by {
                self.anchors.lemma_entry(i);
                if self.anchors.keys@[i]@ != root@ {
                    assert(i < before.keys@.len());
                    before.lemma_entry(i);
                }
            }
        }
    }

    /// Records the hash of the block at the tip.
    fn set_best_block(&mut self, block_hash: Uint256)
        ensures
            final(self)@ == (BaseView { best_block: Some(block_hash@), ..old(self)@ }),
    {
        self.best_block = Some(block_hash);
    }
}

/// The cache over the base store.
pub struct CoinViewCache {
    hash_sapling_anchor: Option<FrHash>,
    cached_sapling_anchors: ByteMap<AnchorsSaplingCacheEntry>,
    cached_sapling_nullifiers: ByteMap<NullifiersCacheEntry>,
    best_block: Option<Uint256>,
    base: CoinViewDB,
}

impl View for CoinViewCache {
    type V = CacheView;

    closed spec fn view(&self) -> CacheView {
        CacheView {
            best_anchor: option_view(self.hash_sapling_anchor),
            anchors: anchor_models(self.cached_sapling_anchors@),
            nullifiers: self.cached_sapling_nullifiers@,
            best_block: option_view256(self.best_block),
            base: self.base@,
        }
    }
}

impl CoinViewCache {
    /// A cache in order holds every tree under its root, and so does its
    /// base store.
    pub proof fn lemma_keyed_by_root(&self)
        requires
            self.wf(),
        ensures
            keyed_by_root(self@),
    {
        assert forall|k: Seq<u8>|
            self@.anchors.dom().contains(k) && (#[trigger] self@.anchors[k]).entered implies tree_root(
            self@.anchors[k].tree,
        ) == k by {
            let i: int = index_of(self.cached_sapling_anchors.keys@, k);
            assert(key_at(self.cached_sapling_anchors.keys@, k, i));
            self.cached_sapling_anchors.lemma_entry(i);
        }
        self.base.lemma_stored_by_root();
    }

    /// An empty cache over an empty base store.
    pub fn new() -> (out: CoinViewCache)
        ensures
            out.wf(),
            out@ == (CacheView {
                best_anchor: None,
                anchors: Map::empty(),
                nullifiers: Map::empty(),
                best_block: None,
                base: BaseView {
                    best_anchor: None,
                    anchors: Map::empty(),
                    nullifiers: Map::empty(),
                    best_block: None,
                    anchor_reads: 0,
                    nullifier_reads: 0,
                },
            }),
    {
        CoinViewCache::with_base(CoinViewDB::new())
    }

    /// An empty cache over `base`.
    pub fn with_base(base: CoinViewDB) -> (out: CoinViewCache)
        requires
            base.wf(),
        ensures
            out.wf(),
            out@ == (CacheView {
                best_anchor: None,
                anchors: Map::empty(),
                nullifiers: Map::empty(),
                best_block: None,
                base: base@,
            }),
    {
        let out: CoinViewCache = CoinViewCache {
            hash_sapling_anchor: None,
            cached_sapling_anchors: ByteMap::new(),
            cached_sapling_nullifiers: ByteMap::new(),
            best_block: None,
            base,
        };
        assert(anchor_models(out.cached_sapling_anchors@) =~= Map::<Seq<u8>, AnchorView>::empty());
        out
    }

    /// The base store under the cache.
    pub fn base(&self) -> (out: &CoinViewDB)
        ensures
            out@ == self@.base,
    {
        &self.base
    }

    /// The hash of the block at the tip, once one was recorded.
    pub fn best_block(&self) -> (out: Option<Uint256>)
        ensures
            option_view256(out) == self@.best_block,
    {
        self.best_block
    }

    /// Marks the nullifier of every shielded spend of `tx` as spent, or as
    /// unspent, and as not yet written to the base store.
    pub fn set_nullifiers(&mut self, tx: &Transaction, spent: bool)
        requires
            old(self).wf(),
        ensures
            final(self).wf(),
            final(self)@ == cache_set_nullifiers(old(self)@, tx.nullifiers(), spent),
    {
        let ghost nfs: Seq<Seq<u8>> = tx.nullifiers();
        let mut i: usize = 0;
        assert(nfs.take(0) =~= Seq::<Seq<u8>>::empty());
        while i < tx.v_shielded_spend.len()
            invariant
                self.wf(),
                nfs == tx.nullifiers(),
                i <= tx.v_shielded_spend@.len(),
                self@ == cache_set_nullifiers(old(self)@, nfs.take(i as int), spent),
            decreases tx.v_shielded_spend@.len() - i,
        {
            let mut entry: NullifiersCacheEntry = NullifiersCacheEntry::new();
            entry.entered = spent;
            entry.dirty = true;
            let nullifier: Uint256 = tx.v_shielded_spend[i].nullifier;
            self.cached_sapling_nullifiers.insert(nullifier.bytes, entry);
            i = i + 1;
            proof {
                assert(nfs.take(i as int).drop_last() =~= nfs.take(i - 1));
                assert(nfs.take(i as int).last() == nullifier@);
            }
        }
        assert(nfs.take(i as int) =~= nfs);
    }

    /// Takes back the best anchor: `to` becomes the best anchor, and the entry
    /// of the anchor that was the best is marked as absent, unless that anchor
    /// is `to` itself.
    pub fn pop_anchor(&mut self, to: Option<FrHash>)
        requires
            old(self).wf(),
        ensures
            final(self).wf(),
            final(self)@ == cache_pop_anchor(old(self)@, option_view(to)),
    {
        let ghost before: ByteMap<AnchorsSaplingCacheEntry> = self.cached_sapling_anchors;
        let same: bool = match (self.hash_sapling_anchor, to) {
            (Some(a), Some(b)) => a == b,
            _ => false,
        };
        match self.hash_sapling_anchor {
            Some(rt) if !same => {
                match self.cached_sapling_anchors.position(&rt.to_bytes()) {
                    Some(i) => {
                        proof {
                            self.cached_sapling_anchors.lemma_entry(i as int);
                        }
                        self.cached_sapling_anchors.values[i].entered = false;
                        proof {
                            let after: ByteMap<AnchorsSaplingCacheEntry> =
                                self.cached_sapling_anchors;
                            assert forall|k: Seq<u8>| has_key(after.keys@, k) implies (
                            #[trigger] after@[k]).model() == anchor_models(before@).insert(
                                rt@,
                                AnchorView { entered: false, tree: before@[rt@].tree.model() },
                            )[k] by {
                                let j: int = index_of(after.keys@, k);
                                assert(key_at(after.keys@, k, j));
                                before.lemma_entry(j);
                            }
                            assert(anchor_models(after@) =~= anchor_models(before@).insert(
                                rt@,
                                AnchorView { entered: false, tree: before@[rt@].tree.model() },
                            ));
                        }
                    },
                    None => {},
                }
            },
            _ => {},
        }
        self.hash_sapling_anchor = to;
    }
}

impl CoinsView for CoinViewCache {
    /// The maps and the base store are in order, and every tree that the
    /// cache holds is stored under its root.
    closed spec fn wf(&self) -> bool {
        &&& self.cached_sapling_anchors.wf()
        &&& self.cached_sapling_nullifiers.wf()
        &&& self.base.wf()
        &&& forall|i: int|
            0 <= i < self.cached_sapling_anchors.values@.len() ==> (
            #[trigger] self.cached_sapling_anchors.values@[i]).tree.wf() && tree_root(
                self.cached_sapling_anchors.values@[i].tree.model(),
            ) == self.cached_sapling_anchors.keys@[i]@
    }

    /// The best anchor: the root of the latest tree, once there is one.
    fn get_best_anchor(&self) -> (out: Option<FrHash>)
        ensures
            option_view(out) == self@.best_anchor,
    {
        self.hash_sapling_anchor
    }

    /// A copy of the tree with the root `rt`. The cache answers from its own
    /// entry where it has one: the tree if the entry is present, none if it is
    /// known to be absent. Else it asks the base store, and keeps a tree that
    /// the base store finds.
    fn get_sapling_anchor_at(&mut self, rt: FrHash) -> (out: Option<SaplingMerkleTree>)
        ensures
            (final(self)@, option_model(out)) == cache_get_anchor(old(self)@, rt@),
    {
        let key: [u8; 32] = rt.to_bytes();
        match self.cached_sapling_anchors.position(&key) {
            Some(i) => {
                proof {
                    self.cached_sapling_anchors.lemma_entry(i as int);
                }
                if self.cached_sapling_anchors.values[i].entered {
                    return Some(self.cached_sapling_anchors.values[i].tree.clone());
                }
                return None;
            },
            None => {},
        }
        let found: Option<SaplingMerkleTree> = self.base.get_sapling_anchor_at(rt);
        match found {
            None => None,
            Some(tree) => {
                let ghost before: ByteMap<AnchorsSaplingCacheEntry> = self.cached_sapling_anchors;
                let mut entry: AnchorsSaplingCacheEntry = AnchorsSaplingCacheEntry::new(
                    tree.clone(),
                );
                entry.entered = true;
                self.cached_sapling_anchors.insert(key, entry);
                proof {
                    assert(anchor_models(self.cached_sapling_anchors@) =~= anchor_models(
                        before@,
                    ).insert(rt@, AnchorView { entered: true, tree: tree.model() }));
                    assert forall|i: int|
                        0 <= i < self.cached_sapling_anchors.values@.len() implies (
                    #[trigger] self.cached_sapling_anchors.values@[i]).tree.wf() && tree_root(
                        self.cached_sapling_anchors.values@[i].tree.model(),
                    ) == self.cached_sapling_anchors.keys@[i]@ by {
                        self.cached_sapling_anchors.lemma_entry(i);
                        if i < before.keys@.len() {
                            before.lemma_entry(i);
                        }
                    }
                }
                Some(tree)
            },
        }
    }

    /// Whether `nullifier` is spent. The cache answers from its own entry
    /// where it has one; else it asks the base store and keeps the answer.
    fn get_nullifier(&mut self, nullifier: Uint256) -> (out: bool)
        ensures
            (final(self)@, out) == cache_get_nullifier(old(self)@, nullifier@),
    {
        match self.cached_sapling_nullifiers.get(&nullifier.bytes) {
            Some(entry) => {
                return entry.entered;
            },
            None => {},
        }
        let spent: bool = self.base.get_nullifier(nullifier);
        let mut entry: NullifiersCacheEntry = NullifiersCacheEntry::new();
        entry.entered = spent;
        self.cached_sapling_nullifiers.insert(nullifier.bytes, entry);
        spent
    }

    /// Enters `tree` under its root as present, and makes that root the best
    /// anchor. The base store is not touched.
    fn push_anchor(&mut self, tree: SaplingMerkleTree)
        ensures
            final(self)@ == cache_push_anchor(old(self)@, tree.model()),
    {
        let root: FrHash = tree.root();
        let ghost before: ByteMap<AnchorsSaplingCacheEntry> = self.cached_sapling_anchors;
        let ghost model: TreeView = tree.model();
        let mut entry: AnchorsSaplingCacheEntry = AnchorsSaplingCacheEntry::new(tree);
        entry.entered = true;
        self.cached_sapling_anchors.insert(root.to_bytes(), entry);
        self.hash_sapling_anchor = Some(root);
        proof {
            assert(anchor_models(self.cached_sapling_anchors@) =~= anchor_models(before@).insert(
                root@,
                AnchorView { entered: true, tree: model },
            ));
            assert forall|i: int| 0 <= i < self.cached_sapling_anchors.values@.len() implies (
            #[trigger] self.cached_sapling_anchors.values@[i]).tree.wf() && tree_root(
                self.cached_sapling_anchors.values@[i].tree.model(),
            ) == self.cached_sapling_anchors.keys@[i]@ by {
                self.cached_sapling_anchors.lemma_entry(i);
                if self.cached_sapling_anchors.keys@[i]@ != root@ {
                    assert(i < before.keys@.len());
                    before.lemma_entry(i);
                }
            }
        }
    }

    /// Records the hash of the block at the tip.
    fn set_best_block(&mut self, block_hash: Uint256)
        ensures
            final(self)@ == (CacheView { best_block: Some(block_hash@), ..old(self)@ }),
    {
        self.best_block = Some(block_hash);
    }
}

} // verus!
