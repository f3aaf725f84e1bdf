//! Incremental witnesses: the authentication path of one leaf of the note
//! commitment tree, kept up to date as further leaves are appended.

use crate::hash::{merkle_hash_spec, FrHash};
use crate::merkle::{
    empty_root, lemma_node_empty, lemma_node_push_complete, lemma_node_skip,
    lemma_pow2_monotonic, lemma_pow2_step,
    lemma_right_edge_monotonic, lemma_right_edge_step, lemma_right_edge_top,
    lemma_right_edge_zero, lemma_shr_bounds, lemma_shr_small, lemma_shr_succ, merkle_root, node,
    right_edge, shr, sibling,
};
use crate::tree::{
    lemma_empty_root_step, SaplingMerkleTree, TreeFull,
    TREE_DEPTH,
};
use vstd::arithmetic::power2::pow2;
use vstd::prelude::*;

verus! {

/// What a witness stands for: the leaf at `position` of the tree of depth
/// `depth` whose leaves so far are `leaves`.
pub struct WitnessView {
    pub leaves: Seq<Seq<u8>>,
    pub position: nat,
    pub depth: nat,
}

/// The view of a witness taken of the last leaf of a tree with these leaves.
pub open spec fn witness_of(leaves: Seq<Seq<u8>>, depth: nat) -> WitnessView {
    WitnessView { leaves, position: (leaves.len() - 1) as nat, depth }
}

/// The view of a witness after it has taken in `later`, leaf by leaf.
pub open spec fn advanced(w: WitnessView, later: Seq<Seq<u8>>) -> WitnessView {
    WitnessView { leaves: w.leaves + later, position: w.position, depth: w.depth }
}

/// The root that a witness gives.
pub open spec fn witness_root(w: WitnessView) -> Seq<u8> {
    merkle_root(w.leaves, w.depth)
}

/// A witness that was taken after the last leaf of `earlier` and has taken in
/// every later leaf in order gives the root of the tree with all those leaves.
pub proof fn lemma_witness_tracks_tree(earlier: Seq<Seq<u8>>, later: Seq<Seq<u8>>, depth: nat)
    requires
        earlier.len() >= 1,
    ensures
        witness_root(advanced(witness_of(earlier, depth), later)) == merkle_root(
            earlier + later,
            depth,
        ),
        advanced(witness_of(earlier, depth), later).position == earlier.len() - 1,
{
}

/// The label that is reached from the label `cur` of the node at height
/// `level` above leaf `position`, by hashing it with the siblings that `path`
/// holds from that height on, each on its side.
pub open spec fn path_root(cur: Seq<u8>, position: nat, path: Seq<Seq<u8>>, level: nat) -> Seq<u8>
    decreases path.len() - level,
{
    if level >= path.len() {
        cur
    } else {
        let up = if shr(position, level) % 2 == 1 {
            merkle_hash_spec(level, path[level as int], cur)
        } else {
            merkle_hash_spec(level, cur, path[level as int])
        };
        path_root(up, position, path, level + 1)
    }
}

/// Hashing a leaf up along its authentication path gives the root of the
/// tree: the path that a witness gives proves that its leaf is in the tree
/// with that root.
pub proof fn lemma_path_gives_root(
    leaves: Seq<Seq<u8>>,
    position: nat,
    depth: nat,
    path: Seq<Seq<u8>>,
    level: nat,
)
    requires
        level <= depth,
        position < pow2(depth),
        path.len() == depth,
        forall|l: int|
            0 <= l < depth ==> #[trigger] path[l] == node(leaves, l as nat, sibling(position, l as nat)),
    ensures
        path_root(node(leaves, level, shr(position, level)), position, path, level) == merkle_root(
            leaves,
            depth,
        ),
    decreases depth - level,
{
    if level < depth {
        assert(path[level as int] == node(leaves, level, sibling(position, level)));
        lemma_path_gives_root(leaves, position, depth, path, level + 1);
    } else {
        lemma_shr_small(position, depth);
    }
}

/// Whatever is appended after it, a sibling that is not the one being filled
/// keeps its label.
proof fn lemma_sibling_stable(
    leaves: Seq<Seq<u8>>,
    leaf: Seq<u8>,
    position: nat,
    filling: nat,
    level: nat,
)
    requires
        position < leaves.len(),
        level != filling,
        shr(position, filling) % 2 == 0,
        right_edge(position, filling) <= leaves.len() < right_edge(position, filling) + pow2(
            filling,
        ),
    ensures
        node(leaves.push(leaf), level, sibling(position, level)) == node(
            leaves,
            level,
            sibling(position, level),
        ),
{
    let q: nat = shr(position, level);
    lemma_shr_bounds(position, level);
    lemma_pow2_step(level);
    if q % 2 == 1 {
        lemma_node_push_complete(leaves, leaf, level, (q - 1) as nat);
    } else {
        lemma_right_edge_step(position, level);
        let start: nat = right_edge(position, level);
        assert((q + 1 + 1) * pow2(level) == start + pow2(level)) by (nonlinear_arith)
            requires
                start == (q + 1) * pow2(level),
        ;
        if level < filling {
            lemma_right_edge_monotonic(position, level + 1, filling);
            lemma_node_push_complete(leaves, leaf, level, q + 1);
        } else {
            lemma_right_edge_step(position, filling);
            lemma_right_edge_monotonic(position, filling + 1, level);
            lemma_node_empty(leaves, level, q + 1);
            lemma_node_empty(leaves.push(leaf), level, q + 1);
        }
    }
}

/// The right edge does not move over levels at which the node is a right child.
proof fn lemma_right_edge_over_ones(position: nat, from: nat, to: nat)
    requires
        from <= to,
        forall|l: nat| from <= l < to ==> #[trigger] shr(position, l) % 2 == 1,
    ensures
        right_edge(position, to) == right_edge(position, from),
    decreases to - from,
{
    if from < to {
        let l: nat = (to - 1) as nat;
        lemma_right_edge_over_ones(position, from, l);
        assert(shr(position, l) % 2 == 1);
        lemma_right_edge_step(position, l);
    }
}

/// `n` with its `level` lowest binary digits dropped.
fn shift_right(n: u64, level: usize) -> (out: u64)
    ensures
        out == shr(n as nat, level as nat),
{
    let mut out: u64 = n;
    let mut i: usize = 0;
    while i < level
        invariant
            i <= level,
            out == shr(n as nat, i as nat),
        decreases level - i,
    {
        out = out / 2;
        i = i + 1;
    }
    out
}

/// The first level from `from` on, below `depth`, at which the node above
/// `position` is a left child; `depth` if there is none.
fn next_left_child(position: u64, from: usize, depth: usize) -> (out: usize)
    requires
        from <= depth,
    ensures
        from <= out <= depth,
        forall|l: nat| from <= l < out ==> #[trigger] shr(position as nat, l) % 2 == 1,
        out < depth ==> shr(position as nat, out as nat) % 2 == 0,
{
    let mut level: usize = from;
    let mut q: u64 = shift_right(position, from);
    while level < depth && q % 2 == 1
        invariant
            from <= level <= depth,
            q == shr(position as nat, level as nat),
            forall|l: nat| from <= l < level ==> #[trigger] shr(position as nat, l) % 2 == 1,
        decreases depth - level,
    {
        q = q / 2;
        level = level + 1;
    }
    level
}

/// The authentication path of one leaf, advanced with the tree.
///
/// It holds, for each height, the label of the sibling of the node above its
/// leaf. The siblings to the left are full when the witness is made; those to
/// the right fill up, from the lowest on, as leaves are appended.
pub struct SaplingWitness {
    depth: usize,
    position: u64,
    size: u64,
    leaf: FrHash,
    siblings: Vec<FrHash>,
    filling: usize,
    cursor: SaplingMerkleTree,
    leaves: Ghost<Seq<Seq<u8>>>,
}

impl View for SaplingWitness {
    type V = WitnessView;

    closed spec fn view(&self) -> WitnessView {
        WitnessView {
            leaves: self.leaves@,
            position: self.position as nat,
            depth: self.depth as nat,
        }
    }
}

impl SaplingWitness {
    /// The siblings hold the labels of the tree with the leaves seen so far,
    /// but for the one being filled, whose leaves the cursor holds.
    pub closed spec fn wf(&self) -> bool {
        &&& self.depth <= TREE_DEPTH
        &&& self.siblings@.len() == self.depth
        &&& self.position < self.size
        &&& self.size == self.leaves@.len()
        &&& self.size <= pow2(self.depth as nat)
        &&& self.leaf@ == self.leaves@[self.position as int]
        &&& self.filling <= self.depth
        &&& self.cursor.wf()
        &&& self.filling < self.depth ==> {
            &&& shr(self.position as nat, self.filling as nat) % 2 == 0
            &&& self.cursor.spec_depth() == self.filling
            &&& right_edge(self.position as nat, self.filling as nat) <= self.size
            &&& self.cursor@ == self.leaves@.skip(
                right_edge(self.position as nat, self.filling as nat) as int,
            )
            &&& self.cursor@.len() < pow2(self.filling as nat)
        }
        &&& self.filling == self.depth ==> self.size == pow2(self.depth as nat)
        &&& forall|l: int|
            0 <= l < self.depth && l != self.filling ==> (#[trigger] self.siblings@[l])@ == node(
                self.leaves@,
                l as nat,
                sibling(self.position as nat, l as nat),
            )
    }

    /// A well-formed witness is of a leaf that its tree holds.
    pub proof fn lemma_view_bounds(&self)
        requires
            self.wf(),
        ensures
            self@.position < self@.leaves.len() <= pow2(self@.depth),
            self@.depth <= TREE_DEPTH,
    {
    }

    /// The position of the leaf that this witness is of.
    pub fn position(&self) -> (out: u64)
        ensures
            out == self@.position,
    {
        self.position
    }

    /// The number of leaves of the tree as this witness has seen it.
    pub fn size(&self) -> (out: u64)
        requires
            self.wf(),
        ensures
            out == self@.leaves.len(),
    {
        self.size
    }

    /// How many more leaves the tree can take, as this witness has seen it.
    pub fn remaining(&self) -> (out: u64)
        requires
            self.wf(),
        ensures
            out == pow2(self@.depth) - self@.leaves.len(),
    {
        let mut capacity: u64 = 1;
        let mut level: usize = 0;
        proof {
            vstd::arithmetic::power2::lemma2_to64();
        }
        while level < self.depth
            invariant
                self.wf(),
                level <= self.depth,
                capacity == pow2(level as nat),
            decreases self.depth - level,
        {
            proof {
                lemma_pow2_step(level as nat);
                lemma_pow2_monotonic((level + 1) as nat, 32);
                vstd::arithmetic::power2::lemma2_to64();
            }
            capacity = capacity * 2;
            level = level + 1;
        }
        capacity - self.size
    }

    /// Whether the tree, as this witness has seen it, is full.
    pub fn is_full(&self) -> (out: bool)
        requires
            self.wf(),
        ensures
            out == (self@.leaves.len() >= pow2(self@.depth)),
    {
        proof {
            if self.filling < self.depth {
                let p: nat = self.position as nat;
                let c: nat = self.filling as nat;
                lemma_right_edge_step(p, c);
                lemma_right_edge_monotonic(p, c + 1, self.depth as nat);
                lemma_right_edge_top(p, self.depth as nat);
            }
        }
        self.filling >= self.depth
    }

    /// The label of the sibling at `level`, which is the cursor's root where
    /// that sibling is the one being filled.
    fn sibling_at(&self, level: usize) -> (out: FrHash)
        requires
            self.wf(),
            level < self.depth,
        ensures
            out@ == node(self.leaves@, level as nat, sibling(self.position as nat, level as nat)),
    {
        if level == self.filling {
            proof {
                let m: nat = shr(self.position as nat, level as nat) + 1;
                lemma_node_skip(self.leaves@, m, level as nat, 0);
            }
            self.cursor.root()
        } else {
            self.siblings[level]
        }
    }

    /// The root of the tree, computed from the leaf along its path.
    pub fn root(&self) -> (out: FrHash)
        requires
            self.wf(),
        ensures
            out@ == witness_root(self@),
    {
        let mut cur: FrHash = self.leaf;
        let mut level: usize = 0;
        let mut q: u64 = self.position;
        while level < self.depth
            invariant
                self.wf(),
                level <= self.depth,
                q == shr(self.position as nat, level as nat),
                cur@ == node(self.leaves@, level as nat, q as nat),
            decreases self.depth - level,
        {
            let sib: FrHash = self.sibling_at(level);
            if q % 2 == 1 {
                cur = FrHash::combine(level, &sib, &cur);
            } else {
                cur = FrHash::combine(level, &cur, &sib);
            }
            level = level + 1;
            q = q / 2;
        }
        proof {
            lemma_shr_small(self.position as nat, self.depth as nat);
        }
        cur
    }

    /// The authentication path: the label of the sibling at each height, from
    /// the leaf's own sibling up to the child of the root.
    pub fn path(&self) -> (out: Vec<FrHash>)
        requires
            self.wf(),
        ensures
            out@.len() == self@.depth,
            forall|l: int|
                0 <= l < self@.depth ==> (#[trigger] out@[l])@ == node(
                    self@.leaves,
                    l as nat,
                    sibling(self@.position, l as nat),
                ),
    {
        let mut out: Vec<FrHash> = Vec::new();
        let mut level: usize = 0;
        while level < self.depth
            invariant
                self.wf(),
                level <= self.depth,
                out@.len() == level,
                forall|l: int|
                    0 <= l < level ==> (#[trigger] out@[l])@ == node(
                        self.leaves@,
                        l as nat,
                        sibling(self.position as nat, l as nat),
                    ),
            decreases self.depth - level,
        {
            let sib: FrHash = self.sibling_at(level);
            out.push(sib);
            level = level + 1;
        }
        out
    }

    /// Takes in the next leaf of the tree, or fails when the tree is full and
    /// leaves the witness as it was.
    pub fn append(&mut self, leaf: FrHash) -> (out: Result<(), TreeFull>)
        requires
            old(self).wf(),
        ensures
            final(self).wf(),
            out.is_ok() == (old(self)@.leaves.len() < pow2(old(self)@.depth)),
            out.is_ok() ==> final(self)@ == advanced(old(self)@, seq![leaf@]),
            out.is_ok() ==> final(self)@.leaves == old(self)@.leaves.push(leaf@),
            out.is_err() ==> final(self)@ == old(self)@,
    {
        if self.filling >= self.depth {
            return Err(TreeFull {});
        }
        let ghost before: Seq<Seq<u8>> = self.leaves@;
        let ghost after: Seq<Seq<u8>> = self.leaves@.push(leaf@);
        let ghost p: nat = self.position as nat;
        let ghost c: nat = self.filling as nat;
        let ghost edge: nat = right_edge(p, c);
        proof {
            assert(before + seq![leaf@] =~= after);
            assert(before.skip(edge as int).push(leaf@) =~= after.skip(edge as int));
            lemma_pow2_step(c);
            lemma_right_edge_top(p, self.depth as nat);
            lemma_right_edge_step(p, c);
            lemma_right_edge_monotonic(p, c + 1, self.depth as nat);
            lemma_pow2_monotonic(self.depth as nat, 32);
            vstd::arithmetic::power2::lemma2_to64();
            assert forall|l: int| 0 <= l < self.depth && l != self.filling implies #[trigger] node(
                after,
                l as nat,
                sibling(p, l as nat),
            ) == node(before, l as nat, sibling(p, l as nat)) by {
                lemma_sibling_stable(before, leaf@, p, c, l as nat);
            }
        }
        let appended: Result<(), TreeFull> = self.cursor.append(leaf);
        if appended.is_err() {
            return Err(TreeFull {});
        }
        self.size = self.size + 1;
        self.leaves = Ghost(after);
        if self.cursor.is_full() {
            proof {
                let m: nat = shr(p, c) + 1;
                lemma_node_skip(after, m, c, 0);
            }
            let done: FrHash = self.cursor.root();
            let at: usize = self.filling;
            self.siblings.set(at, done);
            let next: usize = next_left_child(self.position, at + 1, self.depth);
            proof {
                lemma_right_edge_over_ones(p, c + 1, next as nat);
                if next == self.depth {
                    lemma_right_edge_top(p, self.depth as nat);
                }
                assert(after.skip(after.len() as int) =~= Seq::<Seq<u8>>::empty());
                lemma_pow2_step(next as nat);
            }
            self.filling = next;
            if next < self.depth {
                self.cursor = SaplingMerkleTree::with_depth(next);
            } else {
                self.cursor = SaplingMerkleTree::with_depth(0);
            }
        }
        Ok(())
    }
}

impl Clone for SaplingWitness {
    /// An independent copy of the witness.
    fn clone(&self) -> (out: SaplingWitness)
        ensures
            out@ == self@,
            out.wf() == self.wf(),
    {
        let mut siblings: Vec<FrHash> = Vec::new();
        let mut i: usize = 0;
        while i < self.siblings.len()
            invariant
                i <= self.siblings@.len(),
                siblings@ == self.siblings@.take(i as int),
            decreases self.siblings@.len() - i,
        {
            siblings.push(self.siblings[i]);
            i = i + 1;
            assert(siblings@ =~= self.siblings@.take(i as int));
        }
        assert(siblings@ =~= self.siblings@);
        SaplingWitness {
            depth: self.depth,
            position: self.position,
            size: self.size,
            leaf: self.leaf,
            siblings,
            filling: self.filling,
            cursor: self.cursor.clone(),
            leaves: self.leaves,
        }
    }
}

impl SaplingMerkleTree {
    /// A witness of the leaf appended last, or `None` for an empty tree.
    pub fn witness(&self) -> (out: Option<SaplingWitness>)
        requires
            self.wf(),
        ensures
            out.is_some() == (self@.len() >= 1),
            out matches Some(w) ==> w.wf() && w@ == witness_of(self@, self.spec_depth()),
    {
        if self.size() == 0 {
            return None;
        }
        proof {
            self.lemma_size_bound();
        }
        let depth: usize = self.depth();
        let position: u64 = self.size() - 1;
        let ghost p: nat = position as nat;
        let ghost n: nat = self@.len();
        let leaf: FrHash = self.last_leaf();
        let mut siblings: Vec<FrHash> = Vec::new();
        let mut empty: FrHash = FrHash::empty_leaf();
        let mut level: usize = 0;
        let mut q: u64 = position;
        while level < depth
            invariant
                self.wf(),
                depth == self.spec_depth(),
                depth <= TREE_DEPTH,
                n == self@.len(),
                n == p + 1,
                p == position,
                level <= depth,
                q == shr(p, level as nat),
                empty@ == empty_root(level as nat),
                siblings@.len() == level,
                forall|l: int|
                    0 <= l < level ==> (#[trigger] siblings@[l])@ == node(
                        self@,
                        l as nat,
                        sibling(p, l as nat),
                    ),
            decreases depth - level,
        {
            proof {
                lemma_empty_root_step(level as nat);
            }
            if q % 2 == 1 {
                proof {
                    lemma_shr_succ(p, level as nat);
                }
                siblings.push(self.frontier_at(level));
            } else {
                proof {
                    lemma_right_edge_zero(p);
                    lemma_right_edge_monotonic(p, 0, level as nat);
                    lemma_node_empty(self@, level as nat, (q + 1) as nat);
                }
                siblings.push(empty);
            }
            empty = FrHash::combine(level, &empty, &empty);
            level = level + 1;
            q = q / 2;
        }
        let filling: usize = next_left_child(position, 0, depth);
        proof {
            lemma_right_edge_zero(p);
            lemma_right_edge_over_ones(p, 0, filling as nat);
            if filling == depth {
                lemma_right_edge_top(p, depth as nat);
            }
            assert(self@.skip(n as int) =~= Seq::<Seq<u8>>::empty());
            lemma_pow2_step(filling as nat);
        }
        let cursor: SaplingMerkleTree = if filling < depth {
            SaplingMerkleTree::with_depth(filling)
        } else {
            SaplingMerkleTree::with_depth(0)
        };
        Some(
            SaplingWitness {
                depth,
                position,
                size: position + 1,
                leaf,
                siblings,
                filling,
                cursor,
                leaves: Ghost(self@),
            },
        )
    }
}

} // verus!
