//! The append-only note commitment tree, held by its frontier: one label per
//! height, enough to append further leaves and to compute the root.

use crate::hash::{merkle_hash_spec, FrHash};
use crate::merkle::{
    empty_root, lemma_node_empty, lemma_node_push_complete, lemma_pow2_monotonic, lemma_pow2_step,
    lemma_shr_bounds, lemma_shr_pow2, lemma_shr_small, merkle_root, node, shr,
};
use vstd::arithmetic::power2::{lemma2_to64, pow2};
use vstd::prelude::*;

verus! {

/// Depth of the note commitment tree: it holds up to `2^32` leaves.
pub const TREE_DEPTH: usize = 32;

/// The error of an append to a tree that already holds all the leaves it can.
#[derive(Clone, Copy, Debug, PartialEq, Eq, Structural)]
pub struct TreeFull {}

/// The index, among the nodes at height `level`, of the last left-hand node
/// whose subtree is full once `n` leaves are in the tree.
pub open spec fn last_full_left(n: nat, level: nat) -> int {
    if shr(n, level) % 2 == 1 {
        shr(n, level) - 1
    } else {
        shr(n, level) - 2
    }
}

/// The subtree at `last_full_left` is full.
pub proof fn lemma_last_full_left(n: nat, level: nat)
    requires
        shr(n, level) >= 1,
    ensures
        0 <= last_full_left(n, level),
        (last_full_left(n, level) + 1) * pow2(level) <= n,
{
    lemma_shr_bounds(n, level);
    lemma_pow2_step(level);
    let h: int = last_full_left(n, level);
    let q: int = shr(n, level) as int;
    let p: int = pow2(level) as int;
    assert((h + 1) * p <= q * p) by (nonlinear_arith)
        requires
            h + 1 <= q,
            p > 0,
    ;
}

/// The empty root one level up is the hash of two empty roots.
pub proof fn lemma_empty_root_step(level: nat)
    ensures
        empty_root(level + 1) == merkle_hash_spec(level, empty_root(level), empty_root(level)),
{
    lemma_pow2_step(level);
    assert(1 * pow2(level) >= 0) by (nonlinear_arith);
    lemma_node_empty(Seq::<Seq<u8>>::empty(), level, 1);
}

/// What adding one to `n` does to its digits, when the lowest `level` digits of
/// `n` are ones and the next is a zero: those digits flip, the rest stay.
pub proof fn lemma_shr_carry(n: nat, level: nat, j: nat)
    requires
        forall|i: nat| i < level ==> #[trigger] shr(n, i) % 2 == 1,
        shr(n, level) % 2 == 0,
    ensures
        j <= level ==> shr(n + 1, j) == shr(n, j) + 1,
        j > level ==> shr(n + 1, j) == shr(n, j),
    decreases j,
{
    if j > 0 {
        let i: nat = (j - 1) as nat;
        lemma_shr_carry(n, level, i);
        if j <= level {
            assert(shr(n, i) % 2 == 1);
        }
    }
}

/// The model of a tree: its leaves so far, and its depth.
pub struct TreeView {
    pub leaves: Seq<Seq<u8>>,
    pub depth: nat,
}

/// An append-only Merkle tree of note commitments with a fixed depth.
///
/// Its view is the sequence of the leaves appended so far, in order.
pub struct SaplingMerkleTree {
    depth: usize,
    size: u64,
    capacity: u64,
    frontier: Vec<FrHash>,
    last: FrHash,
    leaves: Ghost<Seq<Seq<u8>>>,
}

impl View for SaplingMerkleTree {
    type V = Seq<Seq<u8>>;

    closed spec fn view(&self) -> Seq<Seq<u8>> {
        self.leaves@
    }
}

impl SaplingMerkleTree {
    /// The depth of the tree.
    pub closed spec fn spec_depth(&self) -> nat {
        self.depth as nat
    }

    /// The leaves and the depth together.
    pub open spec fn model(&self) -> TreeView {
        TreeView { leaves: self@, depth: self.spec_depth() }
    }

    /// The frontier holds, at each height, the label of the last left-hand
    /// node whose subtree is full, if there is one.
    pub closed spec fn wf(&self) -> bool {
        &&& self.depth <= TREE_DEPTH
        &&& self.frontier@.len() == self.depth + 1
        &&& self.capacity == pow2(self.depth as nat)
        &&& self.size == self.leaves@.len()
        &&& self.size <= self.capacity
        &&& self.size >= 1 ==> self.last@ == self.leaves@[self.size - 1]
        &&& forall|l: int|
            0 <= l <= self.depth && shr(self.size as nat, l as nat) >= 1 ==> (#[trigger] self.frontier@[l])@
                == node(self.leaves@, l as nat, last_full_left(self.size as nat, l as nat) as nat)
    }

    /// The root of a tree is that of its leaves and its depth: two trees with
    /// the same leaves and the same depth have the same root, whatever was
    /// done with them, and whatever witnesses were taken of them.
    pub proof fn lemma_root_of_leaves(&self, other: &SaplingMerkleTree)
        requires
            self@ == other@,
            self.spec_depth() == other.spec_depth(),
        ensures
            merkle_root(self@, self.spec_depth()) == merkle_root(other@, other.spec_depth()),
    {
    }

    /// A well-formed tree holds no more leaves than its depth allows.
    pub proof fn lemma_size_bound(&self)
        requires
            self.wf(),
        ensures
            self.spec_depth() <= TREE_DEPTH,
            self@.len() <= pow2(self.spec_depth()),
            pow2(self.spec_depth()) <= 0x1_0000_0000,
    {
        lemma_pow2_monotonic(self.depth as nat, 32);
        lemma2_to64();
    }

    /// An empty tree of the full depth.
    pub fn new() -> (out: SaplingMerkleTree)
        ensures
            out.wf(),
            out@ == Seq::<Seq<u8>>::empty(),
            out.spec_depth() == TREE_DEPTH,
    {
        SaplingMerkleTree::with_depth(TREE_DEPTH)
    }

    /// An empty tree of the given depth, for up to `2^depth` leaves.
    pub fn with_depth(depth: usize) -> (out: SaplingMerkleTree)
        requires
            depth <= TREE_DEPTH,
        ensures
            out.wf(),
            out@ == Seq::<Seq<u8>>::empty(),
            out.spec_depth() == depth,
    {
        let mut frontier: Vec<FrHash> = Vec::new();
        let mut capacity: u64 = 1;
        frontier.push(FrHash::empty_leaf());
        let mut level: usize = 0;
        proof {
            lemma2_to64();
        }
        while level < depth
            invariant
                level <= depth <= TREE_DEPTH,
                frontier@.len() == level + 1,
                capacity == pow2(level as nat),
            decreases depth - level,
        {
            proof {
                lemma_pow2_step(level as nat);
                lemma_pow2_monotonic((level + 1) as nat, 32);
                lemma2_to64();
            }
            frontier.push(FrHash::empty_leaf());
            capacity = capacity * 2;
            level = level + 1;
        }
        proof {
            assert forall|l: nat| shr(0, l) == 0 by {
                lemma_shr_zero(l);
            }
        }
        SaplingMerkleTree {
            depth,
            size: 0,
            capacity,
            frontier,
            last: FrHash::empty_leaf(),
            leaves: Ghost(Seq::empty()),
        }
    }

    /// The depth of the tree.
    pub fn depth(&self) -> (out: usize)
        ensures
            out == self.spec_depth(),
    {
        self.depth
    }

    /// The number of leaves appended so far.
    pub fn size(&self) -> (out: u64)
        requires
            self.wf(),
        ensures
            out == self@.len(),
    {
        self.size
    }

    /// The leaf appended last.
    pub(crate) fn last_leaf(&self) -> (out: FrHash)
        requires
            self.wf(),
            self@.len() >= 1,
        ensures
            out@ == self@[self@.len() - 1],
    {
        self.last
    }

    /// The label that the frontier holds at height `level`.
    pub(crate) fn frontier_at(&self, level: usize) -> (out: FrHash)
        requires
            self.wf(),
            level <= self.spec_depth(),
        ensures
            shr(self@.len(), level as nat) >= 1 ==> out@ == node(
                self@,
                level as nat,
                last_full_left(self@.len(), level as nat) as nat,
            ),
    {
        self.frontier[level]
    }

    /// How many more leaves the tree can take.
    pub fn remaining(&self) -> (out: u64)
        requires
            self.wf(),
        ensures
            out == pow2(self.spec_depth()) - self@.len(),
    {
        self.capacity - self.size
    }

    /// Whether the tree holds all the leaves that its depth allows.
    pub fn is_full(&self) -> (out: bool)
        requires
            self.wf(),
        ensures
            out == (self@.len() == pow2(self.spec_depth())),
    {
        self.size == self.capacity
    }

    /// Appends `leaf` at the next position, or fails when the tree is full and
    /// leaves it as it was.
    pub fn append(&mut self, leaf: FrHash) -> (out: Result<(), TreeFull>)
        requires
            old(self).wf(),
        ensures
            final(self).wf(),
            final(self).spec_depth() == old(self).spec_depth(),
            out.is_ok() == (old(self)@.len() < pow2(old(self).spec_depth())),
            out.is_ok() ==> final(self)@ == old(self)@.push(leaf@),
            out.is_err() ==> final(self)@ == old(self)@,
    {
        if self.size == self.capacity {
            return Err(TreeFull {});
        }
        let ghost before: Seq<Seq<u8>> = self.leaves@;
        let ghost after: Seq<Seq<u8>> = self.leaves@.push(leaf@);
        let ghost n: nat = self.size as nat;
        let mut cur: FrHash = leaf;
        let mut level: usize = 0;
        let mut q: u64 = self.size;
        while q % 2 == 1
            invariant
                self.wf(),
                *self == *old(self),
                before == self.leaves@,
                after == before.push(leaf@),
                n == self.size,
                n < pow2(self.depth as nat),
                level <= self.depth,
                q == shr(n, level as nat),
                cur@ == node(after, level as nat, q as nat),
                forall|i: nat| i < level ==> #[trigger] shr(n, i) % 2 == 1,
            decreases self.depth - level,
        {
            proof {
                if level >= self.depth {
                    lemma_pow2_monotonic(self.depth as nat, level as nat);
                    lemma_shr_small(n, level as nat);
                }
                lemma_last_full_left(n, level as nat);
                lemma_node_push_complete(before, leaf@, level as nat, (q - 1) as nat);
            }
            cur = FrHash::combine(level, &self.frontier[level], &cur);
            level = level + 1;
            q = q / 2;
        }
        self.frontier.set(level, cur);
        self.last = leaf;
        self.size = self.size + 1;
        self.leaves = Ghost(after);
        proof {
            assert forall|l: int|
                0 <= l <= self.depth && shr(self.size as nat, l as nat) >= 1 implies (
            #[trigger] self.frontier@[l])@ == node(
                self.leaves@,
                l as nat,
                last_full_left(self.size as nat, l as nat) as nat,
            ) by {
                lemma_shr_carry(n, level as nat, l as nat);
                if l != level {
                    if l < level {
                        assert(shr(n, l as nat) % 2 == 1);
                    }
                    lemma_last_full_left(n, l as nat);
                    lemma_node_push_complete(
                        before,
                        leaf@,
                        l as nat,
                        last_full_left(n, l as nat) as nat,
                    );
                }
            }
        }
        Ok(())
    }

    /// The root of the tree: unfilled leaves count as empty.
    pub fn root(&self) -> (out: FrHash)
        requires
            self.wf(),
        ensures
            out@ == merkle_root(self@, self.spec_depth()),
    {
        if self.size == self.capacity {
            proof {
                lemma_shr_pow2(self.depth as nat);
            }
            return self.frontier[self.depth];
        }
        let ghost n: nat = self.size as nat;
        let mut cur: FrHash = FrHash::empty_leaf();
        let mut empty: FrHash = FrHash::empty_leaf();
        let mut level: usize = 0;
        let mut q: u64 = self.size;
        while level < self.depth
            invariant
                self.wf(),
                n == self.size,
                n < pow2(self.depth as nat),
                level <= self.depth,
                q == shr(n, level as nat),
                cur@ == node(self.leaves@, level as nat, q as nat),
                empty@ == empty_root(level as nat),
            decreases self.depth - level,
        {
            proof {
                lemma_empty_root_step(level as nat);
                lemma_shr_bounds(n, level as nat);
            }
            if q % 2 == 1 {
                proof {
                    lemma_last_full_left(n, level as nat);
                }
                cur = FrHash::combine(level, &self.frontier[level], &cur);
            } else {
                proof {
                    lemma_node_empty(self.leaves@, level as nat, (q + 1) as nat);
                }
                cur = FrHash::combine(level, &cur, &empty);
            }
            empty = FrHash::combine(level, &empty, &empty);
            level = level + 1;
            q = q / 2;
        }
        proof {
            lemma_shr_small(n, self.depth as nat);
        }
        cur
    }
}

impl Clone for SaplingMerkleTree {
    /// An independent copy: appending to it leaves this tree as it is.
    fn clone(&self) -> (out: SaplingMerkleTree)
        ensures
            out@ == self@,
            out.spec_depth() == self.spec_depth(),
            out.wf() == self.wf(),
    {
        let mut frontier: Vec<FrHash> = Vec::new();
        let mut i: usize = 0;
        while i < self.frontier.len()
            invariant
                i <= self.frontier@.len(),
                frontier@ == self.frontier@.take(i as int),
            decreases self.frontier@.len() - i,
        {
            frontier.push(self.frontier[i]);
            i = i + 1;
            assert(frontier@ =~= self.frontier@.take(i as int));
        }
        assert(frontier@ =~= self.frontier@);
        SaplingMerkleTree {
            depth: self.depth,
            size: self.size,
            capacity: self.capacity,
            frontier,
            last: self.last,
            leaves: self.leaves,
        }
    }
}

/// Nothing is left of zero, whatever is dropped.
pub proof fn lemma_shr_zero(level: nat)
    ensures
        shr(0, level) == 0,
    decreases level,
{
    if level > 0 {
        lemma_shr_zero((level - 1) as nat);
    }
}

} // verus!
