//! The mathematical model of the note commitment tree: a complete binary tree
//! of fixed depth whose leaves are filled from the left, and whose unfilled
//! leaves carry the label of the empty leaf.

use crate::hash::{empty_leaf, merkle_hash_spec};
use vstd::arithmetic::power2::{lemma_pow2_pos, lemma_pow2_unfold, pow2};
use vstd::prelude::*;

verus! {

/// The label of the node at height `level` that is the `index`-th from the
/// left among the nodes of that height, in the tree whose first leaves are
/// `leaves`. It is the root of the subtree over the leaf positions from
/// `index * 2^level` up to, and not including, `(index + 1) * 2^level`.
pub open spec fn node(leaves: Seq<Seq<u8>>, level: nat, index: nat) -> Seq<u8>
    decreases level,
{
    if level == 0 {
        if index < leaves.len() {
            leaves[index as int]
        } else {
            empty_leaf()
        }
    } else {
        merkle_hash_spec(
            (level - 1) as nat,
            node(leaves, (level - 1) as nat, 2 * index),
            node(leaves, (level - 1) as nat, 2 * index + 1),
        )
    }
}

/// The label of the root of a subtree of height `level` that holds no leaf.
pub open spec fn empty_root(level: nat) -> Seq<u8> {
    node(Seq::empty(), level, 0)
}

/// The root of the tree of depth `depth` whose first leaves are `leaves`.
pub open spec fn merkle_root(leaves: Seq<Seq<u8>>, depth: nat) -> Seq<u8> {
    node(leaves, depth, 0)
}

/// `n` with its `level` lowest binary digits dropped: the index, among the
/// nodes at height `level`, of the one above leaf position `n`.
pub open spec fn shr(n: nat, level: nat) -> nat
    decreases level,
{
    if level == 0 {
        n
    } else {
        shr(n, (level - 1) as nat) / 2
    }
}

/// The index at height `level` of the sibling of the node above leaf `n`.
pub open spec fn sibling(n: nat, level: nat) -> nat {
    if shr(n, level) % 2 == 1 {
        (shr(n, level) - 1) as nat
    } else {
        shr(n, level) + 1
    }
}

/// The first leaf position to the right of the subtree of height `level`
/// that holds leaf `n`.
pub open spec fn right_edge(n: nat, level: nat) -> nat {
    (shr(n, level) + 1) * pow2(level)
}

/// Whether `a` and `b` hold the same thing at leaf position `j`: the same
/// label, or nothing in both.
pub open spec fn same_at(a: Seq<Seq<u8>>, b: Seq<Seq<u8>>, j: int) -> bool {
    &&& j < a.len() <==> j < b.len()
    &&& 0 <= j < a.len() ==> a[j] == b[j]
}

/// The node above leaf `n` at height `level` covers `n`.
pub proof fn lemma_shr_bounds(n: nat, level: nat)
    ensures
        shr(n, level) * pow2(level) <= n < (shr(n, level) + 1) * pow2(level),
    decreases level,
{
    if level == 0 {
        vstd::arithmetic::power2::lemma2_to64();
    } else {
        let l: nat = (level - 1) as nat;
        lemma_shr_bounds(n, l);
        lemma_pow2_unfold(level);
        lemma_pow2_pos(l);
        let q: int = shr(n, l) as int;
        let p: int = pow2(l) as int;
        let h: int = q / 2;
        assert(h * (2 * p) <= q * p && (q + 1) * p <= (h + 1) * (2 * p)) by (nonlinear_arith)
            requires
                h == q / 2,
                q >= 0,
                p > 0,
        ;
    }
}

/// A power of two is positive and doubles with each step.
pub proof fn lemma_pow2_step(level: nat)
    ensures
        pow2(level) > 0,
        pow2(level + 1) == 2 * pow2(level),
{
    lemma_pow2_pos(level);
    lemma_pow2_unfold(level + 1);
}

/// Powers of two grow with the exponent.
pub proof fn lemma_pow2_monotonic(a: nat, b: nat)
    requires
        a <= b,
    ensures
        pow2(a) <= pow2(b),
    decreases b - a,
{
    if a < b {
        lemma_pow2_monotonic(a, (b - 1) as nat);
        lemma_pow2_step((b - 1) as nat);
    }
}

/// A subtree that lies wholly to the right of the leaves is empty.
pub proof fn lemma_node_empty(leaves: Seq<Seq<u8>>, level: nat, index: nat)
    requires
        index * pow2(level) >= leaves.len(),
    ensures
        node(leaves, level, index) == empty_root(level),
    decreases level,
{
    if level == 0 {
        vstd::arithmetic::power2::lemma2_to64();
    } else {
        let l: nat = (level - 1) as nat;
        lemma_pow2_step(l);
        let p: int = pow2(l) as int;
        let i: int = index as int;
        assert((2 * i) * p == i * (2 * p) && (2 * i + 1) * p >= i * (2 * p)) by (nonlinear_arith)
            requires
                p > 0,
                i >= 0,
        ;
        lemma_node_empty(leaves, l, 2 * index);
        lemma_node_empty(leaves, l, 2 * index + 1);
        assert(1 * p >= 0) by (nonlinear_arith)
            requires
                p > 0,
        ;
        lemma_node_empty(Seq::<Seq<u8>>::empty(), l, 1);
    }
}

/// The label of a node depends only on the leaf positions below it.
pub proof fn lemma_node_agree(a: Seq<Seq<u8>>, b: Seq<Seq<u8>>, level: nat, index: nat)
    requires
        forall|j: int|
            index * pow2(level) <= j < (index + 1) * pow2(level) ==> #[trigger] same_at(a, b, j),
    ensures
        node(a, level, index) == node(b, level, index),
    decreases level,
{
    if level == 0 {
        vstd::arithmetic::power2::lemma2_to64();
        assert(same_at(a, b, index as int));
    } else {
        let l: nat = (level - 1) as nat;
        lemma_pow2_step(l);
        let p: int = pow2(l) as int;
        let i: int = index as int;
        let lo: nat = index * pow2(level);
        assert((2 * index) * pow2(l) == lo && (2 * index + 1) * pow2(l) == lo + pow2(l) && (2
            * index + 1 + 1) * pow2(l) == lo + 2 * pow2(l) && (index + 1) * pow2(level) == lo + 2
            * pow2(l)) by (nonlinear_arith)
            requires
                pow2(level) == 2 * pow2(l),
                lo == index * pow2(level),
        ;
        assert forall|j: int| (2 * index) * pow2(l) <= j < (2 * index + 1) * pow2(l) implies #[trigger] same_at(
            a,
            b,
            j,
        ) by {}
        lemma_node_agree(a, b, l, 2 * index);
        assert forall|j: int|
            (2 * index + 1) * pow2(l) <= j < (2 * index + 1 + 1) * pow2(l) implies #[trigger] same_at(
            a,
            b,
            j,
        ) by {}
        lemma_node_agree(a, b, l, 2 * index + 1);
    }
}

/// Appending a leaf leaves every subtree alone that was already full.
pub proof fn lemma_node_push_complete(leaves: Seq<Seq<u8>>, leaf: Seq<u8>, level: nat, index: nat)
    requires
        (index + 1) * pow2(level) <= leaves.len(),
    ensures
        node(leaves.push(leaf), level, index) == node(leaves, level, index),
{
    assert forall|j: int|
        index * pow2(level) <= j < (index + 1) * pow2(level) implies #[trigger] same_at(
        leaves.push(leaf),
        leaves,
        j,
    ) by {
        lemma_pow2_pos(level);
        let p: int = pow2(level) as int;
        let i: int = index as int;
        assert(i * p >= 0) by (nonlinear_arith)
            requires
                i >= 0,
                p > 0,
        ;
    }
    lemma_node_agree(leaves.push(leaf), leaves, level, index);
}

/// A subtree over the leaves from position `m * 2^level` on is the subtree
/// `m` places further right in the whole tree.
pub proof fn lemma_node_skip(leaves: Seq<Seq<u8>>, m: nat, level: nat, index: nat)
    requires
        m * pow2(level) <= leaves.len(),
    ensures
        node(leaves.skip((m * pow2(level)) as int), level, index) == node(leaves, level, index + m),
    decreases level,
{
    if level == 0 {
        vstd::arithmetic::power2::lemma2_to64();
    } else {
        let l: nat = (level - 1) as nat;
        lemma_pow2_step(l);
        let p: int = pow2(l) as int;
        let mm: int = m as int;
        assert((2 * mm) * p == mm * (2 * p)) by (nonlinear_arith);
        lemma_node_skip(leaves, 2 * m, l, 2 * index);
        lemma_node_skip(leaves, 2 * m, l, 2 * index + 1);
    }
}

/// Nothing is left of a number below `2^level` once `level` digits are dropped.
pub proof fn lemma_shr_small(n: nat, level: nat)
    requires
        n < pow2(level),
    ensures
        shr(n, level) == 0,
{
    lemma_shr_bounds(n, level);
    lemma_pow2_pos(level);
    let q: int = shr(n, level) as int;
    let p: int = pow2(level) as int;
    if q >= 1 {
        assert(q * p >= p) by (nonlinear_arith)
            requires
                q >= 1,
                p > 0,
        ;
    }
}

/// Dropping `level` digits of `2^level` leaves one.
pub proof fn lemma_shr_pow2(level: nat)
    ensures
        shr(pow2(level), level) == 1,
{
    let n: nat = pow2(level);
    lemma_shr_bounds(n, level);
    lemma_pow2_pos(level);
    let q: int = shr(n, level) as int;
    let p: int = pow2(level) as int;
    if q >= 2 {
        assert(q * p >= 2 * p) by (nonlinear_arith)
            requires
                q >= 2,
                p > 0,
        ;
    }
    if q == 0 {
        assert((q + 1) * p == p) by (nonlinear_arith)
            requires
                q == 0,
        ;
    }
}

/// The leftmost leaf has nothing but itself to its left.
pub proof fn lemma_right_edge_zero(n: nat)
    ensures
        right_edge(n, 0) == n + 1,
{
    vstd::arithmetic::power2::lemma2_to64();
}

/// One level up, the right edge stays where the node is a right child, and
/// moves past the sibling where it is a left child.
pub proof fn lemma_right_edge_step(n: nat, level: nat)
    ensures
        shr(n, level) % 2 == 1 ==> right_edge(n, level + 1) == right_edge(n, level),
        shr(n, level) % 2 == 0 ==> right_edge(n, level + 1) == right_edge(n, level) + pow2(level),
{
    lemma_pow2_step(level);
    let q: int = shr(n, level) as int;
    let h: int = shr(n, level + 1) as int;
    let p: int = pow2(level) as int;
    let pp: int = pow2(level + 1) as int;
    assert(h == q / 2);
    if q % 2 == 1 {
        assert((h + 1) * pp == (q + 1) * p) by (nonlinear_arith)
            requires
                q == 2 * h + 1,
                pp == 2 * p,
        ;
    } else {
        assert((h + 1) * pp == (q + 1) * p + p) by (nonlinear_arith)
            requires
                q == 2 * h,
                pp == 2 * p,
        ;
    }
}

/// The right edge moves right, if at all, as the level rises.
pub proof fn lemma_right_edge_monotonic(n: nat, a: nat, b: nat)
    requires
        a <= b,
    ensures
        right_edge(n, a) <= right_edge(n, b),
    decreases b - a,
{
    if a < b {
        lemma_right_edge_monotonic(n, a, (b - 1) as nat);
        lemma_right_edge_step(n, (b - 1) as nat);
    }
}

/// At the root of a tree that holds leaf `n`, the right edge is the capacity.
pub proof fn lemma_right_edge_top(n: nat, depth: nat)
    requires
        n < pow2(depth),
    ensures
        right_edge(n, depth) == pow2(depth),
{
    lemma_shr_small(n, depth);
    assert((0 + 1) * pow2(depth) == pow2(depth)) by (nonlinear_arith);
}

/// Adding one raises the index at any height by one at most.
pub proof fn lemma_shr_succ(n: nat, level: nat)
    ensures
        shr(n + 1, level) == shr(n, level) || shr(n + 1, level) == shr(n, level) + 1,
    decreases level,
{
    if level > 0 {
        lemma_shr_succ(n, (level - 1) as nat);
    }
}

} // verus!
