//! The mathematical tree that the accumulator stands for, and facts about it.
use crate::digest::{hash_pair, keccak_of, zero_digest};
use vstd::arithmetic::div_mod::*;
use vstd::arithmetic::power2::*;
use vstd::prelude::*;

verus! {

/// The digest of a perfectly empty subtree of depth `h`.
pub open spec fn empty_subtree(h: nat) -> Seq<u8>
    decreases h,
{
    if h == 0 {
        zero_digest()
    } else {
        hash_pair(empty_subtree((h - 1) as nat), empty_subtree((h - 1) as nat))
    }
}

/// Leaf slot `i`: the appended leaf there, or the zero digest past the end.
pub open spec fn leaf_at(leaves: Seq<Seq<u8>>, i: int) -> Seq<u8> {
    if 0 <= i < leaves.len() {
        leaves[i]
    } else {
        zero_digest()
    }
}

/// The digest of the node at `depth` above the leaves with position `index`
/// among the nodes of that depth, built bottom-up from the leaf slots.
pub open spec fn node(leaves: Seq<Seq<u8>>, depth: nat, index: int) -> Seq<u8>
    decreases depth,
{
    if depth == 0 {
        leaf_at(leaves, index)
    } else {
        hash_pair(
            node(leaves, (depth - 1) as nat, 2 * index),
            node(leaves, (depth - 1) as nat, 2 * index + 1),
        )
    }
}

/// The root of a tree of the given height whose first leaf slots hold
/// `leaves` and whose other slots hold the zero digest.
pub open spec fn merkle_root(leaves: Seq<Seq<u8>>, height: nat) -> Seq<u8> {
    node(leaves, height, 0)
}

/// Bit `h` of `n`.
pub open spec fn bit(n: nat, h: nat) -> bool {
    (n / pow2(h)) % 2 == 1
}

/// A node all of whose leaf slots lie past the appended leaves is the empty
/// subtree of its depth.
pub proof fn lemma_node_past_end(leaves: Seq<Seq<u8>>, depth: nat, index: int)
    requires
        index >= 0,
        index * pow2(depth) >= leaves.len(),
    ensures
        node(leaves, depth, index) == empty_subtree(depth),
    decreases depth,
{
    if depth > 0 {
        let d = (depth - 1) as nat;
        lemma_pow2_unfold(depth);
        assert(index * pow2(depth) == (2 * index) * pow2(d)) by (nonlinear_arith)
            requires
                pow2(depth) == 2 * pow2(d),
        ;
        assert((2 * index + 1) * pow2(d) >= (2 * index) * pow2(d)) by (nonlinear_arith)
            requires
                index >= 0,
        ;
        lemma_node_past_end(leaves, d, 2 * index);
        lemma_node_past_end(leaves, d, 2 * index + 1);
    } else {
        lemma2_to64();
    }
}

/// Appending a leaf leaves unchanged every node whose leaf slots all lie
/// among the leaves already there.
pub proof fn lemma_node_push(leaves: Seq<Seq<u8>>, leaf: Seq<u8>, depth: nat, index: int)
    requires
        index >= 0,
        (index + 1) * pow2(depth) <= leaves.len(),
    ensures
        node(leaves.push(leaf), depth, index) == node(leaves, depth, index),
    decreases depth,
{
    lemma_pow2_pos(depth);
    if depth > 0 {
        let d = (depth - 1) as nat;
        lemma_pow2_unfold(depth);
        assert((index + 1) * pow2(depth) == (2 * index + 2) * pow2(d)) by (nonlinear_arith)
            requires
                pow2(depth) == 2 * pow2(d),
        ;
        assert((2 * index + 1) * pow2(d) <= (2 * index + 2) * pow2(d)) by (nonlinear_arith)
            requires
                index >= 0,
        ;
        lemma_node_push(leaves, leaf, d, 2 * index);
        lemma_node_push(leaves, leaf, d, 2 * index + 1);
    } else {
        lemma2_to64();
        assert(index < leaves.len()) by (nonlinear_arith)
            requires
                (index + 1) * pow2(depth) <= leaves.len(),
                pow2(depth) == 1,
        ;
    }
}

/// Shifting `n` right by `h` and then by one more is shifting it by `h + 1`.
pub proof fn lemma_shift_step(n: nat, h: nat)
    ensures
        n / pow2(h) / 2 == n / pow2(h + 1),
        pow2(h + 1) == 2 * pow2(h),
{
    lemma_pow2_pos(h);
    lemma_pow2_unfold(h + 1);
    lemma_div_denominator(n as int, pow2(h) as int, 2);
    assert(pow2(h) * 2 == pow2(h + 1));
}

/// Shifting `n` right by `a` and then by `b` is shifting it by `a + b`.
pub proof fn lemma_shift_compose(n: nat, a: nat, b: nat)
    ensures
        n / pow2(a) / pow2(b) == n / pow2(a + b),
{
    lemma_pow2_pos(a);
    lemma_pow2_pos(b);
    lemma_pow2_adds(a, b);
    lemma_div_denominator(n as int, pow2(a) as int, pow2(b) as int);
}

/// When the low `h` bits of `m > 0` are clear, `m - 1` shifted right by `h`
/// is one less than `m` shifted right by `h`.
pub proof fn lemma_shift_pred(m: nat, h: nat, s: nat)
    requires
        s >= 1,
        m == s * pow2(h),
    ensures
        (m - 1) as nat / pow2(h) == s - 1,
{
    lemma_pow2_pos(h);
    let d = pow2(h) as int;
    assert(m - 1 == (s - 1) * d + (d - 1)) by (nonlinear_arith)
        requires
            m == s * d,
    ;
    lemma_fundamental_div_mod_converse_div(m - 1, d, s - 1, d - 1);
}

/// Bounds of `n / pow2(h)` that place `n` between two consecutive multiples.
pub proof fn lemma_shift_bounds(n: nat, h: nat)
    ensures
        (n / pow2(h)) * pow2(h) <= n,
        n < (n / pow2(h) + 1) * pow2(h),
{
    lemma_pow2_pos(h);
    lemma_fundamental_div_mod(n as int, pow2(h) as int);
    lemma_mod_bound(n as int, pow2(h) as int);
    assert((n / pow2(h) + 1) * pow2(h) == (n / pow2(h)) * pow2(h) + pow2(h)) by (nonlinear_arith);
}

/// The node at `depth >= 1` on the left edge of a tree that holds two
/// leaves differs between the two orders of the leaves, unless Keccak-256
/// maps two distinct inputs to one digest.
pub proof fn lemma_left_edge_order(a: Seq<u8>, b: Seq<u8>, depth: nat)
    requires
        a.len() == 32,
        b.len() == 32,
        a != b,
        depth >= 1,
    ensures
        node(seq![a, b], depth, 0) == node(seq![b, a], depth, 0) ==> exists|x: Seq<u8>, y: Seq<u8>|
            x != y && #[trigger] keccak_of(x) == #[trigger] keccak_of(y),
    decreases depth,
{
    let ab = seq![a, b];
    let ba = seq![b, a];
    if node(ab, depth, 0) == node(ba, depth, 0) {
        if depth == 1 {
            assert(node(ab, 0, 0) == a);
            assert(node(ab, 0, 1) == b);
            assert(node(ba, 0, 0) == b);
            assert(node(ba, 0, 1) == a);
            assert((a + b).subrange(0, 32) =~= a);
            assert((b + a).subrange(0, 32) =~= b);
            assert(keccak_of(a + b) == keccak_of(b + a));
            assert(a + b != b + a);
            assert(exists|x: Seq<u8>, y: Seq<u8>|
                x != y && #[trigger] keccak_of(x) == #[trigger] keccak_of(y)) by {
                assert(a + b != b + a && keccak_of(a + b) == keccak_of(b + a));
            }
        } else {
            let d = (depth - 1) as nat;
            lemma_pow2_pos(d);
            lemma_pow2_strictly_increases(0, d);
            lemma2_to64();
            lemma_node_past_end(ab, d, 1);
            lemma_node_past_end(ba, d, 1);
            let x = node(ab, d, 0) + empty_subtree(d);
            let y = node(ba, d, 0) + empty_subtree(d);
            assert(keccak_of(x) == keccak_of(y));
            if x == y {
                assert(x.subrange(0, node(ab, d, 0).len() as int) =~= node(ab, d, 0));
                assert(y.subrange(0, node(ba, d, 0).len() as int) =~= node(ba, d, 0));
                lemma_left_edge_order(a, b, d);
            } else {
                assert(exists|x: Seq<u8>, y: Seq<u8>|
                    x != y && #[trigger] keccak_of(x) == #[trigger] keccak_of(y)) by {
                    assert(x != y && keccak_of(x) == keccak_of(y));
                }
            }
        }
    }
}

/// Appending two distinct leaves in one order and in the other gives two
/// different roots, unless Keccak-256 maps two distinct inputs to one digest.
pub proof fn lemma_order_sensitive(a: Seq<u8>, b: Seq<u8>, height: nat)
    requires
        a.len() == 32,
        b.len() == 32,
        a != b,
        height >= 1,
    ensures
        merkle_root(seq![a, b], height) == merkle_root(seq![b, a], height) ==> exists|
            x: Seq<u8>,
            y: Seq<u8>,
        | x != y && #[trigger] keccak_of(x) == #[trigger] keccak_of(y),
{
    lemma_left_edge_order(a, b, height);
}

} // verus!
