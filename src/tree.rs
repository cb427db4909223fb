//! The incremental Merkle accumulator.
use crate::digest::{hash_pair, hash_children, zero_digest, Digest};
use crate::model::{
    bit, empty_subtree, lemma_node_past_end, lemma_node_push, lemma_shift_bounds, lemma_shift_compose,
    lemma_shift_pred, lemma_shift_step,
    merkle_root, node,
};
use vstd::arithmetic::power2::*;
use vstd::prelude::*;

verus! {

/// Why an accumulator operation failed.
#[derive(Clone, Copy, Debug, PartialEq, Eq, Structural)]
pub enum IncrementalMerkleTreeError {
    /// Every leaf slot that may be filled is filled.
    TreeFull,
    /// Appending a leaf found no height at which it settles.
    LoopDidNotTerminate,
    /// A requested leaf index lies outside the appended leaves.
    IndexOutOfBounds,
}

/// An append-only Merkle tree of height `HEIGHT` over Keccak-256 digests.
/// It holds `2^HEIGHT` leaf slots, of which at most `2^HEIGHT - 1` are
/// filled: the rightmost slot always stays empty.
pub struct IncrementalMerkleTree<const HEIGHT: usize> {
    /// `zero_hashes[h]` is the digest of an empty subtree of depth `h`.
    zero_hashes: Vec<Digest>,
    /// `active_branch[h]`, where bit `h` of `size` is set, is the last
    /// completed node of depth `h`, still waiting for its right sibling.
    active_branch: Vec<Digest>,
    /// The number of leaves appended.
    size: usize,
    /// `2^HEIGHT`, the number of leaf slots.
    leaf_slots: usize,
    /// The nodes of the complete tree by generalized index minus one
    /// (the root has generalized index 1, the children of `i` are `2i` and
    /// `2i + 1`). Leaf slots are kept up to date; the others are to be
    /// trusted only while `cache_valid` holds.
    intermediates: Vec<Digest>,
    /// Whether the inner nodes of `intermediates` are up to date.
    cache_valid: bool,
    /// The leaves appended so far, in order.
    leaves: Ghost<Seq<Seq<u8>>>,
}

impl<const HEIGHT: usize> IncrementalMerkleTree<HEIGHT> {
    /// The leaves appended so far, in order.
    pub closed spec fn leaves(&self) -> Seq<Seq<u8>> {
        self.leaves@
    }

    /// What `root` returns: the zero digest while no leaf has been appended,
    /// else the root of the tree whose first slots hold the leaves.
    pub open spec fn root_spec(&self) -> Seq<u8> {
        if self.leaves().len() == 0 {
            zero_digest()
        } else {
            merkle_root(self.leaves(), HEIGHT as nat)
        }
    }

    /// The table of empty-subtree digests, by depth.
    pub closed spec fn zero_hashes_spec(&self) -> Seq<Seq<u8>> {
        Seq::new(self.zero_hashes@.len(), |h: int| self.zero_hashes@[h].bytes@)
    }

    /// The well-formedness of the accumulator.
    pub closed spec fn wf(&self) -> bool {
        &&& self.zero_hashes@.len() == HEIGHT
        &&& self.active_branch@.len() == HEIGHT
        &&& forall|h: int|
            0 <= h < HEIGHT ==> #[trigger] self.zero_hashes@[h].bytes@ == empty_subtree(h as nat)
        &&& self.leaf_slots == pow2(HEIGHT as nat)
        &&& self.size == self.leaves@.len()
        &&& self.size < self.leaf_slots
        &&& forall|h: int|
            0 <= h < HEIGHT && bit(self.size as nat, h as nat) ==> #[trigger] self.active_branch@[h].bytes@
                == node(self.leaves@, h as nat, self.size as nat / pow2(h as nat) - 1)
        &&& 2 * self.leaf_slots - 1 <= usize::MAX
        &&& self.intermediates@.len() == 2 * self.leaf_slots - 1
        &&& forall|i: int|
            0 <= i < self.size ==> #[trigger] self.intermediates@[self.leaf_slots + i - 1].bytes@
                == self.leaves@[i]
    }

    /// Creates an empty accumulator and precomputes the empty-subtree digests.
    /// A height of zero gives an accumulator that accepts no leaf.
    pub fn new() -> (t: Self)
        requires
            2 * pow2(HEIGHT as nat) - 1 <= usize::MAX,
        ensures
            t.wf(),
            t.leaves() == Seq::<Seq<u8>>::empty(),
            t.root_spec() == zero_digest(),
            t.zero_hashes_spec().len() == HEIGHT,
            forall|h: int| 0 <= h < HEIGHT ==> #[trigger] t.zero_hashes_spec()[h] == empty_subtree(h as nat),
    {
        let mut zero_hashes: Vec<Digest> = Vec::new();
        let mut active_branch: Vec<Digest> = Vec::new();
        let mut leaf_slots: usize = 1;
        let mut h: usize = 0;
        proof {
            lemma2_to64();
        }
        while h < HEIGHT
            invariant
                h <= HEIGHT,
                zero_hashes@.len() == h,
                active_branch@.len() == h,
                forall|j: int| 0 <= j < h ==> #[trigger] zero_hashes@[j].bytes@ == empty_subtree(j as nat),
                leaf_slots == pow2(h as nat),
                2 * pow2(HEIGHT as nat) - 1 <= usize::MAX,
            decreases HEIGHT - h,
        {
            let next = if h == 0 {
                Digest::zero()
            } else {
                hash_children(&zero_hashes[h - 1], &zero_hashes[h - 1])
            };
            zero_hashes.push(next);
            active_branch.push(Digest::zero());
            proof {
                lemma_pow2_unfold((h + 1) as nat);
                lemma_pow2_strictly_increases((h + 1) as nat, HEIGHT as nat + 1);
                lemma_pow2_unfold(HEIGHT as nat + 1);
            }
            leaf_slots = leaf_slots * 2;
            h = h + 1;
        }
        proof {
            lemma_pow2_pos(HEIGHT as nat);
        }
        let intermediates = vec![Digest::zero(); leaf_slots - 1 + leaf_slots];
        let t = IncrementalMerkleTree {
            zero_hashes,
            active_branch,
            size: 0,
            leaf_slots,
            intermediates,
            cache_valid: false,
            leaves: Ghost(Seq::empty()),
        };
        assert forall|h: int| 0 <= h < HEIGHT implies !#[trigger] bit(0, h as nat) by {
            lemma_pow2_pos(h as nat);
        }
        t
    }

    /// In every well-formed accumulator the empty-subtree table starts with
    /// the zero digest, and each later entry is the hash of the previous
    /// entry concatenated with itself.
    pub proof fn lemma_zero_hashes_table(&self)
        requires
            self.wf(),
        ensures
            self.zero_hashes_spec().len() == HEIGHT,
            HEIGHT >= 1 ==> self.zero_hashes_spec()[0] == zero_digest(),
            forall|h: int|
                1 <= h < HEIGHT ==> #[trigger] self.zero_hashes_spec()[h] == hash_pair(
                    self.zero_hashes_spec()[h - 1],
                    self.zero_hashes_spec()[h - 1],
                ),
    {
        assert forall|h: int| 1 <= h < HEIGHT implies #[trigger] self.zero_hashes_spec()[h]
            == hash_pair(self.zero_hashes_spec()[h - 1], self.zero_hashes_spec()[h - 1]) by {
            assert(self.zero_hashes@[h].bytes@ == empty_subtree(h as nat));
            assert(self.zero_hashes@[h - 1].bytes@ == empty_subtree((h - 1) as nat));
        }
        if HEIGHT >= 1 {
            assert(self.zero_hashes@[0].bytes@ == empty_subtree(0));
        }
    }

    /// The number of leaves appended so far.
    pub fn size(&self) -> (n: usize)
        requires
            self.wf(),
        ensures
            n == self.leaves().len(),
    {
        self.size
    }

    /// The digest of an empty subtree of depth `height`.
    pub fn zero_hash(&self, height: usize) -> (d: Digest)
        requires
            self.wf(),
            height < HEIGHT,
        ensures
            d.bytes@ == empty_subtree(height as nat),
    {
        self.zero_hashes[height]
    }

    /// The root digest: the zero digest while the accumulator is empty, else
    /// the root of the tree whose first leaf slots hold the appended leaves
    /// and whose other slots hold the zero digest.
    pub fn root(&self) -> (r: Digest)
        requires
            self.wf(),
        ensures
            r.bytes@ == self.root_spec(),
    {
        if self.size == 0 {
            return Digest::zero();
        }
        let ghost n = self.size as nat;
        let ghost leaves = self.leaves@;
        let mut acc = Digest::zero();
        let mut s: usize = self.size;
        let mut h: usize = 0;
        proof {
            lemma2_to64();
        }
        while h < HEIGHT
            invariant
                self.wf(),
                n == self.size,
                leaves == self.leaves@,
                h <= HEIGHT,
                s == n / pow2(h as nat),
                acc.bytes@ == node(leaves, h as nat, s as int),
            decreases HEIGHT - h,
        {
            proof {
                lemma_shift_bounds(n, h as nat);
                lemma_shift_step(n, h as nat);
            }
            if s % 2 == 1 {
                assert(bit(n, h as nat));
                acc = hash_children(&self.active_branch[h], &acc);
                assert(2 * (s / 2) == s - 1);
            } else {
                proof {
                    lemma_node_past_end(leaves, h as nat, s + 1);
                }
                acc = hash_children(&acc, &self.zero_hashes[h]);
            }
            s = s / 2;
            h = h + 1;
        }
        proof {
            lemma_shift_bounds(n, HEIGHT as nat);
            assert(s == 0) by (nonlinear_arith)
                requires
                    n < pow2(HEIGHT as nat),
                    s * pow2(HEIGHT as nat) <= n,
            ;
        }
        acc
    }

    /// Appends a leaf in the next free slot, updating the active branch in
    /// as many hashes as the new leaf count has trailing one bits, plus one.
    /// Fails with `TreeFull`, changing nothing, when `2^HEIGHT - 1` leaves
    /// are already there.
    pub fn append(&mut self, leaf: Digest) -> (r: Result<(), IncrementalMerkleTreeError>)
        requires
            old(self).wf(),
        ensures
            final(self).wf(),
            r is Ok <==> old(self).leaves().len() + 1 < pow2(HEIGHT as nat),
            r is Ok ==> final(self).leaves() == old(self).leaves().push(leaf.bytes@),
            r is Ok ==> final(self).zero_hashes_spec() == old(self).zero_hashes_spec(),
            r is Err ==> r == Err::<(), IncrementalMerkleTreeError>(
                IncrementalMerkleTreeError::TreeFull,
            ),
            r is Err ==> *final(self) == *old(self),
    {
        if self.size + 1 > self.leaf_slots - 1 {
            return Err(IncrementalMerkleTreeError::TreeFull);
        }
        let ghost n = self.size as nat;
        let ghost old_leaves = self.leaves@;
        let ghost new_leaves = old_leaves.push(leaf.bytes@);
        let new_size = self.size + 1;
        let ghost m = new_size as nat;
        let mut carry = leaf;
        let mut s: usize = new_size;
        let mut h: usize = 0;
        proof {
            lemma2_to64();
        }
        while h < HEIGHT
            invariant
                *self == *old(self),
                self.wf(),
                n == self.size,
                old_leaves == self.leaves@,
                new_leaves == old_leaves.push(leaf.bytes@),
                m == new_size,
                m == n + 1,
                m < pow2(HEIGHT as nat),
                h <= HEIGHT,
                s >= 1,
                s == m / pow2(h as nat),
                m == s * pow2(h as nat),
                forall|j: int| 0 <= j < h ==> !#[trigger] bit(m, j as nat),
                carry.bytes@ == node(new_leaves, h as nat, s - 1),
            decreases HEIGHT - h,
        {
            proof {
                lemma_shift_step(m, h as nat);
                lemma_shift_step(n, h as nat);
                lemma_shift_pred(m, h as nat, s as nat);
                lemma_pow2_pos(h as nat);
            }
            if s % 2 == 1 {
                proof {
                    assert forall|j: int| h < j < HEIGHT implies #[trigger] bit(m, j as nat)
                        == bit(n, j as nat) && m / pow2(j as nat) == n / pow2(j as nat) by {
                        lemma_shift_compose(m, (h + 1) as nat, (j - h - 1) as nat);
                        lemma_shift_compose(n, (h + 1) as nat, (j - h - 1) as nat);
                    }
                    assert forall|j: int|
                        h < j < HEIGHT && bit(n, j as nat) implies #[trigger] node(
                        new_leaves,
                        j as nat,
                        n / pow2(j as nat) - 1,
                    ) == node(old_leaves, j as nat, n / pow2(j as nat) - 1) by {
                        lemma_shift_bounds(n, j as nat);
                        lemma_pow2_pos(j as nat);
                        assert(n / pow2(j as nat) >= 1);
                        lemma_node_push(old_leaves, leaf.bytes@, j as nat, n / pow2(j as nat) - 1);
                    }
                }
                let slot = self.leaf_slots - 1 + self.size;
                self.active_branch.set(h, carry);
                self.size = new_size;
                self.intermediates.set(slot, leaf);
                self.cache_valid = false;
                self.leaves = Ghost(new_leaves);
                proof {
                    assert forall|j: int|
                        0 <= j < HEIGHT && bit(self.size as nat, j as nat) implies #[trigger] self.active_branch@[j].bytes@
                        == node(self.leaves@, j as nat, self.size as nat / pow2(j as nat) - 1) by {
                        if j > h {
                            assert(bit(n, j as nat));
                        }
                    }
                    assert forall|i: int| 0 <= i < self.size implies #[trigger] self.intermediates@[self.leaf_slots + i - 1].bytes@
                        == self.leaves@[i] by {
                        if i < n {
                            assert(old(self).intermediates@[self.leaf_slots + i - 1].bytes@ == old_leaves[i]);
                        }
                    }
                }
                return Ok(());
            }
            proof {
                assert(bit(n, h as nat));
                assert((s - 1) * pow2(h as nat) <= n) by (nonlinear_arith)
                    requires
                        m == s * pow2(h as nat),
                        m == n + 1,
                        pow2(h as nat) >= 1,
                ;
                lemma_node_push(old_leaves, leaf.bytes@, h as nat, s - 2);
                assert(m == (s / 2) * pow2((h + 1) as nat)) by (nonlinear_arith)
                    requires
                        m == s * pow2(h as nat),
                        s % 2 == 0,
                        pow2((h + 1) as nat) == 2 * pow2(h as nat),
                ;
            }
            carry = hash_children(&self.active_branch[h], &carry);
            s = s / 2;
            h = h + 1;
        }
        proof {
            lemma_pow2_pos(HEIGHT as nat);
            assert(m >= pow2(HEIGHT as nat)) by (nonlinear_arith)
                requires
                    m == s * pow2(HEIGHT as nat),
                    s >= 1,
            ;
        }
        Err(IncrementalMerkleTreeError::LoopDidNotTerminate)
    }
}

} // verus!
