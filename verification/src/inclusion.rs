//! Inclusion proofs: generating the sibling path for a leaf and checking a
//! candidate path against a trusted root digest.

use vstd::prelude::*;

use crate::digest::{sha256, sha256_of, Digest};
use crate::tree::{lemma_wf_count_pos, lemma_wf_leaf_count, MerkleError, MerkleTree, Position};

verus! {

impl MerkleTree {
    /// The sibling steps for the leaf at `index`, ordered leaf to root.
    /// A `Right` step's sibling sits to the right of the path node, a
    /// `Left` step's sibling to its left.
    pub open spec fn spec_proof(self, index: int) -> Seq<(Position, Digest)>
        decreases self,
    {
        match self {
            MerkleTree::Empty => Seq::empty(),
            MerkleTree::NonEmpty(n) => {
                if n.left is Empty || n.right is Empty {
                    Seq::empty()
                } else if index < n.left.spec_leaf_count() {
                    n.left.spec_proof(index).push((Position::Right, n.right.spec_element()))
                } else {
                    n.right.spec_proof(index - n.left.spec_leaf_count()).push(
                        (Position::Left, n.left.spec_element()),
                    )
                }
            },
        }
    }

    /// Returns the sibling digests needed to verify the leaf at `index`,
    /// ordered leaf to root, or `IndexOutOfBounds` when `index` is at or
    /// past the leaf count (in particular, always on an `Empty` tree).
    pub fn get_proof(&self, index: usize) -> (r: Result<
        Vec<(Position, Digest)>,
        MerkleError,
    >)
        requires
            self.well_formed(),
        ensures
            match r {
                Ok(p) => index < self.spec_leaf_count() && p@ == self.spec_proof(index as int),
                Err(e) => {
                    &&& index >= self.spec_leaf_count()
                    &&& e matches MerkleError::IndexOutOfBounds { index: i, leaf_count: lc }
                    &&& i == index
                    &&& lc == self.spec_leaf_count()
                },
            },
    {
        let total = self.leaf_count();
        if index >= total {
            return Err(MerkleError::IndexOutOfBounds { index, leaf_count: total });
        }
        let mut stack: Vec<(Position, Digest)> = Vec::new();
        let mut current: &MerkleTree = self;
        let mut base: usize = 0;
        while current.leaf_count() > 1
            invariant
                self.well_formed(),
                current.well_formed(),
                *current is NonEmpty,
                base <= index < total,
                total == self.spec_leaf_count(),
                index - base < current.spec_leaf_count(),
                base + current.spec_leaf_count() <= total,
                self.spec_proof(index as int) == current.spec_proof(index - base)
                    + stack@.reverse(),
            decreases current.spec_leaf_count(),
        {
            match current {
                MerkleTree::NonEmpty(node) => {
                    match (&node.left, &node.right) {
                        (MerkleTree::NonEmpty(l), MerkleTree::NonEmpty(r)) => {
                            proof {
                                lemma_wf_count_pos(node.left);
                                lemma_wf_count_pos(node.right);
                            }
                            let ghost before = *current;
                            let ghost k = index - base;
                            if index < base + l.leaf_count {
                                let step = (Position::Right, r.element);
                                proof {
                                    assert(before.spec_proof(k) == node.left.spec_proof(k).push(
                                        step,
                                    ));
                                    assert(stack@.push(step).reverse() =~= seq![step]
                                        + stack@.reverse());
                                    assert(node.left.spec_proof(k).push(step) + stack@.reverse()
                                        =~= node.left.spec_proof(k) + (seq![step]
                                        + stack@.reverse()));
                                }
                                stack.push(step);
                                current = &node.left;
                            } else {
                                let step = (Position::Left, l.element);
                                proof {
                                    let k2 = k - node.left.spec_leaf_count();
                                    assert(before.spec_proof(k) == node.right.spec_proof(
                                        k2,
                                    ).push(step));
                                    assert(stack@.push(step).reverse() =~= seq![step]
                                        + stack@.reverse());
                                    assert(node.right.spec_proof(k2).push(step) + stack@.reverse()
                                        =~= node.right.spec_proof(k2) + (seq![step]
                                        + stack@.reverse()));
                                }
                                base = base + l.leaf_count;
                                stack.push(step);
                                current = &node.right;
                            }
                        },
                        _ => unreached(),
                    }
                },
                MerkleTree::Empty => unreached(),
            }
        }
        proof {
            match current {
                MerkleTree::Empty => {
                    assert(false);
                },
                MerkleTree::NonEmpty(n) => {
                    if !(n.left is Empty) || !(n.right is Empty) {
                        lemma_wf_count_pos(n.left);
                        lemma_wf_count_pos(n.right);
                        assert(false);
                    }
                },
            }
            assert(current.spec_proof(index - base) == Seq::<(Position, Digest)>::empty());
            assert(self.spec_proof(index as int) =~= stack@.reverse());
        }
        let mut path: Vec<(Position, Digest)> = Vec::new();
        let mut j: usize = stack.len();
        while j > 0
            invariant
                j <= stack@.len(),
                path@ == stack@.skip(j as int).reverse(),
            decreases j,
        {
            j = j - 1;
            let step = stack[j];
            proof {
                assert(stack@.skip(j as int) =~= seq![step] + stack@.skip(j as int + 1));
                assert(stack@.skip(j as int).reverse() =~= stack@.skip(
                    j as int + 1,
                ).reverse().push(step));
            }
            path.push(step);
        }
        proof {
            assert(stack@.skip(0) =~= stack@);
        }
        Ok(path)
    }
}

/// The digest reached by folding the proof steps, leaf to root, starting
/// from a candidate leaf digest: a `Right` sibling is appended to the
/// running digest, a `Left` sibling is prepended, and the pair is hashed.
pub open spec fn fold_steps(candidate: Seq<u8>, steps: Seq<(Position, Digest)>) -> Seq<u8>
    decreases steps.len(),
{
    if steps.len() == 0 {
        candidate
    } else {
        let prev = fold_steps(candidate, steps.drop_last());
        let step = steps.last();
        if step.0 is Right {
            sha256_of(prev + step.1@)
        } else {
            sha256_of(step.1@ + prev)
        }
    }
}

impl MerkleTree {
    /// Recomputes a root digest from a leaf's content and a proof, and
    /// compares it byte for byte with the claimed root. Never fails: a
    /// mismatched or malformed proof simply yields `false`.
    pub fn validate(
        leaf_content: &[u8],
        proof: &Vec<(Position, Digest)>,
        claimed_root: &Digest,
    ) -> (r: bool)
        ensures
            r == (fold_steps(sha256_of(leaf_content@), proof@) == claimed_root@),
    {
        let mut candidate = sha256(leaf_content);
        let ghost start = candidate@;
        let mut i: usize = 0;
        while i < proof.len()
            invariant
                i <= proof@.len(),
                start == sha256_of(leaf_content@),
                candidate@ == fold_steps(start, proof@.take(i as int)),
            decreases proof@.len() - i,
        {
            let (pos, sibling) = proof[i];
            let mut buf: Vec<u8> = Vec::new();
            match pos {
                Position::Right => {
                    buf.extend_from_slice(candidate.bytes.as_slice());
                    buf.extend_from_slice(sibling.bytes.as_slice());
                    proof {
                        assert(buf@ =~= candidate@ + sibling@);
                    }
                },
                Position::Left => {
                    buf.extend_from_slice(sibling.bytes.as_slice());
                    buf.extend_from_slice(candidate.bytes.as_slice());
                    proof {
                        assert(buf@ =~= sibling@ + candidate@);
                    }
                },
            }
            proof {
                assert(proof@.take(i as int + 1).drop_last() =~= proof@.take(i as int));
                assert(proof@.take(i as int + 1).last() == proof@[i as int]);
            }
            candidate = sha256(buf.as_slice());
            i = i + 1;
        }
        proof {
            assert(proof@.take(proof@.len() as int) =~= proof@);
        }
        candidate.equals(claimed_root)
    }
}

/// Soundness of inclusion proofs: in any well-formed tree, the proof for
/// the leaf at `index` folds that leaf's digest back to the root digest.
pub proof fn lemma_proof_folds_to_root(t: MerkleTree, index: int)
    requires
        t.well_formed(),
        t is NonEmpty,
        0 <= index < t.spec_leaf_count(),
    ensures
        fold_steps(t.leaves()[index], t.spec_proof(index)) == t.digest_bytes(),
    decreases t,
{
    match t {
        MerkleTree::Empty => {},
        MerkleTree::NonEmpty(n) => {
            if n.left is Empty || n.right is Empty {
                assert(t.spec_proof(index) == Seq::<(Position, Digest)>::empty());
                assert(t.leaves() =~= seq![n.element@]);
            } else {
                lemma_wf_leaf_count(n.left);
                lemma_wf_leaf_count(n.right);
                lemma_wf_count_pos(n.left);
                lemma_wf_count_pos(n.right);
                let lc = n.left.spec_leaf_count() as int;
                if index < lc {
                    lemma_proof_folds_to_root(n.left, index);
                    let step = (Position::Right, n.right.spec_element());
                    let inner = n.left.spec_proof(index);
                    assert(t.spec_proof(index) == inner.push(step));
                    assert(inner.push(step).drop_last() =~= inner);
                    assert(t.leaves()[index] == n.left.leaves()[index]);
                } else {
                    lemma_proof_folds_to_root(n.right, index - lc);
                    let step = (Position::Left, n.left.spec_element());
                    let inner = n.right.spec_proof(index - lc);
                    assert(t.spec_proof(index) == inner.push(step));
                    assert(inner.push(step).drop_last() =~= inner);
                    assert(t.leaves()[index] == n.right.leaves()[index - lc]);
                }
            }
        },
    }
}

} // verus!
