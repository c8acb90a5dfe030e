//! The guarantees of the subsystem as a whole, stated over the builder's
//! contract.

use vstd::prelude::*;

use crate::digest::{lemma_digest_ext, sha256_of};
use crate::inclusion::{fold_steps, lemma_proof_folds_to_root};
use crate::tree::{
    is_merkle_build, lemma_wf_count_pos, lemma_wf_leaf_count, pow2_below, reduce_level,
    root_of_level, spec_root_digest, MerkleTree,
};

verus! {

/// A well-formed tree of the carry-rule shape is determined by its leaf
/// digests alone: two such trees with the same leaves are the same value.
pub proof fn lemma_built_tree_unique(t1: MerkleTree, t2: MerkleTree)
    requires
        t1.well_formed(),
        t1.built_shape(),
        t1 is NonEmpty,
        t2.well_formed(),
        t2.built_shape(),
        t2 is NonEmpty,
        t1.leaves() == t2.leaves(),
    ensures
        t1 == t2,
    decreases t1,
{
    lemma_wf_leaf_count(t1);
    lemma_wf_leaf_count(t2);
    match (t1, t2) {
        (MerkleTree::NonEmpty(n1), MerkleTree::NonEmpty(n2)) => {
            if n1.left is Empty || n1.right is Empty {
                if !(n2.left is Empty) && !(n2.right is Empty) {
                    lemma_wf_count_pos(n2.left);
                    lemma_wf_count_pos(n2.right);
                    assert(false);
                }
                assert(t1.leaves() == seq![n1.element@]);
                assert(n1.element@ == t1.leaves()[0]);
                assert(n2.element@ == t2.leaves()[0]);
                lemma_digest_ext(n1.element, n2.element);
                assert(*n1 == *n2);
            } else {
                if n2.left is Empty || n2.right is Empty {
                    lemma_wf_count_pos(n1.left);
                    lemma_wf_count_pos(n1.right);
                    assert(false);
                }
                lemma_wf_leaf_count(n1.left);
                lemma_wf_leaf_count(n2.left);
                assert(n1.leaf_count == t1.leaves().len());
                assert(n2.leaf_count == t2.leaves().len());
                assert(n1.left.spec_leaf_count() == pow2_below(n1.leaf_count as nat));
                assert(n2.left.spec_leaf_count() == pow2_below(n2.leaf_count as nat));
                let lc = n1.left.spec_leaf_count() as int;
                assert(n1.left.leaves() =~= t1.leaves().take(lc));
                assert(n1.right.leaves() =~= t1.leaves().skip(lc));
                assert(n2.left.leaves() =~= t2.leaves().take(lc));
                assert(n2.right.leaves() =~= t2.leaves().skip(lc));
                lemma_built_tree_unique(n1.left, n2.left);
                lemma_built_tree_unique(n1.right, n2.right);
                lemma_digest_ext(n1.element, n2.element);
                assert(*n1 == *n2);
            }
        },
        _ => {},
    }
}

/// Determinism: the tree built from an item sequence is unique, so
/// building the same items twice yields the same tree and in particular
/// the same root digest.
pub proof fn lemma_build_deterministic(items: Seq<Seq<u8>>, t1: MerkleTree, t2: MerkleTree)
    requires
        is_merkle_build(t1, items),
        is_merkle_build(t2, items),
    ensures
        t1 == t2,
        t1.digest_bytes() == t2.digest_bytes(),
{
    lemma_built_tree_unique(t1, t2);
}

/// Soundness: for a tree built from `items` and any leaf index in range,
/// folding the digest of that item through the proof for that index
/// reproduces the tree's root digest, so `validate` accepts it.
pub proof fn lemma_build_proof_validates(items: Seq<Seq<u8>>, t: MerkleTree, index: int)
    requires
        is_merkle_build(t, items),
        0 <= index < items.len(),
    ensures
        fold_steps(sha256_of(items[index]), t.spec_proof(index)) == t.digest_bytes(),
{
    lemma_wf_leaf_count(t);
    assert(t.leaves()[index] == sha256_of(items[index]));
    lemma_proof_folds_to_root(t, index);
}

/// A single item commits to its own digest: no merge round runs.
pub proof fn lemma_root_of_one(a: Seq<u8>)
    ensures
        spec_root_digest(seq![a]) == sha256_of(a),
{
    let hashed = seq![a].map_values(|item: Seq<u8>| sha256_of(item));
    assert(hashed =~= seq![sha256_of(a)]);
}

/// The carry rule on three items: the first two merge, the third is
/// carried unchanged and merges with their parent in the next round.
pub proof fn lemma_root_of_three(a: Seq<u8>, b: Seq<u8>, c: Seq<u8>)
    ensures
        spec_root_digest(seq![a, b, c]) == sha256_of(
            sha256_of(sha256_of(a) + sha256_of(b)) + sha256_of(c),
        ),
{
    let ha = sha256_of(a);
    let hb = sha256_of(b);
    let hc = sha256_of(c);
    let hab = sha256_of(ha + hb);
    let hashed = seq![a, b, c].map_values(|item: Seq<u8>| sha256_of(item));
    assert(hashed =~= seq![ha, hb, hc]);
    reveal_with_fuel(reduce_level, 3);
    assert(hashed.skip(2) =~= seq![hc]);
    assert(reduce_level(hashed) =~= seq![hab, hc]);
    assert(seq![hab, hc].skip(2) =~= Seq::<Seq<u8>>::empty());
    assert(reduce_level(seq![hab, hc]) =~= seq![sha256_of(hab + hc)]);
    reveal_with_fuel(root_of_level, 4);
}

/// The carry rule on five items: two full pairs merge, the fifth digest is
/// carried through two rounds and joins the four-leaf parent at the top.
pub proof fn lemma_root_of_five(a: Seq<u8>, b: Seq<u8>, c: Seq<u8>, d: Seq<u8>, e: Seq<u8>)
    ensures
        spec_root_digest(seq![a, b, c, d, e]) == sha256_of(
            sha256_of(
                sha256_of(sha256_of(a) + sha256_of(b)) + sha256_of(sha256_of(c) + sha256_of(d)),
            ) + sha256_of(e),
        ),
{
    let ha = sha256_of(a);
    let hb = sha256_of(b);
    let hc = sha256_of(c);
    let hd = sha256_of(d);
    let he = sha256_of(e);
    let hab = sha256_of(ha + hb);
    let hcd = sha256_of(hc + hd);
    let habcd = sha256_of(hab + hcd);
    let hashed = seq![a, b, c, d, e].map_values(|item: Seq<u8>| sha256_of(item));
    assert(hashed =~= seq![ha, hb, hc, hd, he]);
    reveal_with_fuel(reduce_level, 4);
    assert(hashed.skip(2) =~= seq![hc, hd, he]);
    assert(seq![hc, hd, he].skip(2) =~= seq![he]);
    assert(reduce_level(hashed) =~= seq![hab, hcd, he]);
    assert(seq![hab, hcd, he].skip(2) =~= seq![he]);
    assert(reduce_level(seq![hab, hcd, he]) =~= seq![habcd, he]);
    assert(seq![habcd, he].skip(2) =~= Seq::<Seq<u8>>::empty());
    assert(reduce_level(seq![habcd, he]) =~= seq![sha256_of(habcd + he)]);
    reveal_with_fuel(root_of_level, 5);
}

} // verus!
