//! The tree structure, its invariant, and the builder.
//!
//! A tree commits to an ordered sequence of byte blocks. Leaves carry the
//! digest of one block; an internal node carries the digest of the
//! concatenation of its children's digests. Building reduces a level of
//! nodes pairwise, left to right; a trailing unpaired node is carried
//! unchanged into the next level, never duplicated.

use vstd::prelude::*;

use crate::digest::{sha256, sha256_of, Digest};

verus! {

/// Which side a proof-step sibling sits on, seen from the path node.
#[derive(Clone, Copy, Debug, PartialEq, Eq)]
pub enum Position {
    Left,
    Right,
}

/// The ways a query or a build can fail. `validate` never fails.
#[derive(Clone, Copy, Debug, PartialEq, Eq)]
pub enum MerkleError {
    /// `build` was given zero items; there is no empty-tree commitment.
    EmptyInput,
    /// `root_hash` was asked of an `Empty` tree.
    EmptyTree,
    /// `get_proof` was given an index at or past the leaf count.
    IndexOutOfBounds { index: usize, leaf_count: usize },
}

/// A Merkle tree: either empty, or a node that owns its two subtrees.
#[derive(Debug)]
pub enum MerkleTree {
    Empty,
    NonEmpty(Box<Node>),
}

/// One node: its digest, the number of leaves below it, and its children.
/// A leaf has two `Empty` children and a leaf count of one.
#[derive(Debug)]
pub struct Node {
    pub element: Digest,
    pub leaf_count: usize,
    pub left: MerkleTree,
    pub right: MerkleTree,
}

impl MerkleTree {
    /// The leaf count recorded at the root; zero for an empty tree.
    pub open spec fn spec_leaf_count(self) -> nat {
        match self {
            MerkleTree::Empty => 0,
            MerkleTree::NonEmpty(n) => n.leaf_count as nat,
        }
    }

    /// The digest recorded at the root, as bytes; empty for an empty tree.
    pub open spec fn digest_bytes(self) -> Seq<u8> {
        match self {
            MerkleTree::Empty => Seq::empty(),
            MerkleTree::NonEmpty(n) => n.element@,
        }
    }

    /// The digest value at the root of a non-empty tree.
    pub open spec fn spec_element(self) -> Digest
        recommends
            self is NonEmpty,
    {
        match self {
            MerkleTree::Empty => arbitrary(),
            MerkleTree::NonEmpty(n) => n.element,
        }
    }

    /// The structural invariant: a node is either a leaf (both children
    /// empty, leaf count one), or internal with two non-empty well-formed
    /// children, a leaf count that is the sum of theirs, and a digest that
    /// hashes the concatenation of their digests.
    pub open spec fn well_formed(self) -> bool
        decreases self,
    {
        match self {
            MerkleTree::Empty => true,
            MerkleTree::NonEmpty(n) => {
                if n.left is Empty || n.right is Empty {
                    &&& n.left is Empty
                    &&& n.right is Empty
                    &&& n.leaf_count == 1
                } else {
                    &&& n.left.well_formed()
                    &&& n.right.well_formed()
                    &&& n.leaf_count == n.left.spec_leaf_count() + n.right.spec_leaf_count()
                    &&& n.element@ == sha256_of(
                        n.left.digest_bytes() + n.right.digest_bytes(),
                    )
                }
            },
        }
    }

    /// The digests of the leaves below this tree, left to right.
    pub open spec fn leaves(self) -> Seq<Seq<u8>>
        decreases self,
    {
        match self {
            MerkleTree::Empty => Seq::empty(),
            MerkleTree::NonEmpty(n) => {
                if n.left is Empty && n.right is Empty {
                    seq![n.element@]
                } else {
                    n.left.leaves() + n.right.leaves()
                }
            },
        }
    }
}

/// In a well-formed tree the recorded leaf count is the number of leaves.
pub proof fn lemma_wf_leaf_count(t: MerkleTree)
    requires
        t.well_formed(),
    ensures
        t.leaves().len() == t.spec_leaf_count(),
    decreases t,
{
    match t {
        MerkleTree::Empty => {},
        MerkleTree::NonEmpty(n) => {
            if !(n.left is Empty) && !(n.right is Empty) {
                lemma_wf_leaf_count(n.left);
                lemma_wf_leaf_count(n.right);
            }
        },
    }
}

/// All trees in a build level are non-empty and well-formed.
pub open spec fn level_wf(level: Seq<MerkleTree>) -> bool {
    forall|i: int|
        0 <= i < level.len() ==> (#[trigger] level[i]).well_formed() && level[i] is NonEmpty
}

/// The leaf digests committed to by a level, left to right.
pub open spec fn level_leaves(level: Seq<MerkleTree>) -> Seq<Seq<u8>>
    decreases level.len(),
{
    if level.len() == 0 {
        Seq::empty()
    } else {
        level[0].leaves() + level_leaves(level.drop_first())
    }
}

/// The total number of leaves recorded across a level.
pub open spec fn level_leaf_count(level: Seq<MerkleTree>) -> nat
    decreases level.len(),
{
    if level.len() == 0 {
        0
    } else {
        level[0].spec_leaf_count() + level_leaf_count(level.drop_first())
    }
}

/// The root digests of a level, left to right.
pub open spec fn level_digests(level: Seq<MerkleTree>) -> Seq<Seq<u8>> {
    level.map_values(|t: MerkleTree| t.digest_bytes())
}

/// One pairwise-merge round over a level of digests: consecutive pairs are
/// hashed together; a trailing unpaired digest is carried unchanged.
pub open spec fn reduce_level(level: Seq<Seq<u8>>) -> Seq<Seq<u8>>
    decreases level.len(),
{
    if level.len() < 2 {
        level
    } else {
        seq![sha256_of(level[0] + level[1])] + reduce_level(level.skip(2))
    }
}

/// A merge round strictly shrinks a level of two or more digests.
pub proof fn lemma_reduce_level_shrinks(level: Seq<Seq<u8>>)
    requires
        level.len() >= 2,
    ensures
        1 <= reduce_level(level).len() < level.len(),
    decreases level.len(),
{
    reveal_with_fuel(reduce_level, 2);
    if level.skip(2).len() >= 2 {
        lemma_reduce_level_shrinks(level.skip(2));
    }
}

/// The digest that repeated merge rounds leave standing.
pub open spec fn root_of_level(level: Seq<Seq<u8>>) -> Seq<u8>
    decreases level.len(),
{
    if level.len() <= 1 {
        if level.len() == 1 {
            level[0]
        } else {
            Seq::empty()
        }
    } else {
        proof {
            lemma_reduce_level_shrinks(level);
        }
        root_of_level(reduce_level(level))
    }
}

/// The root digest the builder commits to for an item sequence: hash each
/// item, then merge rounds until one digest remains.
pub open spec fn spec_root_digest(items: Seq<Seq<u8>>) -> Seq<u8> {
    root_of_level(items.map_values(|item: Seq<u8>| sha256_of(item)))
}

/// Everything `build` promises of the tree it returns for `items`.
pub open spec fn is_merkle_build(t: MerkleTree, items: Seq<Seq<u8>>) -> bool {
    &&& t is NonEmpty
    &&& t.well_formed()
    &&& t.built_shape()
    &&& t.spec_leaf_count() == items.len()
    &&& t.leaves() == items.map_values(|item: Seq<u8>| sha256_of(item))
    &&& t.digest_bytes() == spec_root_digest(items)
}

/// Appending a tree to a level appends its leaves, its leaf count and its
/// digest.
pub proof fn lemma_level_push(level: Seq<MerkleTree>, t: MerkleTree)
    ensures
        level_leaves(level.push(t)) == level_leaves(level) + t.leaves(),
        level_leaf_count(level.push(t)) == level_leaf_count(level) + t.spec_leaf_count(),
        level_digests(level.push(t)) == level_digests(level).push(t.digest_bytes()),
    decreases level.len(),
{
    assert(level_digests(level.push(t)) =~= level_digests(level).push(t.digest_bytes()));
    if level.len() == 0 {
        assert(level.push(t)[0] == t);
        assert(level.push(t).drop_first() =~= level);
        assert(level_leaves(level) == Seq::<Seq<u8>>::empty());
        assert(level_leaf_count(level) == 0);
        assert(level_leaves(level.push(t)) =~= level_leaves(level) + t.leaves());
    } else {
        assert(level.push(t).drop_first() =~= level.drop_first().push(t));
        lemma_level_push(level.drop_first(), t);
        assert(level_leaves(level.push(t)) =~= level_leaves(level) + t.leaves());
    }
}

/// Reading the first two trees of a level off its leaves, count and digests.
pub proof fn lemma_level_unfold2(level: Seq<MerkleTree>)
    requires
        level.len() >= 2,
    ensures
        level_leaves(level) == level[0].leaves() + level[1].leaves() + level_leaves(
            level.skip(2),
        ),
        level_leaf_count(level) == level[0].spec_leaf_count() + level[1].spec_leaf_count()
            + level_leaf_count(level.skip(2)),
        reduce_level(level_digests(level)) == seq![
            sha256_of(level[0].digest_bytes() + level[1].digest_bytes()),
        ] + reduce_level(level_digests(level.skip(2))),
    decreases level.len(),
{
    let rest = level.drop_first();
    assert(rest[0] == level[1]);
    assert(rest.drop_first() =~= level.skip(2));
    assert(level_leaves(level) == level[0].leaves() + level_leaves(rest));
    assert(level_leaves(rest) == level[1].leaves() + level_leaves(level.skip(2)));
    assert(level_leaf_count(level) == level[0].spec_leaf_count() + level_leaf_count(rest));
    assert(level_leaf_count(rest) == level[1].spec_leaf_count() + level_leaf_count(
        level.skip(2),
    ));
    assert(level_leaves(level) =~= level[0].leaves() + level[1].leaves() + level_leaves(
        level.skip(2),
    ));
    let ds = level_digests(level);
    assert(ds.len() >= 2);
    assert(ds[0] == level[0].digest_bytes());
    assert(ds[1] == level[1].digest_bytes());
    assert(ds.skip(2) =~= level_digests(level.skip(2)));
}

/// Two to the power `k`.
pub open spec fn pow2(k: nat) -> nat
    decreases k,
{
    if k == 0 {
        1
    } else {
        2 * pow2((k - 1) as nat)
    }
}

/// The largest power of two strictly below `c`, for `c >= 2`.
pub open spec fn pow2_below(c: nat) -> nat
    decreases c,
{
    if c <= 2 {
        1
    } else {
        2 * pow2_below((c + 1) / 2)
    }
}

/// Any count in `(2^k, 2 * 2^k]` has `2^k` as the largest power of two
/// strictly below it.
pub proof fn lemma_pow2_below_bracket(k: nat, c: nat)
    requires
        pow2(k) < c <= 2 * pow2(k),
    ensures
        pow2_below(c) == pow2(k),
    decreases k,
{
    if k == 0 {
        assert(c == 2);
    } else {
        let p = pow2((k - 1) as nat);
        assert(pow2(k) == 2 * p);
        assert(p >= 1) by {
            lemma_pow2_pos((k - 1) as nat);
        }
        assert(c >= 3);
        assert((c + 1) / 2 > p);
        assert((c + 1) / 2 <= 2 * p);
        lemma_pow2_below_bracket((k - 1) as nat, (c + 1) / 2);
    }
}

/// Powers of two are positive.
pub proof fn lemma_pow2_pos(k: nat)
    ensures
        pow2(k) >= 1,
    decreases k,
{
    if k > 0 {
        lemma_pow2_pos((k - 1) as nat);
    }
}

impl MerkleTree {
    /// The shape the carry rule produces: below every internal node, the
    /// left subtree holds the largest power of two of leaves strictly
    /// below the node's own count. This determines the whole shape from
    /// the leaf count alone.
    pub open spec fn built_shape(self) -> bool
        decreases self,
    {
        match self {
            MerkleTree::Empty => true,
            MerkleTree::NonEmpty(n) => {
                if n.left is Empty || n.right is Empty {
                    true
                } else {
                    &&& n.left.built_shape()
                    &&& n.right.built_shape()
                    &&& n.left.spec_leaf_count() == pow2_below(n.leaf_count as nat)
                }
            },
        }
    }
}

/// A well-formed tree that commits to exactly one leaf is a leaf node, and
/// in particular has the carry-rule shape.
pub proof fn lemma_wf_single_is_leaf(t: MerkleTree)
    requires
        t.well_formed(),
        t is NonEmpty,
        t.spec_leaf_count() == 1,
    ensures
        t.built_shape(),
{
    match t {
        MerkleTree::Empty => {},
        MerkleTree::NonEmpty(n) => {
            if !(n.left is Empty) && !(n.right is Empty) {
                lemma_wf_count_pos(n.left);
                lemma_wf_count_pos(n.right);
            }
        },
    }
}

/// A well-formed non-empty tree commits to at least one leaf.
pub proof fn lemma_wf_count_pos(t: MerkleTree)
    requires
        t.well_formed(),
        t is NonEmpty,
    ensures
        t.spec_leaf_count() >= 1,
    decreases t,
{
    match t {
        MerkleTree::Empty => {},
        MerkleTree::NonEmpty(n) => {
            if !(n.left is Empty) && !(n.right is Empty) {
                lemma_wf_count_pos(n.left);
                lemma_wf_count_pos(n.right);
            }
        },
    }
}

impl MerkleTree {
    /// Wraps the parts of a node into a non-empty tree.
    fn new(element: Digest, leaf_count: usize, left: MerkleTree, right: MerkleTree) -> (t:
        MerkleTree)
        ensures
            t matches MerkleTree::NonEmpty(n) && n.element == element && n.leaf_count == leaf_count
                && n.left == left && n.right == right,
    {
        MerkleTree::NonEmpty(Box::new(Node { element, leaf_count, left, right }))
    }

    /// Returns the number of leaves the tree commits to; zero for `Empty`.
    pub fn leaf_count(&self) -> (r: usize)
        ensures
            r == self.spec_leaf_count(),
    {
        match self {
            MerkleTree::NonEmpty(n) => n.leaf_count,
            MerkleTree::Empty => 0,
        }
    }

    /// Returns the root digest, or `EmptyTree` if there is no node.
    pub fn root_hash(&self) -> (r: Result<Digest, MerkleError>)
        ensures
            match r {
                Ok(d) => self is NonEmpty && d == self.spec_element() && d@
                    == self.digest_bytes(),
                Err(e) => self is Empty && e == MerkleError::EmptyTree,
            },
    {
        match self {
            MerkleTree::NonEmpty(n) => Ok(n.element),
            MerkleTree::Empty => Err(MerkleError::EmptyTree),
        }
    }

    /// Creates a tree from a slice of data blocks, or fails with
    /// `EmptyInput` when there are no blocks at all.
    ///
    /// Each block becomes a leaf holding its digest; levels are then merged
    /// pairwise, carrying a trailing unpaired node, until one root remains.
    pub fn build(data: &[Vec<u8>]) -> (r: Result<MerkleTree, MerkleError>)
        ensures
            match r {
                Ok(t) => data@.len() > 0 && is_merkle_build(
                    t,
                    data@.map_values(|v: Vec<u8>| v@),
                ),
                Err(e) => data@.len() == 0 && e == MerkleError::EmptyInput,
            },
    {
        let n = data.len();
        if n == 0 {
            return Err(MerkleError::EmptyInput);
        }
        let ghost items = data@.map_values(|v: Vec<u8>| v@);
        let ghost hashed = items.map_values(|item: Seq<u8>| sha256_of(item));
        let mut leaf_nodes: Vec<MerkleTree> = Vec::new();
        let mut i: usize = 0;
        while i < n
            invariant
                i <= n,
                n == data@.len(),
                items == data@.map_values(|v: Vec<u8>| v@),
                hashed == items.map_values(|item: Seq<u8>| sha256_of(item)),
                leaf_nodes@.len() == i,
                level_wf(leaf_nodes@),
                forall|j: int|
                    0 <= j < leaf_nodes@.len() ==> (#[trigger] leaf_nodes@[j]).spec_leaf_count()
                        == 1,
                level_leaves(leaf_nodes@) == hashed.take(i as int),
                level_leaf_count(leaf_nodes@) == i,
                level_digests(leaf_nodes@) == hashed.take(i as int),
            decreases n - i,
        {
            let d = sha256(data[i].as_slice());
            let leaf = MerkleTree::new(d, 1, MerkleTree::Empty, MerkleTree::Empty);
            proof {
                lemma_level_push(leaf_nodes@, leaf);
                assert(leaf.leaves() =~= seq![leaf.digest_bytes()]);
                assert(leaf.digest_bytes() == hashed[i as int]);
                assert(hashed.take(i as int + 1) =~= hashed.take(i as int).push(
                    hashed[i as int],
                ));
                assert(level_leaves(leaf_nodes@.push(leaf)) =~= hashed.take(i as int + 1));
                assert(level_digests(leaf_nodes@.push(leaf)) =~= hashed.take(i as int + 1));
                assert forall|k: int| 0 <= k < leaf_nodes@.push(leaf).len() implies (
                #[trigger] leaf_nodes@.push(leaf)[k]).well_formed() && leaf_nodes@.push(leaf)[k]
                    is NonEmpty by {
                    if k < leaf_nodes@.len() {
                        assert(leaf_nodes@[k].well_formed());
                    }
                }
            }
            leaf_nodes.push(leaf);
            i = i + 1;
        }
        proof {
            assert(hashed.take(n as int) =~= hashed);
            assert(hashed =~= data@.map_values(|v: Vec<u8>| v@).map_values(
                |item: Seq<u8>| sha256_of(item),
            ));
        }
        let t = MerkleTree::build_tree(leaf_nodes);
        Ok(t)
    }

    /// Merges a non-empty level of leaves, round after round, into one root.
    fn build_tree(nodes: Vec<MerkleTree>) -> (t: MerkleTree)
        requires
            nodes@.len() >= 1,
            level_wf(nodes@),
            level_leaf_count(nodes@) <= usize::MAX,
            forall|i: int| 0 <= i < nodes@.len() ==> (#[trigger] nodes@[i]).spec_leaf_count() == 1,
        ensures
            t.well_formed(),
            t is NonEmpty,
            t.built_shape(),
            t.spec_leaf_count() == level_leaf_count(nodes@),
            t.leaves() == level_leaves(nodes@),
            t.digest_bytes() == root_of_level(level_digests(nodes@)),
    {
        let ghost orig = nodes@;
        let ghost mut round: nat = 0;
        let mut nodes = nodes;
        proof {
            assert forall|i: int| 0 <= i < nodes@.len() implies (
            #[trigger] nodes@[i]).built_shape() by {
                lemma_wf_single_is_leaf(nodes@[i]);
            }
        }
        while nodes.len() > 1
            invariant
                nodes@.len() >= 1,
                level_wf(nodes@),
                level_leaves(nodes@) == level_leaves(orig),
                level_leaf_count(nodes@) == level_leaf_count(orig),
                level_leaf_count(orig) <= usize::MAX,
                root_of_level(level_digests(nodes@)) == root_of_level(level_digests(orig)),
                forall|i: int| 0 <= i < nodes@.len() ==> (#[trigger] nodes@[i]).built_shape(),
                forall|i: int|
                    0 <= i < nodes@.len() - 1 ==> (#[trigger] nodes@[i]).spec_leaf_count()
                        == pow2(round),
                nodes@.last().spec_leaf_count() <= pow2(round),
            decreases nodes@.len(),
        {
            let ghost prev = nodes@;
            let mut next: Vec<MerkleTree> = Vec::new();
            while nodes.len() >= 2
                invariant
                    level_wf(nodes@),
                    level_wf(next@),
                    level_leaves(next@) + level_leaves(nodes@) == level_leaves(prev),
                    level_leaf_count(next@) + level_leaf_count(nodes@) == level_leaf_count(
                        prev,
                    ),
                    level_digests(next@) + reduce_level(level_digests(nodes@)) == reduce_level(
                        level_digests(prev),
                    ),
                    level_leaf_count(prev) <= usize::MAX,
                    forall|i: int|
                        0 <= i < nodes@.len() ==> (#[trigger] nodes@[i]).built_shape(),
                    forall|i: int|
                        0 <= i < nodes@.len() - 1 ==> (#[trigger] nodes@[i]).spec_leaf_count()
                            == pow2(round),
                    nodes@.len() > 0 ==> nodes@.last().spec_leaf_count() <= pow2(round),
                    forall|i: int| 0 <= i < next@.len() ==> (#[trigger] next@[i]).built_shape(),
                    forall|i: int|
                        0 <= i < next@.len() - 1 ==> (#[trigger] next@[i]).spec_leaf_count()
                            == pow2(round + 1),
                    next@.len() > 0 && nodes@.len() > 0 ==> next@.last().spec_leaf_count()
                        == pow2(round + 1),
                    next@.len() > 0 ==> next@.last().spec_leaf_count() <= pow2(round + 1),
                decreases nodes@.len(),
            {
                let ghost cur = nodes@;
                proof {
                    lemma_level_unfold2(cur);
                    // With trees still waiting, every node already in `next` is full.
                    assert(forall|i: int|
                        0 <= i < next@.len() ==> (#[trigger] next@[i]).spec_leaf_count() == pow2(
                            round + 1,
                        ));
                }
                let a = nodes.remove(0);
                let b = nodes.remove(0);
                proof {
                    assert(a == cur[0] && b == cur[1]);
                    assert(nodes@ =~= cur.skip(2));
                    assert(cur[0].well_formed() && cur[1].well_formed());
                    assert forall|i: int| 0 <= i < nodes@.len() implies (
                    #[trigger] nodes@[i]).built_shape() by {
                        assert(nodes@[i] == cur[i + 2]);
                    }
                    assert forall|i: int| 0 <= i < nodes@.len() - 1 implies (
                    #[trigger] nodes@[i]).spec_leaf_count() == pow2(round) by {
                        assert(nodes@[i] == cur[i + 2]);
                    }
                    if nodes@.len() > 0 {
                        assert(nodes@.last() == cur.last());
                    }
                }
                let element = MerkleTree::concat_and_hash(&a, &b);
                let leaf_count = a.leaf_count() + b.leaf_count();
                let merged = MerkleTree::new(element, leaf_count, a, b);
                proof {
                    assert(merged.well_formed());
                    assert(merged.leaves() == a.leaves() + b.leaves());
                    // The merged node keeps the carry-rule shape: its left
                    // child is full for this round.
                    lemma_wf_count_pos(b);
                    assert(pow2(round + 1) == 2 * pow2(round));
                    assert(a.spec_leaf_count() == pow2(round));
                    assert(b.spec_leaf_count() <= pow2(round)) by {
                        if cur.len() == 2 {
                            assert(cur.last() == cur[1]);
                        }
                    }
                    lemma_pow2_below_bracket(round, merged.spec_leaf_count());
                    assert(merged.built_shape());
                    if nodes@.len() > 0 {
                        assert(cur[1].spec_leaf_count() == pow2(round));
                        assert(merged.spec_leaf_count() == pow2(round + 1));
                    }
                    lemma_level_push(next@, merged);
                    assert(level_leaves(next@.push(merged)) + level_leaves(nodes@)
                        =~= level_leaves(prev));
                    assert(level_digests(next@.push(merged)) + reduce_level(
                        level_digests(nodes@),
                    ) =~= reduce_level(level_digests(prev)));
                    assert forall|k: int| 0 <= k < next@.push(merged).len() implies (
                    #[trigger] next@.push(merged)[k]).well_formed() && next@.push(merged)[k]
                        is NonEmpty by {
                        if k < next@.len() {
                            assert(next@[k].well_formed());
                        }
                    }
                    assert forall|k: int| 0 <= k < next@.push(merged).len() implies (
                    #[trigger] next@.push(merged)[k]).built_shape() by {
                        if k < next@.len() {
                            assert(next@[k].built_shape());
                        }
                    }
                    assert forall|k: int| 0 <= k < next@.push(merged).len() - 1 implies (
                    #[trigger] next@.push(merged)[k]).spec_leaf_count() == pow2(round + 1) by {
                        assert(next@[k].spec_leaf_count() == pow2(round + 1));
                    }
                    assert(next@.push(merged).last() == merged);
                }
                next.push(merged);
            }
            if nodes.len() == 1 {
                let ghost cur = nodes@;
                let carried = nodes.remove(0);
                proof {
                    assert(carried == cur[0]);
                    assert(level_leaves(cur) =~= carried.leaves() + level_leaves(
                        cur.drop_first(),
                    ));
                    assert(cur.drop_first().len() == 0);
                    assert(level_leaves(cur.drop_first()) == Seq::<Seq<u8>>::empty());
                    assert(level_leaf_count(cur.drop_first()) == 0);
                    assert(level_digests(cur) =~= seq![carried.digest_bytes()]);
                    assert(reduce_level(level_digests(cur)) == level_digests(cur));
                    lemma_level_push(next@, carried);
                    assert(level_leaves(next@.push(carried)) =~= level_leaves(prev));
                    assert(level_digests(next@.push(carried)) =~= reduce_level(
                        level_digests(prev),
                    ));
                    assert forall|k: int| 0 <= k < next@.push(carried).len() implies (
                    #[trigger] next@.push(carried)[k]).well_formed() && next@.push(carried)[k]
                        is NonEmpty by {
                        if k < next@.len() {
                            assert(next@[k].well_formed());
                        }
                    }
                    // The carried node is the one possibly partial node of
                    // the new level, and it sits last.
                    assert(cur.last() == carried);
                    lemma_pow2_pos(round);
                    assert(pow2(round + 1) == 2 * pow2(round));
                    assert(carried.spec_leaf_count() <= pow2(round + 1));
                    assert forall|k: int| 0 <= k < next@.push(carried).len() implies (
                    #[trigger] next@.push(carried)[k]).built_shape() by {
                        if k < next@.len() {
                            assert(next@[k].built_shape());
                        }
                    }
                    assert forall|k: int| 0 <= k < next@.push(carried).len() - 1 implies (
                    #[trigger] next@.push(carried)[k]).spec_leaf_count() == pow2(round + 1) by {
                        assert(next@[k].spec_leaf_count() == pow2(round + 1));
                    }
                    assert(next@.push(carried).last() == carried);
                }
                next.push(carried);
            } else {
                proof {
                    assert(nodes@.len() == 0);
                    assert(level_leaves(nodes@) == Seq::<Seq<u8>>::empty());
                    assert(level_leaf_count(nodes@) == 0);
                    assert(reduce_level(level_digests(nodes@)) =~= Seq::<Seq<u8>>::empty());
                    assert(level_leaves(next@) =~= level_leaves(prev));
                    assert(level_digests(next@) =~= reduce_level(level_digests(prev)));
                }
            }
            proof {
                assert(level_digests(next@) == reduce_level(level_digests(prev)));
                assert(level_digests(prev).len() == prev.len());
                lemma_reduce_level_shrinks(level_digests(prev));
                assert(next@.len() == level_digests(next@).len());
                assert(root_of_level(level_digests(next@)) == root_of_level(
                    level_digests(prev),
                ));
                assert(level_leaves(next@) =~= level_leaves(orig));
                round = round + 1;
            }
            nodes = next;
        }
        let ghost last = nodes@;
        let t = nodes.remove(0);
        proof {
            assert(t == last[0]);
            assert(level_leaves(last) =~= t.leaves() + level_leaves(last.drop_first()));
            assert(last.drop_first().len() == 0);
            assert(level_leaves(last.drop_first()) == Seq::<Seq<u8>>::empty());
            assert(t.leaves() =~= level_leaves(orig));
            assert(level_leaf_count(last.drop_first()) == 0);
            assert(level_digests(last) =~= seq![t.digest_bytes()]);
            assert(root_of_level(level_digests(last)) == t.digest_bytes());
            assert(t.well_formed() && t is NonEmpty);
            assert(t.built_shape());
        }
        t
    }

    /// Hashes the concatenation of the two root digests, in order.
    fn concat_and_hash(left: &MerkleTree, right: &MerkleTree) -> (r: Digest)
        requires
            *left is NonEmpty,
            *right is NonEmpty,
        ensures
            r@ == sha256_of(left.digest_bytes() + right.digest_bytes()),
    {
        let l = match left {
            MerkleTree::NonEmpty(n) => &n.element,
            MerkleTree::Empty => unreached(),
        };
        let r = match right {
            MerkleTree::NonEmpty(n) => &n.element,
            MerkleTree::Empty => unreached(),
        };
        let mut buf: Vec<u8> = Vec::new();
        buf.extend_from_slice(l.bytes.as_slice());
        buf.extend_from_slice(r.bytes.as_slice());
        proof {
            assert(buf@ =~= left.digest_bytes() + right.digest_bytes());
        }
        sha256(buf.as_slice())
    }
}

} // verus!
