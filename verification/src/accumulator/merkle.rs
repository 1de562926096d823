//! What the roots of the forest commit to: each root is the Merkle root of
//! its leaves, and adding a leaf keeps it so.
use crate::accumulator::pollard::{
    climb_hash, climb_node, lemma_merge_count, merge_count, roots_after_add, PolNode,
};
use crate::accumulator::types::{parent_digest, AccumulatorError, NodeHash};
use crate::accumulator::util::popcount;
use vstd::prelude::*;

verus! {

/// 2 to the power `e`.
pub open spec fn two_to(e: nat) -> nat
    decreases e,
{
    if e == 0 {
        1
    } else {
        2 * two_to((e - 1) as nat)
    }
}

/// The largest power of two that divides `n`; 0 for 0.
pub open spec fn low_bit(n: nat) -> nat
    decreases n,
{
    if n == 0 {
        0
    } else if n % 2 == 1 {
        1
    } else {
        2 * low_bit(n / 2)
    }
}

/// The Merkle root of a power of two of leaves: one leaf is its own root,
/// more leaves have the hash of the roots of their two halves.
pub open spec fn merkle_root(leaves: Seq<NodeHash>) -> NodeHash
    decreases leaves.len(),
{
    if leaves.len() <= 1 {
        leaves[0]
    } else {
        let half = leaves.len() / 2;
        parent_digest(merkle_root(leaves.take(half as int)), merkle_root(leaves.skip(half as int)))
    }
}

/// The hashes of the roots of the forest over `leaves`, tallest tree
/// first: the last tree holds as many of the last leaves as the largest
/// power of two that divides their number, and the trees before it are
/// the forest over the leaves before those.
pub open spec fn forest_roots(leaves: Seq<NodeHash>) -> Seq<NodeHash>
    decreases leaves.len(),
{
    let size = low_bit(leaves.len());
    if size == 0 || size > leaves.len() {
        Seq::empty()
    } else {
        forest_roots(leaves.take(leaves.len() - size)).push(
            merkle_root(leaves.skip(leaves.len() - size)),
        )
    }
}

/// The hashes of the roots.
pub open spec fn root_hashes(roots: Seq<PolNode>) -> Seq<NodeHash> {
    Seq::new(roots.len(), |i: int| roots[i].data)
}

proof fn lemma_low_bit_bounds(n: nat)
    requires
        n > 0,
    ensures
        0 < low_bit(n) <= n,
    decreases n,
{
    if n % 2 == 0 {
        lemma_low_bit_bounds(n / 2);
    }
}

proof fn lemma_two_to_pos(e: nat)
    ensures
        two_to(e) > 0,
    decreases e,
{
    if e > 0 {
        lemma_two_to_pos((e - 1) as nat);
    }
}

/// Where more than `j` set bits end `n`, the number without its last `j`
/// bits set has bit `j` as its lowest.
proof fn lemma_trailing_ones(n: u64, j: nat)
    requires
        j < merge_count(n),
    ensures
        n >= 2 * two_to(j) - 1,
        low_bit((n - (two_to(j) - 1)) as nat) == two_to(j),
    decreases j,
{
    if j > 0 {
        lemma_trailing_ones(n / 2, (j - 1) as nat);
        let x = (n / 2 - (two_to((j - 1) as nat) - 1)) as nat;
        lemma_two_to_pos((j - 1) as nat);
        assert(n - (two_to(j) - 1) == 2 * x);
        assert((2 * x) / 2 == x);
    }
}

/// The lowest set bit of `n + 1` stands as high as set bits end `n`.
proof fn lemma_low_bit_next(n: u64)
    requires
        n < u64::MAX,
    ensures
        low_bit((n + 1) as nat) == two_to(merge_count(n)),
        n + 1 >= two_to(merge_count(n)),
    decreases n,
{
    if n % 2 == 1 {
        lemma_low_bit_next(n / 2);
        assert((n + 1) / 2 == n / 2 + 1);
    }
}

/// While a new leaf joins the last roots, it carries the Merkle root of
/// the leaves of those roots and itself, and the roots before them are
/// the forest over the leaves before.
proof fn lemma_climb(roots: Seq<PolNode>, leaves: Seq<NodeHash>, data: NodeHash, j: nat)
    requires
        leaves.len() <= u64::MAX,
        j <= merge_count(leaves.len() as u64),
        j <= roots.len(),
        root_hashes(roots) == forest_roots(leaves),
        climb_hash(roots, data, j) is Ok,
    ensures
        two_to(j) - 1 <= leaves.len(),
        forest_roots(leaves).take(roots.len() - j) == forest_roots(
            leaves.take(leaves.len() - (two_to(j) - 1)),
        ),
        climb_hash(roots, data, j) == Ok::<NodeHash, AccumulatorError>(
            merkle_root(leaves.skip(leaves.len() - (two_to(j) - 1)).push(data)),
        ),
    decreases j,
{
    let n = leaves.len();
    let all = forest_roots(leaves);
    assert(all.len() == roots.len());
    if j == 0 {
        assert(all.take(roots.len() as int) =~= all);
        assert(leaves.take(n as int) =~= leaves);
        assert(leaves.skip(n as int).push(data) =~= seq![data]);
    } else {
        let i = (j - 1) as nat;
        lemma_climb(roots, leaves, data, i);
        lemma_trailing_ones(n as u64, i);
        lemma_two_to_pos(i);
        // the leaves up to the tree that is joined at this step
        let before = (n - (two_to(i) - 1)) as nat;
        let size = two_to(i);
        let prefix = leaves.take(before as int);
        assert(low_bit(before) == size);
        assert(forest_roots(prefix) == forest_roots(prefix.take(before - size)).push(
            merkle_root(prefix.skip(before - size)),
        ));
        assert(prefix.take(before - size) =~= leaves.take(n - (two_to(j) - 1)));
        let kept = all.take(roots.len() - i);
        assert(kept == forest_roots(prefix));
        assert(all.take(roots.len() - j) =~= kept.drop_last());
        assert(kept.drop_last() =~= forest_roots(leaves.take(n - (two_to(j) - 1))));
        // the root that is joined, and the two halves of the new tree
        let joined = roots[roots.len() - j].data;
        assert(joined == root_hashes(roots)[roots.len() - j]);
        assert(joined == kept.last());
        let block = leaves.skip(n - (two_to(j) - 1)).push(data);
        assert(block.len() == 2 * size);
        assert(block.take(size as int) =~= prefix.skip(before - size));
        assert(block.skip(size as int) =~= leaves.skip(before as int).push(data));
        assert((2 * size) / 2 == size);
    }
}

/// Adding a leaf keeps the roots the Merkle roots of the leaves: where
/// the roots of a forest carry the hashes of the forest over `leaves` and
/// the leaf `data` is added, the new roots carry the hashes of the forest
/// over `leaves` with `data` behind them.
pub proof fn lemma_add_keeps_merkle_roots(
    roots: Seq<PolNode>,
    leaves: Seq<NodeHash>,
    data: NodeHash,
)
    requires
        leaves.len() < u64::MAX,
        roots.len() == popcount(leaves.len() as u64),
        root_hashes(roots) == forest_roots(leaves),
        roots_after_add(roots, data, leaves.len() as u64) is Ok,
    ensures
        root_hashes(roots_after_add(roots, data, leaves.len() as u64)->Ok_0) == forest_roots(
            leaves.push(data),
        ),
{
    let n = leaves.len();
    let steps = merge_count(n as u64);
    lemma_merge_count(n as u64);
    lemma_climb(roots, leaves, data, steps);
    lemma_low_bit_next(n as u64);
    lemma_two_to_pos(steps);
    let grown = leaves.push(data);
    let size = two_to(steps);
    assert(low_bit(grown.len()) == size);
    assert(grown.take(grown.len() - size) =~= leaves.take(n - (size - 1)));
    assert(grown.skip(grown.len() - size) =~= leaves.skip(n - (size - 1)).push(data));
    let after = roots_after_add(roots, data, n as u64)->Ok_0;
    assert(after == roots.take(roots.len() - steps).push(climb_node(roots, data, steps)));
    assert(climb_node(roots, data, steps).data == climb_hash(roots, data, steps)->Ok_0);
    assert(root_hashes(after) =~= forest_roots(leaves).take(roots.len() - steps).push(
        climb_hash(roots, data, steps)->Ok_0,
    ));
}

} // verus!
