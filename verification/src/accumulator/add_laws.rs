//! Adding keeps the leaves: what hung at a leaf hangs there after
//! another leaf has been added, and the new leaf hangs behind them.
use crate::accumulator::graft::turns_right;
use crate::accumulator::graft_laws::{
    child_unit, forest_subtree, lemma_subtree_same_turns, subtree_at,
};
use crate::accumulator::index::{index_ok, IndexEntry};
use crate::accumulator::leaf_laws::{lemma_leaf_place, lemma_subtree_below, names_leaves};
use crate::accumulator::pollard::{
    climb_hash, climb_node, lemma_merge_count, merge_count, merged, roots_after_add, PolNode,
};
use crate::accumulator::soundness::{
    heights_upto, lemma_heights_above, lemma_heights_full, lemma_merge_bound,
};
use crate::accumulator::transform::tree_start_of;
use crate::accumulator::types::NodeHash;
use crate::accumulator::util::{
    in_forest, lemma_differ, lemma_low_bit, lemma_popcount_bound, lemma_top_bit_unique, offset_of,
    popcount, top_bit, MAX_LEAVES,
};
use crate::accumulator::util_laws::{lemma_popcount_shift, lemma_top_bit_of, lemma_tree_bit};
use vstd::prelude::*;

verus! {

/// The children of a node that joins a root with the node that arrives
/// at its row are that root and that node.
pub proof fn lemma_merged_children(left_root: PolNode, node: PolNode, hash: NodeHash)
    ensures
        child_unit(merged(left_root, node, hash), false) == left_root,
        child_unit(merged(left_root, node, hash), true) == node,
{
}

/// In what a new leaf has become after it has joined `steps` roots, the
/// way that turns right at every level leads to the leaf.
pub proof fn lemma_climb_down_new(roots: Seq<PolNode>, data: NodeHash, steps: nat, bits: u64)
    requires
        steps <= roots.len(),
        forall|level: nat| 1 <= level <= steps ==> turns_right(bits, level),
    ensures
        subtree_at(climb_node(roots, data, steps), steps, bits) == PolNode::leaf(data),
    decreases steps,
{
    if steps > 0 {
        let less = (steps - 1) as nat;
        let top = climb_node(roots, data, steps);
        let below = climb_node(roots, data, less);
        lemma_merged_children(
            roots[roots.len() - steps],
            below,
            climb_hash(roots, data, steps)->Ok_0,
        );
        assert(turns_right(bits, steps));
        let child = child_unit(top, true);
        if less >= 1 {
            lemma_subtree_below(child, below, less, bits);
        }
        lemma_climb_down_new(roots, data, less, bits);
    }
}

/// In what a new leaf has become after it has joined `steps` roots, the
/// way that turns right down to the level of one of those roots, and
/// left there, leads into the tree of that root, and from there on as
/// it did before.
pub proof fn lemma_climb_down_old(
    roots: Seq<PolNode>,
    data: NodeHash,
    steps: nat,
    height: nat,
    bits: u64,
)
    requires
        height < steps <= roots.len(),
        forall|level: nat| height + 2 <= level <= steps ==> turns_right(bits, level),
        !turns_right(bits, height + 1),
    ensures
        subtree_at(climb_node(roots, data, steps), steps, bits) == subtree_at(
            roots[roots.len() - 1 - height],
            height,
            bits,
        ),
    decreases steps,
{
    let less = (steps - 1) as nat;
    let top = climb_node(roots, data, steps);
    let below = climb_node(roots, data, less);
    let joined = roots[roots.len() - steps];
    lemma_merged_children(
        joined,
        below,
        climb_hash(roots, data, steps)->Ok_0,
    );
    if less == height {
        let child = child_unit(top, false);
        if height >= 1 {
            lemma_subtree_below(child, joined, height, bits);
        }
    } else {
        assert(turns_right(bits, steps));
        let child = child_unit(top, true);
        lemma_subtree_below(child, below, less, bits);
        lemma_climb_down_old(roots, data, less, height, bits);
    }
}

/// A leaf below the root of a tree stands behind the leaves of all
/// taller trees, at the end of its way down from that root.
pub proof fn lemma_leaf_way_bits(leaf: u64, num_leaves: u64, height: u8)
    by (bit_vector)
    requires
        height < 64,
        leaf < num_leaves,
        (leaf ^ num_leaves) >> height == 1,
    ensures
        (num_leaves >> height) & 1 == 1,
        tree_start_of(num_leaves, height) | (leaf & (((1u64 << height) - 1) as u64)) == leaf,
{
}

/// Where a leaf hangs: in the tree whose height is the highest bit in
/// which the leaf and the leaf count differ, as many levels below its
/// root, at the end of the way that the low bits of the leaf spell.
pub proof fn lemma_leaf_way(leaf: u64, num_leaves: u64)
    requires
        leaf < num_leaves <= MAX_LEAVES,
    ensures
        ({
            let height = top_bit(leaf ^ num_leaves);
            let low = leaf & (((1u64 << height) - 1) as u64);
            &&& height < 64
            &&& (leaf ^ num_leaves) >> height == 1
            &&& (num_leaves >> height) & 1 == 1
            &&& in_forest(leaf, num_leaves)
            &&& offset_of(leaf, num_leaves) == (
                popcount((num_leaves >> height) >> 1) as u8,
                height,
                low,
            )
            &&& forall|level: nat|
                1 <= level <= height ==> turns_right(low, level) == turns_right(leaf, level)
        }),
{
    lemma_differ(leaf, num_leaves);
    lemma_top_bit_of(leaf ^ num_leaves);
    let height = top_bit(leaf ^ num_leaves);
    lemma_leaf_way_bits(leaf, num_leaves, height);
    lemma_leaf_place(num_leaves, height, leaf);
}

/// The bits of a leaf count below its merge count are set, and the bit
/// at the merge count is not.
pub proof fn lemma_merge_bits(n: u64)
    requires
        n < u64::MAX,
    ensures
        merge_count(n) < 64,
        n & (((1u64 << (merge_count(n) as u8)) - 1) as u64) == (1u64 << (merge_count(n) as u8)) - 1,
        (n >> (merge_count(n) as u8)) & 1 == 0,
    decreases n,
{
    lemma_merge_bound(n);
    let steps = merge_count(n) as u8;
    let half = n / 2;
    let less = merge_count(half) as u8;
    if n % 2 == 1 {
        lemma_merge_bits(half);
    }
    assert(n & (((1u64 << steps) - 1) as u64) == (1u64 << steps) - 1 && (n >> steps) & 1 == 0)
        by (bit_vector)
        requires
            steps < 64,
            half == n / 2,
            n % 2 == 0 ==> steps == 0,
            n % 2 == 1 ==> less < 63 && steps == less + 1 && half & (((1u64 << less) - 1) as u64)
                == (1u64 << less) - 1 && (half >> less) & 1 == 0,
    ;
}

/// What the next leaf changes in the ways to the leaves. A leaf in a
/// tree taller than those that join keeps its tree; a leaf in a tree
/// that joins hangs in the new tree, to the right down to the level of
/// its old root and to the left there. The new leaf hangs in the new
/// tree, to the right at every level.
pub proof fn lemma_next_way_bits(leaf: u64, n: u64, steps: u8, height: u8, level: u8)
    by (bit_vector)
    requires
        steps < 64,
        height < 64,
        n < 0x8000_0000_0000_0000u64,
        n & (((1u64 << steps) - 1) as u64) == (1u64 << steps) - 1,
        (n >> steps) & 1 == 0,
        leaf <= n,
        leaf < n ==> (leaf ^ n) >> height == 1,
    ensures
        (n ^ ((n + 1) as u64)) >> steps == 1,
        (((n + 1) as u64) >> steps) >> 1 == (n >> steps) >> 1,
        level < steps ==> (n >> level) & 1 == 1,
        leaf < n ==> height != steps && height < 63,
        leaf < n && height > steps ==> (leaf ^ ((n + 1) as u64)) >> height == 1 && (((n
            + 1) as u64) >> height) >> 1 == (n >> height) >> 1,
        leaf < n && height < steps ==> (leaf ^ ((n + 1) as u64)) >> steps == 1 && (leaf >> height)
            & 1 == 0,
        leaf < n && height < level < steps ==> (leaf >> level) & 1 == 1,
{
}

/// The tree that a new leaf ends up in is the last tree of the forest.
pub proof fn lemma_last_tree(n: u64)
    requires
        n < MAX_LEAVES,
    ensures
        popcount((((n + 1) as u64) >> (merge_count(n) as u8)) >> 1) + 1 == popcount(
            (n + 1) as u64,
        ),
{
    let next = (n + 1) as u64;
    let steps = merge_count(n);
    lemma_merge_bits(n);
    lemma_next_way_bits(n, n, steps as u8, 0, 0);
    lemma_heights_full(n, steps);
    lemma_heights_above(next, steps);
    lemma_heights_above(next, 0);
    lemma_low_bit(next, 0);
    lemma_low_bit(next >> (steps as u8), 0);
    lemma_differ(n, next);
    lemma_top_bit_unique(n ^ next, steps as u8, steps as u8);
    lemma_tree_bit(n, next, steps as u8);
}

/// Adding a leaf keeps what hangs at the leaves of the forest: in the
/// forest with the new leaf, what hung at a leaf hangs there still.
#[verifier::rlimit(60)]
pub proof fn lemma_add_keeps_leaves(
    roots: Seq<PolNode>,
    data: NodeHash,
    num_leaves: u64,
    leaf: u64,
)
    requires
        num_leaves < MAX_LEAVES,
        roots.len() == popcount(num_leaves),
        roots_after_add(roots, data, num_leaves) is Ok,
        leaf < num_leaves,
    ensures
        forest_subtree(
            roots_after_add(roots, data, num_leaves)->Ok_0,
            (num_leaves + 1) as u64,
            leaf,
        ) == forest_subtree(roots, num_leaves, leaf),
{
    let n = num_leaves;
    let next = (n + 1) as u64;
    let steps = merge_count(n);
    let after = roots_after_add(roots, data, n)->Ok_0;
    let top = climb_node(roots, data, steps);
    lemma_merge_bits(n);
    lemma_merge_count(n);
    lemma_leaf_way(leaf, n);
    lemma_leaf_way(leaf, next);
    let height = top_bit(leaf ^ n);
    let low = leaf & (((1u64 << height) - 1) as u64);
    lemma_next_way_bits(leaf, n, steps as u8, height, 0);
    // the trees of the forest, by their heights
    lemma_heights_above(n, 0);
    lemma_low_bit(n, 0);
    lemma_heights_above(n, (height + 1) as nat);
    lemma_low_bit(n, height);
    lemma_heights_full(n, steps);
    let tree = popcount((n >> height) >> 1);
    lemma_popcount_bound((n >> height) >> 1);
    lemma_popcount_bound((next >> (steps as u8)) >> 1);
    assert(after.len() == roots.len() - steps + 1);
    if height > steps {
        lemma_heights_above(n, height as nat);
        lemma_heights_above(n, steps);
        lemma_popcount_shift(n, steps as u8, height);
        lemma_low_bit(n >> height, 0);
        assert(heights_upto(n, (height + 1) as nat).len() == heights_upto(n, height as nat).len()
            + 1);
        assert(tree < roots.len() - steps);
        lemma_top_bit_unique(leaf ^ next, height, top_bit(leaf ^ next));
        assert(after[tree as int] == roots[tree as int]);
    } else {
        lemma_heights_full(n, (height + 1) as nat);
        assert(tree == roots.len() - 1 - height);
        // the new tree is the last one
        lemma_top_bit_unique(leaf ^ next, steps as u8, top_bit(leaf ^ next));
        lemma_last_tree(n);
        let far = leaf & (((1u64 << (steps as u8)) - 1) as u64);
        assert(forest_subtree(after, next, leaf) == subtree_at(top, steps, far));
        assert(forest_subtree(roots, n, leaf) == subtree_at(
            roots[tree as int],
            height as nat,
            low,
        ));
        assert forall|level: nat| height + 2 <= level <= steps implies turns_right(
            leaf,
            level,
        ) by {
            lemma_next_way_bits(leaf, n, steps as u8, height, (level - 1) as u8);
        }
        lemma_climb_down_old(roots, data, steps, height as nat, leaf);
        lemma_subtree_same_turns(top, steps, far, leaf);
        lemma_subtree_same_turns(roots[tree as int], height as nat, low, leaf);
    }
}

/// The new leaf hangs behind the leaves that were there.
pub proof fn lemma_add_hangs_leaf(roots: Seq<PolNode>, data: NodeHash, num_leaves: u64)
    requires
        num_leaves < MAX_LEAVES,
        roots.len() == popcount(num_leaves),
        roots_after_add(roots, data, num_leaves) is Ok,
    ensures
        forest_subtree(
            roots_after_add(roots, data, num_leaves)->Ok_0,
            (num_leaves + 1) as u64,
            num_leaves,
        ) == PolNode::leaf(data),
{
    let n = num_leaves;
    let next = (n + 1) as u64;
    let steps = merge_count(n);
    let after = roots_after_add(roots, data, n)->Ok_0;
    let top = climb_node(roots, data, steps);
    lemma_merge_bits(n);
    lemma_merge_count(n);
    lemma_leaf_way(n, next);
    lemma_next_way_bits(n, n, steps as u8, 0, 0);
    lemma_top_bit_unique(n ^ next, steps as u8, top_bit(n ^ next));
    lemma_last_tree(n);
    lemma_popcount_bound((next >> (steps as u8)) >> 1);
    let far = n & (((1u64 << (steps as u8)) - 1) as u64);
    assert(forest_subtree(after, next, n) == subtree_at(top, steps, far));
    assert forall|level: nat| 1 <= level <= steps implies turns_right(n, level) by {
        lemma_next_way_bits(n, n, steps as u8, 0, (level - 1) as u8);
    }
    lemma_climb_down_new(roots, data, steps, n);
    lemma_subtree_same_turns(top, steps, far, n);
}

/// An index that is in step with the forest is in step with it after a
/// leaf has been added and entered.
pub proof fn lemma_add_keeps_names(
    roots: Seq<PolNode>,
    index: Seq<IndexEntry>,
    data: NodeHash,
    num_leaves: u64,
)
    requires
        num_leaves < MAX_LEAVES,
        roots.len() == popcount(num_leaves),
        roots_after_add(roots, data, num_leaves) is Ok,
        index_ok(index, num_leaves),
        names_leaves(index, roots, num_leaves),
    ensures
        names_leaves(
            index.push(IndexEntry { hash: data, position: num_leaves }),
            roots_after_add(roots, data, num_leaves)->Ok_0,
            (num_leaves + 1) as u64,
        ),
{
    let after = roots_after_add(roots, data, num_leaves)->Ok_0;
    let next = (num_leaves + 1) as u64;
    let out = index.push(IndexEntry { hash: data, position: num_leaves });
    assert forall|i: int| 0 <= i < out.len() implies forest_subtree(
        after,
        next,
        (#[trigger] out[i]).position,
    ).data == out[i].hash by {
        if i < index.len() {
            assert(out[i] == index[i]);
            lemma_add_keeps_leaves(roots, data, num_leaves, index[i].position);
        } else {
            lemma_add_hangs_leaf(roots, data, num_leaves);
        }
    }
}

} // verus!
