//! The hashes of the forest are sound: each node above the leaves has
//! two children that carry a hash each, and carries the hash of the two.
//! A forest from which nodes were cut off is not sound in this sense.
use crate::accumulator::graft::turns_right;
use crate::accumulator::graft_laws::{child_unit, forest_subtree, subtree_at};
use crate::accumulator::pollard::{
    climb_hash, climb_node, lemma_merge_count, merge_count, merged, roots_after_add, PolNode,
};
use crate::accumulator::types::{is_empty_hash, parent_digest, NodeHash};
use crate::accumulator::util::{
    first_leaf, in_forest, lemma_differ, lemma_first_leaf_up, lemma_low_bit, lemma_popcount_bound,
    lemma_same_tree_up, lemma_tree_rows_of, offset_of, popcount, row_of, top_bit, tree_rows_of,
};
use crate::accumulator::util_laws::{lemma_has_row_of, lemma_top_bit_of, lemma_tree_bit};
use vstd::arithmetic::power2::{lemma2_to64, lemma2_to64_rest, lemma_pow2_unfold, pow2};
use vstd::prelude::*;

verus! {

/// The two children of a subtree carry a hash each, and the hash at its
/// top is that of the two.
pub open spec fn fit(unit: PolNode) -> bool {
    let l = child_unit(unit, false).data;
    let r = child_unit(unit, true).data;
    !is_empty_hash(l) && !is_empty_hash(r) && unit.data == parent_digest(l, r)
}

/// A subtree is sound down to `depth` levels: every node less than
/// `depth` levels below its top has two children that carry a hash
/// each, and carries the hash of the two.
pub open spec fn sound_to(unit: PolNode, depth: nat) -> bool
    decreases depth,
{
    if depth == 0 {
        true
    } else {
        &&& fit(unit)
        &&& sound_to(child_unit(unit, false), (depth - 1) as nat)
        &&& sound_to(child_unit(unit, true), (depth - 1) as nat)
    }
}

/// What is sound down to some depth is sound down to any lesser depth.
pub proof fn lemma_sound_less(unit: PolNode, depth: nat, less: nat)
    requires
        sound_to(unit, depth),
        less <= depth,
    ensures
        sound_to(unit, less),
    decreases less,
{
    if less > 0 {
        lemma_sound_less(child_unit(unit, false), (depth - 1) as nat, (less - 1) as nat);
        lemma_sound_less(child_unit(unit, true), (depth - 1) as nat, (less - 1) as nat);
    }
}

/// What hangs in a sound subtree is sound, as far down as is left.
pub proof fn lemma_sound_below(unit: PolNode, depth: nat, branch: nat, bits: u64)
    requires
        sound_to(unit, depth),
        branch <= depth,
    ensures
        sound_to(subtree_at(unit, branch, bits), (depth - branch) as nat),
    decreases branch,
{
    if branch > 0 {
        lemma_sound_below(
            child_unit(unit, turns_right(bits, branch)),
            (depth - 1) as nat,
            (branch - 1) as nat,
            bits,
        );
    }
}

/// Joining two sound trees that carry a hash each under the hash of their
/// roots gives a sound tree, one level deeper.
pub proof fn lemma_merged_sound(left_root: PolNode, node: PolNode, hash: NodeHash, depth: nat)
    requires
        sound_to(left_root, depth),
        sound_to(node, depth),
        !is_empty_hash(left_root.data),
        !is_empty_hash(node.data),
        hash == parent_digest(left_root.data, node.data),
    ensures
        sound_to(merged(left_root, node, hash), depth + 1),
        merged(left_root, node, hash).data == hash,
{
    let whole = merged(left_root, node, hash);
    assert(child_unit(whole, false) == left_root);
    assert(child_unit(whole, true) == node);
}

/// The heights of the trees of a forest of `n` leaves whose height is
/// below `upto`, the tallest first: one for each set bit of `n`.
pub open spec fn heights_upto(n: u64, upto: nat) -> Seq<nat>
    decreases upto,
{
    if upto == 0 {
        Seq::empty()
    } else {
        let rest = heights_upto(n, (upto - 1) as nat);
        if (n >> ((upto - 1) as u8)) & 1 == 1 {
            seq![(upto - 1) as nat] + rest
        } else {
            rest
        }
    }
}

/// Every tree of the forest is sound from its root down to its leaves.
pub open spec fn forest_sound(roots: Seq<PolNode>, num_leaves: u64) -> bool {
    &&& roots.len() == heights_upto(num_leaves, 64).len()
    &&& forall|i: int|
        0 <= i < roots.len() ==> sound_to(#[trigger] roots[i], heights_upto(num_leaves, 64)[i])
}

/// A forest without leaves has no trees, and is sound.
pub proof fn lemma_no_trees()
    ensures
        heights_upto(0, 64).len() == 0,
        forest_sound(Seq::<PolNode>::empty(), 0),
{
    lemma_no_trees_upto(64);
}

proof fn lemma_no_trees_upto(upto: nat)
    requires
        upto <= 64,
    ensures
        heights_upto(0, upto).len() == 0,
    decreases upto,
{
    if upto > 0 {
        lemma_no_trees_upto((upto - 1) as nat);
        if upto > 1 {
            lemma_no_bit_above(0, 0, (upto - 1) as u8);
        }
        lemma_low_bit(0, 0);
    }
}

/// The trees that are taller than `height` are as many as the leaf count
/// has set bits above that of `height`.
pub proof fn lemma_heights_above(n: u64, k: nat)
    requires
        k <= 64,
    ensures
        heights_upto(n, 64).len() >= heights_upto(n, k).len(),
        k < 64 ==> heights_upto(n, 64).len() - heights_upto(n, k).len() == popcount(n >> (k as u8)),
    decreases 64 - k,
{
    if k < 64 {
        lemma_heights_above(n, k + 1);
        let x = n >> (k as u8);
        lemma_low_bit(x, 0);
        lemma_low_bit(n, k as u8);
        if k == 63 {
            lemma_low_bit(n, 0);
            assert(x / 2 == 0);
            assert(popcount((x / 2) as u64) == 0);
        }
    }
}

/// The tree with `tree` taller trees before it has the height that
/// stands at place `tree` of the heights.
pub proof fn lemma_height_of_tree(n: u64, height: u8, upto: nat)
    requires
        height < upto <= 64,
        (n >> height) & 1 == 1,
    ensures
        heights_upto(n, upto).len() > heights_upto(n, height as nat).len(),
        heights_upto(n, upto)[heights_upto(n, upto).len() - heights_upto(
            n,
            height as nat,
        ).len() - 1] == height,
    decreases upto,
{
    let rest = heights_upto(n, (upto - 1) as nat);
    if upto == height + 1 {
        assert(heights_upto(n, upto) == seq![height as nat] + rest);
    } else {
        lemma_height_of_tree(n, height, (upto - 1) as nat);
        if (n >> ((upto - 1) as u8)) & 1 == 1 {
            let all = seq![(upto - 1) as nat] + rest;
            let at = rest.len() - heights_upto(n, height as nat).len() - 1;
            assert(all[at + 1] == rest[at]);
        }
    }
}

/// A count that does not exceed 2^rows has no bit set above `rows`.
proof fn lemma_no_bit_above(n: u64, rows: u8, bit: u8)
    by (bit_vector)
    requires
        rows < bit < 64,
        n <= (1u64 << rows),
    ensures
        (n >> bit) & 1 == 0,
{
}

/// A forest of no more than 2^rows leaves has no tree taller than `rows`.
pub proof fn lemma_heights_low(n: u64, rows: u8, upto: nat)
    requires
        rows < 64,
        n <= (1u64 << rows),
        rows + 1 <= upto <= 64,
    ensures
        heights_upto(n, upto) == heights_upto(n, (rows + 1) as nat),
    decreases upto,
{
    if upto > rows + 1 {
        lemma_heights_low(n, rows, (upto - 1) as nat);
        lemma_no_bit_above(n, rows, (upto - 1) as u8);
    }
}

proof fn lemma_merge_below(n: u64, k: nat)
    requires
        n + 1 < pow2(k),
    ensures
        merge_count(n) < k,
    decreases k,
{
    if k == 0 {
        lemma2_to64();
    } else if n % 2 == 1 {
        lemma_pow2_unfold(k);
        lemma_merge_below(n / 2, (k - 1) as nat);
    }
}

/// Fewer than 64 set bits end a count that is not the largest.
pub proof fn lemma_merge_bound(n: u64)
    requires
        n < u64::MAX,
    ensures
        merge_count(n) < 64,
{
    lemma2_to64_rest();
    lemma_merge_below(n, 64);
}

/// The bits of a count and of the count after it: the set bits that end
/// the count are clear in the next one, the bit above them is set in the
/// next one only, and the bits above that are the same in both.
proof fn lemma_next_bits(n: u64, bit: u8)
    requires
        n < u64::MAX,
        bit < 64,
    ensures
        bit < merge_count(n) ==> (n >> bit) & 1 == 1 && (((n + 1) as u64) >> bit) & 1 == 0,
        bit == merge_count(n) ==> (n >> bit) & 1 == 0 && (((n + 1) as u64) >> bit) & 1 == 1,
        bit > merge_count(n) ==> (((n + 1) as u64) >> bit) & 1 == (n >> bit) & 1,
    decreases bit,
{
    let next = (n + 1) as u64;
    lemma_low_bit(n, 0);
    lemma_low_bit(next, 0);
    if bit > 0 {
        let less = (bit - 1) as u8;
        lemma_low_bit(n, less);
        lemma_low_bit(next, less);
        if n % 2 == 1 {
            lemma_next_bits(n / 2, less);
            assert(next / 2 == n / 2 + 1);
        } else {
            assert(next / 2 == n / 2);
        }
    }
}

/// The trees lower than the set bits that end a count are all there, one
/// of each height.
pub proof fn lemma_heights_full(n: u64, upto: nat)
    requires
        n < u64::MAX,
        upto <= merge_count(n),
        upto <= 64,
    ensures
        heights_upto(n, upto).len() == upto,
        forall|i: int| 0 <= i < upto ==> heights_upto(n, upto)[i] == upto - 1 - i,
        heights_upto((n + 1) as u64, upto).len() == 0,
    decreases upto,
{
    if upto > 0 {
        lemma_heights_full(n, (upto - 1) as nat);
        lemma_next_bits(n, (upto - 1) as u8);
        let rest = heights_upto(n, (upto - 1) as nat);
        let all = seq![(upto - 1) as nat] + rest;
        assert forall|i: int| 0 <= i < upto implies heights_upto(n, upto)[i] == upto - 1 - i by {
            if i > 0 {
                assert(all[i] == rest[i - 1]);
            }
        }
    }
}

/// Above the set bits that end a count, the forest of the next count has
/// the trees of the forest of the count, and one more tree below them.
proof fn lemma_heights_next(n: u64, upto: nat)
    requires
        n < u64::MAX,
        merge_count(n) < upto <= 64,
    ensures
        ({
            let steps = merge_count(n);
            let now = heights_upto(n, upto);
            let next = heights_upto((n + 1) as u64, upto);
            &&& now.len() >= steps
            &&& next.len() == now.len() - steps + 1
            &&& forall|i: int| 0 <= i < now.len() - steps ==> next[i] == now[i]
            &&& next[now.len() - steps] == steps
            &&& forall|j: int| now.len() - steps <= j < now.len() ==> now[j] == now.len() - 1 - j
        }),
    decreases upto,
{
    let steps = merge_count(n);
    let now = heights_upto(n, upto);
    let next = heights_upto((n + 1) as u64, upto);
    let now_rest = heights_upto(n, (upto - 1) as nat);
    let next_rest = heights_upto((n + 1) as u64, (upto - 1) as nat);
    lemma_next_bits(n, (upto - 1) as u8);
    if upto == steps + 1 {
        lemma_heights_full(n, steps);
        assert(now == now_rest);
        assert(next == seq![steps] + next_rest);
    } else {
        lemma_heights_next(n, (upto - 1) as nat);
        if (n >> ((upto - 1) as u8)) & 1 == 1 {
            let head = (upto - 1) as nat;
            assert(now == seq![head] + now_rest);
            assert(next == seq![head] + next_rest);
            assert forall|i: int| 0 <= i < now.len() - steps implies next[i] == now[i] by {
                if i > 0 {
                    assert(next[i] == next_rest[i - 1]);
                    assert(now[i] == now_rest[i - 1]);
                }
            }
            assert(next[now.len() - steps] == next_rest[now.len() - steps - 1]);
            assert forall|j: int| now.len() - steps <= j < now.len() implies now[j] == now.len()
                - 1 - j by {
                assert(now[j] == now_rest[j - 1]);
            }
        }
    }
}

/// What a new leaf has become after it has joined roots of a sound
/// forest is sound.
proof fn lemma_climb_sound(roots: Seq<PolNode>, data: NodeHash, num_leaves: u64, steps: nat)
    requires
        num_leaves < u64::MAX,
        forest_sound(roots, num_leaves),
        steps <= merge_count(num_leaves),
        climb_hash(roots, data, steps) is Ok,
    ensures
        sound_to(climb_node(roots, data, steps), steps),
        climb_node(roots, data, steps).data == climb_hash(roots, data, steps)->Ok_0,
        steps <= roots.len(),
    decreases steps,
{
    lemma_merge_count(num_leaves);
    lemma_merge_bound(num_leaves);
    lemma_heights_next(num_leaves, 64);
    if steps > 0 {
        lemma_climb_sound(roots, data, num_leaves, (steps - 1) as nat);
        let at = roots.len() - steps;
        let joined = roots[at];
        let all = heights_upto(num_leaves, 64);
        let count = merge_count(num_leaves);
        assert(all[at] == all.len() - 1 - at);
        assert(sound_to(joined, (steps - 1) as nat));
        lemma_merged_sound(
            joined,
            climb_node(roots, data, (steps - 1) as nat),
            climb_hash(roots, data, steps)->Ok_0,
            (steps - 1) as nat,
        );
    } else {
    }
}

/// Adding keeps the hashes sound: where every tree of a forest is sound
/// from its root down to its leaves, and a leaf is added, every tree of
/// the forest is sound then.
pub proof fn lemma_add_keeps_sound(roots: Seq<PolNode>, data: NodeHash, num_leaves: u64)
    requires
        num_leaves < u64::MAX,
        forest_sound(roots, num_leaves),
        roots_after_add(roots, data, num_leaves) is Ok,
    ensures
        forest_sound(roots_after_add(roots, data, num_leaves)->Ok_0, (num_leaves + 1) as u64),
{
    let steps = merge_count(num_leaves);
    lemma_merge_count(num_leaves);
    lemma_merge_bound(num_leaves);
    lemma_heights_next(num_leaves, 64);
    lemma_climb_sound(roots, data, num_leaves, steps);
    let after = roots_after_add(roots, data, num_leaves)->Ok_0;
    let now = heights_upto(num_leaves, 64);
    let next = heights_upto((num_leaves + 1) as u64, 64);
    assert forall|i: int| 0 <= i < after.len() implies sound_to(#[trigger] after[i], next[i]) by {
        if i < roots.len() - steps {
            assert(after[i] == roots[i]);
            assert(next[i] == now[i]);
        }
    }
}

/// What hangs at a position of a sound forest is sound down to the
/// leaves below it.
pub proof fn lemma_forest_fit(roots: Seq<PolNode>, num_leaves: u64, pos: u64)
    requires
        forest_sound(roots, num_leaves),
        in_forest(pos, num_leaves),
    ensures
        sound_to(forest_subtree(roots, num_leaves, pos), row_of(pos, tree_rows_of(num_leaves))),
        offset_of(pos, num_leaves).0 < roots.len(),
{
    let rows = tree_rows_of(num_leaves);
    lemma_tree_rows_of(num_leaves);
    let row = row_of(pos, rows) as u8;
    lemma_has_row_of(pos, rows);
    lemma_low_bit(0, row);
    let leaf = first_leaf(pos, row, rows);
    lemma_differ(leaf, num_leaves);
    lemma_top_bit_of(leaf ^ num_leaves);
    let high = top_bit(leaf ^ num_leaves);
    lemma_tree_bit(leaf, num_leaves, high);
    lemma_first_leaf_up(pos, row, (row + 1) as u8, rows);
    lemma_same_tree_up(leaf, num_leaves, row, (row + 1) as u8, rows, high);
    let way = offset_of(pos, num_leaves);
    let all = heights_upto(num_leaves, 64);
    lemma_height_of_tree(num_leaves, high, 64);
    lemma_heights_above(num_leaves, (high + 1) as nat);
    lemma_heights_above(num_leaves, high as nat);
    lemma_low_bit(num_leaves >> high, 0);
    lemma_low_bit(num_leaves, high);
    lemma_popcount_bound((num_leaves >> high) >> 1);
    if high == 63 {
        lemma_low_bit(num_leaves, 0);
        assert(popcount((num_leaves >> high) >> 1) == 0);
    }
    assert(way.0 as int == all.len() - heights_upto(num_leaves, high as nat).len() - 1);
    assert(all[way.0 as int] == high);
    lemma_sound_below(roots[way.0 as int], high as nat, way.1 as nat, way.2);
}

} // verus!
