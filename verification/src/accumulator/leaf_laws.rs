//! Deleting keeps the leaves that are not deleted: each of them hangs in
//! the forest that remains, at the position that `leaf_after` names.
use crate::accumulator::graft::{
    blank, forest_grafted, forest_rehashed, lemma_rows_applied_count, rehashed_from, rows_applied,
    swapped_from, turns_right,
};
use crate::accumulator::graft_laws::{
    child_unit, forest_subtree, lemma_forest_child, lemma_forest_graft, lemma_graft_same_but,
    lemma_rehash_does, lemma_subtree_same_turns, subtree_at,
};
use crate::accumulator::index::{index_ok, reindexed_upto, IndexEntry};
use crate::accumulator::pollard::{index_removed, removed, PolNode};
use crate::accumulator::remove_laws::{in_use, lemma_in_use, lemma_swap_all};
use crate::accumulator::row_laws::{
    at_row, dirty_live, lemma_dirty_next_live, lemma_family, lemma_parent_live, lemma_row_swaps,
    live_after,
};
use crate::accumulator::transform::{
    carried, carried_from, leaf_after, plan_rows, row_end_of, row_filled, row_next, row_next_dirty,
    row_root, transform_of, tree_start_of, RowPlanView,
};
use crate::accumulator::transform_laws::{
    is_from, is_to, lemma_dirty_places, lemma_fill_facts, lemma_fill_tail, lemma_plan_roots,
    lemma_roots_named_from, lemma_row_step, lemma_shift_step, lemma_tree_place,
    lemma_valid_dels_len, lemma_valid_rising, places, plan_fits, roots_named, row_ready, tail_gone,
};
use crate::accumulator::types::Arrow;
use crate::accumulator::util::{
    ancestor_of, child_of, first_leaf, forest_mask, has_row, in_forest, lemma_ancestor_closed,
    lemma_differ, lemma_low_bit, lemma_popcount_bound, lemma_top_bit_unique, lemma_tree_rows_of,
    n_grandparent_of, offset_of, parent_of, popcount, row_start_of, top_bit, tree_rows_of,
    MAX_LEAVES,
};
use crate::accumulator::util_laws::{
    lemma_child_in_forest, lemma_place_bits, lemma_place_in_forest, lemma_row_bounds, lemma_sibling,
    lemma_top_bit_of, lemma_twin_bits,
};
use vstd::prelude::*;

verus! {

/// The ancestor of a leaf in a row, written with the bits of the leaf.
pub proof fn lemma_leaf_bits(leaf: u64, row: u8, forest_rows: u8)
    by (bit_vector)
    requires
        row <= forest_rows < 64,
        leaf < (1u64 << forest_rows),
    ensures
        ((leaf >> row) | row_start_of(row, forest_rows)) & forest_mask(forest_rows) == (leaf
            >> row) | row_start_of(row, forest_rows),
        (((leaf >> row) | row_start_of(row, forest_rows)) & 1 == 1) == ((leaf >> row) & 1 == 1),
        (leaf >> 0u8) | row_start_of(0, forest_rows) == leaf,
{
}

/// The ancestor of a leaf in a row stands as far into the row as the
/// leaf stands into the groups of leaves that the nodes of the row span;
/// one row up stands its parent.
pub proof fn lemma_ancestor_place(leaf: u64, row: u8, forest_rows: u8)
    requires
        row <= forest_rows < 64,
        leaf < (1u64 << forest_rows),
    ensures
        n_grandparent_of(leaf, row, forest_rows) == (leaf >> row) | row_start_of(row, forest_rows),
        row < forest_rows ==> n_grandparent_of(leaf, (row + 1) as u8, forest_rows) == parent_of(
            n_grandparent_of(leaf, row, forest_rows),
            forest_rows,
        ),
        (n_grandparent_of(leaf, row, forest_rows) & 1 == 1) == ((leaf >> row) & 1 == 1),
{
    lemma_ancestor_closed(leaf, row, forest_rows);
    lemma_leaf_bits(leaf, row, forest_rows);
    if row < forest_rows {
        let above = (row + 1) as u8;
        lemma_ancestor_closed(leaf, above, forest_rows);
        lemma_leaf_bits(leaf, above, forest_rows);
        assert(ancestor_of(leaf, above, forest_rows) == parent_of(
            ancestor_of(leaf, row, forest_rows),
            forest_rows,
        ));
    }
}

/// A leaf that moves with its ancestor from one place of a row to
/// another is a leaf still, has the other place as its ancestor, and
/// keeps its way down from there.
pub proof fn lemma_carry_bits(leaf: u64, from: u64, to: u64, row: u8, forest_rows: u8, level: u8)
    by (bit_vector)
    requires
        row <= forest_rows < 64,
        leaf < (1u64 << forest_rows),
        from == (leaf >> row) | row_start_of(row, forest_rows),
        has_row(to, row, forest_rows),
        to <= forest_mask(forest_rows),
    ensures
        leaf ^ ((from ^ to) << row) < (1u64 << forest_rows),
        ((leaf ^ ((from ^ to) << row)) >> row) | row_start_of(row, forest_rows) == to,
        level < row ==> (((leaf ^ ((from ^ to) << row)) >> level) & 1 == 1) == ((leaf >> level) & 1
            == 1),
{
}

/// No swap from the `i`-th on has an end at `pos`.
pub open spec fn untouched(swaps: Seq<Arrow>, i: nat, pos: u64) -> bool {
    forall|k: int| i <= k < swaps.len() ==> (#[trigger] swaps[k]).from != pos && swaps[k].to != pos
}

/// Swaps that do not touch the ancestor of a leaf leave the leaf where
/// it is.
pub proof fn lemma_carried_idle(swaps: Seq<Arrow>, row: u8, i: nat, leaf: u64, ancestor: u64)
    requires
        untouched(swaps, i, ancestor),
    ensures
        carried_from(swaps, row, i, leaf, ancestor) == (leaf, ancestor),
    decreases swaps.len() - i,
{
    if i < swaps.len() {
        assert(swaps[i as int].from != ancestor && swaps[i as int].to != ancestor);
        lemma_carried_idle(swaps, row, i + 1, leaf, ancestor);
    }
}

/// Where one swap takes the ancestor of a leaf away, and no other swap
/// touches the place it comes from or the place it goes to, the leaf
/// moves with it to the place that this swap fills.
pub proof fn lemma_carried_once(
    swaps: Seq<Arrow>,
    row: u8,
    i: nat,
    leaf: u64,
    ancestor: u64,
    k: int,
)
    requires
        i <= k < swaps.len(),
        swaps[k].from == ancestor,
        forall|j: int|
            i <= j < k ==> (#[trigger] swaps[j]).from != ancestor && swaps[j].to != ancestor,
        untouched(swaps, (k + 1) as nat, swaps[k].to),
    ensures
        carried_from(swaps, row, i, leaf, ancestor) == (
            leaf ^ ((ancestor ^ swaps[k].to) << row),
            swaps[k].to,
        ),
    decreases k - i,
{
    if i == k {
        let next = carried(swaps[k], row, leaf, ancestor);
        lemma_carried_idle(swaps, row, (k + 1) as nat, next.0, next.1);
    } else {
        assert(swaps[i as int].from != ancestor && swaps[i as int].to != ancestor);
        lemma_carried_once(swaps, row, i + 1, leaf, ancestor, k);
    }
}

/// Computing the hashes of nodes of a row anew leaves alone what hangs
/// below the nodes of the row.
pub proof fn lemma_rehash_frame(
    roots: Seq<PolNode>,
    num_leaves: u64,
    dirty: Seq<u64>,
    i: nat,
    row: u8,
)
    requires
        0 < num_leaves <= MAX_LEAVES,
        row <= tree_rows_of(num_leaves),
        roots.len() == popcount(num_leaves),
        rehashed_from(roots, num_leaves, dirty, i) is Ok,
        forall|k: int| i <= k < dirty.len() ==> in_use(#[trigger] dirty[k], num_leaves, row),
    ensures
        rehashed_from(roots, num_leaves, dirty, i)->Ok_0.len() == roots.len(),
        forall|pos: u64|
            in_use(pos, num_leaves, row) ==> {
                let now = #[trigger] forest_subtree(
                    rehashed_from(roots, num_leaves, dirty, i)->Ok_0,
                    num_leaves,
                    pos,
                );
                let then = forest_subtree(roots, num_leaves, pos);
                &&& now.l_niece == then.l_niece
                &&& now.r_niece == then.r_niece
            },
    decreases dirty.len() - i,
{
    if i < dirty.len() {
        let here = dirty[i as int];
        assert(in_use(here, num_leaves, row));
        lemma_in_use(here, num_leaves, row);
        let next = forest_rehashed(roots, num_leaves, here)->Ok_0;
        lemma_rehash_does(roots, num_leaves, here);
        assert forall|pos: u64| in_use(pos, num_leaves, row) implies {
            let now = #[trigger] forest_subtree(next, num_leaves, pos);
            let then = forest_subtree(roots, num_leaves, pos);
            &&& now.l_niece == then.l_niece
            &&& now.r_niece == then.r_niece
        } by {
            lemma_in_use(pos, num_leaves, row);
        }
        lemma_rehash_frame(next, num_leaves, dirty, i + 1, row);
        let after = rehashed_from(roots, num_leaves, dirty, i)->Ok_0;
        assert(after == rehashed_from(next, num_leaves, dirty, i + 1)->Ok_0);
        assert forall|pos: u64| in_use(pos, num_leaves, row) implies {
            let now = #[trigger] forest_subtree(after, num_leaves, pos);
            let then = forest_subtree(roots, num_leaves, pos);
            &&& now.l_niece == then.l_niece
            &&& now.r_niece == then.r_niece
        } by {
            let mid = forest_subtree(next, num_leaves, pos);
            assert(mid.l_niece == forest_subtree(roots, num_leaves, pos).l_niece);
        }
    }
}

/// What hangs below the root of a subtree does not depend on the hash
/// of the root.
pub proof fn lemma_subtree_below(a: PolNode, b: PolNode, branch: nat, bits: u64)
    requires
        branch >= 1,
        a.l_niece == b.l_niece,
        a.r_niece == b.r_niece,
    ensures
        subtree_at(a, branch, bits) == subtree_at(b, branch, bits),
{
    let turn = turns_right(bits, branch);
    assert(child_unit(a, turn) == child_unit(b, turn));
}

/// The swaps of a row carry a leaf below a node of the row that is not
/// deleted to a node that lives after the swaps: to the place that a
/// swap fills with the node, or nowhere. The way from the node down to
/// the leaf stays.
pub proof fn lemma_carried_live(
    dels: Seq<u64>,
    num_leaves: u64,
    left: u64,
    row: u8,
    forest_rows: u8,
    leaf: u64,
)
    requires
        row <= forest_rows < 64,
        num_leaves <= (1u64 << forest_rows),
        row_ready(dels, num_leaves, left, row, forest_rows),
        leaf < (1u64 << forest_rows),
        at_row(n_grandparent_of(leaf, row, forest_rows), num_leaves, row, forest_rows),
        !dels.contains(n_grandparent_of(leaf, row, forest_rows)),
    ensures
        ({
            let ancestor = n_grandparent_of(leaf, row, forest_rows);
            let swaps = row_filled(dels, num_leaves, row, forest_rows).0;
            let moved = carried_from(swaps, row, 0, leaf, ancestor);
            &&& moved.0 < (1u64 << forest_rows)
            &&& moved.1 == n_grandparent_of(moved.0, row, forest_rows)
            &&& live_after(moved.1, dels, num_leaves, row, forest_rows)
            &&& forall|level: nat|
                1 <= level <= row ==> turns_right(moved.0, level) == turns_right(leaf, level)
            &&& if is_from(swaps, ancestor) {
                exists|k: int|
                    0 <= k < swaps.len() && (#[trigger] swaps[k]).from == ancestor && swaps[k].to
                        == moved.1
            } else {
                moved == (leaf, ancestor) && untouched(swaps, 0, ancestor)
            }
        }),
{
    let ancestor = n_grandparent_of(leaf, row, forest_rows);
    let base = row_start_of(row, forest_rows);
    let last = row_end_of(num_leaves, row, forest_rows);
    let filled = row_filled(dels, num_leaves, row, forest_rows);
    let swaps = filled.0;
    let moved = carried_from(swaps, row, 0, leaf, ancestor);
    lemma_row_swaps(dels, num_leaves, left, row, forest_rows);
    lemma_fill_facts(dels, num_leaves, left, row, forest_rows);
    lemma_ancestor_place(leaf, row, forest_rows);
    assert(tail_gone(dels, Seq::<Arrow>::empty(), last, last)) by {
        reveal(tail_gone);
    }
    lemma_fill_tail(dels, base, last, 0, dels.len(), Seq::empty(), last);
    if is_from(swaps, ancestor) {
        let k = choose|k: int| 0 <= k < swaps.len() && (#[trigger] swaps[k]).from == ancestor;
        let to = swaps[k].to;
        assert forall|j: int| 0 <= j < k implies (#[trigger] swaps[j]).from != ancestor
            && swaps[j].to != ancestor by {
            assert(swaps[j].from > swaps[k].from);
            assert(dels.contains(swaps[j].to));
        }
        assert(untouched(swaps, (k + 1) as nat, to)) by {
            assert forall|j: int| k + 1 <= j < swaps.len() implies (#[trigger] swaps[j]).from != to
                && swaps[j].to != to by {
                assert(swaps[k].to < swaps[j].from);
                assert(swaps[k].to < swaps[j].to);
            }
        }
        lemma_carried_once(swaps, row, 0, leaf, ancestor, k);
        assert(at_row(to, num_leaves, row, forest_rows));
        lemma_place_bits(to, num_leaves, row, forest_rows);
        lemma_carry_bits(leaf, ancestor, to, row, forest_rows, 0);
        lemma_ancestor_place(moved.0, row, forest_rows);
        assert forall|level: nat| 1 <= level <= row implies turns_right(moved.0, level)
            == turns_right(leaf, level) by {
            lemma_carry_bits(leaf, ancestor, to, row, forest_rows, (level - 1) as u8);
        }
        assert(is_to(swaps, to));
    } else {
        assert(untouched(swaps, 0, ancestor)) by {
            assert forall|j: int| 0 <= j < swaps.len() implies (#[trigger] swaps[j]).from
                != ancestor && swaps[j].to != ancestor by {
                assert(dels.contains(swaps[j].to));
            }
        }
        lemma_carried_idle(swaps, row, 0, leaf, ancestor);
        assert(ancestor < filled.1) by {
            reveal(tail_gone);
        }
    }
}

/// Before row `row` is dealt with, `unit` hangs at the end of the way
/// to the leaf `leaf`, below a node of the row that is not deleted.
pub open spec fn leaf_hangs(
    roots: Seq<PolNode>,
    num_leaves: u64,
    dels: Seq<u64>,
    row: u8,
    leaf: u64,
    unit: PolNode,
) -> bool {
    let forest_rows = tree_rows_of(num_leaves);
    let ancestor = n_grandparent_of(leaf, row, forest_rows);
    &&& leaf < (1u64 << forest_rows)
    &&& in_use(ancestor, num_leaves, row)
    &&& !dels.contains(ancestor)
    &&& subtree_at(forest_subtree(roots, num_leaves, ancestor), row as nat, leaf) == unit
}

/// What one row of the schedule does to a leaf that hangs below a live
/// node of the row: the leaf goes where the swaps carry it, and then
/// either hangs in the root that the row is left with, or below a live
/// node of the row above.
#[verifier::rlimit(60)]
pub proof fn lemma_row_carries(
    roots: Seq<PolNode>,
    num_leaves: u64,
    left: u64,
    dels: Seq<u64>,
    dirty: Seq<u64>,
    row: u8,
    leaf: u64,
    unit: PolNode,
)
    requires
        0 < num_leaves <= MAX_LEAVES,
        row <= tree_rows_of(num_leaves),
        roots.len() == popcount(num_leaves),
        row_ready(dels, num_leaves, left, row, tree_rows_of(num_leaves)),
        dirty_live(dirty, dels, num_leaves, row, tree_rows_of(num_leaves)),
        row == 0 ==> dirty.len() == 0,
        rehashed_from(roots, num_leaves, dirty, 0) is Ok,
        swapped_from(
            rehashed_from(roots, num_leaves, dirty, 0)->Ok_0,
            num_leaves,
            row_filled(dels, num_leaves, row, tree_rows_of(num_leaves)).0,
            0,
        ) is Ok,
        row_root(dels, num_leaves, row, tree_rows_of(num_leaves)) is Some ==> forest_grafted(
            swapped_from(
                rehashed_from(roots, num_leaves, dirty, 0)->Ok_0,
                num_leaves,
                row_filled(dels, num_leaves, row, tree_rows_of(num_leaves)).0,
                0,
            )->Ok_0,
            num_leaves,
            row_root(dels, num_leaves, row, tree_rows_of(num_leaves))->Some_0,
            blank(),
        ) is Ok,
        leaf_hangs(roots, num_leaves, dels, row, leaf, unit),
    ensures
        ({
            let forest_rows = tree_rows_of(num_leaves);
            let fresh = rehashed_from(roots, num_leaves, dirty, 0)->Ok_0;
            let swaps = row_filled(dels, num_leaves, row, forest_rows).0;
            let packed = swapped_from(fresh, num_leaves, swaps, 0)->Ok_0;
            let root = row_root(dels, num_leaves, row, forest_rows);
            let taken = forest_grafted(packed, num_leaves, root->Some_0, blank())->Ok_0;
            let rest = if root is Some {
                taken.0
            } else {
                packed
            };
            let moved = carried_from(
                swaps,
                row,
                0,
                leaf,
                n_grandparent_of(leaf, row, forest_rows),
            );
            &&& rest.len() == roots.len()
            &&& moved.0 < (1u64 << forest_rows)
            &&& if root == Some(moved.1) {
                subtree_at(taken.1, row as nat, moved.0) == unit
            } else {
                row < forest_rows && leaf_hangs(
                    rest,
                    num_leaves,
                    row_next(dels, num_leaves, row, forest_rows),
                    (row + 1) as u8,
                    moved.0,
                    unit,
                )
            }
        }),
{
    let forest_rows = tree_rows_of(num_leaves);
    lemma_tree_rows_of(num_leaves);
    let ancestor = n_grandparent_of(leaf, row, forest_rows);
    let fresh = rehashed_from(roots, num_leaves, dirty, 0)->Ok_0;
    let filled = row_filled(dels, num_leaves, row, forest_rows);
    let swaps = filled.0;
    let packed = swapped_from(fresh, num_leaves, swaps, 0)->Ok_0;
    let root = row_root(dels, num_leaves, row, forest_rows);
    let taken = forest_grafted(packed, num_leaves, root->Some_0, blank())->Ok_0;
    let rest = if root is Some {
        taken.0
    } else {
        packed
    };
    let moved = carried_from(swaps, row, 0, leaf, ancestor);
    // the hashes that are computed anew lie above the leaf
    assert forall|k: int| 0 <= k < dirty.len() implies in_use(
        #[trigger] dirty[k],
        num_leaves,
        row,
    ) by {}
    lemma_rehash_frame(roots, num_leaves, dirty, 0, row);
    let before = forest_subtree(roots, num_leaves, ancestor);
    let then = forest_subtree(fresh, num_leaves, ancestor);
    assert(subtree_at(then, row as nat, leaf) == unit) by {
        if row >= 1 {
            lemma_subtree_below(then, before, row as nat, leaf);
        }
    }
    // the swaps carry the leaf with its ancestor
    lemma_row_swaps(dels, num_leaves, left, row, forest_rows);
    lemma_swap_all(fresh, num_leaves, swaps, 0, row);
    lemma_carried_live(dels, num_leaves, left, row, forest_rows, leaf);
    lemma_fill_facts(dels, num_leaves, left, row, forest_rows);
    lemma_row_step(dels, num_leaves, left, row, forest_rows);
    let now = forest_subtree(packed, num_leaves, moved.1);
    assert(now == then) by {
        if is_from(swaps, ancestor) {
            let k = choose|k: int|
                0 <= k < swaps.len() && (#[trigger] swaps[k]).from == ancestor && swaps[k].to
                    == moved.1;
            assert(forest_subtree(packed, num_leaves, swaps[k].to) == forest_subtree(
                fresh,
                num_leaves,
                swaps[k].from,
            ));
        } else {
            assert forall|a: int| 0 <= a < swaps.len() implies (#[trigger] swaps[a]).from
                != ancestor && swaps[a].to != ancestor by {}
        }
    }
    lemma_subtree_same_turns(then, row as nat, moved.0, leaf);
    assert(subtree_at(now, row as nat, moved.0) == unit);
    assert(in_use(moved.1, num_leaves, row));
    lemma_in_use(moved.1, num_leaves, row);
    // the root of the row is taken out
    if root is Some {
        let place = root->Some_0;
        assert(in_use(place, num_leaves, row));
        lemma_in_use(place, num_leaves, row);
        lemma_forest_graft(packed, num_leaves, place, blank(), place);
        lemma_graft_same_but(packed, num_leaves, place, blank());
    }
    if root != Some(moved.1) {
        assert(forest_subtree(rest, num_leaves, moved.1) == now);
        // the top row holds one node at most, which is its root
        if row == forest_rows {
            let base = row_start_of(row, forest_rows);
            lemma_place_bits(base, num_leaves, row, forest_rows);
            lemma_place_bits((base + 1) as u64, num_leaves, row, forest_rows);
            lemma_low_bit(base, 0);
            lemma_low_bit((base + 1) as u64, 0);
        } else {
            let above = (row + 1) as u8;
            let up = parent_of(moved.1, forest_rows);
            lemma_parent_live(dels, num_leaves, left, row, forest_rows, moved.1);
            lemma_ancestor_place(moved.0, row, forest_rows);
            lemma_in_use(up, num_leaves, above);
            lemma_family(up, moved.1, child_of(up, forest_rows), row, above, forest_rows);
            lemma_twin_bits(moved.1, moved.1 | 1);
            lemma_sibling(child_of(up, forest_rows));
            lemma_child_in_forest(up, num_leaves, moved.1);
            lemma_forest_child(rest, num_leaves, moved.1);
            let over = forest_subtree(rest, num_leaves, up);
            assert(turns_right(moved.0, above as nat) == (moved.1 & 1 == 1));
            assert(subtree_at(over, above as nat, moved.0) == subtree_at(
                child_unit(over, turns_right(moved.0, above as nat)),
                row as nat,
                moved.0,
            ));
        }
    }
}

/// The roots that were taken out before stay, behind those that are
/// taken out from row `row` on.
pub proof fn lemma_rows_applied_keeps(
    roots: Seq<PolNode>,
    num_leaves: u64,
    plans: Seq<RowPlanView>,
    row: nat,
    found: Seq<PolNode>,
)
    requires
        rows_applied(roots, num_leaves, plans, row, found) is Ok,
    ensures
        rows_applied(roots, num_leaves, plans, row, found)->Ok_0.len() >= found.len(),
        forall|j: int|
            0 <= j < found.len() ==> rows_applied(
                roots,
                num_leaves,
                plans,
                row,
                found,
            )->Ok_0[rows_applied(roots, num_leaves, plans, row, found)->Ok_0.len() - found.len()
                + j] == #[trigger] found[j],
    decreases plans.len() - row,
{
    if row < plans.len() {
        let fresh = rehashed_from(roots, num_leaves, plans[row as int].dirty, 0)->Ok_0;
        let packed = swapped_from(fresh, num_leaves, plans[row as int].swaps, 0)->Ok_0;
        match plans[row as int].root {
            None => {
                lemma_rows_applied_keeps(packed, num_leaves, plans, row + 1, found);
            },
            Some(pos) => {
                let taken = forest_grafted(packed, num_leaves, pos, blank())->Ok_0;
                let more = found.insert(0, taken.1);
                lemma_rows_applied_keeps(taken.0, num_leaves, plans, row + 1, more);
                assert forall|j: int| 0 <= j < found.len() implies rows_applied(
                    roots,
                    num_leaves,
                    plans,
                    row,
                    found,
                )->Ok_0[rows_applied(roots, num_leaves, plans, row, found)->Ok_0.len()
                    - found.len() + j] == #[trigger] found[j] by {
                    assert(more[j + 1] == found[j]);
                }
            },
        }
    }
}

/// A leaf below the root of the tree of a row, in the forest that
/// remains: it differs from the leaf count in the bit of the row and in
/// none above, and its way down from the root is the way it had.
pub proof fn lemma_leaf_place_bits(left: u64, row: u8, leaf: u64, forest_rows: u8, level: u8)
    by (bit_vector)
    requires
        row < 64,
        forest_rows < 64,
        left <= (1u64 << forest_rows),
        (left >> row) & 1 == 1,
    ensures
        row <= forest_rows,
        ((tree_start_of(left, row) | (leaf & (((1u64 << row) - 1) as u64))) ^ left) >> row == 1,
        (tree_start_of(left, row) | (leaf & (((1u64 << row) - 1) as u64))) & (((1u64 << row)
            - 1) as u64) == leaf & (((1u64 << row) - 1) as u64),
        first_leaf(
            tree_start_of(left, row) | (leaf & (((1u64 << row) - 1) as u64)),
            0,
            forest_rows,
        ) == tree_start_of(left, row) | (leaf & (((1u64 << row) - 1) as u64)),
        level < row ==> (((leaf & (((1u64 << row) - 1) as u64)) >> level) & 1 == 1) == ((leaf
            >> level) & 1 == 1),
{
}

/// Where a leaf below the root of the tree of a row stands in the
/// forest that remains: in the tree behind all taller ones, as many
/// levels below its root as the row says, at the end of the way it had.
pub proof fn lemma_leaf_place(left: u64, row: u8, leaf: u64)
    requires
        0 < left <= MAX_LEAVES,
        row < 64,
        (left >> row) & 1 == 1,
    ensures
        ({
            let low = leaf & (((1u64 << row) - 1) as u64);
            let place = tree_start_of(left, row) | low;
            &&& place < left
            &&& in_forest(place, left)
            &&& offset_of(place, left) == (popcount((left >> row) >> 1) as u8, row, low)
            &&& forall|level: nat|
                1 <= level <= row ==> turns_right(low, level) == turns_right(leaf, level)
        }),
{
    let forest_rows = tree_rows_of(left);
    lemma_tree_rows_of(left);
    let low = leaf & (((1u64 << row) - 1) as u64);
    let place = tree_start_of(left, row) | low;
    lemma_tree_place(left, row, leaf);
    lemma_leaf_place_bits(left, row, leaf, forest_rows, 0);
    lemma_row_bounds(left, 0, forest_rows, 0);
    lemma_place_in_forest(place, left, 0);
    lemma_differ(place, left);
    lemma_top_bit_of(place ^ left);
    lemma_top_bit_unique(place ^ left, row, top_bit(place ^ left));
    assert forall|level: nat| 1 <= level <= row implies turns_right(low, level) == turns_right(
        leaf,
        level,
    ) by {
        lemma_leaf_place_bits(left, row, leaf, forest_rows, (level - 1) as u8);
    }
}

/// The rows of the schedule from `row` on carry a leaf that hangs below
/// a live node of the row to the position that `leaf_after` names.
#[verifier::rlimit(60)]
proof fn lemma_rows_carry(
    roots: Seq<PolNode>,
    num_leaves: u64,
    left: u64,
    dels: Seq<u64>,
    dirty: Seq<u64>,
    row: u8,
    acc: Seq<RowPlanView>,
    found: Seq<PolNode>,
    leaf: u64,
    unit: PolNode,
)
    requires
        0 < num_leaves <= MAX_LEAVES,
        left <= num_leaves,
        row <= tree_rows_of(num_leaves),
        roots.len() == popcount(num_leaves),
        row_ready(dels, num_leaves, left, row, tree_rows_of(num_leaves)),
        dirty_live(dirty, dels, num_leaves, row, tree_rows_of(num_leaves)),
        row == 0 ==> dirty.len() == 0,
        acc.len() == row,
        rows_applied(
            roots,
            num_leaves,
            plan_rows(dels, dirty, num_leaves, row, tree_rows_of(num_leaves), acc),
            row as nat,
            found,
        ) is Ok,
        leaf_hangs(roots, num_leaves, dels, row, leaf, unit),
    ensures
        ({
            let forest_rows = tree_rows_of(num_leaves);
            let plans = plan_rows(dels, dirty, num_leaves, row, forest_rows, acc);
            let after = rows_applied(roots, num_leaves, plans, row as nat, found)->Ok_0;
            let to = leaf_after(plans, left, forest_rows, leaf, row as nat);
            &&& to is Some
            &&& to->Some_0 < left
            &&& forest_subtree(after, left, to->Some_0) == unit
        }),
    decreases tree_rows_of(num_leaves) - row,
{
    let forest_rows = tree_rows_of(num_leaves);
    lemma_tree_rows_of(num_leaves);
    let plans = plan_rows(dels, dirty, num_leaves, row, forest_rows, acc);
    let filled = row_filled(dels, num_leaves, row, forest_rows);
    let root = row_root(dels, num_leaves, row, forest_rows);
    let plan = RowPlanView { dirty, swaps: filled.0, root };
    let next = row_next(dels, num_leaves, row, forest_rows);
    let stale = row_next_dirty(dels, dirty, num_leaves, row, forest_rows);
    assert(places(dirty, num_leaves, row, forest_rows));
    lemma_plan_roots(dels, dirty, num_leaves, left, row, forest_rows, acc);
    lemma_row_step(dels, num_leaves, left, row, forest_rows);
    if row < forest_rows {
        lemma_dirty_places(dels, dirty, num_leaves, left, row, forest_rows);
        lemma_plan_roots(
            next,
            stale,
            num_leaves,
            left,
            (row + 1) as u8,
            forest_rows,
            acc.push(plan),
        );
        assert(plans[row as int] == acc.push(plan)[row as int]);
    }
    assert(plans[row as int] == plan);
    let fresh = rehashed_from(roots, num_leaves, dirty, 0)->Ok_0;
    let packed = swapped_from(fresh, num_leaves, filled.0, 0)->Ok_0;
    lemma_row_carries(roots, num_leaves, left, dels, dirty, row, leaf, unit);
    let taken = forest_grafted(packed, num_leaves, root->Some_0, blank())->Ok_0;
    let rest = if root is Some {
        taken.0
    } else {
        packed
    };
    let more = if root is Some {
        found.insert(0, taken.1)
    } else {
        found
    };
    let after = rows_applied(roots, num_leaves, plans, row as nat, found)->Ok_0;
    assert(rows_applied(roots, num_leaves, plans, row as nat, found) == rows_applied(
        rest,
        num_leaves,
        plans,
        (row + 1) as nat,
        more,
    ));
    let moved = carried_from(filled.0, row, 0, leaf, n_grandparent_of(leaf, row, forest_rows));
    if root == Some(moved.1) {
        // the root of the row is found behind those of all higher rows
        lemma_rows_applied_keeps(rest, num_leaves, plans, (row + 1) as nat, more);
        lemma_rows_applied_count(rest, num_leaves, plans, (row + 1) as nat, more);
        assert(more[0] == taken.1);
        let index = roots_named(plans, (row + 1) as nat);
        assert(after[index as int] == taken.1);
        assert(plan_fits(plans[acc.len() + row - row], num_leaves, left, row, forest_rows));
        assert(index == popcount((left >> row) >> 1)) by {
            if row < forest_rows {
                assert forall|r: int| row + 1 <= r <= forest_rows implies ((
                #[trigger] plans[r]).root is Some) == ((left >> (r as u8)) & 1 == 1) by {
                    assert(plan_fits(
                        plans[acc.len() + r - row],
                        num_leaves,
                        left,
                        r as u8,
                        forest_rows,
                    ));
                }
                lemma_roots_named_from(plans, left, forest_rows, (row + 1) as u8);
                lemma_low_bit(left, row);
            } else {
                lemma_shift_step(left, row, (row + 1) as u8);
                lemma_low_bit(left >> row, 0);
                assert(popcount(0) == 0);
            }
        }
        lemma_popcount_bound((left >> row) >> 1);
        lemma_tree_place(left, row, moved.0);
        lemma_leaf_place(left, row, moved.0);
        let low = moved.0 & (((1u64 << row) - 1) as u64);
        lemma_subtree_same_turns(taken.1, row as nat, low, moved.0);
    } else {
        lemma_dirty_next_live(dels, dirty, num_leaves, left, row, forest_rows);
        lemma_rows_carry(
            rest,
            num_leaves,
            left,
            next,
            stale,
            (row + 1) as u8,
            acc.push(plan),
            more,
            moved.0,
            unit,
        );
    }
}

/// Deleting keeps the leaves that are not deleted: what hung at such a
/// leaf hangs, in the forest that remains, at the position that
/// `leaf_after` names for it.
pub proof fn lemma_remove_keeps_leaves(
    roots: Seq<PolNode>,
    num_leaves: u64,
    dels: Seq<u64>,
    leaf: u64,
)
    requires
        num_leaves <= MAX_LEAVES,
        roots.len() == popcount(num_leaves),
        dels.len() > 0,
        removed(roots, num_leaves, dels) is Ok,
        leaf < num_leaves,
        !dels.contains(leaf),
    ensures
        ({
            let after = removed(roots, num_leaves, dels)->Ok_0;
            let to = leaf_after(
                transform_of(dels, num_leaves, tree_rows_of(num_leaves)),
                after.1,
                tree_rows_of(num_leaves),
                leaf,
                0,
            );
            &&& to is Some
            &&& to->Some_0 < after.1
            &&& forest_subtree(after.0, after.1, to->Some_0) == forest_subtree(
                roots,
                num_leaves,
                leaf,
            )
        }),
{
    let forest_rows = tree_rows_of(num_leaves);
    let left = (num_leaves - dels.len()) as u64;
    assert(dels[0] < num_leaves);
    lemma_tree_rows_of(num_leaves);
    lemma_valid_dels_len(dels, num_leaves);
    lemma_valid_rising(dels, num_leaves);
    lemma_row_bounds(num_leaves, 0, forest_rows, 0);
    lemma_row_bounds(left, 0, forest_rows, 0);
    let none = Seq::<u64>::empty();
    assert(row_ready(dels, num_leaves, left, 0, forest_rows));
    let unit = forest_subtree(roots, num_leaves, leaf);
    assert(leaf_hangs(roots, num_leaves, dels, 0, leaf, unit));
    lemma_rows_carry(
        roots,
        num_leaves,
        left,
        dels,
        none,
        0,
        Seq::empty(),
        Seq::empty(),
        leaf,
        unit,
    );
}

/// `entry` stands for one of the first `upto` entries of `index`: it
/// has the hash of that entry, whose leaf is not deleted, and names the
/// position in the forest `after` at which hangs what hung at the leaf
/// of that entry in the forest `roots`.
pub open spec fn entry_follows(
    entry: IndexEntry,
    index: Seq<IndexEntry>,
    upto: nat,
    roots: Seq<PolNode>,
    num_leaves: u64,
    dels: Seq<u64>,
    after: (Seq<PolNode>, u64),
) -> bool {
    exists|j: int|
        0 <= j < upto && j < index.len() && (#[trigger] index[j]).hash == entry.hash
            && !dels.contains(index[j].position) && entry.position < after.1 && forest_subtree(
            after.0,
            after.1,
            entry.position,
        ) == forest_subtree(roots, num_leaves, index[j].position)
}

/// Each of the first entries that a deletion leaves stands for one of
/// the first `upto` entries before it.
proof fn lemma_reindexed_follows(
    roots: Seq<PolNode>,
    index: Seq<IndexEntry>,
    num_leaves: u64,
    dels: Seq<u64>,
    upto: nat,
)
    requires
        num_leaves <= MAX_LEAVES,
        roots.len() == popcount(num_leaves),
        dels.len() > 0,
        removed(roots, num_leaves, dels) is Ok,
        index_ok(index, num_leaves),
        upto <= index.len(),
    ensures
        ({
            let after = removed(roots, num_leaves, dels)->Ok_0;
            let out = reindexed_upto(
                index,
                dels,
                transform_of(dels, num_leaves, tree_rows_of(num_leaves)),
                after.1,
                tree_rows_of(num_leaves),
                upto,
            );
            forall|k: int|
                0 <= k < out.len() ==> entry_follows(
                    #[trigger] out[k],
                    index,
                    upto,
                    roots,
                    num_leaves,
                    dels,
                    after,
                )
        }),
    decreases upto,
{
    if upto > 0 {
        let forest_rows = tree_rows_of(num_leaves);
        let plans = transform_of(dels, num_leaves, forest_rows);
        let after = removed(roots, num_leaves, dels)->Ok_0;
        let less = (upto - 1) as nat;
        let head = reindexed_upto(index, dels, plans, after.1, forest_rows, less);
        let out = reindexed_upto(index, dels, plans, after.1, forest_rows, upto);
        let last = index[upto - 1];
        lemma_reindexed_follows(roots, index, num_leaves, dels, less);
        if !dels.contains(last.position) {
            lemma_remove_keeps_leaves(roots, num_leaves, dels, last.position);
        }
        assert forall|k: int| 0 <= k < out.len() implies entry_follows(
            #[trigger] out[k],
            index,
            upto,
            roots,
            num_leaves,
            dels,
            after,
        ) by {
            if k < head.len() {
                assert(out[k] == head[k]);
                assert(entry_follows(head[k], index, less, roots, num_leaves, dels, after));
                let j = choose|j: int|
                    0 <= j < less && j < index.len() && (#[trigger] index[j]).hash == head[k].hash
                        && !dels.contains(index[j].position) && head[k].position < after.1
                        && forest_subtree(after.0, after.1, head[k].position) == forest_subtree(
                        roots,
                        num_leaves,
                        index[j].position,
                    );
                assert(index[j].hash == out[k].hash);
            } else {
                assert(index[upto - 1].hash == out[k].hash);
            }
        }
    }
}

/// Deleting keeps the index in step with the forest: each entry that is
/// left has the hash of an entry whose leaf was not deleted, and names
/// the position at which that leaf hangs in the forest that remains.
pub proof fn lemma_remove_keeps_index(
    roots: Seq<PolNode>,
    index: Seq<IndexEntry>,
    num_leaves: u64,
    dels: Seq<u64>,
)
    requires
        num_leaves <= MAX_LEAVES,
        roots.len() == popcount(num_leaves),
        dels.len() > 0,
        removed(roots, num_leaves, dels) is Ok,
        index_ok(index, num_leaves),
    ensures
        forall|k: int|
            0 <= k < index_removed(index, num_leaves, dels).len() ==> entry_follows(
                #[trigger] index_removed(index, num_leaves, dels)[k],
                index,
                index.len(),
                roots,
                num_leaves,
                dels,
                removed(roots, num_leaves, dels)->Ok_0,
            ),
{
    lemma_reindexed_follows(roots, index, num_leaves, dels, index.len());
}

/// The index is in step with the forest: each entry names a leaf that
/// carries the hash of the entry.
pub open spec fn names_leaves(
    index: Seq<IndexEntry>,
    roots: Seq<PolNode>,
    num_leaves: u64,
) -> bool {
    forall|i: int|
        0 <= i < index.len() ==> forest_subtree(
            roots,
            num_leaves,
            (#[trigger] index[i]).position,
        ).data == index[i].hash
}

/// An index that is in step with the forest is in step with it after a
/// deletion.
pub proof fn lemma_remove_keeps_names(
    roots: Seq<PolNode>,
    index: Seq<IndexEntry>,
    num_leaves: u64,
    dels: Seq<u64>,
)
    requires
        num_leaves <= MAX_LEAVES,
        roots.len() == popcount(num_leaves),
        removed(roots, num_leaves, dels) is Ok,
        index_ok(index, num_leaves),
        names_leaves(index, roots, num_leaves),
    ensures
        names_leaves(
            index_removed(index, num_leaves, dels),
            removed(roots, num_leaves, dels)->Ok_0.0,
            removed(roots, num_leaves, dels)->Ok_0.1,
        ),
{
    if dels.len() > 0 {
        let after = removed(roots, num_leaves, dels)->Ok_0;
        let out = index_removed(index, num_leaves, dels);
        lemma_remove_keeps_index(roots, index, num_leaves, dels);
        assert forall|k: int| 0 <= k < out.len() implies forest_subtree(
            after.0,
            after.1,
            (#[trigger] out[k]).position,
        ).data == out[k].hash by {
            assert(entry_follows(out[k], index, index.len(), roots, num_leaves, dels, after));
            let j = choose|j: int|
                0 <= j < index.len() && (#[trigger] index[j]).hash == out[k].hash
                    && !dels.contains(index[j].position) && out[k].position < after.1
                    && forest_subtree(after.0, after.1, out[k].position) == forest_subtree(
                    roots,
                    num_leaves,
                    index[j].position,
                );
            assert(index[j].hash == out[k].hash);
        }
    }
}

} // verus!
