//! Deleting keeps the hashes sound: where every tree of the forest is
//! sound from its root down to its leaves, the trees that a deletion
//! leaves are.
use crate::accumulator::graft::{
    blank, forest_grafted, forest_rehashed, forest_swapped, rehashed_from, rows_applied,
    swapped_from,
};
use crate::accumulator::graft_laws::{
    child_unit, forest_subtree, lemma_forest_child, lemma_forest_graft, lemma_graft_same_but,
    lemma_rehash_does, lemma_swap_does, same_but,
};
use crate::accumulator::pollard::{removed, PolNode};
use crate::accumulator::row_laws::{
    at_row, dirty_live, lemma_children_live, lemma_dirty_next_live, lemma_root_live,
    lemma_row_swaps, live_after, swaps_apart,
};
use crate::accumulator::soundness::{
    fit, forest_sound, heights_upto, lemma_forest_fit, lemma_heights_above, lemma_heights_low,
    sound_to,
};
use crate::accumulator::transform::{
    plan_rows, row_filled, row_next, row_next_dirty, row_root, transform_of, RowPlanView,
};
use crate::accumulator::transform_laws::{
    is_from, is_to, lemma_dirty_places, lemma_fill_facts, lemma_plan_roots, lemma_row_step,
    lemma_valid_dels_len, lemma_valid_rising, places, plan_fits, row_ready,
};
use crate::accumulator::types::Arrow;
use crate::accumulator::util::{
    child_of, in_forest, lemma_tree_rows_of, popcount, row_of, tree_rows_of, MAX_LEAVES,
};
use crate::accumulator::util_laws::{lemma_child_in_forest, lemma_place_in_forest, lemma_row_bounds};
use vstd::prelude::*;

verus! {

/// `pos` is a place of row `row` that holds a node.
pub open spec fn in_use(pos: u64, num_leaves: u64, row: u8) -> bool {
    at_row(pos, num_leaves, row, tree_rows_of(num_leaves))
}

/// A place of a row that holds a node is a position of the forest, in
/// that row.
pub proof fn lemma_in_use(pos: u64, num_leaves: u64, row: u8)
    requires
        0 < num_leaves <= MAX_LEAVES,
        row <= tree_rows_of(num_leaves),
        in_use(pos, num_leaves, row),
    ensures
        in_forest(pos, num_leaves),
        row_of(pos, tree_rows_of(num_leaves)) == row,
{
    lemma_tree_rows_of(num_leaves);
    lemma_row_bounds(num_leaves, row, tree_rows_of(num_leaves), 0);
    lemma_place_in_forest(pos, num_leaves, row);
}

/// Both children of what hangs at `pos` are sound down to `depth`.
pub open spec fn children_sound(
    roots: Seq<PolNode>,
    num_leaves: u64,
    pos: u64,
    depth: nat,
) -> bool {
    &&& sound_to(child_unit(forest_subtree(roots, num_leaves, pos), false), depth)
    &&& sound_to(child_unit(forest_subtree(roots, num_leaves, pos), true), depth)
}

/// After the hashes of `dirty` from the `i`-th on have been computed
/// anew: each of those nodes is sound, where its children were; the
/// children of all nodes of the row are what they were; and what
/// `same_but` says of a single change holds of all other nodes.
#[verifier::rlimit(40)]
pub proof fn lemma_rehash_all(
    roots: Seq<PolNode>,
    num_leaves: u64,
    dirty: Seq<u64>,
    i: nat,
    row: u8,
)
    requires
        0 < num_leaves <= MAX_LEAVES,
        1 <= row <= tree_rows_of(num_leaves),
        roots.len() == popcount(num_leaves),
        rehashed_from(roots, num_leaves, dirty, i) is Ok,
        forall|k: int| i <= k < dirty.len() ==> in_use(#[trigger] dirty[k], num_leaves, row),
        forall|k: int|
            i <= k < dirty.len() ==> children_sound(
                roots,
                num_leaves,
                #[trigger] dirty[k],
                (row - 1) as nat,
            ),
    ensures
        ({
            let after = rehashed_from(roots, num_leaves, dirty, i)->Ok_0;
            &&& after.len() == roots.len()
            &&& forall|k: int|
                i <= k < dirty.len() ==> sound_to(
                    forest_subtree(after, num_leaves, #[trigger] dirty[k]),
                    row as nat,
                )
            &&& forall|pos: u64|
                in_use(pos, num_leaves, row) ==> {
                    let now = #[trigger] forest_subtree(after, num_leaves, pos);
                    let then = forest_subtree(roots, num_leaves, pos);
                    &&& now.l_niece == then.l_niece
                    &&& now.r_niece == then.r_niece
                    &&& (forall|k: int| i <= k < dirty.len() ==> dirty[k] != pos) ==> now == then
                }
            &&& forall|pos: u64|
                in_forest(pos, num_leaves) && row_of(pos, tree_rows_of(num_leaves)) > row ==> (
                #[trigger] forest_subtree(after, num_leaves, pos)).data == forest_subtree(
                    roots,
                    num_leaves,
                    pos,
                ).data
        }),
    decreases dirty.len() - i,
{
    if i < dirty.len() {
        let here = dirty[i as int];
        assert(in_use(here, num_leaves, row));
        lemma_in_use(here, num_leaves, row);
        let next = forest_rehashed(roots, num_leaves, here)->Ok_0;
        lemma_rehash_does(roots, num_leaves, here);
        let unit = forest_subtree(roots, num_leaves, here);
        let fresh = forest_subtree(next, num_leaves, here);
        assert(children_sound(roots, num_leaves, here, (row - 1) as nat));
        assert(child_unit(fresh, false) == child_unit(unit, false));
        assert(child_unit(fresh, true) == child_unit(unit, true));
        assert(fit(fresh));
        assert(sound_to(fresh, row as nat));
        // the nodes of the row after this step
        assert forall|pos: u64| in_use(pos, num_leaves, row) implies {
            let now = #[trigger] forest_subtree(next, num_leaves, pos);
            let then = forest_subtree(roots, num_leaves, pos);
            &&& now.l_niece == then.l_niece
            &&& now.r_niece == then.r_niece
            &&& pos != here ==> now == then
        } by {
            lemma_in_use(pos, num_leaves, row);
        }
        assert forall|k: int| i + 1 <= k < dirty.len() implies children_sound(
            next,
            num_leaves,
            #[trigger] dirty[k],
            (row - 1) as nat,
        ) by {
            assert(in_use(dirty[k], num_leaves, row));
            assert(children_sound(roots, num_leaves, dirty[k], (row - 1) as nat));
            let now = forest_subtree(next, num_leaves, dirty[k]);
            let then = forest_subtree(roots, num_leaves, dirty[k]);
            assert(now.l_niece == then.l_niece && now.r_niece == then.r_niece);
            assert(child_unit(now, false) == child_unit(then, false));
            assert(child_unit(now, true) == child_unit(then, true));
        }
        lemma_rehash_all(next, num_leaves, dirty, i + 1, row);
        let after = rehashed_from(roots, num_leaves, dirty, i)->Ok_0;
        assert(after == rehashed_from(next, num_leaves, dirty, i + 1)->Ok_0);
        assert forall|k: int| i <= k < dirty.len() implies sound_to(
            forest_subtree(after, num_leaves, #[trigger] dirty[k]),
            row as nat,
        ) by {
            if k == i {
                // a later step at the same node leaves it sound, else it stays as it is
                if forall|m: int| i + 1 <= m < dirty.len() ==> dirty[m] != here {
                    assert(forest_subtree(after, num_leaves, here) == fresh);
                } else {
                    let m = choose|m: int| i + 1 <= m < dirty.len() && dirty[m] == here;
                    assert(sound_to(forest_subtree(after, num_leaves, dirty[m]), row as nat));
                }
            }
        }
        assert forall|pos: u64| in_use(pos, num_leaves, row) implies {
            let now = #[trigger] forest_subtree(after, num_leaves, pos);
            let then = forest_subtree(roots, num_leaves, pos);
            &&& now.l_niece == then.l_niece
            &&& now.r_niece == then.r_niece
            &&& (forall|k: int| i <= k < dirty.len() ==> dirty[k] != pos) ==> now == then
        } by {
            let mid = forest_subtree(next, num_leaves, pos);
            assert(mid.l_niece == forest_subtree(roots, num_leaves, pos).l_niece);
            if forall|k: int| i <= k < dirty.len() ==> dirty[k] != pos {
                assert(dirty[i as int] != pos);
                assert(forall|k: int| i + 1 <= k < dirty.len() ==> dirty[k] != pos);
            }
        }
        assert forall|pos: u64|
            in_forest(pos, num_leaves) && row_of(pos, tree_rows_of(num_leaves)) > row implies (
        #[trigger] forest_subtree(after, num_leaves, pos)).data == forest_subtree(
            roots,
            num_leaves,
            pos,
        ).data by {
            assert(forest_subtree(next, num_leaves, pos).data == forest_subtree(
                roots,
                num_leaves,
                pos,
            ).data);
        }
    }
}

/// After the swaps from the `i`-th on: each place that they fill holds
/// what hung at the place that the node was taken from, and what
/// `same_but` says of a single change holds of the nodes that no swap
/// touches.
#[verifier::rlimit(40)]
pub proof fn lemma_swap_all(
    roots: Seq<PolNode>,
    num_leaves: u64,
    swaps: Seq<Arrow>,
    i: nat,
    row: u8,
)
    requires
        0 < num_leaves <= MAX_LEAVES,
        row <= tree_rows_of(num_leaves),
        roots.len() == popcount(num_leaves),
        swapped_from(roots, num_leaves, swaps, i) is Ok,
        swaps_apart(swaps, num_leaves, row, tree_rows_of(num_leaves)),
    ensures
        ({
            let after = swapped_from(roots, num_leaves, swaps, i)->Ok_0;
            &&& after.len() == roots.len()
            &&& forall|a: int|
                i <= a < swaps.len() ==> forest_subtree(
                    after,
                    num_leaves,
                    (#[trigger] swaps[a]).to,
                ) == forest_subtree(roots, num_leaves, swaps[a].from)
            &&& forall|pos: u64|
                in_use(pos, num_leaves, row) && (forall|a: int|
                    i <= a < swaps.len() ==> swaps[a].from != pos && swaps[a].to != pos)
                    ==> #[trigger] forest_subtree(after, num_leaves, pos) == forest_subtree(
                    roots,
                    num_leaves,
                    pos,
                )
            &&& forall|pos: u64|
                in_forest(pos, num_leaves) && row_of(pos, tree_rows_of(num_leaves)) > row ==> (
                #[trigger] forest_subtree(after, num_leaves, pos)).data == forest_subtree(
                    roots,
                    num_leaves,
                    pos,
                ).data
        }),
    decreases swaps.len() - i,
{
    if i < swaps.len() {
        let arrow = swaps[i as int];
        assert(in_use(arrow.from, num_leaves, row) && in_use(arrow.to, num_leaves, row));
        assert(arrow.to < arrow.from);
        lemma_in_use(arrow.from, num_leaves, row);
        lemma_in_use(arrow.to, num_leaves, row);
        let next = forest_swapped(roots, num_leaves, arrow)->Ok_0;
        lemma_swap_does(roots, num_leaves, arrow);
        lemma_swap_all(next, num_leaves, swaps, i + 1, row);
        let after = swapped_from(roots, num_leaves, swaps, i)->Ok_0;
        assert(after == swapped_from(next, num_leaves, swaps, i + 1)->Ok_0);
        assert forall|a: int| i <= a < swaps.len() implies forest_subtree(
            after,
            num_leaves,
            (#[trigger] swaps[a]).to,
        ) == forest_subtree(roots, num_leaves, swaps[a].from) by {
            if a == i {
                // no later swap touches the place that this one has filled
                assert forall|b: int| i + 1 <= b < swaps.len() implies swaps[b].from != arrow.to
                    && swaps[b].to != arrow.to by {
                    assert(swaps[i as int].to < swaps[b].from);
                    assert(swaps[i as int].to < swaps[b].to);
                }
                assert(forest_subtree(after, num_leaves, arrow.to) == forest_subtree(
                    next,
                    num_leaves,
                    arrow.to,
                ));
            } else {
                // this swap has not touched the place that a later one takes from
                let from = swaps[a].from;
                assert(in_use(from, num_leaves, row));
                lemma_in_use(from, num_leaves, row);
                assert(swaps[i as int].from > swaps[a].from);
                assert(swaps[i as int].to < swaps[a].from);
                assert(forest_subtree(next, num_leaves, from) == forest_subtree(
                    roots,
                    num_leaves,
                    from,
                ));
            }
        }
        assert forall|pos: u64|
            in_use(pos, num_leaves, row) && (forall|a: int|
                i <= a < swaps.len() ==> swaps[a].from != pos && swaps[a].to != pos)
                implies #[trigger] forest_subtree(after, num_leaves, pos) == forest_subtree(
            roots,
            num_leaves,
            pos,
        ) by {
            lemma_in_use(pos, num_leaves, row);
            assert(swaps[i as int].from != pos && swaps[i as int].to != pos);
            assert(forest_subtree(next, num_leaves, pos) == forest_subtree(
                roots,
                num_leaves,
                pos,
            ));
            assert(forall|a: int|
                i + 1 <= a < swaps.len() ==> swaps[a].from != pos && swaps[a].to != pos);
        }
        assert forall|pos: u64|
            in_forest(pos, num_leaves) && row_of(pos, tree_rows_of(num_leaves)) > row implies (
        #[trigger] forest_subtree(after, num_leaves, pos)).data == forest_subtree(
            roots,
            num_leaves,
            pos,
        ).data by {
            assert(forest_subtree(next, num_leaves, pos).data == forest_subtree(
                roots,
                num_leaves,
                pos,
            ).data);
        }
    }
}

/// Every node of row `row` that is not deleted is sound.
pub open spec fn all_sound(roots: Seq<PolNode>, num_leaves: u64, dels: Seq<u64>, row: u8) -> bool {
    forall|pos: u64|
        in_use(pos, num_leaves, row) && !dels.contains(pos) ==> sound_to(
            #[trigger] forest_subtree(roots, num_leaves, pos),
            row as nat,
        )
}

/// The hashes of the rows from `row` on are what they were at first.
pub open spec fn hashes_kept(
    first: Seq<PolNode>,
    roots: Seq<PolNode>,
    num_leaves: u64,
    row: nat,
) -> bool {
    forall|pos: u64|
        in_forest(pos, num_leaves) && row_of(pos, tree_rows_of(num_leaves)) >= row ==> (
        #[trigger] forest_subtree(roots, num_leaves, pos)).data == forest_subtree(
            first,
            num_leaves,
            pos,
        ).data
}

/// What holds of the forest before a row is dealt with: the nodes of the
/// row that are neither deleted nor stale are sound, the stale ones have
/// sound children, and the hashes of this row and those above are what
/// they were at first.
pub open spec fn row_inv(
    first: Seq<PolNode>,
    roots: Seq<PolNode>,
    num_leaves: u64,
    dels: Seq<u64>,
    dirty: Seq<u64>,
    row: u8,
) -> bool {
    &&& roots.len() == popcount(num_leaves)
    &&& forall|pos: u64|
        in_use(pos, num_leaves, row) && !dels.contains(pos) && !dirty.contains(pos) ==> sound_to(
            #[trigger] forest_subtree(roots, num_leaves, pos),
            row as nat,
        )
    &&& forall|i: int|
        0 <= i < dirty.len() ==> row >= 1 && children_sound(
            roots,
            num_leaves,
            #[trigger] dirty[i],
            (row - 1) as nat,
        )
    &&& hashes_kept(first, roots, num_leaves, row as nat)
}

/// After the stale hashes of a row have been computed anew, every node
/// of the row that is not deleted is sound.
proof fn lemma_row_rehashed(
    first: Seq<PolNode>,
    roots: Seq<PolNode>,
    num_leaves: u64,
    dels: Seq<u64>,
    dirty: Seq<u64>,
    row: u8,
)
    requires
        0 < num_leaves <= MAX_LEAVES,
        row <= tree_rows_of(num_leaves),
        row_inv(first, roots, num_leaves, dels, dirty, row),
        dirty_live(dirty, dels, num_leaves, row, tree_rows_of(num_leaves)),
        rehashed_from(roots, num_leaves, dirty, 0) is Ok,
    ensures
        ({
            let fresh = rehashed_from(roots, num_leaves, dirty, 0)->Ok_0;
            &&& fresh.len() == roots.len()
            &&& all_sound(fresh, num_leaves, dels, row)
            &&& hashes_kept(first, fresh, num_leaves, (row + 1) as nat)
            &&& forall|pos: u64|
                in_use(pos, num_leaves, row) && !dirty.contains(pos) ==> #[trigger] forest_subtree(
                    fresh,
                    num_leaves,
                    pos,
                ) == forest_subtree(roots, num_leaves, pos)
        }),
{
    let fresh = rehashed_from(roots, num_leaves, dirty, 0)->Ok_0;
    if dirty.len() == 0 {
        assert(fresh == roots);
    } else {
        assert(row >= 1) by {
            assert(children_sound(roots, num_leaves, dirty[0], (row - 1) as nat) && row >= 1);
        }
        lemma_rehash_all(roots, num_leaves, dirty, 0, row);
        assert forall|pos: u64|
            in_use(pos, num_leaves, row) && !dirty.contains(pos) implies #[trigger] forest_subtree(
            fresh,
            num_leaves,
            pos,
        ) == forest_subtree(roots, num_leaves, pos) by {
            assert(forall|k: int| 0 <= k < dirty.len() ==> dirty[k] != pos);
        }
        assert forall|pos: u64|
            in_use(pos, num_leaves, row) && !dels.contains(pos) implies sound_to(
            #[trigger] forest_subtree(fresh, num_leaves, pos),
            row as nat,
        ) by {
            if dirty.contains(pos) {
                let k = choose|k: int| 0 <= k < dirty.len() && dirty[k] == pos;
                assert(sound_to(forest_subtree(fresh, num_leaves, dirty[k]), row as nat));
            } else {
                assert(forall|k: int| 0 <= k < dirty.len() ==> dirty[k] != pos);
            }
        }
    }
}

/// After the swaps of a row, every node that lives is sound, and the
/// nodes that no swap has touched hang where they hung.
proof fn lemma_row_swapped(
    fresh: Seq<PolNode>,
    num_leaves: u64,
    left: u64,
    dels: Seq<u64>,
    row: u8,
)
    requires
        0 < num_leaves <= MAX_LEAVES,
        row <= tree_rows_of(num_leaves),
        fresh.len() == popcount(num_leaves),
        row_ready(dels, num_leaves, left, row, tree_rows_of(num_leaves)),
        all_sound(fresh, num_leaves, dels, row),
        swapped_from(
            fresh,
            num_leaves,
            row_filled(dels, num_leaves, row, tree_rows_of(num_leaves)).0,
            0,
        ) is Ok,
    ensures
        ({
            let swaps = row_filled(dels, num_leaves, row, tree_rows_of(num_leaves)).0;
            let packed = swapped_from(fresh, num_leaves, swaps, 0)->Ok_0;
            &&& packed.len() == fresh.len()
            &&& forall|pos: u64|
                live_after(pos, dels, num_leaves, row, tree_rows_of(num_leaves)) ==> sound_to(
                    #[trigger] forest_subtree(packed, num_leaves, pos),
                    row as nat,
                )
            &&& forall|pos: u64|
                in_use(pos, num_leaves, row) && !is_to(swaps, pos) && !is_from(swaps, pos)
                    ==> #[trigger] forest_subtree(packed, num_leaves, pos) == forest_subtree(
                    fresh,
                    num_leaves,
                    pos,
                )
            &&& forall|pos: u64|
                in_forest(pos, num_leaves) && row_of(pos, tree_rows_of(num_leaves)) > row ==> (
                #[trigger] forest_subtree(packed, num_leaves, pos)).data == forest_subtree(
                    fresh,
                    num_leaves,
                    pos,
                ).data
        }),
{
    let forest_rows = tree_rows_of(num_leaves);
    lemma_tree_rows_of(num_leaves);
    let filled = row_filled(dels, num_leaves, row, forest_rows);
    let swaps = filled.0;
    let packed = swapped_from(fresh, num_leaves, swaps, 0)->Ok_0;
    lemma_row_swaps(dels, num_leaves, left, row, forest_rows);
    lemma_swap_all(fresh, num_leaves, swaps, 0, row);
    lemma_fill_facts(dels, num_leaves, left, row, forest_rows);
    assert forall|pos: u64|
        in_use(pos, num_leaves, row) && !is_to(swaps, pos) && !is_from(
            swaps,
            pos,
        ) implies #[trigger] forest_subtree(packed, num_leaves, pos) == forest_subtree(
        fresh,
        num_leaves,
        pos,
    ) by {
        assert(forall|a: int| 0 <= a < swaps.len() ==> swaps[a].from != pos && swaps[a].to != pos);
    }
    assert forall|pos: u64| live_after(pos, dels, num_leaves, row, forest_rows) implies sound_to(
        #[trigger] forest_subtree(packed, num_leaves, pos),
        row as nat,
    ) by {
        if is_to(swaps, pos) {
            let a = choose|a: int| 0 <= a < swaps.len() && swaps[a].to == pos;
            assert(forest_subtree(packed, num_leaves, swaps[a].to) == forest_subtree(
                fresh,
                num_leaves,
                swaps[a].from,
            ));
            assert(in_use(swaps[a].from, num_leaves, row) && !dels.contains(swaps[a].from));
        } else {
            // a place before the end that no swap fills is not touched
            assert forall|a: int| 0 <= a < swaps.len() implies swaps[a].from != pos
                && swaps[a].to != pos by {
                assert(swaps[a].from >= filled.1);
            }
            assert(in_use(pos, num_leaves, row));
            assert(!is_from(swaps, pos));
        }
    }
}

/// What holds of the forest after a row has been dealt with makes what
/// has to hold before the row above is dealt with.
#[verifier::rlimit(40)]
proof fn lemma_row_next_inv(
    first: Seq<PolNode>,
    rest: Seq<PolNode>,
    num_leaves: u64,
    left: u64,
    dels: Seq<u64>,
    dirty: Seq<u64>,
    row: u8,
)
    requires
        0 < num_leaves <= MAX_LEAVES,
        row < tree_rows_of(num_leaves),
        forest_sound(first, num_leaves),
        rest.len() == popcount(num_leaves),
        row_ready(dels, num_leaves, left, row, tree_rows_of(num_leaves)),
        dirty_live(dirty, dels, num_leaves, row, tree_rows_of(num_leaves)),
        hashes_kept(first, rest, num_leaves, (row + 1) as nat),
        forall|pos: u64|
            live_after(pos, dels, num_leaves, row, tree_rows_of(num_leaves)) && row_root(
                dels,
                num_leaves,
                row,
                tree_rows_of(num_leaves),
            ) != Some(pos) ==> sound_to(
                #[trigger] forest_subtree(rest, num_leaves, pos),
                row as nat,
            ),
        forall|pos: u64|
            in_use(pos, num_leaves, row) && !dirty.contains(pos) && !is_to(
                row_filled(dels, num_leaves, row, tree_rows_of(num_leaves)).0,
                pos,
            ) && !is_from(row_filled(dels, num_leaves, row, tree_rows_of(num_leaves)).0, pos)
                && row_root(dels, num_leaves, row, tree_rows_of(num_leaves)) != Some(pos) ==> (
            #[trigger] forest_subtree(rest, num_leaves, pos)).data == forest_subtree(
                first,
                num_leaves,
                pos,
            ).data,
    ensures
        row_inv(
            first,
            rest,
            num_leaves,
            row_next(dels, num_leaves, row, tree_rows_of(num_leaves)),
            row_next_dirty(dels, dirty, num_leaves, row, tree_rows_of(num_leaves)),
            (row + 1) as u8,
        ),
{
    let forest_rows = tree_rows_of(num_leaves);
    lemma_tree_rows_of(num_leaves);
    let above = (row + 1) as u8;
    let next = row_next(dels, num_leaves, row, forest_rows);
    let stale = row_next_dirty(dels, dirty, num_leaves, row, forest_rows);
    lemma_dirty_next_live(dels, dirty, num_leaves, left, row, forest_rows);
    assert forall|pos: u64|
        in_use(pos, num_leaves, above) && !next.contains(pos) implies children_sound(
        rest,
        num_leaves,
        pos,
        row as nat,
    ) && (!stale.contains(pos) ==> sound_to(
        #[trigger] forest_subtree(rest, num_leaves, pos),
        above as nat,
    )) by {
        lemma_node_sound(first, rest, num_leaves, left, dels, dirty, row, pos);
    }
    assert forall|i: int| 0 <= i < stale.len() implies above >= 1 && children_sound(
        rest,
        num_leaves,
        #[trigger] stale[i],
        (above - 1) as nat,
    ) by {
        let pos = stale[i];
        assert(in_use(pos, num_leaves, above) && !next.contains(pos));
        lemma_node_sound(first, rest, num_leaves, left, dels, dirty, row, pos);
    }
}

/// A node of the row above that is not deleted there has sound children,
/// and is sound itself unless it is stale.
#[verifier::rlimit(40)]
proof fn lemma_node_sound(
    first: Seq<PolNode>,
    rest: Seq<PolNode>,
    num_leaves: u64,
    left: u64,
    dels: Seq<u64>,
    dirty: Seq<u64>,
    row: u8,
    pos: u64,
)
    requires
        0 < num_leaves <= MAX_LEAVES,
        row < tree_rows_of(num_leaves),
        forest_sound(first, num_leaves),
        rest.len() == popcount(num_leaves),
        row_ready(dels, num_leaves, left, row, tree_rows_of(num_leaves)),
        hashes_kept(first, rest, num_leaves, (row + 1) as nat),
        forall|pos: u64|
            live_after(pos, dels, num_leaves, row, tree_rows_of(num_leaves)) && row_root(
                dels,
                num_leaves,
                row,
                tree_rows_of(num_leaves),
            ) != Some(pos) ==> sound_to(
                #[trigger] forest_subtree(rest, num_leaves, pos),
                row as nat,
            ),
        forall|pos: u64|
            in_use(pos, num_leaves, row) && !dirty.contains(pos) && !is_to(
                row_filled(dels, num_leaves, row, tree_rows_of(num_leaves)).0,
                pos,
            ) && !is_from(row_filled(dels, num_leaves, row, tree_rows_of(num_leaves)).0, pos)
                && row_root(dels, num_leaves, row, tree_rows_of(num_leaves)) != Some(pos) ==> (
            #[trigger] forest_subtree(rest, num_leaves, pos)).data == forest_subtree(
                first,
                num_leaves,
                pos,
            ).data,
        in_use(pos, num_leaves, (row + 1) as u8),
        !row_next(dels, num_leaves, row, tree_rows_of(num_leaves)).contains(pos),
    ensures
        children_sound(rest, num_leaves, pos, row as nat),
        !row_next_dirty(dels, dirty, num_leaves, row, tree_rows_of(num_leaves)).contains(pos)
            ==> sound_to(forest_subtree(rest, num_leaves, pos), (row + 1) as nat),
{
    let forest_rows = tree_rows_of(num_leaves);
    lemma_tree_rows_of(num_leaves);
    let above = (row + 1) as u8;
    lemma_children_live(dels, dirty, num_leaves, left, row, forest_rows, pos);
    lemma_in_use(pos, num_leaves, above);
    let l = child_of(pos, forest_rows);
    let r = (l + 1) as u64;
    lemma_child_in_forest(pos, num_leaves, l);
    lemma_child_in_forest(pos, num_leaves, r);
    lemma_forest_child(rest, num_leaves, l);
    lemma_forest_child(rest, num_leaves, r);
    lemma_forest_child(first, num_leaves, l);
    lemma_forest_child(first, num_leaves, r);
    let unit = forest_subtree(rest, num_leaves, pos);
    assert(child_unit(unit, false) == forest_subtree(rest, num_leaves, l));
    assert(child_unit(unit, true) == forest_subtree(rest, num_leaves, r));
    let stale = row_next_dirty(dels, dirty, num_leaves, row, forest_rows);
    if !stale.contains(pos) {
        lemma_forest_fit(first, num_leaves, pos);
        let then = forest_subtree(first, num_leaves, pos);
        assert(fit(then));
        lemma_fill_facts(dels, num_leaves, left, row, forest_rows);
        assert(in_use(l, num_leaves, row) && in_use(r, num_leaves, row));
        assert(unit.data == then.data);
        assert(child_unit(unit, false).data == child_unit(then, false).data);
        assert(child_unit(unit, true).data == child_unit(then, true).data);
        assert(fit(unit));
    }
}

/// The roots that were taken out of the forest so far are those of the
/// trees lower than `upto`, the tallest first, and each is sound down to
/// its leaves.
pub open spec fn found_sound(found: Seq<PolNode>, left: u64, upto: nat) -> bool {
    &&& found.len() == heights_upto(left, upto).len()
    &&& forall|i: int|
        0 <= i < found.len() ==> sound_to(#[trigger] found[i], heights_upto(left, upto)[i])
}

/// What one row of the schedule does to a sound forest: the root that it
/// takes out is sound, and the forest is ready for the row above.
#[verifier::rlimit(40)]
proof fn lemma_row_sound(
    first: Seq<PolNode>,
    roots: Seq<PolNode>,
    num_leaves: u64,
    left: u64,
    dels: Seq<u64>,
    dirty: Seq<u64>,
    row: u8,
)
    requires
        0 < num_leaves <= MAX_LEAVES,
        row <= tree_rows_of(num_leaves),
        forest_sound(first, num_leaves),
        row_ready(dels, num_leaves, left, row, tree_rows_of(num_leaves)),
        dirty_live(dirty, dels, num_leaves, row, tree_rows_of(num_leaves)),
        row_inv(first, roots, num_leaves, dels, dirty, row),
        rehashed_from(roots, num_leaves, dirty, 0) is Ok,
        swapped_from(
            rehashed_from(roots, num_leaves, dirty, 0)->Ok_0,
            num_leaves,
            row_filled(dels, num_leaves, row, tree_rows_of(num_leaves)).0,
            0,
        ) is Ok,
        row_root(dels, num_leaves, row, tree_rows_of(num_leaves)) is Some ==> forest_grafted(
            swapped_from(
                rehashed_from(roots, num_leaves, dirty, 0)->Ok_0,
                num_leaves,
                row_filled(dels, num_leaves, row, tree_rows_of(num_leaves)).0,
                0,
            )->Ok_0,
            num_leaves,
            row_root(dels, num_leaves, row, tree_rows_of(num_leaves))->Some_0,
            blank(),
        ) is Ok,
    ensures
        ({
            let forest_rows = tree_rows_of(num_leaves);
            let fresh = rehashed_from(roots, num_leaves, dirty, 0)->Ok_0;
            let swaps = row_filled(dels, num_leaves, row, forest_rows).0;
            let packed = swapped_from(fresh, num_leaves, swaps, 0)->Ok_0;
            let root = row_root(dels, num_leaves, row, forest_rows);
            let taken = forest_grafted(packed, num_leaves, root->Some_0, blank())->Ok_0;
            let rest = if root is Some {
                taken.0
            } else {
                packed
            };
            &&& root is Some ==> sound_to(taken.1, row as nat)
            &&& row < forest_rows ==> row_inv(
                first,
                rest,
                num_leaves,
                row_next(dels, num_leaves, row, forest_rows),
                row_next_dirty(dels, dirty, num_leaves, row, forest_rows),
                (row + 1) as u8,
            )
        }),
{
    let forest_rows = tree_rows_of(num_leaves);
    lemma_tree_rows_of(num_leaves);
    let fresh = rehashed_from(roots, num_leaves, dirty, 0)->Ok_0;
    let swaps = row_filled(dels, num_leaves, row, forest_rows).0;
    let packed = swapped_from(fresh, num_leaves, swaps, 0)->Ok_0;
    let root = row_root(dels, num_leaves, row, forest_rows);
    lemma_row_rehashed(first, roots, num_leaves, dels, dirty, row);
    lemma_row_swapped(fresh, num_leaves, left, dels, row);
    // the hashes of the rows above are still what they were
    assert(hashes_kept(first, packed, num_leaves, (row + 1) as nat)) by {
        assert forall|pos: u64|
            in_forest(pos, num_leaves) && row_of(pos, forest_rows) >= row + 1 implies (
        #[trigger] forest_subtree(packed, num_leaves, pos)).data == forest_subtree(
            first,
            num_leaves,
            pos,
        ).data by {
            assert(forest_subtree(fresh, num_leaves, pos).data == forest_subtree(
                first,
                num_leaves,
                pos,
            ).data);
        }
    }
    // the nodes of the row that nothing has touched carry the hash that they carried
    assert forall|pos: u64|
        in_use(pos, num_leaves, row) && !dirty.contains(pos) && !is_to(swaps, pos) && !is_from(
            swaps,
            pos,
        ) implies (#[trigger] forest_subtree(packed, num_leaves, pos)).data == forest_subtree(
        first,
        num_leaves,
        pos,
    ).data by {
        lemma_in_use(pos, num_leaves, row);
        assert(forest_subtree(fresh, num_leaves, pos) == forest_subtree(roots, num_leaves, pos));
        assert(forest_subtree(roots, num_leaves, pos).data == forest_subtree(
            first,
            num_leaves,
            pos,
        ).data);
    }
    if root is Some {
        let at = root->Some_0;
        lemma_root_live(dels, num_leaves, left, row, forest_rows);
        let taken = forest_grafted(packed, num_leaves, at, blank())->Ok_0;
        lemma_forest_graft(packed, num_leaves, at, blank(), at);
        lemma_graft_same_but(packed, num_leaves, at, blank());
        assert(in_use(at, num_leaves, row)) by {
            lemma_fill_facts(dels, num_leaves, left, row, forest_rows);
        }
        lemma_in_use(at, num_leaves, row);
        if row < forest_rows {
            assert(hashes_kept(first, taken.0, num_leaves, (row + 1) as nat)) by {
                assert forall|pos: u64|
                    in_forest(pos, num_leaves) && row_of(pos, forest_rows) >= row + 1 implies (
                #[trigger] forest_subtree(taken.0, num_leaves, pos)).data == forest_subtree(
                    first,
                    num_leaves,
                    pos,
                ).data by {
                    assert(forest_subtree(packed, num_leaves, pos).data == forest_subtree(
                        first,
                        num_leaves,
                        pos,
                    ).data);
                }
            }
            assert forall|pos: u64|
                live_after(pos, dels, num_leaves, row, forest_rows) && root != Some(
                    pos,
                ) implies sound_to(
                #[trigger] forest_subtree(taken.0, num_leaves, pos),
                row as nat,
            ) by {
                lemma_fill_facts(dels, num_leaves, left, row, forest_rows);
                assert(in_use(pos, num_leaves, row));
                lemma_in_use(pos, num_leaves, row);
                assert(forest_subtree(packed, num_leaves, pos) == forest_subtree(
                    taken.0,
                    num_leaves,
                    pos,
                ));
            }
            assert forall|pos: u64|
                in_use(pos, num_leaves, row) && !dirty.contains(pos) && !is_to(swaps, pos)
                    && !is_from(swaps, pos) && root != Some(pos) implies (
            #[trigger] forest_subtree(taken.0, num_leaves, pos)).data == forest_subtree(
                first,
                num_leaves,
                pos,
            ).data by {
                lemma_in_use(pos, num_leaves, row);
                assert(forest_subtree(packed, num_leaves, pos) == forest_subtree(
                    taken.0,
                    num_leaves,
                    pos,
                ));
            }
            lemma_row_next_inv(first, taken.0, num_leaves, left, dels, dirty, row);
        }
    } else if row < forest_rows {
        lemma_row_next_inv(first, packed, num_leaves, left, dels, dirty, row);
    }
}

/// The rows of the schedule from `row` on leave sound roots.
#[verifier::rlimit(40)]
proof fn lemma_rows_sound(
    first: Seq<PolNode>,
    roots: Seq<PolNode>,
    num_leaves: u64,
    left: u64,
    dels: Seq<u64>,
    dirty: Seq<u64>,
    row: u8,
    acc: Seq<RowPlanView>,
    found: Seq<PolNode>,
)
    requires
        0 < num_leaves <= MAX_LEAVES,
        row <= tree_rows_of(num_leaves),
        forest_sound(first, num_leaves),
        row_ready(dels, num_leaves, left, row, tree_rows_of(num_leaves)),
        dirty_live(dirty, dels, num_leaves, row, tree_rows_of(num_leaves)),
        places(dirty, num_leaves, row, tree_rows_of(num_leaves)),
        row_inv(first, roots, num_leaves, dels, dirty, row),
        acc.len() == row,
        rows_applied(
            roots,
            num_leaves,
            plan_rows(dels, dirty, num_leaves, row, tree_rows_of(num_leaves), acc),
            row as nat,
            found,
        ) is Ok,
        found_sound(found, left, row as nat),
    ensures
        found_sound(
            rows_applied(
                roots,
                num_leaves,
                plan_rows(dels, dirty, num_leaves, row, tree_rows_of(num_leaves), acc),
                row as nat,
                found,
            )->Ok_0,
            left,
            (tree_rows_of(num_leaves) + 1) as nat,
        ),
    decreases tree_rows_of(num_leaves) - row,
{
    let forest_rows = tree_rows_of(num_leaves);
    lemma_tree_rows_of(num_leaves);
    let plans = plan_rows(dels, dirty, num_leaves, row, forest_rows, acc);
    let filled = row_filled(dels, num_leaves, row, forest_rows);
    let root = row_root(dels, num_leaves, row, forest_rows);
    let plan = RowPlanView { dirty, swaps: filled.0, root };
    let next = row_next(dels, num_leaves, row, forest_rows);
    let stale = row_next_dirty(dels, dirty, num_leaves, row, forest_rows);
    lemma_plan_roots(dels, dirty, num_leaves, left, row, forest_rows, acc);
    lemma_row_step(dels, num_leaves, left, row, forest_rows);
    if row < forest_rows {
        lemma_dirty_places(dels, dirty, num_leaves, left, row, forest_rows);
        lemma_plan_roots(
            next,
            stale,
            num_leaves,
            left,
            (row + 1) as u8,
            forest_rows,
            acc.push(plan),
        );
        assert(plans[row as int] == acc.push(plan)[row as int]);
    }
    assert(plans[row as int] == plan);
    assert(plan_fits(plans[acc.len() + row - row], num_leaves, left, row, forest_rows));
    let fresh = rehashed_from(roots, num_leaves, dirty, 0)->Ok_0;
    let packed = swapped_from(fresh, num_leaves, filled.0, 0)->Ok_0;
    lemma_row_sound(first, roots, num_leaves, left, dels, dirty, row);
    let taken = forest_grafted(packed, num_leaves, root->Some_0, blank())->Ok_0;
    let rest = if root is Some {
        taken.0
    } else {
        packed
    };
    let more = if root is Some {
        found.insert(0, taken.1)
    } else {
        found
    };
    // the roots found so far, with the one of this row
    assert(found_sound(more, left, (row + 1) as nat)) by {
        let before = heights_upto(left, row as nat);
        let now = heights_upto(left, (row + 1) as nat);
        if root is Some {
            assert(now == seq![row as nat] + before);
            assert forall|i: int| 0 <= i < more.len() implies sound_to(
                #[trigger] more[i],
                now[i],
            ) by {
                if i > 0 {
                    assert(more[i] == found[i - 1]);
                    assert(now[i] == before[i - 1]);
                }
            }
        }
    }
    assert(rows_applied(roots, num_leaves, plans, row as nat, found) == rows_applied(
        rest,
        num_leaves,
        plans,
        (row + 1) as nat,
        more,
    ));
    if row < forest_rows {
        lemma_dirty_next_live(dels, dirty, num_leaves, left, row, forest_rows);
        lemma_rows_sound(
            first,
            rest,
            num_leaves,
            left,
            next,
            stale,
            (row + 1) as u8,
            acc.push(plan),
            more,
        );
    }
}

/// Deleting keeps the hashes sound: where every tree of a forest is
/// sound from its root down to its leaves, and leaves that are named in
/// order are deleted from it, every tree of the forest that remains is.
pub proof fn lemma_remove_keeps_sound(roots: Seq<PolNode>, num_leaves: u64, dels: Seq<u64>)
    requires
        num_leaves <= MAX_LEAVES,
        forest_sound(roots, num_leaves),
        removed(roots, num_leaves, dels) is Ok,
    ensures
        forest_sound(
            removed(roots, num_leaves, dels)->Ok_0.0,
            removed(roots, num_leaves, dels)->Ok_0.1,
        ),
{
    if dels.len() > 0 {
        let forest_rows = tree_rows_of(num_leaves);
        let left = (num_leaves - dels.len()) as u64;
        assert(dels[0] < num_leaves);
        lemma_tree_rows_of(num_leaves);
        lemma_valid_dels_len(dels, num_leaves);
        lemma_valid_rising(dels, num_leaves);
        lemma_row_bounds(num_leaves, 0, forest_rows, 0);
        lemma_row_bounds(left, 0, forest_rows, 0);
        lemma_heights_above(num_leaves, 0);
        let none = Seq::<u64>::empty();
        assert(row_ready(dels, num_leaves, left, 0, forest_rows));
        assert(row_inv(roots, roots, num_leaves, dels, none, 0));
        let found = rows_applied(
            roots,
            num_leaves,
            transform_of(dels, num_leaves, forest_rows),
            0,
            Seq::empty(),
        )->Ok_0;
        lemma_rows_sound(
            roots,
            roots,
            num_leaves,
            left,
            dels,
            none,
            0,
            Seq::empty(),
            Seq::empty(),
        );
        lemma_heights_low(left, forest_rows, 64);
    }
}

} // verus!
