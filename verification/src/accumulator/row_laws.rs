//! What a row of the deletion transform leaves for the row above: which
//! nodes live, and which of them get a new hash.
use crate::accumulator::transform::{
    dirty_above, note, row_end_of, row_filled, row_next, row_next_dirty, row_root, span,
};
use crate::accumulator::transform_laws::{
    filled_below, is_from, is_to, lemma_dirty_places, lemma_fill_facts, lemma_parent_order,
    lemma_row_step, packed_so_far, places, row_ready, twin_index,
};
use crate::accumulator::types::Arrow;
use crate::accumulator::util::{child_of, forest_mask, parent_of, row_start_of, twin_parents};
use crate::accumulator::util_laws::{lemma_place_bits, lemma_row_bounds, lemma_twin_bits};
use vstd::prelude::*;

verus! {

/// `pos` is a place of row `row` that holds a node.
pub open spec fn at_row(pos: u64, num_leaves: u64, row: u8, forest_rows: u8) -> bool {
    row_start_of(row, forest_rows) <= pos < row_end_of(num_leaves, row, forest_rows)
}

/// The node at `pos` lives after the swaps of its row: it lies before the
/// end of the row, and is not deleted or was filled.
pub open spec fn live_after(
    pos: u64,
    dels: Seq<u64>,
    num_leaves: u64,
    row: u8,
    forest_rows: u8,
) -> bool {
    let filled = row_filled(dels, num_leaves, row, forest_rows);
    &&& row_start_of(row, forest_rows) <= pos < filled.1
    &&& !dels.contains(pos) || is_to(filled.0, pos)
}

/// The stale nodes of a row are nodes of the row that are not deleted.
pub open spec fn dirty_live(
    dirty: Seq<u64>,
    dels: Seq<u64>,
    num_leaves: u64,
    row: u8,
    forest_rows: u8,
) -> bool {
    forall|i: int|
        0 <= i < dirty.len() ==> at_row(#[trigger] dirty[i], num_leaves, row, forest_rows)
            && !dels.contains(dirty[i])
}

/// A node and its two children, and two nodes with one parent.
pub proof fn lemma_family(pos: u64, a: u64, b: u64, row: u8, above: u8, forest_rows: u8)
    by (bit_vector)
    requires
        row < forest_rows < 64,
        above == row + 1,
    ensures
        row_start_of(row, forest_rows) & 1 == 0,
        row_start_of(above, forest_rows) <= pos <= forest_mask(forest_rows) ==> {
            &&& child_of(pos, forest_rows) >= row_start_of(row, forest_rows)
            &&& child_of(pos, forest_rows) & 1 == 0
            &&& child_of(pos, forest_rows) | 1 == child_of(pos, forest_rows) + 1
            &&& child_of(pos, forest_rows) + 1 <= forest_mask(forest_rows)
            &&& parent_of(child_of(pos, forest_rows), forest_rows) == pos
            &&& parent_of(child_of(pos, forest_rows) | 1, forest_rows) == pos
        },
        a <= forest_mask(forest_rows) && b <= forest_mask(forest_rows) && parent_of(
            a,
            forest_rows,
        ) == parent_of(b, forest_rows) ==> a | 1 == b | 1,
        a & 1 == 0 ==> parent_of(a, forest_rows) == parent_of((a + 1) as u64, forest_rows) && (a
            | 1) == a + 1,
        a & 1 == 0 && a <= b && (b - a) % 2 == 0 ==> b & 1 == 0,
        a & 1 == 0 && a <= b && (b - a) % 2 == 1 ==> b & 1 == 1,
{
}

/// The parent of each pair of siblings among the first `upto` deletions
/// is among the parents that `twin_parents` lists.
pub proof fn lemma_twin_parent_listed(dels: Seq<u64>, forest_rows: u8, j: int, upto: nat)
    requires
        0 <= j,
        j + 1 < upto <= dels.len(),
        dels[j] | 1 == dels[j + 1],
    ensures
        twin_parents(dels.take(upto as int), forest_rows).contains(
            parent_of(dels[j], forest_rows),
        ),
    decreases upto,
{
    let part = dels.take(upto as int);
    let all = twin_parents(part, forest_rows);
    assert(part.drop_last() =~= dels.take(upto - 1));
    assert(part[upto - 2] == dels[upto - 2] && part[upto - 1] == dels[upto - 1]);
    if j + 2 == upto {
        assert(all.last() == parent_of(dels[j], forest_rows));
        assert(all[all.len() - 1] == parent_of(dels[j], forest_rows));
    } else {
        lemma_twin_parent_listed(dels, forest_rows, j, (upto - 1) as nat);
        let before = twin_parents(dels.take(upto - 1), forest_rows);
        let at = choose|at: int|
            0 <= at < before.len() && before[at] == parent_of(dels[j], forest_rows);
        assert(all[at] == before[at]);
    }
}

/// Each parent that `twin_parents` lists is the parent of a pair of
/// siblings among the deletions.
pub proof fn lemma_twin_parent_of(dels: Seq<u64>, forest_rows: u8, parent: u64)
    requires
        twin_parents(dels, forest_rows).contains(parent),
    ensures
        exists|j: int|
            0 <= j && j + 1 < dels.len() && #[trigger] dels[j] | 1 == dels[j + 1] && parent_of(
                dels[j],
                forest_rows,
            ) == parent,
    decreases dels.len(),
{
    let all = twin_parents(dels, forest_rows);
    let at = choose|at: int| 0 <= at < all.len() && all[at] == parent;
    if dels.len() >= 2 {
        let head = dels.drop_last();
        let before = twin_parents(head, forest_rows);
        let last = dels.len() - 2;
        if at < before.len() {
            assert(before[at] == parent);
            assert(before.contains(parent));
            lemma_twin_parent_of(head, forest_rows, parent);
            let j = choose|j: int|
                0 <= j && j + 1 < head.len() && #[trigger] head[j] | 1 == head[j + 1]
                    && parent_of(head[j], forest_rows) == parent;
            assert(dels[j] == head[j] && dels[j + 1] == head[j + 1]);
            assert(dels[j] | 1 == dels[j + 1]);
        } else {
            assert(dels[last] | 1 == dels[last + 1]);
        }
    }
}

/// What `dirty_above` lists holds the parent of each stale node and of
/// each place that a swap fills, where the parent lies below the limit.
pub proof fn lemma_dirty_above_has(
    dirty: Seq<u64>,
    swaps: Seq<Arrow>,
    limit: u64,
    forest_rows: u8,
    i: nat,
    j: nat,
    acc: Seq<u64>,
    pos: u64,
)
    requires
        parent_of(pos, forest_rows) < limit,
        acc.contains(parent_of(pos, forest_rows)) || (exists|k: int|
            i <= k < dirty.len() && dirty[k] == pos) || (exists|k: int|
            j <= k < swaps.len() && swaps[k].to == pos),
    ensures
        dirty_above(dirty, swaps, limit, forest_rows, i, j, acc).contains(
            parent_of(pos, forest_rows),
        ),
    decreases (if i < dirty.len() {
            dirty.len() - i
        } else {
            0
        }) + (if j < swaps.len() {
            swaps.len() - j
        } else {
            0
        }),
{
    let up = parent_of(pos, forest_rows);
    if i >= dirty.len() && j >= swaps.len() {
    } else if j >= swaps.len() || (i < dirty.len() && dirty[i as int] <= swaps[j as int].to) {
        let here = dirty[i as int];
        let more = note(acc, parent_of(here, forest_rows), limit);
        lemma_note_keeps(acc, parent_of(here, forest_rows), limit, up);
        if !acc.contains(up) && !(exists|k: int| i + 1 <= k < dirty.len() && dirty[k] == pos)
            && !(exists|k: int| j <= k < swaps.len() && swaps[k].to == pos) {
            assert(here == pos);
        }
        lemma_dirty_above_has(dirty, swaps, limit, forest_rows, i + 1, j, more, pos);
    } else {
        let here = swaps[j as int].to;
        let more = note(acc, parent_of(here, forest_rows), limit);
        lemma_note_keeps(acc, parent_of(here, forest_rows), limit, up);
        if !acc.contains(up) && !(exists|k: int| i <= k < dirty.len() && dirty[k] == pos) && !(
        exists|k: int| j + 1 <= k < swaps.len() && swaps[k].to == pos) {
            assert(here == pos);
        }
        lemma_dirty_above_has(dirty, swaps, limit, forest_rows, i, j + 1, more, pos);
    }
}

/// A note keeps what was noted, and holds what it notes below the limit.
pub proof fn lemma_note_keeps(acc: Seq<u64>, pos: u64, limit: u64, other: u64)
    ensures
        acc.contains(other) ==> note(acc, pos, limit).contains(other),
        pos < limit ==> note(acc, pos, limit).contains(pos),
        note(acc, pos, limit).contains(other) ==> acc.contains(other) || (other == pos && pos
            < limit),
{
    let more = note(acc, pos, limit);
    if acc.contains(other) {
        let at = choose|at: int| 0 <= at < acc.len() && acc[at] == other;
        assert(more[at] == other);
    }
    if pos < limit {
        if acc.len() > 0 && acc.last() == pos {
            assert(more[acc.len() - 1] == pos);
        } else {
            assert(more[acc.len() as int] == pos);
        }
    }
    if more.contains(other) {
        let at = choose|at: int| 0 <= at < more.len() && more[at] == other;
        if at < acc.len() {
            assert(acc[at] == other);
        }
    }
}

/// What `dirty_above` lists is the parent of a stale node or of a place
/// that a swap fills, and lies below the limit, unless it was noted
/// before.
pub proof fn lemma_dirty_above_from(
    dirty: Seq<u64>,
    swaps: Seq<Arrow>,
    limit: u64,
    forest_rows: u8,
    i: nat,
    j: nat,
    acc: Seq<u64>,
    up: u64,
)
    requires
        dirty_above(dirty, swaps, limit, forest_rows, i, j, acc).contains(up),
    ensures
        acc.contains(up) || (up < limit && ((exists|k: int|
            0 <= k < dirty.len() && parent_of(#[trigger] dirty[k], forest_rows) == up) || (
        exists|k: int|
            0 <= k < swaps.len() && parent_of((#[trigger] swaps[k]).to, forest_rows) == up))),
    decreases (if i < dirty.len() {
            dirty.len() - i
        } else {
            0
        }) + (if j < swaps.len() {
            swaps.len() - j
        } else {
            0
        }),
{
    if i >= dirty.len() && j >= swaps.len() {
    } else if j >= swaps.len() || (i < dirty.len() && dirty[i as int] <= swaps[j as int].to) {
        let here = dirty[i as int];
        let more = note(acc, parent_of(here, forest_rows), limit);
        lemma_dirty_above_from(dirty, swaps, limit, forest_rows, i + 1, j, more, up);
        lemma_note_keeps(acc, parent_of(here, forest_rows), limit, up);
        if more.contains(up) && !acc.contains(up) {
            assert(parent_of(dirty[i as int], forest_rows) == up);
        }
    } else {
        let here = swaps[j as int].to;
        let more = note(acc, parent_of(here, forest_rows), limit);
        lemma_dirty_above_from(dirty, swaps, limit, forest_rows, i, j + 1, more, up);
        lemma_note_keeps(acc, parent_of(here, forest_rows), limit, up);
        if more.contains(up) && !acc.contains(up) {
            assert(parent_of(swaps[j as int].to, forest_rows) == up);
        }
    }
}

/// The swaps of a row have their ends in the row, fill places from the
/// left to the right with nodes taken from the right to the left, and
/// take no node from a place that they fill.
pub open spec fn swaps_apart(swaps: Seq<Arrow>, num_leaves: u64, row: u8, forest_rows: u8) -> bool {
    &&& forall|a: int|
        0 <= a < swaps.len() ==> at_row((#[trigger] swaps[a]).from, num_leaves, row, forest_rows)
            && at_row(swaps[a].to, num_leaves, row, forest_rows)
    &&& forall|a: int, b: int|
        0 <= a < swaps.len() && 0 <= b < swaps.len() ==> (#[trigger] swaps[a]).to < (
        #[trigger] swaps[b]).from
    &&& forall|a: int, b: int|
        0 <= a < b < swaps.len() ==> (#[trigger] swaps[a]).to < (#[trigger] swaps[b]).to
            && swaps[a].from > swaps[b].from
}

/// The swaps of a row keep apart, and each takes a node that is not
/// deleted from a place at or behind the end of the row.
pub proof fn lemma_row_swaps(dels: Seq<u64>, num_leaves: u64, left: u64, row: u8, forest_rows: u8)
    requires
        row <= forest_rows < 64,
        num_leaves <= (1u64 << forest_rows),
        row_ready(dels, num_leaves, left, row, forest_rows),
    ensures
        swaps_apart(row_filled(dels, num_leaves, row, forest_rows).0, num_leaves, row, forest_rows),
        forall|a: int|
            0 <= a < row_filled(dels, num_leaves, row, forest_rows).0.len() ==> {
                let arrow = #[trigger] row_filled(dels, num_leaves, row, forest_rows).0[a];
                &&& !dels.contains(arrow.from)
                &&& dels.contains(arrow.to)
                &&& arrow.to < row_filled(dels, num_leaves, row, forest_rows).1 <= arrow.from
            },
{
    reveal(packed_so_far);
    lemma_fill_facts(dels, num_leaves, left, row, forest_rows);
    let base = row_start_of(row, forest_rows);
    let last = row_end_of(num_leaves, row, forest_rows);
    let filled = row_filled(dels, num_leaves, row, forest_rows);
    let swaps = filled.0;
    let below = filled_below(dels, base, last, 0, dels.len());
    assert forall|a: int| 0 <= a < swaps.len() implies (#[trigger] swaps[a]).to < filled.1 by {
        let j = choose|j: int|
            0 <= j < below && j < dels.len() && dels[j] == swaps[a].to && !twin_index(dels, j);
        assert(dels[j] < filled.1);
    }
    assert forall|a: int, b: int| 0 <= a < swaps.len() && 0 <= b < swaps.len() implies (
    #[trigger] swaps[a]).to < (#[trigger] swaps[b]).from by {
        assert(swaps[a].to < filled.1);
        assert(swaps[b].from >= filled.1);
    }
}

/// The node that a row is left with as its root lives after the swaps.
#[verifier::rlimit(40)]
pub proof fn lemma_root_live(dels: Seq<u64>, num_leaves: u64, left: u64, row: u8, forest_rows: u8)
    requires
        row <= forest_rows < 64,
        num_leaves <= (1u64 << forest_rows),
        row_ready(dels, num_leaves, left, row, forest_rows),
        row_root(dels, num_leaves, row, forest_rows) is Some,
    ensures
        live_after(
            row_root(dels, num_leaves, row, forest_rows)->Some_0,
            dels,
            num_leaves,
            row,
            forest_rows,
        ),
        row_root(dels, num_leaves, row, forest_rows)->Some_0 + 1 == row_filled(
            dels,
            num_leaves,
            row,
            forest_rows,
        ).1,
        !is_from(
            row_filled(dels, num_leaves, row, forest_rows).0,
            row_root(dels, num_leaves, row, forest_rows)->Some_0,
        ),
{
    reveal(packed_so_far);
    lemma_fill_facts(dels, num_leaves, left, row, forest_rows);
    let base = row_start_of(row, forest_rows);
    let last = row_end_of(num_leaves, row, forest_rows);
    let filled = row_filled(dels, num_leaves, row, forest_rows);
    let below = filled_below(dels, base, last, 0, dels.len());
    let root = (filled.1 - 1) as u64;
    if dels.contains(root) && !is_to(filled.0, root) {
        let j = choose|j: int| 0 <= j < dels.len() && dels[j] == root;
        assert(j < below);
        assert(twin_index(dels, j));
        if j + 1 < dels.len() && dels[j] | 1 == dels[j + 1] {
            assert(dels[j] < dels[j + 1]);
            lemma_twin_bits(dels[j], dels[j + 1]);
            assert(dels[j + 1] >= filled.1);
            assert(j + 1 == below);
        } else {
            assert(dels[j - 1] < dels[j]);
            lemma_twin_bits(dels[j - 1], dels[j]);
            // the root stands at an even place of the row
            if row < forest_rows {
                lemma_family(0, base, root, row, (row + 1) as u8, forest_rows);
                assert((filled.1 - base) % 2 == 1);
            } else {
                lemma_place_bits(root, num_leaves, row, forest_rows);
            }
        }
    }
}

/// A node of the row above that is not deleted there has its two
/// children alive in this row: both lie before the end of the row and
/// are not deleted or were filled, no swap takes one of them away, and
/// neither is the root that the row is left with. Where the node is not
/// stale either, no child is stale and none was filled.
#[verifier::rlimit(40)]
pub proof fn lemma_children_live(
    dels: Seq<u64>,
    dirty: Seq<u64>,
    num_leaves: u64,
    left: u64,
    row: u8,
    forest_rows: u8,
    pos: u64,
)
    requires
        row < forest_rows < 64,
        num_leaves <= (1u64 << forest_rows),
        row_ready(dels, num_leaves, left, row, forest_rows),
        at_row(pos, num_leaves, (row + 1) as u8, forest_rows),
        !row_next(dels, num_leaves, row, forest_rows).contains(pos),
    ensures
        ({
            let l = child_of(pos, forest_rows);
            let r = (l + 1) as u64;
            let swaps = row_filled(dels, num_leaves, row, forest_rows).0;
            let root = row_root(dels, num_leaves, row, forest_rows);
            let stale = row_next_dirty(dels, dirty, num_leaves, row, forest_rows);
            &&& l & 1 == 0
            &&& r & 1 == 1
            &&& parent_of(l, forest_rows) == pos
            &&& parent_of(r, forest_rows) == pos
            &&& live_after(l, dels, num_leaves, row, forest_rows)
            &&& live_after(r, dels, num_leaves, row, forest_rows)
            &&& !is_from(swaps, l)
            &&& !is_from(swaps, r)
            &&& root != Some(l)
            &&& root != Some(r)
            &&& !stale.contains(pos) ==> !dirty.contains(l) && !dirty.contains(r) && !is_to(
                swaps,
                l,
            ) && !is_to(swaps, r)
        }),
{
    reveal(packed_so_far);
    let above = (row + 1) as u8;
    lemma_fill_facts(dels, num_leaves, left, row, forest_rows);
    lemma_row_bounds(num_leaves, above, forest_rows, 0);
    let base = row_start_of(row, forest_rows);
    let last = row_end_of(num_leaves, row, forest_rows);
    let filled = row_filled(dels, num_leaves, row, forest_rows);
    let swaps = filled.0;
    let end = filled.1;
    let below = filled_below(dels, base, last, 0, dels.len());
    let limit = parent_of(end, forest_rows);
    let last2 = row_end_of(num_leaves, above, forest_rows);
    let pairs = twin_parents(dels.take(below as int), forest_rows);
    let tail = span(limit, last2);
    let next = row_next(dels, num_leaves, row, forest_rows);
    assert(next == pairs + tail);
    // the node lies before the parent of the end
    if pos >= limit {
        assert(tail[pos - limit] == pos);
        assert(next[pairs.len() + (pos - limit)] == pos);
    }
    let l = child_of(pos, forest_rows);
    let r = (l + 1) as u64;
    lemma_family(pos, l, end, row, above, forest_rows);
    lemma_twin_bits(l, r);
    if r >= end {
        lemma_parent_order(end, r, forest_rows);
    }
    // neither child is a deleted node that was not filled
    if dels.contains(l) && !is_to(swaps, l) {
        let j = choose|j: int| 0 <= j < dels.len() && dels[j] == l;
        assert(j < below);
        assert(twin_index(dels, j));
        if j + 1 < dels.len() && dels[j] | 1 == dels[j + 1] {
            assert(dels[j + 1] < end);
            lemma_twin_parent_listed(dels, forest_rows, j, below);
            let at = choose|at: int| 0 <= at < pairs.len() && pairs[at] == pos;
            assert(next[at] == pos);
        } else {
            lemma_twin_bits(dels[j - 1], dels[j]);
        }
    }
    if dels.contains(r) && !is_to(swaps, r) {
        let j = choose|j: int| 0 <= j < dels.len() && dels[j] == r;
        assert(j < below);
        assert(twin_index(dels, j));
        if j + 1 < dels.len() && dels[j] | 1 == dels[j + 1] {
            assert(dels[j] < dels[j + 1]);
            lemma_twin_bits(dels[j], dels[j + 1]);
        } else {
            assert(dels[j - 1] < dels[j]);
            lemma_twin_bits(dels[j - 1], dels[j]);
            lemma_twin_parent_listed(dels, forest_rows, j - 1, below);
            let at = choose|at: int| 0 <= at < pairs.len() && pairs[at] == pos;
            assert(next[at] == pos);
        }
    }
    // the root stands at the last place before the end, which is even
    if row_root(dels, num_leaves, row, forest_rows) is Some {
        lemma_family(pos, base, (end - 1) as u64, row, above, forest_rows);
        lemma_family(pos, (end - 1) as u64, end, row, above, forest_rows);
    }
    // what is stale or filled makes its parent stale
    let stale = row_next_dirty(dels, dirty, num_leaves, row, forest_rows);
    if !stale.contains(pos) {
        if dirty.contains(l) || is_to(swaps, l) {
            if dirty.contains(l) {
                let k = choose|k: int| 0 <= k < dirty.len() && dirty[k] == l;
                assert(dirty[k] == l);
            } else {
                let k = choose|k: int| 0 <= k < swaps.len() && swaps[k].to == l;
                assert(swaps[k].to == l);
            }
            lemma_dirty_above_has(dirty, swaps, limit, forest_rows, 0, 0, Seq::empty(), l);
        }
        if dirty.contains(r) || is_to(swaps, r) {
            if dirty.contains(r) {
                let k = choose|k: int| 0 <= k < dirty.len() && dirty[k] == r;
                assert(dirty[k] == r);
            } else {
                let k = choose|k: int| 0 <= k < swaps.len() && swaps[k].to == r;
                assert(swaps[k].to == r);
            }
            lemma_dirty_above_has(dirty, swaps, limit, forest_rows, 0, 0, Seq::empty(), r);
        }
    }
}

/// A stale node of the row above is not deleted there.
#[verifier::rlimit(40)]
proof fn lemma_dirty_next_one(
    dels: Seq<u64>,
    dirty: Seq<u64>,
    num_leaves: u64,
    left: u64,
    row: u8,
    forest_rows: u8,
    up: u64,
)
    requires
        row < forest_rows < 64,
        num_leaves <= (1u64 << forest_rows),
        row_ready(dels, num_leaves, left, row, forest_rows),
        dirty_live(dirty, dels, num_leaves, row, forest_rows),
        row_next_dirty(dels, dirty, num_leaves, row, forest_rows).contains(up),
    ensures
        !row_next(dels, num_leaves, row, forest_rows).contains(up),
{
    let above = (row + 1) as u8;
    lemma_fill_facts(dels, num_leaves, left, row, forest_rows);
    lemma_row_bounds(num_leaves, above, forest_rows, 0);
    lemma_row_bounds(num_leaves, row, forest_rows, 0);
    let base = row_start_of(row, forest_rows);
    let last = row_end_of(num_leaves, row, forest_rows);
    let filled = row_filled(dels, num_leaves, row, forest_rows);
    let swaps = filled.0;
    let end = filled.1;
    let below = filled_below(dels, base, last, 0, dels.len());
    let limit = parent_of(end, forest_rows);
    let last2 = row_end_of(num_leaves, above, forest_rows);
    let pairs = twin_parents(dels.take(below as int), forest_rows);
    let tail = span(limit, last2);
    let next = row_next(dels, num_leaves, row, forest_rows);
    lemma_dirty_above_from(dirty, swaps, limit, forest_rows, 0, 0, Seq::empty(), up);
    let direct = exists|k: int|
        0 <= k < dirty.len() && parent_of(#[trigger] dirty[k], forest_rows) == up;
    if next.contains(up) {
        let at = choose|at: int| 0 <= at < next.len() && next[at] == up;
        if at < pairs.len() {
            assert(pairs[at] == up);
            assert(pairs.contains(up));
            let part = dels.take(below as int);
            lemma_twin_parent_of(part, forest_rows, up);
            let j = choose|j: int|
                0 <= j && j + 1 < part.len() && #[trigger] part[j] | 1 == part[j + 1]
                    && parent_of(part[j], forest_rows) == up;
            assert(part[j] == dels[j] && part[j + 1] == dels[j + 1]);
            assert(dels[j] < dels[j + 1]);
            lemma_twin_bits(dels[j], dels[j + 1]);
            assert(twin_index(dels, j));
            assert(twin_index(dels, j + 1));
            if direct {
                // a stale child is not deleted, but both children of the node are
                let k = choose|k: int|
                    0 <= k < dirty.len() && parent_of(#[trigger] dirty[k], forest_rows) == up;
                let child = dirty[k];
                assert(at_row(child, num_leaves, row, forest_rows) && !dels.contains(child));
                lemma_family(up, child, dels[j], row, above, forest_rows);
                lemma_twin_bits(child, child | 1);
                assert(child == dels[j] || child == dels[j + 1]);
            } else {
                // a filled child does not stand next to its sibling, but both children do
                lemma_filled_single(dels, num_leaves, left, row, forest_rows, up, j);
            }
        } else {
            assert(tail[at - pairs.len()] == up);
        }
    }
}

/// No swap fills a child of the parent of deleted siblings.
#[verifier::rlimit(40)]
proof fn lemma_filled_single(
    dels: Seq<u64>,
    num_leaves: u64,
    left: u64,
    row: u8,
    forest_rows: u8,
    up: u64,
    j: int,
)
    requires
        row < forest_rows < 64,
        num_leaves <= (1u64 << forest_rows),
        row_ready(dels, num_leaves, left, row, forest_rows),
        0 <= j,
        j + 1 < dels.len(),
        dels[j] | 1 == dels[j + 1],
        parent_of(dels[j], forest_rows) == up,
    ensures
        forall|k: int|
            0 <= k < row_filled(dels, num_leaves, row, forest_rows).0.len() ==> parent_of(
                (#[trigger] row_filled(dels, num_leaves, row, forest_rows).0[k]).to,
                forest_rows,
            ) != up,
{
    reveal(packed_so_far);
    let above = (row + 1) as u8;
    lemma_fill_facts(dels, num_leaves, left, row, forest_rows);
    lemma_row_bounds(num_leaves, row, forest_rows, 0);
    let base = row_start_of(row, forest_rows);
    let last = row_end_of(num_leaves, row, forest_rows);
    let swaps = row_filled(dels, num_leaves, row, forest_rows).0;
    let below = filled_below(dels, base, last, 0, dels.len());
    assert(dels[j] < dels[j + 1]);
    lemma_twin_bits(dels[j], dels[j + 1]);
    assert(twin_index(dels, j));
    assert(twin_index(dels, j + 1));
    assert forall|k: int| 0 <= k < swaps.len() implies parent_of(
        (#[trigger] swaps[k]).to,
        forest_rows,
    ) != up by {
        let child = swaps[k].to;
        if parent_of(child, forest_rows) == up {
            let m = choose|m: int|
                0 <= m < below && m < dels.len() && dels[m] == child && !twin_index(dels, m);
            lemma_family(up, child, dels[j], row, above, forest_rows);
            lemma_twin_bits(child, child | 1);
            assert(child == dels[j] || child == dels[j + 1]);
            if m < j {
                assert(dels[m] < dels[j]);
            } else if m > j + 1 {
                assert(dels[j + 1] < dels[m]);
            }
        }
    }
}

/// A node that lives after the swaps of its row, and is not the root
/// that the row is left with, has its parent alive in the row above: a
/// node of that row that is not deleted there.
#[verifier::rlimit(40)]
pub proof fn lemma_parent_live(
    dels: Seq<u64>,
    num_leaves: u64,
    left: u64,
    row: u8,
    forest_rows: u8,
    pos: u64,
)
    requires
        row < forest_rows < 64,
        num_leaves <= (1u64 << forest_rows),
        row_ready(dels, num_leaves, left, row, forest_rows),
        live_after(pos, dels, num_leaves, row, forest_rows),
        row_root(dels, num_leaves, row, forest_rows) != Some(pos),
    ensures
        at_row(parent_of(pos, forest_rows), num_leaves, (row + 1) as u8, forest_rows),
        !row_next(dels, num_leaves, row, forest_rows).contains(parent_of(pos, forest_rows)),
{
    let above = (row + 1) as u8;
    lemma_fill_facts(dels, num_leaves, left, row, forest_rows);
    lemma_row_step(dels, num_leaves, left, row, forest_rows);
    lemma_row_bounds(num_leaves, row, forest_rows, pos);
    let base = row_start_of(row, forest_rows);
    let last = row_end_of(num_leaves, row, forest_rows);
    let filled = row_filled(dels, num_leaves, row, forest_rows);
    let swaps = filled.0;
    let end = filled.1;
    let below = filled_below(dels, base, last, 0, dels.len());
    let limit = parent_of(end, forest_rows);
    let part = dels.take(below as int);
    let pairs = twin_parents(part, forest_rows);
    let tail = span(limit, row_end_of(num_leaves, above, forest_rows));
    let next = row_next(dels, num_leaves, row, forest_rows);
    let up = parent_of(pos, forest_rows);
    assert(next == pairs + tail);
    // the parent stands before the parent of the end
    assert(up < limit) by {
        lemma_family(up, base, end, row, above, forest_rows);
        if (end - base) % 2 == 0 {
            lemma_parent_order(pos, end, forest_rows);
        } else {
            let top = (end - 1) as u64;
            lemma_family(up, base, top, row, above, forest_rows);
            lemma_parent_order(pos, top, forest_rows);
            lemma_parent_order(top, end, forest_rows);
        }
    }
    // and is not the parent of siblings that died together
    if pairs.contains(up) {
        lemma_twin_parent_of(part, forest_rows, up);
        let j = choose|j: int|
            0 <= j && j + 1 < part.len() && #[trigger] part[j] | 1 == part[j + 1] && parent_of(
                part[j],
                forest_rows,
            ) == up;
        assert(dels[j] == part[j] && dels[j + 1] == part[j + 1]);
        assert(dels[j] < dels[j + 1]);
        lemma_twin_bits(dels[j], dels[j + 1]);
        lemma_family(up, pos, dels[j], row, above, forest_rows);
        lemma_twin_bits(pos, pos | 1);
        assert(pos == dels[j] || pos == dels[j + 1]);
        lemma_filled_single(dels, num_leaves, left, row, forest_rows, up, j);
        let k = choose|k: int| 0 <= k < swaps.len() && (#[trigger] swaps[k]).to == pos;
        assert(parent_of(swaps[k].to, forest_rows) != up);
    }
    if next.contains(up) {
        let at = choose|at: int| 0 <= at < next.len() && next[at] == up;
        if at < pairs.len() {
            assert(pairs[at] == up);
        } else {
            assert(tail[at - pairs.len()] == up);
        }
    }
}

/// The stale nodes of the row above are nodes of that row that are not
/// deleted there.
pub proof fn lemma_dirty_next_live(
    dels: Seq<u64>,
    dirty: Seq<u64>,
    num_leaves: u64,
    left: u64,
    row: u8,
    forest_rows: u8,
)
    requires
        row < forest_rows < 64,
        num_leaves <= (1u64 << forest_rows),
        row_ready(dels, num_leaves, left, row, forest_rows),
        dirty_live(dirty, dels, num_leaves, row, forest_rows),
    ensures
        dirty_live(
            row_next_dirty(dels, dirty, num_leaves, row, forest_rows),
            row_next(dels, num_leaves, row, forest_rows),
            num_leaves,
            (row + 1) as u8,
            forest_rows,
        ),
{
    let above = (row + 1) as u8;
    let next = row_next(dels, num_leaves, row, forest_rows);
    let stale = row_next_dirty(dels, dirty, num_leaves, row, forest_rows);
    lemma_dirty_places(dels, dirty, num_leaves, left, row, forest_rows);
    assert forall|i: int| 0 <= i < stale.len() implies at_row(
        #[trigger] stale[i],
        num_leaves,
        above,
        forest_rows,
    ) && !next.contains(stale[i]) by {
        assert(stale.contains(stale[i]));
        lemma_dirty_next_one(dels, dirty, num_leaves, left, row, forest_rows, stale[i]);
    }
}

} // verus!
