//! The deletion transform: which subtrees move where, row by row, when a
//! batch of leaves is deleted.
//!
//! A row holds its live nodes in the places from its first position up to
//! an end. Deleted siblings die together and hand the deletion on to their
//! parent. A deleted node whose sibling lives is a hole: the rightmost
//! live node of the row moves into it, so that the live nodes of each row
//! stay packed to the left. What is left over unpaired at the end of a row
//! is the root of that row in the forest that remains.
use crate::accumulator::types::Arrow;
use crate::accumulator::util::{
    extract_twins, lemma_low_bit, n_grandparent, n_grandparent_of, parent, parent_of, row_start,
    row_start_of, twin_parents,
};
use crate::accumulator::util_laws::lemma_row_bounds;
use vstd::prelude::*;

verus! {

/// What happens at one row: the positions whose hash is stale and is
/// computed anew first, then the swaps, and the position where the root of
/// this row then stands, if the forest that remains has one.
pub struct RowPlan {
    pub dirty: Vec<u64>,
    pub swaps: Vec<Arrow>,
    pub root: Option<u64>,
}

/// A `RowPlan` as plain values.
pub struct RowPlanView {
    pub dirty: Seq<u64>,
    pub swaps: Seq<Arrow>,
    pub root: Option<u64>,
}

impl View for RowPlan {
    type V = RowPlanView;

    open spec fn view(&self) -> RowPlanView {
        RowPlanView { dirty: self.dirty@, swaps: self.swaps@, root: self.root }
    }
}

/// The plans of a schedule as plain values.
pub open spec fn plan_views(rows: Seq<RowPlan>) -> Seq<RowPlanView> {
    Seq::new(rows.len(), |i: int| rows[i]@)
}

/// Packs a row to the left. The places from `base` up to `end` are looked
/// at from the right, and the deletions `dels` from both ends: `lo` of
/// them are dealt with from the left and those from the `k`-th on from the
/// right. Where the last place is deleted it is given up, together with
/// its sibling where that is deleted too. Else the node there is live.
/// Deleted siblings at the left are passed over: they stay where they
/// are, for the row above to deal with. A deletion at the left that
/// stands alone is a hole, and the live node at the last place moves into
/// it. Returns the swaps and the end of the row when nothing is left to
/// do.
pub open spec fn filled(
    dels: Seq<u64>,
    base: u64,
    end: u64,
    lo: nat,
    k: nat,
    swaps: Seq<Arrow>,
) -> (Seq<Arrow>, u64)
    decreases end + k - lo,
{
    if end <= base || lo >= k || k > dels.len() {
        (swaps, end)
    } else {
        let top = (end - 1) as u64;
        if dels[k - 1] == top {
            if lo + 1 < k && dels[k - 2] | 1 == dels[k - 1] && end - base >= 2 {
                filled(dels, base, (end - 2) as u64, lo, (k - 2) as nat, swaps)
            } else {
                filled(dels, base, top, lo, (k - 1) as nat, swaps)
            }
        } else if lo + 1 < k && dels[lo as int] | 1 == dels[(lo + 1) as int] {
            filled(dels, base, end, lo + 2, k, swaps)
        } else if dels[lo as int] < top {
            filled(
                dels,
                base,
                top,
                lo + 1,
                k,
                swaps.push(Arrow { from: top, to: dels[lo as int] }),
            )
        } else {
            (swaps, end)
        }
    }
}

/// Those of the first `upto` elements of `positions` that lie below `limit`.
pub open spec fn below_upto(positions: Seq<u64>, limit: u64, upto: nat) -> Seq<u64>
    decreases upto,
{
    if upto == 0 {
        Seq::empty()
    } else {
        let head = below_upto(positions, limit, (upto - 1) as nat);
        if positions[upto - 1] < limit {
            head.push(positions[upto - 1])
        } else {
            head
        }
    }
}

/// The positions from `from` up to `to`, `to` left out.
pub open spec fn span(from: u64, to: u64) -> Seq<u64> {
    if from <= to {
        Seq::new((to - from) as nat, |i: int| (from + i) as u64)
    } else {
        Seq::empty()
    }
}

/// `acc` with `pos` at its end, unless `pos` is not below `limit` or is
/// the last element already.
pub open spec fn note(acc: Seq<u64>, pos: u64, limit: u64) -> Seq<u64> {
    if pos < limit && (acc.len() == 0 || acc.last() != pos) {
        acc.push(pos)
    } else {
        acc
    }
}

/// The parents of the stale positions and of the places that a swap
/// filled, the two lists taken in step by position, each parent once, and
/// none from `limit` on.
pub open spec fn dirty_above(
    dirty: Seq<u64>,
    swaps: Seq<Arrow>,
    limit: u64,
    forest_rows: u8,
    i: nat,
    j: nat,
    acc: Seq<u64>,
) -> Seq<u64>
    decreases (if i < dirty.len() {
            dirty.len() - i
        } else {
            0
        }) + (if j < swaps.len() {
            swaps.len() - j
        } else {
            0
        }),
{
    if i >= dirty.len() && j >= swaps.len() {
        acc
    } else if j >= swaps.len() || (i < dirty.len() && dirty[i as int] <= swaps[j as int].to) {
        dirty_above(
            dirty,
            swaps,
            limit,
            forest_rows,
            i + 1,
            j,
            note(acc, parent_of(dirty[i as int], forest_rows), limit),
        )
    } else {
        dirty_above(
            dirty,
            swaps,
            limit,
            forest_rows,
            i,
            j + 1,
            note(acc, parent_of(swaps[j as int].to, forest_rows), limit),
        )
    }
}

/// One past the last place of row `row` that holds a node of a forest of
/// `num_leaves` leaves.
pub open spec fn row_end_of(num_leaves: u64, row: u8, forest_rows: u8) -> u64 {
    (row_start_of(row, forest_rows) + (num_leaves >> row)) as u64
}

/// The swaps of row `row`, and the end of the row after them.
pub open spec fn row_filled(dels: Seq<u64>, num_leaves: u64, row: u8, forest_rows: u8) -> (
    Seq<Arrow>,
    u64,
) {
    filled(
        dels,
        row_start_of(row, forest_rows),
        row_end_of(num_leaves, row, forest_rows),
        0,
        dels.len(),
        Seq::empty(),
    )
}

/// Where the root of row `row` stands after the swaps: the last live
/// place, where the live places are odd in number.
pub open spec fn row_root(dels: Seq<u64>, num_leaves: u64, row: u8, forest_rows: u8) -> Option<
    u64,
> {
    let end = row_filled(dels, num_leaves, row, forest_rows).1;
    if (end - row_start_of(row, forest_rows)) % 2 == 1 {
        Some((end - 1) as u64)
    } else {
        None
    }
}

/// The deletions of the row above: the parents of the siblings that died
/// together among the live places, and every place from the parent of the
/// end on.
pub open spec fn row_next(dels: Seq<u64>, num_leaves: u64, row: u8, forest_rows: u8) -> Seq<u64> {
    let end = row_filled(dels, num_leaves, row, forest_rows).1;
    let limit = parent_of(end, forest_rows);
    let parents = twin_parents(dels, forest_rows);
    below_upto(parents, limit, parents.len()) + span(
        limit,
        row_end_of(num_leaves, (row + 1) as u8, forest_rows),
    )
}

/// The stale positions of the row above.
pub open spec fn row_next_dirty(
    dels: Seq<u64>,
    dirty: Seq<u64>,
    num_leaves: u64,
    row: u8,
    forest_rows: u8,
) -> Seq<u64> {
    let filled = row_filled(dels, num_leaves, row, forest_rows);
    dirty_above(dirty, filled.0, parent_of(filled.1, forest_rows), forest_rows, 0, 0, Seq::empty())
}

/// The plans of the rows from `row` up to the top row, behind those in
/// `acc`.
pub open spec fn plan_rows(
    dels: Seq<u64>,
    dirty: Seq<u64>,
    num_leaves: u64,
    row: u8,
    forest_rows: u8,
    acc: Seq<RowPlanView>,
) -> Seq<RowPlanView>
    decreases forest_rows - row,
{
    let plan = RowPlanView {
        dirty,
        swaps: row_filled(dels, num_leaves, row, forest_rows).0,
        root: row_root(dels, num_leaves, row, forest_rows),
    };
    if row < forest_rows {
        plan_rows(
            row_next(dels, num_leaves, row, forest_rows),
            row_next_dirty(dels, dirty, num_leaves, row, forest_rows),
            num_leaves,
            (row + 1) as u8,
            forest_rows,
            acc.push(plan),
        )
    } else {
        acc.push(plan)
    }
}

/// The schedule that deletes `dels` from a forest of `num_leaves` leaves:
/// one plan for each row, the leaves first.
pub open spec fn transform_of(dels: Seq<u64>, num_leaves: u64, forest_rows: u8) -> Seq<
    RowPlanView,
> {
    plan_rows(dels, Seq::empty(), num_leaves, 0, forest_rows, Seq::empty())
}

/// A leaf and its ancestor in the row at hand, after one swap of that
/// row: where the ancestor stands at one end of the arrow, the leaf moves
/// with it to the other end, to the same place below it.
pub open spec fn carried(arrow: Arrow, row: u8, leaf: u64, ancestor: u64) -> (u64, u64) {
    if ancestor == arrow.from {
        (leaf ^ ((arrow.from ^ arrow.to) << row), arrow.to)
    } else if ancestor == arrow.to {
        (leaf ^ ((arrow.from ^ arrow.to) << row), arrow.from)
    } else {
        (leaf, ancestor)
    }
}

/// A leaf and its ancestor in row `row` after the swaps of that row from
/// the `i`-th on.
pub open spec fn carried_from(
    swaps: Seq<Arrow>,
    row: u8,
    i: nat,
    leaf: u64,
    ancestor: u64,
) -> (u64, u64)
    decreases swaps.len() - i,
{
    if i >= swaps.len() {
        (leaf, ancestor)
    } else {
        let next = carried(swaps[i as int], row, leaf, ancestor);
        carried_from(swaps, row, i + 1, next.0, next.1)
    }
}

/// The first leaf of the tree of row `row` in a forest of `left` leaves:
/// the leaves of all taller trees come before it.
pub open spec fn tree_start_of(left: u64, row: u8) -> u64 {
    (((left >> row) >> 1) << 1) << row
}

/// Where the leaf that stands at `leaf` before row `row` is carried out
/// stands in the forest that remains. It moves with each swap that moves
/// one of its ancestors, until an ancestor is left as a root: then it
/// keeps its place below that root, in the tree of that row. None where
/// no ancestor of it is left as a root: the leaf was deleted.
pub open spec fn leaf_after(
    plans: Seq<RowPlanView>,
    left: u64,
    forest_rows: u8,
    leaf: u64,
    row: nat,
) -> Option<u64>
    decreases plans.len() - row,
{
    if row >= plans.len() || row > forest_rows {
        None
    } else {
        let moved = carried_from(
            plans[row as int].swaps,
            row as u8,
            0,
            leaf,
            n_grandparent_of(leaf, row as u8, forest_rows),
        );
        if plans[row as int].root == Some(moved.1) {
            Some(tree_start_of(left, row as u8) | (moved.0 & (((1u64 << (row as u8)) - 1) as u64)))
        } else {
            leaf_after(plans, left, forest_rows, moved.0, row + 1)
        }
    }
}

/// `dels` names leaves of a forest of `num_leaves` leaves, in rising order
/// and none twice.
pub open spec fn valid_dels(dels: Seq<u64>, num_leaves: u64) -> bool {
    forall|i: int|
        0 <= i < dels.len() ==> #[trigger] dels[i] < num_leaves && (i > 0 ==> dels[i - 1]
            < dels[i])
}

/// The plan of a row at which nothing happens and no root is left.
pub open spec fn idle_plan() -> RowPlanView {
    RowPlanView { dirty: Seq::empty(), swaps: Seq::empty(), root: None }
}

/// Whether `dels` names leaves of the forest in rising order, none twice.
pub fn check_dels(dels: &Vec<u64>, num_leaves: u64) -> (ok: bool)
    ensures
        ok == valid_dels(dels@, num_leaves),
{
    let mut i: usize = 0;
    while i < dels.len()
        invariant
            i <= dels@.len(),
            forall|j: int|
                0 <= j < i ==> #[trigger] dels@[j] < num_leaves && (j > 0 ==> dels@[j - 1]
                    < dels@[j]),
        decreases dels@.len() - i,
    {
        if dels[i] >= num_leaves || (i > 0 && dels[i - 1] >= dels[i]) {
            return false;
        }
        i += 1;
    }
    true
}

/// Packs a row to the left: see `filled`.
pub fn fill(dels: &Vec<u64>, base: u64, last: u64) -> (r: (Vec<Arrow>, u64))
    requires
        base <= last,
    ensures
        (r.0@, r.1) == filled(dels@, base, last, 0, dels@.len(), Seq::empty()),
        base <= r.1 <= last,
{
    let mut swaps: Vec<Arrow> = Vec::new();
    let mut end: u64 = last;
    let mut lo: usize = 0;
    let mut k: usize = dels.len();
    let mut done = false;
    while !done
        invariant
            base <= end <= last,
            lo <= k <= dels@.len(),
            filled(dels@, base, last, 0, dels@.len(), Seq::empty()) == filled(
                dels@,
                base,
                end,
                lo as nat,
                k as nat,
                swaps@,
            ),
            done ==> filled(dels@, base, end, lo as nat, k as nat, swaps@) == (swaps@, end),
        decreases end + k - lo + (if done { 0int } else { 1int }),
    {
        if end <= base || lo >= k {
            done = true;
        } else {
            let top = end - 1;
            if dels[k - 1] == top {
                if lo + 1 < k && dels[k - 2] | 1 == dels[k - 1] && end - base >= 2 {
                    k -= 2;
                    end = end - 2;
                } else {
                    k -= 1;
                    end = top;
                }
            } else if lo + 1 < k && dels[lo] | 1 == dels[lo + 1] {
                lo += 2;
            } else if dels[lo] < top {
                swaps.push(Arrow { from: top, to: dels[lo] });
                lo += 1;
                end = top;
            } else {
                done = true;
            }
        }
    }
    (swaps, end)
}

/// Those of `positions` that lie below `limit`.
pub fn keep_below(positions: &Vec<u64>, limit: u64) -> (out: Vec<u64>)
    ensures
        out@ == below_upto(positions@, limit, positions@.len()),
{
    let mut out: Vec<u64> = Vec::new();
    let mut i: usize = 0;
    while i < positions.len()
        invariant
            i <= positions.len(),
            out@ == below_upto(positions@, limit, i as nat),
        decreases positions.len() - i,
    {
        if positions[i] < limit {
            out.push(positions[i]);
        }
        i += 1;
    }
    out
}

/// Appends the positions from `from` up to `to`, `to` left out.
pub fn push_span(out: &mut Vec<u64>, from: u64, to: u64)
    ensures
        final(out)@ == old(out)@ + span(from, to),
{
    let mut pos = from;
    proof {
        assert(old(out)@ + span(from, from) =~= old(out)@);
    }
    while pos < to
        invariant
            from <= pos,
            pos <= to || pos == from,
            out@ == old(out)@ + span(from, pos),
        decreases to - pos,
    {
        out.push(pos);
        proof {
            assert(old(out)@ + span(from, (pos + 1) as u64) =~= (old(out)@ + span(from, pos)).push(
                pos,
            ));
        }
        pos += 1;
    }
    proof {
        if from > to {
            assert(span(from, from) =~= span(from, to));
        }
    }
}

/// The stale positions of the row above: see `dirty_above`.
pub fn dirty_parents(dirty: &Vec<u64>, swaps: &Vec<Arrow>, limit: u64, forest_rows: u8) -> (out:
    Vec<u64>)
    requires
        forest_rows < 64,
    ensures
        out@ == dirty_above(dirty@, swaps@, limit, forest_rows, 0, 0, Seq::empty()),
{
    let mut out: Vec<u64> = Vec::new();
    let mut i: usize = 0;
    let mut j: usize = 0;
    while i < dirty.len() || j < swaps.len()
        invariant
            forest_rows < 64,
            i <= dirty@.len(),
            j <= swaps@.len(),
            dirty_above(dirty@, swaps@, limit, forest_rows, 0, 0, Seq::empty()) == dirty_above(
                dirty@,
                swaps@,
                limit,
                forest_rows,
                i as nat,
                j as nat,
                out@,
            ),
        decreases (dirty@.len() - i) + (swaps@.len() - j),
    {
        let from_dirty = j >= swaps.len() || (i < dirty.len() && dirty[i] <= swaps[j].to);
        let pos = if from_dirty {
            dirty[i]
        } else {
            swaps[j].to
        };
        if from_dirty {
            i += 1;
        } else {
            j += 1;
        }
        let up = parent(pos, forest_rows);
        if up < limit && (out.len() == 0 || out[out.len() - 1] != up) {
            out.push(up);
        }
    }
    out
}

/// One past the last place of row `row` that holds a node.
pub fn row_end(num_leaves: u64, row: u8, forest_rows: u8) -> (end: u64)
    requires
        row <= forest_rows < 64,
        num_leaves <= (1u64 << forest_rows),
    ensures
        end == row_end_of(num_leaves, row, forest_rows),
        row_start_of(row, forest_rows) <= end,
{
    let base = row_start(row, forest_rows);
    proof {
        lemma_row_bounds(num_leaves, row, forest_rows, 0);
    }
    base + (num_leaves >> row)
}

/// The swaps of row `row`, and the end of the row after them.
pub fn fill_row(dels: &Vec<u64>, num_leaves: u64, row: u8, forest_rows: u8) -> (r: (
    Vec<Arrow>,
    u64,
))
    requires
        row <= forest_rows < 64,
        num_leaves <= (1u64 << forest_rows),
    ensures
        (r.0@, r.1) == row_filled(dels@, num_leaves, row, forest_rows),
        row_start_of(row, forest_rows) <= r.1 <= row_end_of(num_leaves, row, forest_rows),
{
    let base = row_start(row, forest_rows);
    let last = row_end(num_leaves, row, forest_rows);
    fill(dels, base, last)
}

/// Where the root of a row stands whose live places end at `end`.
pub fn root_of_row(end: u64, row: u8, forest_rows: u8) -> (root: Option<u64>)
    requires
        row <= forest_rows < 64,
        row_start_of(row, forest_rows) <= end,
    ensures
        root == (if (end - row_start_of(row, forest_rows)) % 2 == 1 {
            Some((end - 1) as u64)
        } else {
            None
        }),
{
    let base = row_start(row, forest_rows);
    if (end - base) % 2 == 1 {
        Some(end - 1)
    } else {
        None
    }
}

/// Where a leaf stands after a schedule has been carried out on a forest
/// of `forest_rows` rows of which `left` leaves remain: see `leaf_after`.
pub fn follow(rows: &Vec<RowPlan>, left: u64, forest_rows: u8, leaf: u64) -> (r: Option<u64>)
    requires
        forest_rows < 64,
    ensures
        r == leaf_after(plan_views(rows@), left, forest_rows, leaf, 0),
{
    let mut at: u64 = leaf;
    let mut row: usize = 0;
    while row < rows.len() && row <= forest_rows as usize
        invariant
            forest_rows < 64,
            row <= rows@.len(),
            leaf_after(plan_views(rows@), left, forest_rows, leaf, 0) == leaf_after(
                plan_views(rows@),
                left,
                forest_rows,
                at,
                row as nat,
            ),
        decreases rows@.len() - row,
    {
        let height = row as u8;
        let mut ancestor = match n_grandparent(at, height, forest_rows) {
            Ok(ancestor) => ancestor,
            Err(_) => {
                return None;
            },
        };
        let swaps = &rows[row].swaps;
        proof {
            assert(plan_views(rows@)[row as int] == rows@[row as int]@);
        }
        let ghost start = at;
        let ghost start_ancestor = ancestor;
        let mut i: usize = 0;
        while i < swaps.len()
            invariant
                i <= swaps@.len(),
                height < 64,
                carried_from(swaps@, height, 0, start, start_ancestor) == carried_from(
                    swaps@,
                    height,
                    i as nat,
                    at,
                    ancestor,
                ),
            decreases swaps@.len() - i,
        {
            let arrow = swaps[i];
            if ancestor == arrow.from {
                at = at ^ ((arrow.from ^ arrow.to) << height);
                ancestor = arrow.to;
            } else if ancestor == arrow.to {
                at = at ^ ((arrow.from ^ arrow.to) << height);
                ancestor = arrow.from;
            }
            i += 1;
        }
        let here = match rows[row].root {
            Some(root) => root == ancestor,
            None => false,
        };
        if here {
            proof {
                lemma_low_bit(0, height);
            }
            return Some(((((left >> height) >> 1) << 1) << height) | (at & ((1u64 << height) - 1)));
        }
        row += 1;
    }
    None
}

/// The deletion transform. `dels` names the leaves to delete, in rising
/// order. Returns one plan for each row of the forest, the leaves first.
pub fn transform(dels: Vec<u64>, num_leaves: u64, forest_rows: u8) -> (rows: Vec<RowPlan>)
    requires
        forest_rows < 64,
        num_leaves <= (1u64 << forest_rows),
    ensures
        plan_views(rows@) == transform_of(dels@, num_leaves, forest_rows),
        rows@.len() == forest_rows + 1,
{
    let mut rows: Vec<RowPlan> = Vec::new();
    let mut dels = dels;
    let mut dirty: Vec<u64> = Vec::new();
    let mut row: u8 = 0;
    let ghost all = dels@;
    proof {
        assert(plan_views(rows@) =~= Seq::<RowPlanView>::empty());
    }
    while row < forest_rows
        invariant
            forest_rows < 64,
            num_leaves <= (1u64 << forest_rows),
            row <= forest_rows,
            rows@.len() == row,
            transform_of(all, num_leaves, forest_rows) == plan_rows(
                dels@,
                dirty@,
                num_leaves,
                row,
                forest_rows,
                plan_views(rows@),
            ),
        decreases forest_rows - row,
    {
        let (swaps, end) = fill_row(&dels, num_leaves, row, forest_rows);
        let root = root_of_row(end, row, forest_rows);
        let ghost before = plan_views(rows@);
        let ghost plan = RowPlanView { dirty: dirty@, swaps: swaps@, root };
        let limit = parent(end, forest_rows);
        let next_dirty = dirty_parents(&dirty, &swaps, limit, forest_rows);
        let (parents, _) = extract_twins(dels, forest_rows);
        let mut next = keep_below(&parents, limit);
        push_span(&mut next, limit, row_end(num_leaves, row + 1, forest_rows));
        rows.push(RowPlan { dirty, swaps, root });
        dels = next;
        dirty = next_dirty;
        row = row + 1;
        proof {
            assert(plan_views(rows@) =~= before.push(plan));
        }
    }
    let (swaps, end) = fill_row(&dels, num_leaves, row, forest_rows);
    let root = root_of_row(end, row, forest_rows);
    let ghost before = plan_views(rows@);
    let ghost plan = RowPlanView { dirty: dirty@, swaps: swaps@, root };
    rows.push(RowPlan { dirty, swaps, root });
    proof {
        assert(plan_views(rows@) =~= before.push(plan));
    }
    rows
}

} // verus!
