//! What the deletion transform leaves behind: at each row the live nodes
//! are as many as the leaves that remain ask for, so that a row is left
//! with a root exactly where the number of remaining leaves has its bit
//! set.
use crate::accumulator::transform::{
    below_upto, carried_from, dirty_above, filled, idle_plan, leaf_after, note, plan_rows,
    row_end_of, row_filled, row_next, row_next_dirty, row_root, span, transform_of, valid_dels,
    RowPlanView,
};
use crate::accumulator::types::Arrow;
use crate::accumulator::util::{
    forest_mask, n_grandparent_of, parent_of, popcount, rising, row_start_of, twin_parents,
};
use crate::accumulator::util_laws::{lemma_row_bounds, lemma_twin_bits};
use vstd::prelude::*;

verus! {

/// No pair of siblings stands astride the place `at` of `dels`.
pub open spec fn whole(dels: Seq<u64>, at: nat) -> bool {
    at == 0 || at >= dels.len() || dels[at - 1] | 1 != dels[at as int]
}

/// Each arrow moves a node that is not deleted to the left, into the
/// place of a deleted one, between `base` and `last`.
pub open spec fn arrows_ok(swaps: Seq<Arrow>, dels: Seq<u64>, base: u64, last: u64) -> bool {
    forall|i: int|
        0 <= i < swaps.len() ==> {
            &&& dels.contains((#[trigger] swaps[i]).to)
            &&& !dels.contains(swaps[i].from)
            &&& base <= swaps[i].to < swaps[i].from < last
        }
}

/// A swap fills the place `pos`.
pub open spec fn is_to(swaps: Seq<Arrow>, pos: u64) -> bool {
    exists|i: int| 0 <= i < swaps.len() && (#[trigger] swaps[i]).to == pos
}

/// A swap takes the node from the place `pos`.
pub open spec fn is_from(swaps: Seq<Arrow>, pos: u64) -> bool {
    exists|i: int| 0 <= i < swaps.len() && (#[trigger] swaps[i]).from == pos
}

/// `pos` is one of the first `upto` deletions, and one that does not
/// stand next to its sibling.
pub open spec fn among(dels: Seq<u64>, pos: u64, upto: nat) -> bool {
    exists|j: int|
        0 <= j < upto && j < dels.len() && #[trigger] dels[j] == pos && !twin_index(dels, j)
}

/// The deletion at `j` stands next to its sibling.
pub open spec fn twin_index(dels: Seq<u64>, j: int) -> bool {
    ||| (0 <= j && j + 1 < dels.len() && dels[j] | 1 == dels[j + 1])
    ||| (1 <= j < dels.len() && dels[j - 1] | 1 == dels[j])
}

/// How far the packing of a row has come: of the first `lo` deletions
/// each is filled or stands next to its sibling, the swaps fill some of
/// those and nothing else, from the right to the left, and take their
/// nodes from places not below `end`.
#[verifier::opaque]
pub open spec fn packed_so_far(dels: Seq<u64>, swaps: Seq<Arrow>, lo: nat, end: u64) -> bool {
    &&& forall|j: int|
        0 <= j < lo && j < dels.len() ==> is_to(swaps, #[trigger] dels[j]) || twin_index(dels, j)
    &&& forall|i: int|
        0 <= i < swaps.len() ==> (#[trigger] swaps[i]).from >= end && among(dels, swaps[i].to, lo)
    &&& forall|a: int, b: int|
        0 <= a < b < swaps.len() ==> (#[trigger] swaps[a]).to < (#[trigger] swaps[b]).to
            && swaps[a].from > swaps[b].from
}

/// The number of deletions below the end of the row when `filled` has
/// nothing left to do.
pub open spec fn filled_below(dels: Seq<u64>, base: u64, end: u64, lo: nat, k: nat) -> nat
    decreases end + k - lo,
{
    if end <= base || lo >= k || k > dels.len() {
        k
    } else {
        let top = (end - 1) as u64;
        if dels[k - 1] == top {
            if lo + 1 < k && dels[k - 2] | 1 == dels[k - 1] && end - base >= 2 {
                filled_below(dels, base, (end - 2) as u64, lo, (k - 2) as nat)
            } else {
                filled_below(dels, base, top, lo, (k - 1) as nat)
            }
        } else if lo + 1 < k && dels[lo as int] | 1 == dels[(lo + 1) as int] {
            filled_below(dels, base, end, lo + 2, k)
        } else if dels[lo as int] < top {
            filled_below(dels, base, top, lo + 1, k)
        } else {
            k
        }
    }
}

/// Parents keep the order of their children, as far as the window goes.
pub proof fn lemma_parent_order(a: u64, b: u64, forest_rows: u8)
    by (bit_vector)
    requires
        forest_rows < 64,
        a <= b,
        b <= 0xffff_ffff_ffff_ffffu64 >> ((63 - forest_rows) as u64),
    ensures
        (a >> 1) | (1u64 << forest_rows) <= (b >> 1) | (1u64 << forest_rows),
        a < b && b & 1 == 0 ==> (a >> 1) | (1u64 << forest_rows) < (b >> 1) | (1u64 << forest_rows),
        a + 2 <= b && a & 1 == 0 ==> (a >> 1) | (1u64 << forest_rows) < (b >> 1) | (1u64
            << forest_rows),
{
}

proof fn lemma_pairs_same(dels: Seq<u64>, at: nat, forest_rows: u8)
    requires
        at < dels.len(),
        whole(dels, at),
    ensures
        twin_parents(dels.take(at as int + 1), forest_rows) == twin_parents(
            dels.take(at as int),
            forest_rows,
        ),
{
    assert(dels.take(at as int + 1).drop_last() =~= dels.take(at as int));
    if at == 0 {
        assert(twin_parents(dels.take(0), forest_rows) =~= Seq::<u64>::empty());
    }
}

proof fn lemma_pairs_more(dels: Seq<u64>, at: nat, forest_rows: u8)
    requires
        at + 1 < dels.len(),
        dels[at as int] | 1 == dels[at as int + 1],
    ensures
        twin_parents(dels.take(at as int + 2), forest_rows) == twin_parents(
            dels.take(at as int + 1),
            forest_rows,
        ).push(parent_of(dels[at as int], forest_rows)),
{
    assert(dels.take(at as int + 2).drop_last() =~= dels.take(at as int + 1));
}

/// The live nodes of a row are as many after it has been packed as
/// before: the places below the end of the row are live but for the
/// siblings that died together there, and a place of the row lies below
/// the end exactly where a deletion that is counted below it does.
#[verifier::rlimit(40)]
proof fn lemma_fill_counts(
    dels: Seq<u64>,
    base: u64,
    end: u64,
    lo: nat,
    k: nat,
    swaps: Seq<Arrow>,
    forest_rows: u8,
    live: int,
    last: u64,
)
    requires
        rising(dels),
        forall|j: int| 0 <= j < dels.len() ==> dels[j] >= base,
        lo <= k <= dels.len(),
        base <= end <= last,
        arrows_ok(swaps, dels, base, last),
        forall|j: int| 0 <= j < k ==> dels[j] < end,
        forall|j: int| k <= j < dels.len() ==> dels[j] >= end,
        whole(dels, lo),
        whole(dels, k),
        (end - base) - k + lo - 2 * twin_parents(dels.take(lo as int), forest_rows).len()
            == live,
    ensures
        ({
            let e = filled(dels, base, end, lo, k, swaps).1;
            let below = filled_below(dels, base, end, lo, k);
            &&& base <= e <= end
            &&& below <= dels.len()
            &&& forall|j: int| 0 <= j < below ==> dels[j] < e
            &&& forall|j: int| below <= j < dels.len() ==> dels[j] >= e
            &&& whole(dels, below)
            &&& (e - base) - 2 * twin_parents(dels.take(below as int), forest_rows).len() == live
            &&& arrows_ok(filled(dels, base, end, lo, k, swaps).0, dels, base, last)
        }),
    decreases end + k - lo,
{
    if end <= base {
        if k > 0 {
            assert(dels[0] < end);
        }
    } else if lo >= k {
    } else {
        let top = (end - 1) as u64;
        assert(dels[k - 1] < end);
        if dels[k - 1] == top {
            if lo + 1 < k && dels[k - 2] | 1 == dels[k - 1] && end - base >= 2 {
                assert(dels[k - 2] < dels[k - 1]);
                lemma_twin_bits(dels[k - 2], dels[k - 1]);
                assert forall|j: int| 0 <= j < k - 2 implies dels[j] < end - 2 by {
                    assert(dels[j] < dels[k - 2]);
                }
                assert forall|j: int| k - 2 <= j < dels.len() implies dels[j] >= end - 2 by {
                    if j > k - 2 {
                        assert(dels[k - 2] < dels[j]);
                    }
                }
                if k - 2 > 0 {
                    assert(dels[k - 3] < dels[k - 2]);
                    if dels[k - 3] | 1 == dels[k - 2] {
                        lemma_twin_bits(dels[k - 3], dels[k - 2]);
                    }
                }
                lemma_fill_counts(
                    dels,
                    base,
                    (end - 2) as u64,
                    lo,
                    (k - 2) as nat,
                    swaps,
                    forest_rows,
                    live,
                    last,
                );
            } else {
                assert forall|j: int| 0 <= j < k - 1 implies dels[j] < top by {
                    assert(dels[j] < dels[k - 1]);
                }
                assert forall|j: int| k - 1 <= j < dels.len() implies dels[j] >= top by {
                    if j > k - 1 {
                        assert(dels[k - 1] < dels[j]);
                    }
                }
                if k - 1 > 0 && dels[k - 2] | 1 == dels[k - 1] {
                    // the sibling would lie before the row
                    assert(dels[k - 2] < dels[k - 1]);
                    assert(dels[k - 2] >= base);
                }
                lemma_fill_counts(
                    dels,
                    base,
                    top,
                    lo,
                    (k - 1) as nat,
                    swaps,
                    forest_rows,
                    live,
                    last,
                );
            }
        } else if lo + 1 < k && dels[lo as int] | 1 == dels[(lo + 1) as int] {
            lemma_twin_bits(dels[lo as int], dels[lo as int + 1]);
            if lo + 2 < dels.len() {
                assert(dels[lo as int + 1] < dels[lo as int + 2]);
            }
            lemma_pairs_same(dels, lo, forest_rows);
            lemma_pairs_more(dels, lo, forest_rows);
            lemma_fill_counts(dels, base, end, lo + 2, k, swaps, forest_rows, live, last);
        } else if dels[lo as int] < top {
            assert forall|j: int| 0 <= j < k implies dels[j] < top by {
                if j < k - 1 {
                    assert(dels[j] < dels[k - 1]);
                }
            }
            lemma_pairs_same(dels, lo, forest_rows);
            let arrow = Arrow { from: top, to: dels[lo as int] };
            let more = swaps.push(arrow);
            assert forall|j: int| 0 <= j < dels.len() implies dels[j] != top by {
                if j >= k {
                    assert(dels[j] >= end);
                }
            }
            assert(dels.contains(arrow.to));
            assert forall|i: int| 0 <= i < more.len() implies {
                &&& dels.contains((#[trigger] more[i]).to)
                &&& !dels.contains(more[i].from)
                &&& base <= more[i].to < more[i].from < last
            } by {
                if i < swaps.len() {
                    assert(more[i] == swaps[i]);
                }
            }
            lemma_fill_counts(dels, base, top, lo + 1, k, more, forest_rows, live, last);
        } else {
            if lo < k - 1 {
                assert(dels[lo as int] < dels[k - 1]);
            }
            assert(false);
        }
    }
}

/// The parent of a place of a row lies as far into the row above as half
/// the way of the place into its row.
pub proof fn lemma_parent_offset(x: u64, row: u8, above: u8, forest_rows: u8)
    by (bit_vector)
    requires
        row < forest_rows < 64,
        above == row + 1,
        row_start_of(row, forest_rows) + x <= forest_mask(forest_rows),
    ensures
        parent_of((row_start_of(row, forest_rows) + x) as u64, forest_rows) == row_start_of(
            above,
            forest_rows,
        ) + (x >> 1),
        x >> 1 == x / 2,
{
}

proof fn lemma_packed_lower(dels: Seq<u64>, swaps: Seq<Arrow>, lo: nat, end: u64, less: u64)
    requires
        packed_so_far(dels, swaps, lo, end),
        less <= end,
    ensures
        packed_so_far(dels, swaps, lo, less),
{
    reveal(packed_so_far);
}

proof fn lemma_packed_pass(dels: Seq<u64>, swaps: Seq<Arrow>, lo: nat, end: u64)
    requires
        packed_so_far(dels, swaps, lo, end),
        lo + 1 < dels.len(),
        dels[lo as int] | 1 == dels[lo as int + 1],
    ensures
        packed_so_far(dels, swaps, lo + 2, end),
{
    reveal(packed_so_far);
    assert(twin_index(dels, lo as int));
    assert(twin_index(dels, lo as int + 1));
    assert forall|i: int| 0 <= i < swaps.len() implies among(
        dels,
        (#[trigger] swaps[i]).to,
        lo + 2,
    ) by {
        let j = choose|j: int|
            0 <= j < lo && j < dels.len() && dels[j] == swaps[i].to && !twin_index(dels, j);
        assert(dels[j] == swaps[i].to);
    }
}

proof fn lemma_packed_push(dels: Seq<u64>, swaps: Seq<Arrow>, lo: nat, end: u64)
    requires
        rising(dels),
        packed_so_far(dels, swaps, lo, end),
        lo < dels.len(),
        end >= 1,
        !twin_index(dels, lo as int),
    ensures
        packed_so_far(
            dels,
            swaps.push(Arrow { from: (end - 1) as u64, to: dels[lo as int] }),
            lo + 1,
            (end - 1) as u64,
        ),
{
    reveal(packed_so_far);
    let top = (end - 1) as u64;
    let arrow = Arrow { from: top, to: dels[lo as int] };
    let more = swaps.push(arrow);
    let fresh = swaps.len() as int;
    assert(more[fresh] == arrow);
    assert forall|j: int| 0 <= j < lo + 1 && j < dels.len() implies is_to(
        more,
        #[trigger] dels[j],
    ) || twin_index(dels, j) by {
        if j == lo {
            assert(more[fresh].to == dels[j]);
        } else if is_to(swaps, dels[j]) {
            let i = choose|i: int| 0 <= i < swaps.len() && swaps[i].to == dels[j];
            assert(more[i].to == dels[j]);
        }
    }
    assert forall|i: int| 0 <= i < more.len() implies (#[trigger] more[i]).from >= top && among(
        dels,
        more[i].to,
        lo + 1,
    ) by {
        if i < fresh {
            assert(more[i] == swaps[i]);
            let j = choose|j: int|
                0 <= j < lo && j < dels.len() && dels[j] == swaps[i].to && !twin_index(dels, j);
            assert(dels[j] == more[i].to);
        } else {
            assert(dels[lo as int] == more[i].to);
        }
    }
    assert forall|a: int, b: int| 0 <= a < b < more.len() implies (#[trigger] more[a]).to < (
    #[trigger] more[b]).to && more[a].from > more[b].from by {
        assert(more[a] == swaps[a]);
        if b < fresh {
            assert(more[b] == swaps[b]);
        } else {
            let j = choose|j: int|
                0 <= j < lo && j < dels.len() && dels[j] == swaps[a].to && !twin_index(dels, j);
            assert(dels[j] < dels[lo as int]);
        }
    }
}

/// Packing a row goes on as `packed_so_far` says, to its end.
#[verifier::rlimit(40)]
pub proof fn lemma_fill_packs(
    dels: Seq<u64>,
    base: u64,
    end: u64,
    lo: nat,
    k: nat,
    swaps: Seq<Arrow>,
)
    requires
        rising(dels),
        forall|j: int| 0 <= j < dels.len() ==> dels[j] >= base,
        lo <= k <= dels.len(),
        base <= end,
        forall|j: int| 0 <= j < k ==> dels[j] < end,
        forall|j: int| k <= j < dels.len() ==> dels[j] >= end,
        whole(dels, lo),
        whole(dels, k),
        packed_so_far(dels, swaps, lo, end),
    ensures
        packed_so_far(
            dels,
            filled(dels, base, end, lo, k, swaps).0,
            filled_below(dels, base, end, lo, k),
            filled(dels, base, end, lo, k, swaps).1,
        ),
    decreases end + k - lo,
{
    if end <= base {
        if k > 0 {
            assert(dels[0] < end);
        }
    } else if lo >= k {
    } else {
        let top = (end - 1) as u64;
        assert(dels[k - 1] < end);
        if dels[k - 1] == top {
            if lo + 1 < k && dels[k - 2] | 1 == dels[k - 1] && end - base >= 2 {
                assert(dels[k - 2] < dels[k - 1]);
                lemma_twin_bits(dels[k - 2], dels[k - 1]);
                assert forall|j: int| 0 <= j < k - 2 implies dels[j] < end - 2 by {
                    assert(dels[j] < dels[k - 2]);
                }
                assert forall|j: int| k - 2 <= j < dels.len() implies dels[j] >= end - 2 by {
                    if j > k - 2 {
                        assert(dels[k - 2] < dels[j]);
                    }
                }
                if k - 2 > 0 {
                    assert(dels[k - 3] < dels[k - 2]);
                    if dels[k - 3] | 1 == dels[k - 2] {
                        lemma_twin_bits(dels[k - 3], dels[k - 2]);
                    }
                }
                lemma_packed_lower(dels, swaps, lo, end, (end - 2) as u64);
                lemma_fill_packs(dels, base, (end - 2) as u64, lo, (k - 2) as nat, swaps);
            } else {
                assert forall|j: int| 0 <= j < k - 1 implies dels[j] < top by {
                    assert(dels[j] < dels[k - 1]);
                }
                assert forall|j: int| k - 1 <= j < dels.len() implies dels[j] >= top by {
                    if j > k - 1 {
                        assert(dels[k - 1] < dels[j]);
                    }
                }
                if k - 1 > 0 && dels[k - 2] | 1 == dels[k - 1] {
                    assert(dels[k - 2] < dels[k - 1]);
                    assert(dels[k - 2] >= base);
                }
                lemma_packed_lower(dels, swaps, lo, end, top);
                lemma_fill_packs(dels, base, top, lo, (k - 1) as nat, swaps);
            }
        } else if lo + 1 < k && dels[lo as int] | 1 == dels[(lo + 1) as int] {
            lemma_twin_bits(dels[lo as int], dels[lo as int + 1]);
            if lo + 2 < dels.len() {
                assert(dels[lo as int + 1] < dels[lo as int + 2]);
            }
            lemma_packed_pass(dels, swaps, lo, end);
            lemma_fill_packs(dels, base, end, lo + 2, k, swaps);
        } else if dels[lo as int] < top {
            assert forall|j: int| 0 <= j < k implies dels[j] < top by {
                if j < k - 1 {
                    assert(dels[j] < dels[k - 1]);
                }
            }
            assert(!twin_index(dels, lo as int));
            lemma_packed_push(dels, swaps, lo, end);
            lemma_fill_packs(
                dels,
                base,
                top,
                lo + 1,
                k,
                swaps.push(Arrow { from: top, to: dels[lo as int] }),
            );
        } else {
            if lo < k - 1 {
                assert(dels[lo as int] < dels[k - 1]);
            }
            assert(false);
        }
    }
}

/// Every place from `end` up to `last` is deleted, or a swap has taken
/// its node away.
#[verifier::opaque]
pub open spec fn tail_gone(dels: Seq<u64>, swaps: Seq<Arrow>, end: u64, last: u64) -> bool {
    forall|pos: u64| end <= pos < last ==> dels.contains(pos) || is_from(swaps, pos)
}

proof fn lemma_tail_skip(dels: Seq<u64>, swaps: Seq<Arrow>, end: u64, last: u64, at: int)
    requires
        tail_gone(dels, swaps, end, last),
        0 <= at < dels.len(),
        end >= 1,
        dels[at] == end - 1,
    ensures
        tail_gone(dels, swaps, (end - 1) as u64, last),
{
    reveal(tail_gone);
}

proof fn lemma_tail_push(dels: Seq<u64>, swaps: Seq<Arrow>, end: u64, last: u64, to: u64)
    requires
        tail_gone(dels, swaps, end, last),
        end >= 1,
    ensures
        tail_gone(
            dels,
            swaps.push(Arrow { from: (end - 1) as u64, to }),
            (end - 1) as u64,
            last,
        ),
{
    reveal(tail_gone);
    let more = swaps.push(Arrow { from: (end - 1) as u64, to });
    assert forall|pos: u64| end - 1 <= pos < last implies dels.contains(pos) || is_from(
        more,
        pos,
    ) by {
        if pos == end - 1 {
            assert(more[swaps.len() as int].from == pos);
        } else if is_from(swaps, pos) {
            let i = choose|i: int| 0 <= i < swaps.len() && swaps[i].from == pos;
            assert(more[i].from == pos);
        }
    }
}

/// Packing a row leaves nothing alive at or behind its end.
#[verifier::rlimit(40)]
pub proof fn lemma_fill_tail(
    dels: Seq<u64>,
    base: u64,
    end: u64,
    lo: nat,
    k: nat,
    swaps: Seq<Arrow>,
    last: u64,
)
    requires
        rising(dels),
        lo <= k <= dels.len(),
        base <= end <= last,
        tail_gone(dels, swaps, end, last),
    ensures
        tail_gone(
            dels,
            filled(dels, base, end, lo, k, swaps).0,
            filled(dels, base, end, lo, k, swaps).1,
            last,
        ),
    decreases end + k - lo,
{
    if end <= base || lo >= k {
    } else {
        let top = (end - 1) as u64;
        if dels[k - 1] == top {
            lemma_tail_skip(dels, swaps, end, last, k - 1);
            if lo + 1 < k && dels[k - 2] | 1 == dels[k - 1] && end - base >= 2 {
                lemma_twin_bits(dels[k - 2], dels[k - 1]);
                lemma_tail_skip(dels, swaps, top, last, k - 2);
                lemma_fill_tail(dels, base, (end - 2) as u64, lo, (k - 2) as nat, swaps, last);
            } else {
                lemma_fill_tail(dels, base, top, lo, (k - 1) as nat, swaps, last);
            }
        } else if lo + 1 < k && dels[lo as int] | 1 == dels[(lo + 1) as int] {
            lemma_fill_tail(dels, base, end, lo + 2, k, swaps, last);
        } else if dels[lo as int] < top {
            lemma_tail_push(dels, swaps, end, last, dels[lo as int]);
            lemma_fill_tail(
                dels,
                base,
                top,
                lo + 1,
                k,
                swaps.push(Arrow { from: top, to: dels[lo as int] }),
                last,
            );
        }
    }
}

/// One row up, a count is halved; its lowest bit says whether it is odd.
pub proof fn lemma_shift_step(x: u64, row: u8, above: u8)
    by (bit_vector)
    requires
        row < 64,
        above == row + 1,
    ensures
        (x >> row) & 1 == (x >> row) % 2,
        above < 64 ==> x >> above == (x >> row) / 2,
        x <= (1u64 << row) ==> x >> row <= 1,
{
}

proof fn lemma_twin_parents_below(dels: Seq<u64>, forest_rows: u8, limit: u64)
    requires
        forall|j: int|
            0 <= j && j + 1 < dels.len() && #[trigger] dels[j] | 1 == dels[j + 1] ==> parent_of(
                dels[j],
                forest_rows,
            ) < limit,
    ensures
        forall|j: int|
            0 <= j < twin_parents(dels, forest_rows).len() ==> #[trigger] twin_parents(
                dels,
                forest_rows,
            )[j] < limit,
    decreases dels.len(),
{
    if dels.len() >= 2 {
        let head = dels.drop_last();
        assert forall|j: int|
            0 <= j && j + 1 < head.len() && #[trigger] head[j] | 1 == head[j + 1] implies parent_of(
            head[j],
            forest_rows,
        ) < limit by {
            assert(head[j] == dels[j] && head[j + 1] == dels[j + 1]);
        }
        lemma_twin_parents_below(head, forest_rows, limit);
        let all = twin_parents(dels, forest_rows);
        let before = twin_parents(head, forest_rows);
        assert forall|j: int| 0 <= j < all.len() implies #[trigger] all[j] < limit by {
            if j < before.len() {
                assert(all[j] == before[j]);
            } else {
                let at = dels.len() - 2;
                assert(dels[at] | 1 == dels[at + 1]);
                assert(all[j] == parent_of(dels[at], forest_rows));
            }
        }
    }
}

proof fn lemma_twin_parents_floor(dels: Seq<u64>, forest_rows: u8, limit: u64)
    requires
        forall|j: int| 0 <= j < dels.len() ==> parent_of(#[trigger] dels[j], forest_rows) >= limit,
    ensures
        forall|j: int|
            0 <= j < twin_parents(dels, forest_rows).len() ==> #[trigger] twin_parents(
                dels,
                forest_rows,
            )[j] >= limit,
    decreases dels.len(),
{
    if dels.len() >= 2 {
        let head = dels.drop_last();
        assert forall|j: int| 0 <= j < head.len() implies parent_of(
            #[trigger] head[j],
            forest_rows,
        ) >= limit by {
            assert(head[j] == dels[j]);
        }
        lemma_twin_parents_floor(head, forest_rows, limit);
        let all = twin_parents(dels, forest_rows);
        let before = twin_parents(head, forest_rows);
        assert forall|j: int| 0 <= j < all.len() implies #[trigger] all[j] >= limit by {
            if j < before.len() {
                assert(all[j] == before[j]);
            } else {
                assert(all[j] == parent_of(dels[dels.len() - 2], forest_rows));
            }
        }
    }
}

/// The parents of rising siblings rise, and none lies beyond the parent
/// of the last but one element.
proof fn lemma_twin_parents_rising(dels: Seq<u64>, forest_rows: u8)
    requires
        forest_rows < 64,
        rising(dels),
        forall|j: int| 0 <= j < dels.len() ==> #[trigger] dels[j] <= forest_mask(forest_rows),
    ensures
        rising(twin_parents(dels, forest_rows)),
        dels.len() >= 2 ==> forall|j: int|
            0 <= j < twin_parents(dels, forest_rows).len() ==> #[trigger] twin_parents(
                dels,
                forest_rows,
            )[j] <= parent_of(dels[dels.len() - 2], forest_rows),
        dels.len() < 2 ==> twin_parents(dels, forest_rows).len() == 0,
    decreases dels.len(),
{
    if dels.len() >= 2 {
        let head = dels.drop_last();
        let n = dels.len() as int;
        assert forall|i: int, j: int| 0 <= i < j < head.len() implies head[i] < head[j] by {
            assert(head[i] == dels[i] && head[j] == dels[j]);
        }
        assert forall|j: int| 0 <= j < head.len() implies #[trigger] head[j] <= forest_mask(
            forest_rows,
        ) by {
            assert(head[j] == dels[j]);
        }
        lemma_twin_parents_rising(head, forest_rows);
        let all = twin_parents(dels, forest_rows);
        let before = twin_parents(head, forest_rows);
        let last = parent_of(dels[n - 2], forest_rows);
        assert(dels[n - 2] < dels[n - 1]);
        if head.len() >= 2 {
            assert(head[n - 3] == dels[n - 3]);
            assert(dels[n - 3] < dels[n - 2]);
            lemma_parent_order(dels[n - 3], dels[n - 2], forest_rows);
        }
        if dels[n - 2] | 1 == dels[n - 1] {
            lemma_twin_bits(dels[n - 2], dels[n - 1]);
            assert(all == before.push(last));
            assert forall|i: int, j: int| 0 <= i < j < all.len() implies all[i] < all[j] by {
                if j < before.len() {
                    assert(all[i] == before[i] && all[j] == before[j]);
                } else {
                    assert(all[i] == before[i]);
                    assert(before[i] <= parent_of(dels[n - 3], forest_rows));
                }
            }
            assert forall|j: int| 0 <= j < all.len() implies #[trigger] all[j] <= last by {
                if j < before.len() {
                    assert(all[j] == before[j]);
                }
            }
        } else {
            assert(all == before);
        }
    }
}

proof fn lemma_below_same(a: Seq<u64>, b: Seq<u64>, limit: u64, upto: nat)
    requires
        upto <= a.len(),
        upto <= b.len(),
        forall|j: int| 0 <= j < upto ==> a[j] == b[j],
    ensures
        below_upto(a, limit, upto) == below_upto(b, limit, upto),
    decreases upto,
{
    if upto > 0 {
        lemma_below_same(a, b, limit, (upto - 1) as nat);
    }
}

/// Of the parents of the deleted siblings, those below `limit` are the
/// parents of the siblings among the first `below` deletions, where the
/// limit parts the parents there.
proof fn lemma_below_split(dels: Seq<u64>, forest_rows: u8, limit: u64, below: nat, upto: nat)
    requires
        below <= dels.len(),
        upto <= dels.len(),
        whole(dels, below),
        forall|j: int|
            0 <= j && j + 1 < below && #[trigger] dels[j] | 1 == dels[j + 1] ==> parent_of(
                dels[j],
                forest_rows,
            ) < limit,
        forall|j: int|
            below <= j < dels.len() ==> parent_of(#[trigger] dels[j], forest_rows) >= limit,
    ensures
        below_upto(
            twin_parents(dels.take(upto as int), forest_rows),
            limit,
            twin_parents(dels.take(upto as int), forest_rows).len(),
        ) == twin_parents(
            dels.take(
                if upto <= below {
                    upto as int
                } else {
                    below as int
                },
            ),
            forest_rows,
        ),
    decreases upto,
{
    let part = dels.take(upto as int);
    let all = twin_parents(part, forest_rows);
    if upto < 2 {
        assert(all.len() == 0);
        if upto > below {
            assert(twin_parents(dels.take(below as int), forest_rows).len() == 0);
        }
    } else {
        let head = dels.take(upto - 1);
        assert(part.drop_last() =~= head);
        let before = twin_parents(head, forest_rows);
        lemma_below_split(dels, forest_rows, limit, below, (upto - 1) as nat);
        let at = upto - 2;
        assert(part[at] == dels[at] && part[at + 1] == dels[at + 1]);
        if dels[at] | 1 == dels[at + 1] {
            let up = parent_of(dels[at], forest_rows);
            assert(all == before.push(up));
            lemma_below_same(all, before, limit, before.len());
            if upto <= below {
            } else {
                // the pair lies behind the first `below` deletions
                assert(at >= below);
            }
        } else {
            assert(all == before);
            if upto - 1 == below {
                assert(dels.take(upto - 1) =~= dels.take(below as int));
            }
        }
    }
}

/// What is known of a row after it has been packed.
#[verifier::rlimit(40)]
pub proof fn lemma_fill_facts(dels: Seq<u64>, num_leaves: u64, left: u64, row: u8, forest_rows: u8)
    requires
        row <= forest_rows < 64,
        num_leaves <= (1u64 << forest_rows),
        row_ready(dels, num_leaves, left, row, forest_rows),
    ensures
        ({
            let base = row_start_of(row, forest_rows);
            let last = row_end_of(num_leaves, row, forest_rows);
            let filled = row_filled(dels, num_leaves, row, forest_rows);
            let below = filled_below(dels, base, last, 0, dels.len());
            &&& base <= filled.1 <= last
            &&& last <= forest_mask(forest_rows)
            &&& below <= dels.len()
            &&& forall|j: int| 0 <= j < below ==> dels[j] < filled.1
            &&& forall|j: int| below <= j < dels.len() ==> dels[j] >= filled.1
            &&& whole(dels, below)
            &&& arrows_ok(filled.0, dels, base, last)
            &&& packed_so_far(dels, filled.0, below, filled.1)
            &&& row < forest_rows ==> row_next(dels, num_leaves, row, forest_rows)
                == twin_parents(dels.take(below as int), forest_rows) + span(
                parent_of(filled.1, forest_rows),
                row_end_of(num_leaves, (row + 1) as u8, forest_rows),
            )
        }),
{
    let base = row_start_of(row, forest_rows);
    let last = row_end_of(num_leaves, row, forest_rows);
    lemma_row_bounds(num_leaves, row, forest_rows, 0);
    let live = (num_leaves >> row) - dels.len();
    assert(dels.take(0) =~= Seq::<u64>::empty());
    lemma_fill_counts(dels, base, last, 0, dels.len(), Seq::empty(), forest_rows, live, last);
    assert(packed_so_far(dels, Seq::<Arrow>::empty(), 0, last)) by {
        reveal(packed_so_far);
    }
    lemma_fill_packs(dels, base, last, 0, dels.len(), Seq::empty());
    if row < forest_rows {
        let filled = row_filled(dels, num_leaves, row, forest_rows);
        let below = filled_below(dels, base, last, 0, dels.len());
        let limit = parent_of(filled.1, forest_rows);
        assert forall|j: int|
            0 <= j && j + 1 < below && #[trigger] dels[j] | 1 == dels[j + 1] implies parent_of(
            dels[j],
            forest_rows,
        ) < limit by {
            assert(dels[j] < dels[j + 1]);
            lemma_twin_bits(dels[j], dels[j + 1]);
            lemma_parent_order(dels[j], filled.1, forest_rows);
        }
        assert forall|j: int| below <= j < dels.len() implies parent_of(
            #[trigger] dels[j],
            forest_rows,
        ) >= limit by {
            lemma_parent_order(filled.1, dels[j], forest_rows);
        }
        lemma_below_split(dels, forest_rows, limit, below, dels.len());
        assert(dels.take(dels.len() as int) =~= dels);
    }
}

/// The deletions of a row are in order for the transform: they rise, they
/// name places of the row that hold a node, and without them the row holds
/// as many nodes as the leaves that remain ask for.
pub open spec fn row_ready(
    dels: Seq<u64>,
    num_leaves: u64,
    left: u64,
    row: u8,
    forest_rows: u8,
) -> bool {
    &&& rising(dels)
    &&& forall|j: int|
        0 <= j < dels.len() ==> row_start_of(row, forest_rows) <= #[trigger] dels[j] < row_end_of(
            num_leaves,
            row,
            forest_rows,
        )
    &&& (num_leaves >> row) - dels.len() == (left >> row)
}

/// One row of the transform: the row is left with a root exactly where
/// the number of remaining leaves has the bit of the row set, and the
/// deletions that it hands to the row above are in order there.
#[verifier::rlimit(40)]
pub proof fn lemma_row_step(dels: Seq<u64>, num_leaves: u64, left: u64, row: u8, forest_rows: u8)
    requires
        row <= forest_rows < 64,
        num_leaves <= (1u64 << forest_rows),
        row_ready(dels, num_leaves, left, row, forest_rows),
    ensures
        (row_root(dels, num_leaves, row, forest_rows) is Some) == ((left >> row) & 1 == 1),
        arrows_ok(
            row_filled(dels, num_leaves, row, forest_rows).0,
            dels,
            row_start_of(row, forest_rows),
            row_end_of(num_leaves, row, forest_rows),
        ),
        row_root(dels, num_leaves, row, forest_rows) is Some ==> row_start_of(row, forest_rows)
            <= row_root(dels, num_leaves, row, forest_rows)->Some_0 < row_end_of(
            num_leaves,
            row,
            forest_rows,
        ),
        row < forest_rows ==> row_ready(
            row_next(dels, num_leaves, row, forest_rows),
            num_leaves,
            left,
            (row + 1) as u8,
            forest_rows,
        ),
        row < forest_rows ==> parent_of(
            row_filled(dels, num_leaves, row, forest_rows).1,
            forest_rows,
        ) <= row_end_of(num_leaves, (row + 1) as u8, forest_rows),
{
    let m = forest_mask(forest_rows);
    let base = row_start_of(row, forest_rows);
    let last = row_end_of(num_leaves, row, forest_rows);
    lemma_row_bounds(num_leaves, row, forest_rows, 0);
    let live = (num_leaves >> row) - dels.len();
    assert(dels.take(0) =~= Seq::<u64>::empty());
    lemma_fill_counts(dels, base, last, 0, dels.len(), Seq::empty(), forest_rows, live, last);
    let e = row_filled(dels, num_leaves, row, forest_rows).1;
    let below = filled_below(dels, base, last, 0, dels.len());
    let part = dels.take(below as int);
    let pairs = twin_parents(part, forest_rows);
    assert(e - base == live + 2 * pairs.len());
    lemma_shift_step(left, row, (row + 1) as u8);
    if row < forest_rows {
        let above = (row + 1) as u8;
        let limit = parent_of(e, forest_rows);
        let base2 = row_start_of(above, forest_rows);
        let last2 = row_end_of(num_leaves, above, forest_rows);
        lemma_row_bounds(num_leaves, above, forest_rows, 0);
        lemma_parent_offset((e - base) as u64, row, above, forest_rows);
        lemma_shift_step(num_leaves, row, above);
        assert(limit == base2 + (e - base) / 2);
        assert(last2 == base2 + (num_leaves >> row) / 2);
        // which parents lie below the limit
        assert forall|j: int|
            0 <= j && j + 1 < below && #[trigger] dels[j] | 1 == dels[j + 1] implies parent_of(
            dels[j],
            forest_rows,
        ) < limit by {
            assert(dels[j] < dels[j + 1]);
            lemma_twin_bits(dels[j], dels[j + 1]);
            lemma_parent_order(dels[j], e, forest_rows);
        }
        assert forall|j: int| below <= j < dels.len() implies parent_of(
            #[trigger] dels[j],
            forest_rows,
        ) >= limit by {
            lemma_parent_order(e, dels[j], forest_rows);
        }
        lemma_below_split(dels, forest_rows, limit, below, dels.len());
        assert(dels.take(dels.len() as int) =~= dels);
        let next = row_next(dels, num_leaves, row, forest_rows);
        let tail = span(limit, last2);
        assert(next == pairs + tail);
        // the parents that are kept
        assert forall|i: int, j: int| 0 <= i < j < part.len() implies part[i] < part[j] by {
            assert(part[i] == dels[i] && part[j] == dels[j]);
        }
        assert forall|j: int| 0 <= j < part.len() implies #[trigger] part[j] <= m by {
            assert(part[j] == dels[j]);
        }
        lemma_twin_parents_rising(part, forest_rows);
        assert forall|j: int|
            0 <= j && j + 1 < part.len() && #[trigger] part[j] | 1 == part[j + 1] implies parent_of(
            part[j],
            forest_rows,
        ) < limit by {
            assert(part[j] == dels[j] && part[j + 1] == dels[j + 1]);
            assert(dels[j] | 1 == dels[j + 1]);
        }
        lemma_twin_parents_below(part, forest_rows, limit);
        assert forall|j: int| 0 <= j < part.len() implies parent_of(
            #[trigger] part[j],
            forest_rows,
        ) >= base2 by {
            assert(part[j] == dels[j]);
            lemma_row_bounds(num_leaves, row, forest_rows, dels[j]);
        }
        lemma_twin_parents_floor(part, forest_rows, base2);
        lemma_parent_order(base, e, forest_rows);
        assert(limit >= base2);
        assert forall|i: int, j: int| 0 <= i < j < next.len() implies next[i] < next[j] by {
            if j < pairs.len() {
                assert(next[i] == pairs[i] && next[j] == pairs[j]);
            } else if i < pairs.len() {
                assert(next[i] == pairs[i]);
                assert(next[j] == tail[j - pairs.len()]);
            } else {
                assert(next[i] == tail[i - pairs.len()]);
                assert(next[j] == tail[j - pairs.len()]);
            }
        }
        assert forall|j: int| 0 <= j < next.len() implies base2 <= #[trigger] next[j] < last2 by {
            if j < pairs.len() {
                assert(next[j] == pairs[j]);
            } else {
                assert(next[j] == tail[j - pairs.len()]);
            }
        }
        assert(live >= 0);
        assert((live + 2 * pairs.len()) / 2 == live / 2 + pairs.len());
        lemma_shift_step(left, row, above);
    }
}

/// Each arrow moves a node of row `row` to a place further left in that
/// row.
pub open spec fn in_row(swaps: Seq<Arrow>, num_leaves: u64, row: u8, forest_rows: u8) -> bool {
    forall|i: int|
        0 <= i < swaps.len() ==> row_start_of(row, forest_rows) <= (#[trigger] swaps[i]).to
            < swaps[i].from < row_end_of(num_leaves, row, forest_rows)
}

/// Each position names a place of row `row` that holds a node.
pub open spec fn places(positions: Seq<u64>, num_leaves: u64, row: u8, forest_rows: u8) -> bool {
    forall|i: int|
        0 <= i < positions.len() ==> row_start_of(row, forest_rows) <= #[trigger] positions[i]
            < row_end_of(num_leaves, row, forest_rows)
}

/// The plan of row `row` keeps to its row: the hashes that it computes
/// anew, the ends of its swaps and the root that it names are nodes of
/// the row, the swaps move to the left, and it names a root exactly where
/// `left` has the bit of the row set.
pub open spec fn plan_fits(
    plan: RowPlanView,
    num_leaves: u64,
    left: u64,
    row: u8,
    forest_rows: u8,
) -> bool {
    &&& (plan.root is Some) == ((left >> row) & 1 == 1)
    &&& plan.root is Some ==> row_start_of(row, forest_rows) <= plan.root->Some_0 < row_end_of(
        num_leaves,
        row,
        forest_rows,
    )
    &&& in_row(plan.swaps, num_leaves, row, forest_rows)
    &&& places(plan.dirty, num_leaves, row, forest_rows)
}

proof fn lemma_dirty_above_places(
    dirty: Seq<u64>,
    swaps: Seq<Arrow>,
    limit: u64,
    num_leaves: u64,
    row: u8,
    forest_rows: u8,
    i: nat,
    j: nat,
    acc: Seq<u64>,
)
    requires
        row < forest_rows < 64,
        num_leaves <= (1u64 << forest_rows),
        places(dirty, num_leaves, row, forest_rows),
        in_row(swaps, num_leaves, row, forest_rows),
        limit <= row_end_of(num_leaves, (row + 1) as u8, forest_rows),
        places(acc, num_leaves, (row + 1) as u8, forest_rows),
    ensures
        places(
            dirty_above(dirty, swaps, limit, forest_rows, i, j, acc),
            num_leaves,
            (row + 1) as u8,
            forest_rows,
        ),
    decreases (if i < dirty.len() {
            dirty.len() - i
        } else {
            0
        }) + (if j < swaps.len() {
            swaps.len() - j
        } else {
            0
        }),
{
    let above = (row + 1) as u8;
    if i >= dirty.len() && j >= swaps.len() {
    } else if j >= swaps.len() || (i < dirty.len() && dirty[i as int] <= swaps[j as int].to) {
        let pos = dirty[i as int];
        lemma_row_bounds(num_leaves, row, forest_rows, pos);
        let more = note(acc, parent_of(pos, forest_rows), limit);
        assert forall|k: int| 0 <= k < more.len() implies row_start_of(above, forest_rows)
            <= #[trigger] more[k] < row_end_of(num_leaves, above, forest_rows) by {
            if k < acc.len() {
                assert(more[k] == acc[k]);
            }
        }
        lemma_dirty_above_places(
            dirty,
            swaps,
            limit,
            num_leaves,
            row,
            forest_rows,
            i + 1,
            j,
            more,
        );
    } else {
        let pos = swaps[j as int].to;
        lemma_row_bounds(num_leaves, row, forest_rows, pos);
        let more = note(acc, parent_of(pos, forest_rows), limit);
        assert forall|k: int| 0 <= k < more.len() implies row_start_of(above, forest_rows)
            <= #[trigger] more[k] < row_end_of(num_leaves, above, forest_rows) by {
            if k < acc.len() {
                assert(more[k] == acc[k]);
            }
        }
        lemma_dirty_above_places(
            dirty,
            swaps,
            limit,
            num_leaves,
            row,
            forest_rows,
            i,
            j + 1,
            more,
        );
    }
}

/// The stale nodes of the row above are nodes of that row.
pub proof fn lemma_dirty_places(
    dels: Seq<u64>,
    dirty: Seq<u64>,
    num_leaves: u64,
    left: u64,
    row: u8,
    forest_rows: u8,
)
    requires
        row < forest_rows < 64,
        num_leaves <= (1u64 << forest_rows),
        row_ready(dels, num_leaves, left, row, forest_rows),
        places(dirty, num_leaves, row, forest_rows),
    ensures
        places(
            row_next_dirty(dels, dirty, num_leaves, row, forest_rows),
            num_leaves,
            (row + 1) as u8,
            forest_rows,
        ),
{
    lemma_row_step(dels, num_leaves, left, row, forest_rows);
    let filled = row_filled(dels, num_leaves, row, forest_rows);
    lemma_dirty_above_places(
        dirty,
        filled.0,
        parent_of(filled.1, forest_rows),
        num_leaves,
        row,
        forest_rows,
        0,
        0,
        Seq::empty(),
    );
}

/// The rows from `row` on: the plan of each keeps to its row and names a
/// root exactly where the number of remaining leaves has its bit set.
#[verifier::rlimit(40)]
pub proof fn lemma_plan_roots(
    dels: Seq<u64>,
    dirty: Seq<u64>,
    num_leaves: u64,
    left: u64,
    row: u8,
    forest_rows: u8,
    acc: Seq<RowPlanView>,
)
    requires
        row <= forest_rows < 64,
        num_leaves <= (1u64 << forest_rows),
        row_ready(dels, num_leaves, left, row, forest_rows),
        places(dirty, num_leaves, row, forest_rows),
    ensures
        ({
            let plans = plan_rows(dels, dirty, num_leaves, row, forest_rows, acc);
            &&& plans.len() == acc.len() + (forest_rows - row) + 1
            &&& forall|j: int| 0 <= j < acc.len() ==> plans[j] == acc[j]
            &&& forall|r: int|
                row <= r <= forest_rows ==> plan_fits(
                    #[trigger] plans[acc.len() + r - row],
                    num_leaves,
                    left,
                    r as u8,
                    forest_rows,
                )
        }),
    decreases forest_rows - row,
{
    lemma_row_step(dels, num_leaves, left, row, forest_rows);
    lemma_row_bounds(num_leaves, row, forest_rows, 0);
    let filled = row_filled(dels, num_leaves, row, forest_rows);
    let plan = RowPlanView {
        dirty,
        swaps: filled.0,
        root: row_root(dels, num_leaves, row, forest_rows),
    };
    assert(plan_fits(plan, num_leaves, left, row, forest_rows));
    if row < forest_rows {
        let next = row_next(dels, num_leaves, row, forest_rows);
        let next_dirty = row_next_dirty(dels, dirty, num_leaves, row, forest_rows);
        lemma_dirty_above_places(
            dirty,
            filled.0,
            parent_of(filled.1, forest_rows),
            num_leaves,
            row,
            forest_rows,
            0,
            0,
            Seq::empty(),
        );
        lemma_plan_roots(
            next,
            next_dirty,
            num_leaves,
            left,
            (row + 1) as u8,
            forest_rows,
            acc.push(plan),
        );
        let plans = plan_rows(dels, dirty, num_leaves, row, forest_rows, acc);
        assert forall|j: int| 0 <= j < acc.len() implies plans[j] == acc[j] by {
            assert(acc.push(plan)[j] == acc[j]);
        }
        assert forall|r: int| row <= r <= forest_rows implies plan_fits(
            #[trigger] plans[acc.len() + r - row],
            num_leaves,
            left,
            r as u8,
            forest_rows,
        ) by {
            if r == row {
                assert(plans[acc.len() as int] == acc.push(plan)[acc.len() as int]);
            } else {
                assert(plans[acc.push(plan).len() + r - (row + 1)] == plans[acc.len() + r - row]);
            }
        }
    }
}

/// The deletion transform keeps to the forest and leaves one root for
/// each set bit of the number of leaves that remain: where `dels` names
/// leaves of the forest in rising order, the plan of each row names nodes
/// of that row only, its swaps move nodes to the left within the row, and
/// it names a root exactly where that number has the bit of the row set.
pub proof fn lemma_transform_roots(dels: Seq<u64>, num_leaves: u64, forest_rows: u8, row: u8)
    requires
        row <= forest_rows < 64,
        num_leaves <= (1u64 << forest_rows),
        rising(dels),
        forall|j: int| 0 <= j < dels.len() ==> #[trigger] dels[j] < num_leaves,
        dels.len() <= num_leaves,
    ensures
        transform_of(dels, num_leaves, forest_rows).len() == forest_rows + 1,
        plan_fits(
            transform_of(dels, num_leaves, forest_rows)[row as int],
            num_leaves,
            (num_leaves - dels.len()) as u64,
            row,
            forest_rows,
        ),
{
    let left = (num_leaves - dels.len()) as u64;
    lemma_row_bounds(num_leaves, 0, forest_rows, 0);
    lemma_row_bounds(left, 0, forest_rows, 0);
    lemma_plan_roots(dels, Seq::empty(), num_leaves, left, 0, forest_rows, Seq::empty());
    let plans = transform_of(dels, num_leaves, forest_rows);
    assert(plans[0 + row as int - 0] == plans[row as int]);
}

/// A strictly rising sequence of numbers below `bound` has no more than
/// `bound` elements.
pub proof fn lemma_valid_dels_len(dels: Seq<u64>, num_leaves: u64)
    requires
        valid_dels(dels, num_leaves),
    ensures
        dels.len() <= num_leaves,
{
    if dels.len() > 0 {
        lemma_rising_floor(dels, num_leaves, dels.len() - 1);
    }
}

proof fn lemma_rising_floor(dels: Seq<u64>, num_leaves: u64, i: int)
    requires
        valid_dels(dels, num_leaves),
        0 <= i < dels.len(),
    ensures
        dels[i] >= i,
    decreases i,
{
    if i > 0 {
        lemma_rising_floor(dels, num_leaves, i - 1);
    }
}

/// Deletions that are in order rise.
pub proof fn lemma_valid_rising(dels: Seq<u64>, num_leaves: u64)
    requires
        valid_dels(dels, num_leaves),
    ensures
        rising(dels),
        forall|j: int| 0 <= j < dels.len() ==> #[trigger] dels[j] < num_leaves,
{
    assert forall|i: int, j: int| 0 <= i < j < dels.len() implies dels[i] < dels[j] by {
        lemma_rising_from(dels, num_leaves, i, j);
    }
}

proof fn lemma_rising_from(dels: Seq<u64>, num_leaves: u64, i: int, j: int)
    requires
        valid_dels(dels, num_leaves),
        0 <= i < j < dels.len(),
    ensures
        dels[i] < dels[j],
    decreases j - i,
{
    assert(dels[j - 1] < dels[j]);
    if i < j - 1 {
        lemma_rising_from(dels, num_leaves, i, j - 1);
    }
}

/// The plans are as many as the forest has rows and one more, and each
/// names a root exactly where `left` has the bit of its row set.
pub open spec fn roots_fit(plans: Seq<RowPlanView>, left: u64, forest_rows: u8) -> bool {
    &&& plans.len() == forest_rows + 1
    &&& forall|r: int|
        0 <= r <= forest_rows ==> ((#[trigger] plans[r]).root is Some) == ((left >> (r as u8)) & 1
            == 1)
}

/// The plans are as many as the forest has rows and one more, and each
/// keeps to its row.
pub open spec fn schedule_fits(
    plans: Seq<RowPlanView>,
    num_leaves: u64,
    left: u64,
    forest_rows: u8,
) -> bool {
    &&& plans.len() == forest_rows + 1
    &&& forall|r: int|
        0 <= r <= forest_rows ==> plan_fits(
            #[trigger] plans[r],
            num_leaves,
            left,
            r as u8,
            forest_rows,
        )
}

/// How many of the plans from row `row` on name a root.
pub open spec fn roots_named(plans: Seq<RowPlanView>, row: nat) -> nat
    decreases plans.len() - row,
{
    if row >= plans.len() {
        0
    } else if plans[row as int].root is Some {
        1 + roots_named(plans, row + 1)
    } else {
        roots_named(plans, row + 1)
    }
}

/// The schedule that deletes leaves named in order leaves one root for
/// each set bit of the number of leaves that remain.
pub proof fn lemma_transform_fits(dels: Seq<u64>, num_leaves: u64, forest_rows: u8)
    requires
        forest_rows < 64,
        num_leaves <= (1u64 << forest_rows),
        rising(dels),
        forall|j: int| 0 <= j < dels.len() ==> #[trigger] dels[j] < num_leaves,
        dels.len() <= num_leaves,
    ensures
        roots_fit(
            transform_of(dels, num_leaves, forest_rows),
            (num_leaves - dels.len()) as u64,
            forest_rows,
        ),
        schedule_fits(
            transform_of(dels, num_leaves, forest_rows),
            num_leaves,
            (num_leaves - dels.len()) as u64,
            forest_rows,
        ),
{
    let left = (num_leaves - dels.len()) as u64;
    let plans = transform_of(dels, num_leaves, forest_rows);
    assert forall|r: int| 0 <= r <= forest_rows implies plan_fits(
        #[trigger] plans[r],
        num_leaves,
        left,
        r as u8,
        forest_rows,
    ) by {
        lemma_transform_roots(dels, num_leaves, forest_rows, r as u8);
    }
    lemma_transform_roots(dels, num_leaves, forest_rows, 0);
}

/// From each row on, the plans name as many roots as the number of
/// leaves that remain has set bits from the bit of that row on.
pub proof fn lemma_roots_named_from(plans: Seq<RowPlanView>, left: u64, forest_rows: u8, row: u8)
    requires
        row <= forest_rows < 64,
        left <= (1u64 << forest_rows),
        plans.len() == forest_rows + 1,
        forall|r: int|
            row <= r <= forest_rows ==> ((#[trigger] plans[r]).root is Some) == ((left >> (
            r as u8)) & 1 == 1),
    ensures
        roots_named(plans, row as nat) == popcount(left >> row),
    decreases forest_rows - row,
{
    let x = left >> row;
    let above = (row + 1) as u8;
    lemma_shift_step(left, row, above);
    assert(plans[row as int].root is Some == (x % 2 == 1));
    if row < forest_rows {
        lemma_roots_named_from(plans, left, forest_rows, above);
        assert(left >> above == x / 2);
        if x == 0 {
            assert(popcount(0) == 0);
        }
    } else {
        lemma_shift_step(left, forest_rows, (forest_rows + 1) as u8);
        assert(roots_named(plans, (row + 1) as nat) == 0);
        assert(popcount((x / 2) as u64) == 0);
    }
}

/// The roots that a schedule names are as many as the number of leaves
/// that remain has set bits.
pub proof fn lemma_roots_named(plans: Seq<RowPlanView>, left: u64, forest_rows: u8)
    requires
        forest_rows < 64,
        left <= (1u64 << forest_rows),
        roots_fit(plans, left, forest_rows),
    ensures
        roots_named(plans, 0) == popcount(left),
{
    lemma_roots_named_from(plans, left, forest_rows, 0);
    lemma_row_bounds(left, 0, forest_rows, 0);
}

/// The tree of a row whose bit is set in `left` holds its leaves among
/// the first `left` places.
pub proof fn lemma_tree_place(left: u64, row: u8, leaf: u64)
    by (bit_vector)
    requires
        row < 64,
        (left >> row) & 1 == 1,
    ensures
        ((((left >> row) >> 1) << 1) << row) | (leaf & (((1u64 << row) - 1) as u64)) < left,
{
}

/// A leaf that is left stands among the leaves that remain.
pub proof fn lemma_leaf_after_bound(
    plans: Seq<RowPlanView>,
    left: u64,
    forest_rows: u8,
    leaf: u64,
    row: nat,
)
    requires
        forest_rows < 64,
        roots_fit(plans, left, forest_rows),
    ensures
        leaf_after(plans, left, forest_rows, leaf, row) is Some ==> leaf_after(
            plans,
            left,
            forest_rows,
            leaf,
            row,
        )->Some_0 < left,
    decreases plans.len() - row,
{
    if row < plans.len() && row <= forest_rows {
        let moved = carried_from(
            plans[row as int].swaps,
            row as u8,
            0,
            leaf,
            n_grandparent_of(leaf, row as u8, forest_rows),
        );
        if plans[row as int].root == Some(moved.1) {
            lemma_tree_place(left, row as u8, moved.0);
        } else {
            lemma_leaf_after_bound(plans, left, forest_rows, moved.0, row + 1);
        }
    }
}

proof fn lemma_fill_all_deleted(dels: Seq<u64>, base: u64, end: u64, swaps: Seq<Arrow>)
    requires
        base <= end,
        dels.len() >= end - base,
        forall|j: int| 0 <= j < end - base ==> dels[j] == base + j,
    ensures
        filled(dels, base, end, 0, (end - base) as nat, swaps) == (swaps, base),
    decreases end - base,
{
    if end > base {
        let k = end - base;
        assert(dels[k - 1] == end - 1);
        if 1 < k && dels[k - 2] | 1 == dels[k - 1] && end - base >= 2 {
            lemma_fill_all_deleted(dels, base, (end - 2) as u64, swaps);
        } else {
            lemma_fill_all_deleted(dels, base, (end - 1) as u64, swaps);
        }
    }
}

proof fn lemma_below_none(positions: Seq<u64>, limit: u64, upto: nat)
    requires
        upto <= positions.len(),
        forall|j: int| 0 <= j < positions.len() ==> #[trigger] positions[j] >= limit,
    ensures
        below_upto(positions, limit, upto) == Seq::<u64>::empty(),
    decreases upto,
{
    if upto > 0 {
        lemma_below_none(positions, limit, (upto - 1) as nat);
    }
}

/// Where every node of a row is deleted, nothing moves at that row or
/// above it, and no root is left: the plans from that row on are idle.
pub proof fn lemma_plan_rows_all_deleted(
    num_leaves: u64,
    row: u8,
    forest_rows: u8,
    acc: Seq<RowPlanView>,
)
    requires
        row <= forest_rows < 64,
        num_leaves <= (1u64 << forest_rows),
    ensures
        ({
            let plans = plan_rows(
                span(
                    row_start_of(row, forest_rows),
                    row_end_of(num_leaves, row, forest_rows),
                ),
                Seq::empty(),
                num_leaves,
                row,
                forest_rows,
                acc,
            );
            &&& plans.len() == acc.len() + (forest_rows - row) + 1
            &&& forall|j: int| 0 <= j < acc.len() ==> plans[j] == acc[j]
            &&& forall|j: int| acc.len() <= j < plans.len() ==> plans[j] == idle_plan()
        }),
    decreases forest_rows - row,
{
    let base = row_start_of(row, forest_rows);
    let end = row_end_of(num_leaves, row, forest_rows);
    let dels = span(base, end);
    lemma_row_bounds(num_leaves, row, forest_rows, 0);
    lemma_fill_all_deleted(dels, base, end, Seq::empty());
    assert(row_filled(dels, num_leaves, row, forest_rows) == (Seq::<Arrow>::empty(), base));
    assert(row_root(dels, num_leaves, row, forest_rows) == None::<u64>);
    let plan = RowPlanView {
        dirty: Seq::empty(),
        swaps: row_filled(dels, num_leaves, row, forest_rows).0,
        root: row_root(dels, num_leaves, row, forest_rows),
    };
    assert(plan == idle_plan());
    if row < forest_rows {
        let above = (row + 1) as u8;
        let limit = parent_of(base, forest_rows);
        assert forall|j: int| 0 <= j < dels.len() implies parent_of(
            #[trigger] dels[j],
            forest_rows,
        ) >= limit by {
            lemma_row_bounds(num_leaves, row, forest_rows, dels[j]);
        }
        let parents = twin_parents(dels, forest_rows);
        lemma_twin_parents_floor(dels, forest_rows, limit);
        lemma_below_none(parents, limit, parents.len());
        let next = row_next(dels, num_leaves, row, forest_rows);
        assert(next =~= span(
            row_start_of(above, forest_rows),
            row_end_of(num_leaves, above, forest_rows),
        ));
        assert(row_next_dirty(dels, Seq::empty(), num_leaves, row, forest_rows) == Seq::<
            u64,
        >::empty());
        lemma_plan_rows_all_deleted(num_leaves, above, forest_rows, acc.push(plan));
    }
}

} // verus!
