//! Laws of the position arithmetic: how rows, parents, children, roots
//! and the ways down the trees hang together.
use crate::accumulator::util::{
    child_of, first_leaf, forest_mask, has_row, in_forest, is_top_bit, lemma_differ,
    lemma_first_leaf_up, lemma_low_bit, lemma_row_of_has_row, lemma_same_tree_up,
    lemma_top_bit_unique, lemma_tree_rows_of, offset_of, parent_of, popcount, rising,
    root_position_of, row_of, row_offset, row_start_of, top_bit, tree_height_of, tree_rows_of,
    twin_parents, twins, MAX_LEAVES,
};
use vstd::prelude::*;

verus! {

/// Going up from a position of a row above the leaves undoes going down
/// to its left child.
pub proof fn lemma_parent_child(pos: u64, forest_rows: u8)
    requires
        forest_rows < 64,
        (1u64 << forest_rows) <= pos <= forest_mask(forest_rows),
    ensures
        parent_of(child_of(pos, forest_rows), forest_rows) == pos,
{
    let r: u64 = forest_rows as u64;
    assert(r < 64 && (1u64 << r) <= pos <= (0xffff_ffff_ffff_ffffu64 >> ((63 - r) as u64)) ==> (((
    pos << 1) & (0xffff_ffff_ffff_ffffu64 >> ((63 - r) as u64))) >> 1) | (1u64 << r) == pos)
        by (bit_vector);
}

/// Going up raises the row by one and halves the place in the row.
pub proof fn lemma_parent_row(pos: u64, row: u8, above: u8, forest_rows: u8)
    by (bit_vector)
    requires
        row < forest_rows < 64,
        above == row + 1,
        has_row(pos, row, forest_rows),
        pos <= forest_mask(forest_rows),
    ensures
        has_row(parent_of(pos, forest_rows), above, forest_rows),
        parent_of(pos, forest_rows) <= forest_mask(forest_rows),
        row_offset(parent_of(pos, forest_rows), above, forest_rows) == row_offset(
            pos,
            row,
            forest_rows,
        ) >> 1,
        child_of(parent_of(pos, forest_rows), forest_rows) == pos & !1u64,
{
}

/// Going down to the left child lowers the row by one and doubles the
/// place in the row.
pub proof fn lemma_child_row(pos: u64, row: u8, below: u8, forest_rows: u8)
    by (bit_vector)
    requires
        0 < row <= forest_rows < 64,
        below == row - 1,
        has_row(pos, row, forest_rows),
        pos <= forest_mask(forest_rows),
    ensures
        has_row(child_of(pos, forest_rows), below, forest_rows),
        child_of(pos, forest_rows) <= forest_mask(forest_rows),
        row_offset(child_of(pos, forest_rows), below, forest_rows) == 2 * row_offset(
            pos,
            row,
            forest_rows,
        ),
        parent_of(child_of(pos, forest_rows), forest_rows) == pos,
{
}

/// The cousin of a position lies in the same row, two places away, below
/// the sibling of its parent.
pub proof fn lemma_cousin_row(pos: u64, row: u8, forest_rows: u8)
    by (bit_vector)
    requires
        row < forest_rows < 64,
        row + 2 <= forest_rows,
        has_row(pos, row, forest_rows),
        pos <= forest_mask(forest_rows),
    ensures
        has_row(pos ^ 2, row, forest_rows),
        row_offset(pos ^ 2, row, forest_rows) == row_offset(pos, row, forest_rows) ^ 2,
        parent_of(pos ^ 2, forest_rows) == parent_of(pos, forest_rows) ^ 1,
{
}

/// The rows stand one above the other: the parent of the first position
/// of a row is the first position of the next row, no position of the row
/// has its parent before that, and the nodes of the row end within the
/// window. The leaves start at 0.
pub proof fn lemma_row_bounds(num_leaves: u64, row: u8, forest_rows: u8, pos: u64)
    requires
        row <= forest_rows < 64,
        num_leaves <= (1u64 << forest_rows),
    ensures
        row_start_of(row, forest_rows) + (num_leaves >> row) <= forest_mask(forest_rows),
        row_start_of(0, forest_rows) == 0,
        num_leaves >> 0u8 == num_leaves,
        row < forest_rows ==> parent_of(row_start_of(row, forest_rows), forest_rows)
            == row_start_of((row + 1) as u8, forest_rows),
        row < forest_rows && row_start_of(row, forest_rows) <= pos <= forest_mask(forest_rows)
            ==> parent_of(pos, forest_rows) >= row_start_of((row + 1) as u8, forest_rows),
{
    let m = forest_mask(forest_rows);
    let above = (row + 1) as u8;
    assert((m & !(m >> row)) + (num_leaves >> row) <= m && m & !(m >> 0u8) == 0 && num_leaves >> 0u8
        == num_leaves && (row < forest_rows ==> ((m & !(m >> row)) >> 1) | (1u64 << forest_rows)
        == m & !(m >> above)) && (row < forest_rows && m & !(m >> row) <= pos <= m ==> (pos >> 1)
        | (1u64 << forest_rows) >= m & !(m >> above))) by (bit_vector)
        requires
            row <= forest_rows < 64,
            above == row + 1,
            num_leaves <= (1u64 << forest_rows),
            m == forest_mask(forest_rows),
    ;
}

pub proof fn lemma_place_bits(pos: u64, num_leaves: u64, row: u8, forest_rows: u8)
    by (bit_vector)
    requires
        row <= forest_rows < 64,
        num_leaves <= (1u64 << forest_rows),
        row_start_of(row, forest_rows) <= pos,
        pos < row_start_of(row, forest_rows) + (num_leaves >> row),
    ensures
        has_row(pos, row, forest_rows),
        pos <= forest_mask(forest_rows),
        first_leaf(pos, row, forest_rows) + (1u64 << row) <= num_leaves,
        row == forest_rows ==> pos & 1 == 0,
{
}

/// The places of a row that hold a node are positions of the forest: a
/// row of a forest of `num_leaves` leaves holds its nodes in the first
/// `num_leaves >> row` places.
pub proof fn lemma_place_in_forest(pos: u64, num_leaves: u64, row: u8)
    requires
        0 < num_leaves <= MAX_LEAVES,
        row <= tree_rows_of(num_leaves),
        row_start_of(row, tree_rows_of(num_leaves)) <= pos,
        pos < row_start_of(row, tree_rows_of(num_leaves)) + (num_leaves >> row),
    ensures
        in_forest(pos, num_leaves),
        row_of(pos, tree_rows_of(num_leaves)) == row,
{
    let rows = tree_rows_of(num_leaves);
    lemma_tree_rows_of(num_leaves);
    lemma_place_bits(pos, num_leaves, row, rows);
    lemma_row_of_has_row(pos, row, rows);
}

/// Where a row has a root, `root_position_of` names the last node of the
/// row.
pub proof fn lemma_root_position(num_leaves: u64, row: u8, forest_rows: u8)
    by (bit_vector)
    requires
        row <= forest_rows < 64,
        num_leaves <= (1u64 << forest_rows),
        (num_leaves >> row) & 1 == 1,
    ensures
        has_row(root_position_of(num_leaves, row, forest_rows), row, forest_rows),
        row_offset(root_position_of(num_leaves, row, forest_rows), row, forest_rows) + 1
            == num_leaves >> row,
        root_position_of(num_leaves, row, forest_rows) == row_start_of(row, forest_rows) + (
        num_leaves >> row) - 1,
{
}

/// Every position has its row.
pub proof fn lemma_has_row_of(pos: u64, forest_rows: u8)
    requires
        forest_rows < 64,
    ensures
        row_of(pos, forest_rows) <= forest_rows + 1,
        has_row(pos, row_of(pos, forest_rows) as u8, forest_rows),
    decreases forest_rows,
{
    let here = pos & (1u64 << forest_rows) == 0;
    if forest_rows > 0 {
        let below = (forest_rows - 1) as u8;
        lemma_has_row_of(pos, below);
        let less = row_of(pos, below) as u8;
        let more = (less + 1) as u8;
        assert(has_row(
            pos,
            if pos & (1u64 << forest_rows) == 0 {
                0u8
            } else {
                more
            },
            forest_rows,
        )) by (bit_vector)
            requires
                0 < forest_rows < 64,
                below == forest_rows - 1,
                less <= forest_rows,
                more == less + 1,
                has_row(pos, less, below),
        ;
        assert(row_of(pos, forest_rows) == if here {
            0nat
        } else {
            more as nat
        });
    } else {
        assert(has_row(
            pos,
            if pos & (1u64 << forest_rows) == 0 {
                0u8
            } else {
                1u8
            },
            forest_rows,
        )) by (bit_vector)
            requires
                forest_rows == 0,
        ;
    }
}

proof fn lemma_top_bit_from(x: u64, bit: u8)
    requires
        x != 0,
        bit < 64,
        x >> bit <= 1,
    ensures
        exists|found: u8| is_top_bit(x, found),
    decreases bit,
{
    if x >> bit == 1 {
        assert(is_top_bit(x, bit));
    } else {
        assert(bit > 0 && x >> ((bit - 1) as u8) <= 1) by (bit_vector)
            requires
                x != 0,
                bit < 64,
                x >> bit == 0,
        ;
        lemma_top_bit_from(x, (bit - 1) as u8);
    }
}

/// Every number but 0 has its highest set bit.
pub proof fn lemma_top_bit_of(x: u64)
    requires
        x != 0,
    ensures
        is_top_bit(x, top_bit(x)),
{
    lemma_low_bit(x, 0);
    lemma_top_bit_from(x, 63);
}

/// The way to the parent is the way to the node without its last turn.
proof fn lemma_way_up(pos: u64, rows: u8, branch: u8, less: u8)
    by (bit_vector)
    requires
        rows < 64,
        0 < branch <= rows,
        less == branch - 1,
    ensures
        parent_of(pos, rows) & (((1u64 << less) - 1) as u64) == (pos & (((1u64 << branch)
            - 1) as u64)) >> 1,
        (pos & (((1u64 << branch) - 1) as u64)) & 1 == pos & 1,
{
}

/// The way to a node is the way to its parent and one turn more: where a
/// node of the forest hangs below a root, its parent hangs in the same
/// tree one level higher, at the end of the same way without its last
/// turn, and the last turn is the lowest bit of the position.
pub proof fn lemma_offset_of_parent(pos: u64, num_leaves: u64)
    requires
        in_forest(pos, num_leaves),
        offset_of(pos, num_leaves).1 >= 1,
    ensures
        in_forest(parent_of(pos, tree_rows_of(num_leaves)), num_leaves),
        offset_of(parent_of(pos, tree_rows_of(num_leaves)), num_leaves) == (
            offset_of(pos, num_leaves).0,
            (offset_of(pos, num_leaves).1 - 1) as u8,
            offset_of(pos, num_leaves).2 >> 1,
        ),
        offset_of(pos, num_leaves).2 & 1 == pos & 1,
{
    let rows = tree_rows_of(num_leaves);
    lemma_tree_rows_of(num_leaves);
    lemma_has_row_of(pos, rows);
    let row = row_of(pos, rows) as u8;
    let above = (row + 1) as u8;
    let leaf = first_leaf(pos, row, rows);
    let d = leaf ^ num_leaves;
    lemma_low_bit(0, row);
    lemma_differ(leaf, num_leaves);
    lemma_top_bit_of(d);
    let height = top_bit(d);
    lemma_first_leaf_up(pos, row, above, rows);
    lemma_same_tree_up(leaf, num_leaves, row, above, rows, height);
    if row < rows {
        let branch = (height - row) as u8;
        let up = parent_of(pos, rows);
        lemma_way_up(pos, rows, branch, (branch - 1) as u8);
        lemma_parent_row(pos, row, above, rows);
        lemma_row_of_has_row(up, above, rows);
        let leaf_up = first_leaf(up, above, rows);
        lemma_top_bit_unique(leaf_up ^ num_leaves, height, height);
        assert(height > row);
        assert(row_of(up, rows) == above);
        assert(leaf_up + (1u64 << above) <= num_leaves);
        assert(up <= forest_mask(rows));
        assert(in_forest(up, num_leaves));
        assert(tree_height_of(leaf_up, num_leaves) == height);
        assert(offset_of(up, num_leaves).1 == branch - 1);
        assert(offset_of(up, num_leaves).0 == offset_of(pos, num_leaves).0);
        assert(offset_of(pos, num_leaves).2 == pos & (((1u64 << branch) - 1) as u64));
        assert(offset_of(up, num_leaves).2 == up & (((1u64 << ((branch - 1) as u8)) - 1) as u64));
    }
}

/// Siblings differ in their lowest bit only.
pub proof fn lemma_twin_bits(a: u64, b: u64)
    by (bit_vector)
    requires
        a | 1 == b,
    ensures
        b & 1 == 1,
        b | 1 == b,
        b ^ 1 == a || a == b,
        a < b ==> b == a + 1 && a & 1 == 0 && a ^ 1 == b,
{
}

/// A number and its sibling follow each other, the even one first.
pub proof fn lemma_sibling(x: u64)
    by (bit_vector)
    ensures
        (x ^ 1) ^ 1 == x,
        x & 1 == 0 || x & 1 == 1,
        x & 1 == 0 ==> x ^ 1 == x + 1 && x | 1 == x ^ 1,
        x & 1 == 1 ==> x ^ 1 == x - 1 && (x ^ 1) | 1 == x,
{
}

/// `x` is one of the siblings that stand next to each other at `i` and
/// `i + 1` in `nodes`.
pub open spec fn twin_at(nodes: Seq<u64>, i: int, x: u64) -> bool {
    &&& 0 <= i
    &&& i + 1 < nodes.len()
    &&& nodes[i] | 1 == nodes[i + 1]
    &&& (x == nodes[i] || x == nodes[i + 1])
}

proof fn lemma_twins_members(nodes: Seq<u64>, x: u64)
    ensures
        twins(nodes).contains(x) <==> exists|i: int| twin_at(nodes, i, x),
        twins(nodes).len() == 2 * twin_parents(nodes, 0).len(),
    decreases nodes.len(),
{
    if nodes.len() >= 2 {
        let head = nodes.drop_last();
        let at = nodes.len() - 2;
        lemma_twins_members(head, x);
        let all = twins(nodes);
        let before = twins(head);
        assert forall|i: int| twin_at(head, i, x) implies twin_at(nodes, i, x) by {
            assert(head[i] == nodes[i] && head[i + 1] == nodes[i + 1]);
        }
        assert forall|i: int| twin_at(nodes, i, x) && i < at implies twin_at(head, i, x) by {
            assert(head[i] == nodes[i] && head[i + 1] == nodes[i + 1]);
        }
        if nodes[at] | 1 == nodes[at + 1] {
            assert(all == before.push(nodes[at]).push(nodes[at + 1]));
            if all.contains(x) {
                let j = choose|j: int| 0 <= j < all.len() && all[j] == x;
                if j < before.len() {
                    assert(before[j] == x);
                    assert(before.contains(x));
                    let i = choose|i: int| twin_at(head, i, x);
                    assert(twin_at(nodes, i, x));
                } else {
                    assert(twin_at(nodes, at, x));
                }
            }
            if exists|i: int| twin_at(nodes, i, x) {
                let i = choose|i: int| twin_at(nodes, i, x);
                if i < at {
                    assert(twin_at(head, i, x));
                    assert(before.contains(x));
                    let j = choose|j: int| 0 <= j < before.len() && before[j] == x;
                    assert(all[j] == x);
                } else {
                    assert(all[before.len() as int] == nodes[at]);
                    assert(all[before.len() as int + 1] == nodes[at + 1]);
                }
            }
        } else {
            assert(all == before);
            if exists|i: int| twin_at(nodes, i, x) {
                let i = choose|i: int| twin_at(nodes, i, x);
                assert(i < at);
                assert(twin_at(head, i, x));
            }
            if all.contains(x) {
                let i = choose|i: int| twin_at(head, i, x);
                assert(twin_at(nodes, i, x));
            }
        }
    } else {
        assert(twins(nodes) =~= Seq::<u64>::empty());
    }
}

proof fn lemma_twin_parents_len(nodes: Seq<u64>, a: u8, b: u8)
    ensures
        twin_parents(nodes, a).len() == twin_parents(nodes, b).len(),
    decreases nodes.len(),
{
    if nodes.len() >= 2 {
        lemma_twin_parents_len(nodes.drop_last(), a, b);
    }
}

/// What `extract_twins` finds in positions that rise: the second list
/// holds exactly the positions whose sibling is in the list too, and the
/// first one parent for each two of them.
pub proof fn lemma_twins_of_rising(nodes: Seq<u64>, forest_rows: u8, x: u64)
    requires
        rising(nodes),
    ensures
        twins(nodes).contains(x) <==> nodes.contains(x) && nodes.contains(x ^ 1),
        twins(nodes).len() == 2 * twin_parents(nodes, forest_rows).len(),
{
    lemma_twins_members(nodes, x);
    lemma_twin_parents_len(nodes, 0, forest_rows);
    lemma_sibling(x);
    if twins(nodes).contains(x) {
        let i = choose|i: int| twin_at(nodes, i, x);
        assert(nodes[i] < nodes[i + 1]);
        lemma_twin_bits(nodes[i], nodes[i + 1]);
        assert(nodes.contains(nodes[i]));
        assert(nodes.contains(nodes[i + 1]));
    }
    if nodes.contains(x) && nodes.contains(x ^ 1) {
        let i = choose|i: int| 0 <= i < nodes.len() && nodes[i] == x;
        let j = choose|j: int| 0 <= j < nodes.len() && nodes[j] == (x ^ 1);
        if x & 1 == 0 {
            // the sibling follows at once: nothing lies between the two
            assert(i < j) by {
                if j < i {
                    assert(nodes[j] < nodes[i]);
                }
            }
            if i + 1 < j {
                assert(nodes[i] < nodes[i + 1] && nodes[i + 1] < nodes[j]);
            }
            assert(twin_at(nodes, i, x));
        } else {
            assert(j < i) by {
                if i < j {
                    assert(nodes[i] < nodes[j]);
                }
            }
            if j + 1 < i {
                assert(nodes[j] < nodes[j + 1] && nodes[j + 1] < nodes[i]);
            }
            assert(twin_at(nodes, j, x));
        }
    }
}

/// Shifting bits out does not add set bits.
pub proof fn lemma_popcount_shift(x: u64, a: u8, b: u8)
    requires
        a <= b < 64,
    ensures
        popcount(x >> b) <= popcount(x >> a),
    decreases b - a,
{
    if a < b {
        let less = (b - 1) as u8;
        lemma_popcount_shift(x, a, less);
        lemma_low_bit(x >> less, 0);
        lemma_low_bit(x, less);
    }
}

/// The trees of a forest stand by height: two trees with as many taller
/// trees before them are one tree.
pub proof fn lemma_tree_by_height(num_leaves: u64, a: u8, b: u8)
    requires
        a < 64,
        b < 64,
        (num_leaves >> a) & 1 == 1,
        (num_leaves >> b) & 1 == 1,
        popcount((num_leaves >> a) >> 1) == popcount((num_leaves >> b) >> 1),
    ensures
        a == b,
{
    if a < b {
        lemma_tree_above(num_leaves, a, b);
    } else if b < a {
        lemma_tree_above(num_leaves, b, a);
    }
}

proof fn lemma_tree_above(num_leaves: u64, low: u8, high: u8)
    requires
        low < high < 64,
        (num_leaves >> high) & 1 == 1,
    ensures
        popcount((num_leaves >> low) >> 1) > popcount((num_leaves >> high) >> 1),
{
    let next = (low + 1) as u8;
    lemma_low_bit(num_leaves, low);
    lemma_popcount_shift(num_leaves, next, high);
    lemma_low_bit(num_leaves >> high, 0);
}

/// Two positions of one row that hang in one tree at the end of one way
/// are one position.
pub proof fn lemma_way_names_place(
    a: u64,
    b: u64,
    num_leaves: u64,
    row: u8,
    rows: u8,
    height: u8,
    branch: u8,
)
    by (bit_vector)
    requires
        row <= rows < 64,
        row <= height < 64,
        branch == height - row,
        a <= forest_mask(rows),
        b <= forest_mask(rows),
        has_row(a, row, rows),
        has_row(b, row, rows),
        (first_leaf(a, row, rows) ^ num_leaves) >> height == 1,
        (first_leaf(b, row, rows) ^ num_leaves) >> height == 1,
        a & (((1u64 << branch) - 1) as u64) == b & (((1u64 << branch) - 1) as u64),
    ensures
        a == b,
{
}

/// The tree that holds a leaf has its bit set in the leaf count.
pub proof fn lemma_tree_bit(leaf: u64, num_leaves: u64, height: u8)
    by (bit_vector)
    requires
        height < 64,
        leaf < num_leaves,
        (leaf ^ num_leaves) >> height == 1,
    ensures
        (num_leaves >> height) & 1 == 1,
{
}

/// The children of a node stand in the row below, one after the other;
/// the first leaf below the left one is that below the node.
proof fn lemma_child_places(pos: u64, row: u8, below: u8, forest_rows: u8)
    by (bit_vector)
    requires
        1 <= row <= forest_rows < 64,
        below == row - 1,
        pos <= forest_mask(forest_rows),
        has_row(pos, row, forest_rows),
    ensures
        child_of(pos, forest_rows) + 1 <= forest_mask(forest_rows),
        has_row(child_of(pos, forest_rows), below, forest_rows),
        has_row((child_of(pos, forest_rows) + 1) as u64, below, forest_rows),
        parent_of(child_of(pos, forest_rows), forest_rows) == pos,
        parent_of((child_of(pos, forest_rows) + 1) as u64, forest_rows) == pos,
        first_leaf(child_of(pos, forest_rows), below, forest_rows) == first_leaf(
            pos,
            row,
            forest_rows,
        ),
        first_leaf((child_of(pos, forest_rows) + 1) as u64, below, forest_rows) == first_leaf(
            pos,
            row,
            forest_rows,
        ) | (1u64 << below),
{
}

/// The two halves of the leaves below a node lie in the tree of the
/// node.
proof fn lemma_child_leaves(leaf: u64, num_leaves: u64, row: u8, below: u8, height: u8)
    by (bit_vector)
    requires
        1 <= row <= height < 64,
        below == row - 1,
        leaf & (((1u64 << row) - 1) as u64) == 0,
        leaf + (1u64 << row) <= num_leaves,
        (leaf ^ num_leaves) >> height == 1,
    ensures
        leaf + (1u64 << below) <= num_leaves,
        (leaf | (1u64 << below)) + (1u64 << below) <= num_leaves,
        ((leaf | (1u64 << below)) ^ num_leaves) >> height == 1,
{
}

/// The two children of a node of the forest are nodes of the forest, one
/// row below, and hang below a root.
pub proof fn lemma_child_in_forest(pos: u64, num_leaves: u64, child: u64)
    requires
        in_forest(pos, num_leaves),
        row_of(pos, tree_rows_of(num_leaves)) >= 1,
        child == child_of(pos, tree_rows_of(num_leaves)) || child == child_of(
            pos,
            tree_rows_of(num_leaves),
        ) + 1,
    ensures
        in_forest(child, num_leaves),
        row_of(child, tree_rows_of(num_leaves)) + 1 == row_of(pos, tree_rows_of(num_leaves)),
        offset_of(child, num_leaves).1 >= 1,
        parent_of(child, tree_rows_of(num_leaves)) == pos,
{
    let rows = tree_rows_of(num_leaves);
    lemma_tree_rows_of(num_leaves);
    lemma_has_row_of(pos, rows);
    let row = row_of(pos, rows) as u8;
    let below = (row - 1) as u8;
    let leaf = first_leaf(pos, row, rows);
    lemma_low_bit(0, row);
    lemma_differ(leaf, num_leaves);
    lemma_top_bit_of(leaf ^ num_leaves);
    let height = top_bit(leaf ^ num_leaves);
    lemma_first_leaf_up(pos, row, (row + 1) as u8, rows);
    lemma_same_tree_up(leaf, num_leaves, row, (row + 1) as u8, rows, height);
    lemma_child_places(pos, row, below, rows);
    lemma_child_leaves(leaf, num_leaves, row, below, height);
    lemma_row_of_has_row(child, below, rows);
    let leaf_child = first_leaf(child, below, rows);
    lemma_top_bit_unique(leaf_child ^ num_leaves, height, height);
    assert(tree_height_of(leaf_child, num_leaves) == height);
    assert(offset_of(child, num_leaves).1 == height - below);
}

} // verus!
