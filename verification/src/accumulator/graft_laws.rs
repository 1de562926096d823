//! What cutting and grafting does to the trees: laws that speak of the
//! subtrees that hang in a tree, each written as a root is.
use crate::accumulator::graft::{
    blank, forest_grafted, forest_rehashed, forest_swapped, grafted, held, settled, turns_right,
};
use crate::accumulator::pollard::PolNode;
use crate::accumulator::types::{is_empty_hash, lemma_empty_hash, Arrow};
use crate::accumulator::util::{
    first_leaf, in_forest, lemma_differ, lemma_first_leaf_up, lemma_low_bit, lemma_popcount_bound,
    lemma_same_tree_up, lemma_tree_rows_of, offset_of, parent_of, popcount, row_of, top_bit,
    tree_rows_of,
};
use crate::accumulator::util_laws::{
    lemma_has_row_of, lemma_offset_of_parent, lemma_popcount_shift, lemma_top_bit_of,
    lemma_tree_bit, lemma_tree_by_height, lemma_way_names_place,
};
use vstd::prelude::*;

verus! {

/// The child of a subtree on one side, as a subtree: its hash lies in
/// the niece of that side, its children are the nieces of the other one.
pub open spec fn child_unit(unit: PolNode, right: bool) -> PolNode {
    let own = held(
        if right {
            unit.r_niece
        } else {
            unit.l_niece
        },
    );
    let other = held(
        if right {
            unit.l_niece
        } else {
            unit.r_niece
        },
    );
    PolNode { data: own.data, l_niece: other.l_niece, r_niece: other.r_niece }
}

/// The subtree that hangs `branch` levels below the root of `unit`, at
/// the end of the way `bits`; blank where nothing is there.
pub open spec fn subtree_at(unit: PolNode, branch: nat, bits: u64) -> PolNode
    decreases branch,
{
    if branch == 0 {
        unit
    } else {
        subtree_at(child_unit(unit, turns_right(bits, branch)), (branch - 1) as nat, bits)
    }
}

/// Two ways of `branch` turns part at one of them.
pub open spec fn ways_part(a: u64, b: u64, branch: nat) -> bool {
    exists|level: nat| 1 <= level <= branch && turns_right(a, level) != turns_right(b, level)
}

/// A slot holds what was settled in it.
pub proof fn lemma_held_settled(node: PolNode)
    ensures
        held(settled(node)) == node,
{
    if is_empty_hash(node.data) && node.is_dead_end() {
        lemma_empty_hash(node.data);
    }
}

/// Below the root a graft does not look at the hash of the root: it
/// keeps it, and does to the nieces what it would do under any hash.
proof fn lemma_graft_any_hash(a: PolNode, b: PolNode, branch: nat, bits: u64, scion: PolNode)
    requires
        branch >= 1,
        a.l_niece == b.l_niece,
        a.r_niece == b.r_niece,
    ensures
        grafted(a, branch, bits, scion) is Some <==> grafted(b, branch, bits, scion) is Some,
        grafted(a, branch, bits, scion) is Some ==> {
            let x = grafted(a, branch, bits, scion)->Some_0;
            let y = grafted(b, branch, bits, scion)->Some_0;
            &&& x.0.data == a.data
            &&& y.0.data == b.data
            &&& x.0.l_niece == y.0.l_niece
            &&& x.0.r_niece == y.0.r_niece
            &&& x.1 == y.1
        },
{
}

/// A graft one level at a time: it keeps the hash of the root and the
/// child on the other side of its first turn, and grafts in the child on
/// the side of the turn.
pub proof fn lemma_graft_step(node: PolNode, branch: nat, bits: u64, scion: PolNode)
    requires
        branch >= 1,
        grafted(node, branch, bits, scion) is Some,
    ensures
        ({
            let right = turns_right(bits, branch);
            let after = grafted(node, branch, bits, scion)->Some_0;
            let below = grafted(child_unit(node, right), (branch - 1) as nat, bits, scion);
            &&& after.0.data == node.data
            &&& below is Some
            &&& below->Some_0.1 == after.1
            &&& child_unit(after.0, right) == below->Some_0.0
            &&& child_unit(after.0, !right) == child_unit(node, !right)
        }),
{
    let right = turns_right(bits, branch);
    if branch == 1 {
        let target = held(
            if right {
                node.r_niece
            } else {
                node.l_niece
            },
        );
        let sibling = held(
            if right {
                node.l_niece
            } else {
                node.r_niece
            },
        );
        lemma_held_settled(
            PolNode { data: scion.data, l_niece: target.l_niece, r_niece: target.r_niece },
        );
        lemma_held_settled(
            PolNode { data: sibling.data, l_niece: scion.l_niece, r_niece: scion.r_niece },
        );
    } else {
        let aunt = if right {
            node.l_niece
        } else {
            node.r_niece
        };
        lemma_graft_any_hash(
            *aunt->Some_0,
            child_unit(node, right),
            (branch - 1) as nat,
            bits,
            scion,
        );
    }
}

/// A graft hands out the subtree that hung at its place, and leaves the
/// scion there.
pub proof fn lemma_graft_exchanges(node: PolNode, branch: nat, bits: u64, scion: PolNode)
    requires
        grafted(node, branch, bits, scion) is Some,
    ensures
        grafted(node, branch, bits, scion)->Some_0.1 == subtree_at(node, branch, bits),
        subtree_at(grafted(node, branch, bits, scion)->Some_0.0, branch, bits) == scion,
    decreases branch,
{
    if branch >= 1 {
        lemma_graft_step(node, branch, bits, scion);
        lemma_graft_exchanges(
            child_unit(node, turns_right(bits, branch)),
            (branch - 1) as nat,
            bits,
            scion,
        );
    }
}

/// A graft leaves alone what hangs at the end of another way of the same
/// length.
pub proof fn lemma_graft_frame(
    node: PolNode,
    branch: nat,
    bits: u64,
    scion: PolNode,
    other: u64,
)
    requires
        grafted(node, branch, bits, scion) is Some,
        ways_part(bits, other, branch),
    ensures
        subtree_at(grafted(node, branch, bits, scion)->Some_0.0, branch, other) == subtree_at(
            node,
            branch,
            other,
        ),
    decreases branch,
{
    let right = turns_right(bits, branch);
    lemma_graft_step(node, branch, bits, scion);
    if turns_right(other, branch) == right {
        let level = choose|level: nat|
            1 <= level <= branch && turns_right(bits, level) != turns_right(other, level);
        assert(1 <= level <= branch - 1 && turns_right(bits, level) != turns_right(other, level));
        lemma_graft_frame(child_unit(node, right), (branch - 1) as nat, bits, scion, other);
    }
}

/// The subtree that hangs at `pos` in the forest; blank where nothing
/// is there.
pub open spec fn forest_subtree(roots: Seq<PolNode>, num_leaves: u64, pos: u64) -> PolNode {
    let way = offset_of(pos, num_leaves);
    subtree_at(roots[way.0 as int], way.1 as nat, way.2)
}

/// The ways to two positions part: they lead into two trees, or they are
/// of one length and part at one of their turns.
pub open spec fn apart(a: u64, b: u64, num_leaves: u64) -> bool {
    let one = offset_of(a, num_leaves);
    let two = offset_of(b, num_leaves);
    one.0 != two.0 || (one.1 == two.1 && ways_part(one.2, two.2, one.1 as nat))
}

/// A way can be gone in two parts: what hangs at its end hangs, at the
/// end of its last turn, in what hangs at the end of the turns before.
pub proof fn lemma_subtree_last_turn(unit: PolNode, branch: nat, bits: u64)
    requires
        1 <= branch < 64,
    ensures
        subtree_at(unit, branch, bits) == child_unit(
            subtree_at(unit, (branch - 1) as nat, bits >> 1),
            bits & 1 == 1,
        ),
    decreases branch,
{
    let top = turns_right(bits, branch);
    if branch == 1 {
        lemma_low_bit(bits, 0);
        assert(subtree_at(child_unit(unit, top), 0, bits) == child_unit(unit, top));
    } else {
        lemma_low_bit(bits, (branch - 2) as u8);
        assert(turns_right(bits >> 1, (branch - 1) as nat) == top);
        lemma_subtree_last_turn(child_unit(unit, top), (branch - 1) as nat, bits);
    }
}

/// What hangs at the end of a way depends on its turns only.
pub proof fn lemma_subtree_same_turns(unit: PolNode, branch: nat, a: u64, b: u64)
    requires
        forall|level: nat| 1 <= level <= branch ==> turns_right(a, level) == turns_right(b, level),
    ensures
        subtree_at(unit, branch, a) == subtree_at(unit, branch, b),
    decreases branch,
{
    if branch > 0 {
        assert(turns_right(a, branch) == turns_right(b, branch));
        lemma_subtree_same_turns(
            child_unit(unit, turns_right(a, branch)),
            (branch - 1) as nat,
            a,
            b,
        );
    }
}

/// A graft leaves the hashes alone that lie higher than its place: what
/// hangs at the end of a shorter way keeps its hash.
pub proof fn lemma_graft_keeps_hash(
    node: PolNode,
    branch: nat,
    bits: u64,
    scion: PolNode,
    less: nat,
    other: u64,
)
    requires
        grafted(node, branch, bits, scion) is Some,
        less < branch,
    ensures
        subtree_at(grafted(node, branch, bits, scion)->Some_0.0, less, other).data == subtree_at(
            node,
            less,
            other,
        ).data,
    decreases less,
{
    lemma_graft_step(node, branch, bits, scion);
    if less > 0 {
        let right = turns_right(bits, branch);
        if turns_right(other, less) == right {
            lemma_graft_keeps_hash(
                child_unit(node, right),
                (branch - 1) as nat,
                bits,
                scion,
                (less - 1) as nat,
                other,
            );
        }
    }
}

proof fn lemma_ways_part_from(a: u64, b: u64, branch: u8, level: u8)
    requires
        level <= branch <= 64,
        a != b,
        level < 64 ==> a >> level == b >> level,
    ensures
        ways_part(a, b, branch as nat),
    decreases level,
{
    if level == 0 {
        lemma_low_bit(a, 0);
        lemma_low_bit(b, 0);
    } else {
        let less = (level - 1) as u8;
        if turns_right(a, level as nat) != turns_right(b, level as nat) {
            assert(1 <= level as nat <= branch as nat);
        } else {
            assert(a >> less == b >> less) by (bit_vector)
                requires
                    0 < level <= 64,
                    less == level - 1,
                    level < 64 ==> a >> level == b >> level,
                    ((a >> less) & 1 == 1) == ((b >> less) & 1 == 1),
            ;
            lemma_ways_part_from(a, b, branch, less);
        }
    }
}

/// Two ways of one length that are not the same part at one of their
/// turns.
pub proof fn lemma_ways_part(a: u64, b: u64, branch: u8)
    requires
        branch < 64,
        a != b,
        a >> branch == 0,
        b >> branch == 0,
    ensures
        ways_part(a, b, branch as nat),
{
    lemma_ways_part_from(a, b, branch, branch);
}

/// The ways to two positions of one row part.
pub proof fn lemma_apart(a: u64, b: u64, num_leaves: u64)
    requires
        in_forest(a, num_leaves),
        in_forest(b, num_leaves),
        row_of(a, tree_rows_of(num_leaves)) == row_of(b, tree_rows_of(num_leaves)),
        a != b,
    ensures
        apart(a, b, num_leaves),
{
    let rows = tree_rows_of(num_leaves);
    lemma_tree_rows_of(num_leaves);
    let row = row_of(a, rows) as u8;
    let above = (row + 1) as u8;
    let one = offset_of(a, num_leaves);
    let two = offset_of(b, num_leaves);
    lemma_has_row_of(a, rows);
    lemma_has_row_of(b, rows);
    lemma_low_bit(0, row);
    let leaf_a = first_leaf(a, row, rows);
    let leaf_b = first_leaf(b, row, rows);
    lemma_differ(leaf_a, num_leaves);
    lemma_differ(leaf_b, num_leaves);
    lemma_top_bit_of(leaf_a ^ num_leaves);
    lemma_top_bit_of(leaf_b ^ num_leaves);
    let high_a = top_bit(leaf_a ^ num_leaves);
    let high_b = top_bit(leaf_b ^ num_leaves);
    lemma_tree_bit(leaf_a, num_leaves, high_a);
    lemma_tree_bit(leaf_b, num_leaves, high_b);
    lemma_first_leaf_up(a, row, above, rows);
    lemma_first_leaf_up(b, row, above, rows);
    lemma_same_tree_up(leaf_a, num_leaves, row, above, rows, high_a);
    lemma_same_tree_up(leaf_b, num_leaves, row, above, rows, high_b);
    if one.0 == two.0 {
        lemma_popcount_bound((num_leaves >> high_a) >> 1);
        lemma_popcount_bound((num_leaves >> high_b) >> 1);
        lemma_tree_by_height(num_leaves, high_a, high_b);
        let branch = (high_a - row) as u8;
        assert(one.1 == branch && two.1 == branch);
        if one.2 == two.2 {
            lemma_way_names_place(a, b, num_leaves, row, rows, high_a, branch);
        }
        lemma_low_bit(a, branch);
        lemma_low_bit(b, branch);
        lemma_ways_part(one.2, two.2, branch);
    }
}

/// Two positions that hang in one tree hang below a root of one height:
/// what their ways lack in length, their rows make up.
pub proof fn lemma_same_tree(a: u64, b: u64, num_leaves: u64)
    requires
        in_forest(a, num_leaves),
        in_forest(b, num_leaves),
        offset_of(a, num_leaves).0 == offset_of(b, num_leaves).0,
    ensures
        offset_of(a, num_leaves).1 + row_of(a, tree_rows_of(num_leaves)) == offset_of(
            b,
            num_leaves,
        ).1 + row_of(b, tree_rows_of(num_leaves)),
        offset_of(a, num_leaves).1 + row_of(a, tree_rows_of(num_leaves)) < 64,
{
    let rows = tree_rows_of(num_leaves);
    lemma_tree_rows_of(num_leaves);
    let row_a = row_of(a, rows) as u8;
    let row_b = row_of(b, rows) as u8;
    lemma_has_row_of(a, rows);
    lemma_has_row_of(b, rows);
    lemma_low_bit(0, row_a);
    lemma_low_bit(0, row_b);
    let leaf_a = first_leaf(a, row_a, rows);
    let leaf_b = first_leaf(b, row_b, rows);
    lemma_differ(leaf_a, num_leaves);
    lemma_differ(leaf_b, num_leaves);
    lemma_top_bit_of(leaf_a ^ num_leaves);
    lemma_top_bit_of(leaf_b ^ num_leaves);
    let high_a = top_bit(leaf_a ^ num_leaves);
    let high_b = top_bit(leaf_b ^ num_leaves);
    lemma_tree_bit(leaf_a, num_leaves, high_a);
    lemma_tree_bit(leaf_b, num_leaves, high_b);
    lemma_first_leaf_up(a, row_a, (row_a + 1) as u8, rows);
    lemma_first_leaf_up(b, row_b, (row_b + 1) as u8, rows);
    lemma_same_tree_up(leaf_a, num_leaves, row_a, (row_a + 1) as u8, rows, high_a);
    lemma_same_tree_up(leaf_b, num_leaves, row_b, (row_b + 1) as u8, rows, high_b);
    lemma_popcount_bound((num_leaves >> high_a) >> 1);
    lemma_popcount_bound((num_leaves >> high_b) >> 1);
    lemma_tree_by_height(num_leaves, high_a, high_b);
}

/// What hangs at a position hangs, on its side, in what hangs at the
/// parent of the position.
pub proof fn lemma_forest_child(roots: Seq<PolNode>, num_leaves: u64, pos: u64)
    requires
        in_forest(pos, num_leaves),
        offset_of(pos, num_leaves).1 >= 1,
    ensures
        forest_subtree(roots, num_leaves, pos) == child_unit(
            forest_subtree(roots, num_leaves, parent_of(pos, tree_rows_of(num_leaves))),
            pos & 1 == 1,
        ),
{
    let way = offset_of(pos, num_leaves);
    lemma_offset_of_parent(pos, num_leaves);
    lemma_same_tree(pos, pos, num_leaves);
    lemma_subtree_last_turn(roots[way.0 as int], way.1 as nat, way.2);
}

/// A graft in the forest leaves the hashes alone that lie in higher rows.
pub proof fn lemma_forest_graft_keeps_hash(
    roots: Seq<PolNode>,
    num_leaves: u64,
    pos: u64,
    scion: PolNode,
    other: u64,
)
    requires
        forest_grafted(roots, num_leaves, pos, scion) is Ok,
        in_forest(other, num_leaves),
        row_of(other, tree_rows_of(num_leaves)) > row_of(pos, tree_rows_of(num_leaves)),
        offset_of(other, num_leaves).0 < roots.len(),
    ensures
        forest_subtree(
            forest_grafted(roots, num_leaves, pos, scion)->Ok_0.0,
            num_leaves,
            other,
        ).data == forest_subtree(roots, num_leaves, other).data,
{
    let way = offset_of(pos, num_leaves);
    let there = offset_of(other, num_leaves);
    if way.0 == there.0 {
        lemma_same_tree(pos, other, num_leaves);
        lemma_graft_keeps_hash(
            roots[way.0 as int],
            way.1 as nat,
            way.2,
            scion,
            there.1 as nat,
            there.2,
        );
    }
}

/// A graft in the forest hands out the subtree that hung at its position,
/// leaves the scion there, and leaves alone what hangs where the way
/// parts from the way to that position.
pub proof fn lemma_forest_graft(
    roots: Seq<PolNode>,
    num_leaves: u64,
    pos: u64,
    scion: PolNode,
    other: u64,
)
    requires
        forest_grafted(roots, num_leaves, pos, scion) is Ok,
    ensures
        forest_grafted(roots, num_leaves, pos, scion)->Ok_0.1 == forest_subtree(
            roots,
            num_leaves,
            pos,
        ),
        forest_grafted(roots, num_leaves, pos, scion)->Ok_0.0.len() == roots.len(),
        forest_subtree(forest_grafted(roots, num_leaves, pos, scion)->Ok_0.0, num_leaves, pos)
            == scion,
        offset_of(other, num_leaves).0 < roots.len() && apart(pos, other, num_leaves)
            ==> forest_subtree(
            forest_grafted(roots, num_leaves, pos, scion)->Ok_0.0,
            num_leaves,
            other,
        ) == forest_subtree(roots, num_leaves, other),
{
    let way = offset_of(pos, num_leaves);
    lemma_graft_exchanges(roots[way.0 as int], way.1 as nat, way.2, scion);
    let there = offset_of(other, num_leaves);
    if there.0 < roots.len() && apart(pos, other, num_leaves) && there.0 == way.0 {
        lemma_graft_frame(roots[way.0 as int], way.1 as nat, way.2, scion, there.2);
    }
}

/// A swap lets the subtrees at its two ends change places.
pub proof fn lemma_swap_exchanges(roots: Seq<PolNode>, num_leaves: u64, arrow: Arrow)
    requires
        forest_swapped(roots, num_leaves, arrow) is Ok,
        apart(arrow.from, arrow.to, num_leaves),
    ensures
        forest_subtree(forest_swapped(roots, num_leaves, arrow)->Ok_0, num_leaves, arrow.to)
            == forest_subtree(roots, num_leaves, arrow.from),
        forest_subtree(forest_swapped(roots, num_leaves, arrow)->Ok_0, num_leaves, arrow.from)
            == forest_subtree(roots, num_leaves, arrow.to),
        forest_swapped(roots, num_leaves, arrow)->Ok_0.len() == roots.len(),
{
    let first = forest_grafted(roots, num_leaves, arrow.from, blank())->Ok_0;
    lemma_forest_graft(roots, num_leaves, arrow.from, blank(), arrow.to);
    let second = forest_grafted(first.0, num_leaves, arrow.to, first.1)->Ok_0;
    lemma_forest_graft(first.0, num_leaves, arrow.to, first.1, arrow.from);
    lemma_forest_graft(second.0, num_leaves, arrow.from, second.1, arrow.to);
    assert(apart(arrow.to, arrow.from, num_leaves)) by {
        let one = offset_of(arrow.from, num_leaves);
        let two = offset_of(arrow.to, num_leaves);
        if one.0 == two.0 {
            let level = choose|level: nat|
                1 <= level <= one.1 && turns_right(one.2, level) != turns_right(two.2, level);
            assert(1 <= level <= two.1 && turns_right(two.2, level) != turns_right(one.2, level));
        }
    }
}

/// A hash that is computed anew is the hash of the two children of the
/// node, and nothing else changes at the node.
pub proof fn lemma_rehash_sets(roots: Seq<PolNode>, num_leaves: u64, pos: u64)
    requires
        forest_rehashed(roots, num_leaves, pos) is Ok,
    ensures
        forest_subtree(roots, num_leaves, pos).aunt_hash() is Ok,
        forest_subtree(forest_rehashed(roots, num_leaves, pos)->Ok_0, num_leaves, pos) == (PolNode {
            data: forest_subtree(roots, num_leaves, pos).aunt_hash()->Ok_0,
            l_niece: forest_subtree(roots, num_leaves, pos).l_niece,
            r_niece: forest_subtree(roots, num_leaves, pos).r_niece,
        }),
        forest_rehashed(roots, num_leaves, pos)->Ok_0.len() == roots.len(),
{
    let first = forest_grafted(roots, num_leaves, pos, blank())->Ok_0;
    lemma_forest_graft(roots, num_leaves, pos, blank(), pos);
    let fresh = PolNode {
        data: first.1.aunt_hash()->Ok_0,
        l_niece: first.1.l_niece,
        r_niece: first.1.r_niece,
    };
    lemma_forest_graft(first.0, num_leaves, pos, fresh, pos);
}

/// What a graft at a position of a row leaves alone: what hangs at the
/// other positions of the row, and the hashes of all higher rows.
pub open spec fn same_but(
    before: Seq<PolNode>,
    after: Seq<PolNode>,
    num_leaves: u64,
    row: nat,
    a: u64,
    b: u64,
) -> bool {
    &&& after.len() == before.len()
    &&& forall|pos: u64|
        in_forest(pos, num_leaves) && row_of(pos, tree_rows_of(num_leaves)) == row && pos != a
            && pos != b ==> #[trigger] forest_subtree(after, num_leaves, pos) == forest_subtree(
            before,
            num_leaves,
            pos,
        )
    &&& forall|pos: u64|
        in_forest(pos, num_leaves) && row_of(pos, tree_rows_of(num_leaves)) > row ==> (
        #[trigger] forest_subtree(after, num_leaves, pos)).data == forest_subtree(
            before,
            num_leaves,
            pos,
        ).data
}

/// A position of the forest hangs in one of the trees that the leaf
/// count asks for.
pub proof fn lemma_tree_index(pos: u64, num_leaves: u64)
    requires
        in_forest(pos, num_leaves),
    ensures
        offset_of(pos, num_leaves).0 < popcount(num_leaves),
{
    let rows = tree_rows_of(num_leaves);
    lemma_tree_rows_of(num_leaves);
    let row = row_of(pos, rows) as u8;
    lemma_has_row_of(pos, rows);
    lemma_low_bit(0, row);
    let leaf = first_leaf(pos, row, rows);
    lemma_differ(leaf, num_leaves);
    lemma_top_bit_of(leaf ^ num_leaves);
    let high = top_bit(leaf ^ num_leaves);
    lemma_tree_bit(leaf, num_leaves, high);
    lemma_popcount_bound((num_leaves >> high) >> 1);
    lemma_popcount_shift(num_leaves, 0, high);
    lemma_low_bit(num_leaves, 0);
    lemma_low_bit(num_leaves >> high, 0);
}

/// A graft at a position of a row leaves alone what hangs at the other
/// positions of the row, and the hashes of all higher rows.
pub proof fn lemma_graft_same_but(
    roots: Seq<PolNode>,
    num_leaves: u64,
    pos: u64,
    scion: PolNode,
)
    requires
        roots.len() == popcount(num_leaves),
        forest_grafted(roots, num_leaves, pos, scion) is Ok,
    ensures
        same_but(
            roots,
            forest_grafted(roots, num_leaves, pos, scion)->Ok_0.0,
            num_leaves,
            row_of(pos, tree_rows_of(num_leaves)),
            pos,
            pos,
        ),
{
    let after = forest_grafted(roots, num_leaves, pos, scion)->Ok_0.0;
    let row = row_of(pos, tree_rows_of(num_leaves));
    assert forall|other: u64|
        in_forest(other, num_leaves) && row_of(other, tree_rows_of(num_leaves)) == row && other
            != pos implies #[trigger] forest_subtree(after, num_leaves, other) == forest_subtree(
        roots,
        num_leaves,
        other,
    ) by {
        lemma_apart(pos, other, num_leaves);
        lemma_tree_index(other, num_leaves);
        lemma_forest_graft(roots, num_leaves, pos, scion, other);
    }
    assert forall|other: u64|
        in_forest(other, num_leaves) && row_of(other, tree_rows_of(num_leaves))
            > row implies (#[trigger] forest_subtree(after, num_leaves, other)).data
        == forest_subtree(roots, num_leaves, other).data by {
        lemma_tree_index(other, num_leaves);
        lemma_forest_graft_keeps_hash(roots, num_leaves, pos, scion, other);
    }
    lemma_forest_graft(roots, num_leaves, pos, scion, pos);
}

/// What two changes in a row leave alone, one after the other.
pub proof fn lemma_same_but_then(
    first: Seq<PolNode>,
    second: Seq<PolNode>,
    third: Seq<PolNode>,
    num_leaves: u64,
    row: nat,
    a: u64,
    b: u64,
)
    requires
        same_but(first, second, num_leaves, row, a, b),
        same_but(second, third, num_leaves, row, a, b),
    ensures
        same_but(first, third, num_leaves, row, a, b),
{
    assert forall|pos: u64|
        in_forest(pos, num_leaves) && row_of(pos, tree_rows_of(num_leaves)) == row && pos != a
            && pos != b implies #[trigger] forest_subtree(third, num_leaves, pos)
        == forest_subtree(first, num_leaves, pos) by {
        assert(forest_subtree(second, num_leaves, pos) == forest_subtree(first, num_leaves, pos));
    }
    assert forall|pos: u64|
        in_forest(pos, num_leaves) && row_of(pos, tree_rows_of(num_leaves)) > row implies (
    #[trigger] forest_subtree(third, num_leaves, pos)).data == forest_subtree(
        first,
        num_leaves,
        pos,
    ).data by {
        assert(forest_subtree(second, num_leaves, pos).data == forest_subtree(
            first,
            num_leaves,
            pos,
        ).data);
    }
}

/// A change that leaves all but one place alone leaves all but two alone.
pub proof fn lemma_same_but_more(
    before: Seq<PolNode>,
    after: Seq<PolNode>,
    num_leaves: u64,
    row: nat,
    a: u64,
    b: u64,
    c: u64,
)
    requires
        same_but(before, after, num_leaves, row, a, a),
        a == b || a == c,
    ensures
        same_but(before, after, num_leaves, row, b, c),
{
}

/// What a swap does: the subtrees at its two ends change places, and
/// what hangs elsewhere in the row, and the hashes of all higher rows,
/// stay.
pub proof fn lemma_swap_does(roots: Seq<PolNode>, num_leaves: u64, arrow: Arrow)
    requires
        roots.len() == popcount(num_leaves),
        forest_swapped(roots, num_leaves, arrow) is Ok,
        row_of(arrow.from, tree_rows_of(num_leaves)) == row_of(
            arrow.to,
            tree_rows_of(num_leaves),
        ),
        arrow.from != arrow.to,
    ensures
        ({
            let after = forest_swapped(roots, num_leaves, arrow)->Ok_0;
            &&& forest_subtree(after, num_leaves, arrow.to) == forest_subtree(
                roots,
                num_leaves,
                arrow.from,
            )
            &&& forest_subtree(after, num_leaves, arrow.from) == forest_subtree(
                roots,
                num_leaves,
                arrow.to,
            )
            &&& same_but(
                roots,
                after,
                num_leaves,
                row_of(arrow.from, tree_rows_of(num_leaves)),
                arrow.from,
                arrow.to,
            )
        }),
{
    let row = row_of(arrow.from, tree_rows_of(num_leaves));
    lemma_apart(arrow.from, arrow.to, num_leaves);
    lemma_swap_exchanges(roots, num_leaves, arrow);
    let first = forest_grafted(roots, num_leaves, arrow.from, blank())->Ok_0;
    lemma_graft_same_but(roots, num_leaves, arrow.from, blank());
    lemma_same_but_more(roots, first.0, num_leaves, row, arrow.from, arrow.from, arrow.to);
    let second = forest_grafted(first.0, num_leaves, arrow.to, first.1)->Ok_0;
    lemma_graft_same_but(first.0, num_leaves, arrow.to, first.1);
    lemma_same_but_more(first.0, second.0, num_leaves, row, arrow.to, arrow.from, arrow.to);
    let third = forest_grafted(second.0, num_leaves, arrow.from, second.1)->Ok_0;
    lemma_graft_same_but(second.0, num_leaves, arrow.from, second.1);
    lemma_same_but_more(second.0, third.0, num_leaves, row, arrow.from, arrow.from, arrow.to);
    lemma_same_but_then(roots, first.0, second.0, num_leaves, row, arrow.from, arrow.to);
    lemma_same_but_then(roots, second.0, third.0, num_leaves, row, arrow.from, arrow.to);
}

/// What computing a hash anew does: the node carries the hash of its two
/// children and keeps what hangs below it, and what hangs elsewhere in
/// the row, and the hashes of all higher rows, stay.
pub proof fn lemma_rehash_does(roots: Seq<PolNode>, num_leaves: u64, pos: u64)
    requires
        roots.len() == popcount(num_leaves),
        forest_rehashed(roots, num_leaves, pos) is Ok,
    ensures
        ({
            let after = forest_rehashed(roots, num_leaves, pos)->Ok_0;
            let unit = forest_subtree(roots, num_leaves, pos);
            &&& unit.aunt_hash() is Ok
            &&& forest_subtree(after, num_leaves, pos) == (PolNode {
                data: unit.aunt_hash()->Ok_0,
                l_niece: unit.l_niece,
                r_niece: unit.r_niece,
            })
            &&& same_but(
                roots,
                after,
                num_leaves,
                row_of(pos, tree_rows_of(num_leaves)),
                pos,
                pos,
            )
        }),
{
    let row = row_of(pos, tree_rows_of(num_leaves));
    lemma_rehash_sets(roots, num_leaves, pos);
    let first = forest_grafted(roots, num_leaves, pos, blank())->Ok_0;
    lemma_graft_same_but(roots, num_leaves, pos, blank());
    let fresh = PolNode {
        data: first.1.aunt_hash()->Ok_0,
        l_niece: first.1.l_niece,
        r_niece: first.1.r_niece,
    };
    lemma_graft_same_but(first.0, num_leaves, pos, fresh);
    lemma_same_but_then(
        roots,
        first.0,
        forest_grafted(first.0, num_leaves, pos, fresh)->Ok_0.0,
        num_leaves,
        row,
        pos,
        pos,
    );
}

} // verus!
