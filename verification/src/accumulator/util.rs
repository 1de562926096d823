//! Position arithmetic of the forest.
//!
//! A forest with `forest_rows` rows numbers its nodes row by row: the
//! leaves from 0, then their parents, up to the single node of the top
//! row. Every position fits in the low `forest_rows + 1` bits, and the row
//! of a position is the number of set bits that lead that window.
use crate::accumulator::types::AccumulatorError;
use vstd::arithmetic::power2::{lemma2_to64, lemma2_to64_rest, lemma_pow2_unfold, pow2};
use vstd::prelude::*;
use vstd::std_specs::bits::{axiom_u64_leading_zeros, axiom_u64_trailing_zeros};

verus! {

/// The largest leaf count whose forest can be addressed with 64-bit positions.
pub const MAX_LEAVES: u64 = 0x8000_0000_0000_0000;

/// The low `forest_rows + 1` bits set.
pub open spec fn forest_mask(forest_rows: u8) -> u64 {
    u64::MAX >> ((63 - forest_rows) as u64)
}

/// The parent of `pos`.
pub open spec fn parent_of(pos: u64, forest_rows: u8) -> u64 {
    (pos >> 1) | (1u64 << forest_rows)
}

/// The left child of `pos`.
pub open spec fn child_of(pos: u64, forest_rows: u8) -> u64 {
    (pos << 1) & forest_mask(forest_rows)
}

/// `parent_of`, applied `rise` times.
pub open spec fn ancestor_of(pos: u64, rise: u8, forest_rows: u8) -> u64
    decreases rise,
{
    if rise == 0 {
        pos
    } else {
        parent_of(ancestor_of(pos, (rise - 1) as u8, forest_rows), forest_rows)
    }
}

/// `child_of`, applied `drop` times.
pub open spec fn descendant_of(pos: u64, drop: u8, forest_rows: u8) -> u64
    decreases drop,
{
    if drop == 0 {
        pos
    } else {
        child_of(descendant_of(pos, (drop - 1) as u8, forest_rows), forest_rows)
    }
}

/// The row of `pos`: the number of set bits that lead the low
/// `forest_rows + 1` bits of `pos`.
pub open spec fn row_of(pos: u64, forest_rows: u8) -> nat
    decreases forest_rows,
{
    if pos & (1u64 << forest_rows) == 0 {
        0
    } else if forest_rows == 0 {
        1
    } else {
        1 + row_of(pos, (forest_rows - 1) as u8)
    }
}

/// `pos` lies in row `row`: the top `row` bits of its window are set and
/// the next one is clear. Row `forest_rows + 1` stands for the one value
/// past the top of the forest.
pub open spec fn has_row(pos: u64, row: u8, forest_rows: u8) -> bool {
    let m = forest_mask(forest_rows);
    if row <= forest_rows {
        (pos | (m >> row)) & m == m && pos & (1u64 << ((forest_rows - row) as u8)) == 0
    } else {
        row == forest_rows + 1 && pos & m == m
    }
}

/// The first position of row `row`: the top `row` bits of the window set.
pub open spec fn row_start_of(row: u8, forest_rows: u8) -> u64 {
    forest_mask(forest_rows) & !(forest_mask(forest_rows) >> row)
}

/// The place of `pos` within its row.
pub open spec fn row_offset(pos: u64, row: u8, forest_rows: u8) -> u64 {
    pos & (forest_mask(forest_rows) >> row)
}

/// The first leaf below a position of row `row`.
pub open spec fn first_leaf(pos: u64, row: u8, forest_rows: u8) -> u64 {
    row_offset(pos, row, forest_rows) << row
}

/// `bit` is the highest set bit of `x`.
pub open spec fn is_top_bit(x: u64, bit: u8) -> bool {
    bit < 64 && x >> bit == 1
}

/// The highest set bit of a non-zero `x`.
pub open spec fn top_bit(x: u64) -> u8 {
    choose|bit: u8| is_top_bit(x, bit)
}

/// What `n_grandparent` returns for a rise within the forest.
pub open spec fn n_grandparent_of(pos: u64, rise: u8, forest_rows: u8) -> u64 {
    if rise == 0 {
        pos
    } else {
        ancestor_of(pos, rise, forest_rows) & forest_mask(forest_rows)
    }
}

/// The position of the root of row `row`, where the forest has one:
/// the top `row` bits of the window, then the leaf count above that row.
pub open spec fn root_position_of(num_leaves: u64, row: u8, forest_rows: u8) -> u64 {
    let m = forest_mask(forest_rows);
    (((num_leaves >> row) & !1u64) | (m & !(m >> row))) & m
}

/// The positions of the roots of the rows below `upto`, lowest row first.
pub open spec fn roots_upto(num_leaves: u64, forest_rows: u8, upto: nat) -> Seq<u64>
    decreases upto,
{
    if upto == 0 {
        Seq::empty()
    } else {
        let head = roots_upto(num_leaves, forest_rows, (upto - 1) as nat);
        if (num_leaves >> ((upto - 1) as u8)) & 1 == 1 {
            head.push(root_position_of(num_leaves, (upto - 1) as u8, forest_rows))
        } else {
            head
        }
    }
}

/// `pos` names a node of the forest of `num_leaves` leaves: it lies in one
/// of the rows, and every leaf below it exists.
pub open spec fn in_forest(pos: u64, num_leaves: u64) -> bool {
    let rows = tree_rows_of(num_leaves);
    let row = row_of(pos, rows);
    &&& 0 < num_leaves <= MAX_LEAVES
    &&& pos <= forest_mask(rows)
    &&& row <= rows
    &&& first_leaf(pos, row as u8, rows) + (1u64 << (row as u8)) <= num_leaves
}

/// The height of the tree that holds leaf `leaf`: the highest bit in which
/// the leaf and the leaf count differ.
pub open spec fn tree_height_of(leaf: u64, num_leaves: u64) -> u8 {
    top_bit(leaf ^ num_leaves)
}

/// Where a node of the forest hangs: how many taller trees stand before
/// its tree, how many levels it lies below its root, and the turns of the
/// way down, the first turn in the highest of those bits (0 left, 1 right).
pub open spec fn offset_of(pos: u64, num_leaves: u64) -> (u8, u8, u64) {
    let rows = tree_rows_of(num_leaves);
    let row = row_of(pos, rows) as u8;
    let height = tree_height_of(first_leaf(pos, row, rows), num_leaves);
    let branch = (height - row) as u8;
    (
        popcount((num_leaves >> height) >> 1) as u8,
        branch,
        pos & (((1u64 << branch) - 1) as u64),
    )
}

/// Each element is less than those behind it.
pub open spec fn rising(s: Seq<u64>) -> bool {
    forall|i: int, j: int| 0 <= i < j < s.len() ==> s[i] < s[j]
}

/// The parents of the sibling pairs that stand next to each other in `nodes`.
pub open spec fn twin_parents(nodes: Seq<u64>, forest_rows: u8) -> Seq<u64>
    decreases nodes.len(),
{
    if nodes.len() < 2 {
        Seq::empty()
    } else {
        let head = twin_parents(nodes.drop_last(), forest_rows);
        if nodes[nodes.len() - 2] | 1 == nodes.last() {
            head.push(parent_of(nodes[nodes.len() - 2], forest_rows))
        } else {
            head
        }
    }
}

/// The sibling pairs that stand next to each other in `nodes`, in order.
pub open spec fn twins(nodes: Seq<u64>) -> Seq<u64>
    decreases nodes.len(),
{
    if nodes.len() < 2 {
        Seq::empty()
    } else {
        let head = twins(nodes.drop_last());
        if nodes[nodes.len() - 2] | 1 == nodes.last() {
            head.push(nodes[nodes.len() - 2]).push(nodes.last())
        } else {
            head
        }
    }
}

/// The number of set bits of `n`.
pub open spec fn popcount(n: u64) -> nat
    decreases n,
{
    if n == 0 {
        0
    } else {
        (n % 2) as nat + popcount(n / 2)
    }
}

/// `t` has exactly one bit set.
pub open spec fn is_power_of_two(t: u64) -> bool {
    t != 0 && t & ((t - 1) as u64) == 0
}

/// `t` with every bit below its highest set bit set as well.
pub open spec fn smear_right(t: u64) -> u64 {
    let a = t | (t >> 1);
    let b = a | (a >> 2);
    let c = b | (b >> 4);
    let d = c | (c >> 8);
    let e = d | (d >> 16);
    e | (e >> 32)
}

/// `rows` is the number of rows of a forest of `n` leaves: the least `r`
/// with `n <= 2^r`, and 0 where no leaf or no such forest exists.
pub open spec fn is_tree_rows(n: u64, rows: u8) -> bool {
    if n == 0 || n > MAX_LEAVES {
        rows == 0
    } else {
        &&& rows <= 63
        &&& n <= (1u64 << rows)
        &&& (rows > 0 ==> (1u64 << ((rows - 1) as u8)) < n)
    }
}

/// The number of rows of a forest of `n` leaves.
pub open spec fn tree_rows_of(n: u64) -> u8 {
    choose|rows: u8| is_tree_rows(n, rows)
}

/// `u64::count_ones` returns the number of ones in the binary
/// representation of its argument.
pub assume_specification[ u64::count_ones ](n: u64) -> (r: u32)
    ensures
        r == popcount(n),
;

proof fn lemma_popcount_below(n: u64, k: nat)
    requires
        k <= 64,
        n < pow2(k),
    ensures
        popcount(n) <= k,
    decreases k,
{
    if n != 0 {
        if k == 0 {
            lemma2_to64();
        } else {
            lemma_pow2_unfold(k);
            lemma_popcount_below(n / 2, (k - 1) as nat);
        }
    }
}

/// No 64-bit number has more than 64 bits set.
pub proof fn lemma_popcount_bound(n: u64)
    ensures
        popcount(n) <= 64,
{
    lemma2_to64_rest();
    lemma_popcount_below(n, 64);
}

proof fn lemma_tree_rows_from(n: u64, rows: u8)
    requires
        0 < n <= MAX_LEAVES,
        rows <= 63,
        rows > 0 ==> (1u64 << ((rows - 1) as u8)) < n,
    ensures
        exists|found: u8| is_tree_rows(n, found),
    decreases 63 - rows,
{
    if n <= (1u64 << rows) {
        assert(is_tree_rows(n, rows));
    } else {
        lemma_low_bit(0, 0);
        lemma_tree_rows_from(n, (rows + 1) as u8);
    }
}

/// Every leaf count has its number of rows.
pub proof fn lemma_tree_rows_of(n: u64)
    ensures
        is_tree_rows(n, tree_rows_of(n)),
{
    if n == 0 || n > MAX_LEAVES {
        assert(is_tree_rows(n, 0));
    } else {
        lemma_tree_rows_from(n, 0);
    }
}

/// The lowest bit of a number says whether it is odd, a shift by one
/// halves it, a bit that is shifted up is no less than 1, and the low
/// bits of a number have nothing above them.
pub proof fn lemma_low_bit(x: u64, shift: u8)
    by (bit_vector)
    requires
        shift < 64,
    ensures
        x & 1 == x % 2,
        x >> 1 == x / 2,
        1u64 << shift >= 1,
        (x & (((1u64 << shift) - 1) as u64)) >> shift == 0,
        x >> 0u8 == x,
        shift < 63 ==> (x >> shift) >> 1 == x >> ((shift + 1) as u8),
        1u64 << 63u8 == 0x8000_0000_0000_0000u64,
        x >> 63u8 <= 1,
        shift < 63 ==> (x >> 1) >> shift == x >> ((shift + 1) as u8),
{
}

/// Two row counts of one leaf count are the same.
pub proof fn lemma_tree_rows_unique(n: u64, a: u8, b: u8)
    requires
        is_tree_rows(n, a),
        is_tree_rows(n, b),
    ensures
        a == b,
{
    if !(n == 0 || n > MAX_LEAVES) {
        assert(a <= 63 && b <= 63 && n <= (1u64 << a) && n <= (1u64 << b) && (a > 0 ==> (1u64 << ((a
            - 1) as u8)) < n) && (b > 0 ==> (1u64 << ((b - 1) as u8)) < n) ==> a == b)
            by (bit_vector);
    }
}

/// The mask of a forest: its low `forest_rows + 1` bits set, which is
/// `(2 << forest_rows) - 1` wherever that fits.
pub fn mask(forest_rows: u8) -> (m: u64)
    requires
        forest_rows < 64,
    ensures
        m == forest_mask(forest_rows),
        forest_rows < 63 ==> m == (2u64 << forest_rows) - 1,
{
    let m: u64 = u64::MAX >> (63 - forest_rows);
    proof {
        let r: u64 = forest_rows as u64;
        assert(r < 63 ==> (0xffff_ffff_ffff_ffffu64 >> ((63 - r) as u64)) == (2u64 << r) - 1)
            by (bit_vector);
    }
    m
}

/// The first position of row `row`.
pub fn row_start(row: u8, forest_rows: u8) -> (p: u64)
    requires
        row < 64,
        forest_rows < 64,
    ensures
        p == row_start_of(row, forest_rows),
{
    let m = mask(forest_rows);
    m & !(m >> row)
}

/// The parent of `pos`.
pub fn parent(pos: u64, forest_rows: u8) -> (p: u64)
    requires
        forest_rows < 64,
    ensures
        p == parent_of(pos, forest_rows),
{
    (pos >> 1) | (1 << forest_rows)
}

/// The left child of `pos`: its lowest bit is 0.
pub fn child(pos: u64, forest_rows: u8) -> (c: u64)
    requires
        forest_rows < 64,
    ensures
        c == child_of(pos, forest_rows),
{
    let m: u64 = mask(forest_rows);
    (pos << 1) & m
}

/// The cousin of `pos`: the child, on the same side, of the parent's sibling.
pub fn cousin(pos: u64) -> (c: u64)
    ensures
        c == pos ^ 2,
{
    pos ^ 2
}

/// The number of roots of a forest of `num_leaves` leaves.
pub fn num_roots(num_leaves: u64) -> (r: u8)
    ensures
        r == popcount(num_leaves),
{
    proof {
        lemma_popcount_bound(num_leaves);
    }
    num_leaves.count_ones() as u8
}

/// The largest power of two that does not exceed `n`, and 0 for 0.
pub fn previous_pow2(n: u64) -> (p: u64)
    ensures
        n == 0 ==> p == 0,
        n > 0 ==> is_power_of_two(p) && p <= n && n / 2 < p,
{
    let mut x: u64 = n | (n >> 1);
    x = x | (x >> 2);
    x = x | (x >> 4);
    x = x | (x >> 8);
    x = x | (x >> 16);
    x = x | (x >> 32);
    proof {
        assert(x == smear_right(n));
        assert({
            let s = smear_right(n);
            let p = (s - (s >> 1)) as u64;
            &&& s >= (s >> 1)
            &&& (n == 0 ==> p == 0)
            &&& (n > 0 ==> is_power_of_two(p) && p <= n && n / 2 < p)
        }) by (bit_vector);
    }
    x - (x >> 1)
}

/// The least power of two that is not below `n`. By convention 0 for 0,
/// and 0 as well where that power does not fit in 64 bits.
pub fn next_pow2(n: u64) -> (t: u64)
    ensures
        n == 0 || n > MAX_LEAVES ==> t == 0,
        0 < n <= MAX_LEAVES ==> is_power_of_two(t) && n <= t && t / 2 < n,
{
    if n == 0 {
        return 0;
    }
    let mut t: u64 = n - 1;
    t = t | (t >> 1);
    t = t | (t >> 2);
    t = t | (t >> 4);
    t = t | (t >> 8);
    t = t | (t >> 16);
    t = t | (t >> 32);
    proof {
        assert(t == smear_right((n - 1) as u64));
        assert(n > 0 ==> {
            let s = smear_right((n - 1) as u64);
            let t = (s + 1) as u64;
            &&& (n > 0x8000_0000_0000_0000u64 ==> s == 0xffff_ffff_ffff_ffffu64)
            &&& (n <= 0x8000_0000_0000_0000u64 ==> s < 0xffff_ffff_ffff_ffffu64 && is_power_of_two(
                t,
            ) && n <= t && t / 2 < n)
        }) by (bit_vector);
    }
    t.wrapping_add(1)
}

/// The number of rows of a forest of `n` leaves.
pub fn tree_rows(n: u64) -> (rows: u8)
    ensures
        is_tree_rows(n, rows),
        rows == tree_rows_of(n),
{
    let t = next_pow2(n);
    let z: u32 = t.trailing_zeros();
    proof {
        axiom_u64_trailing_zeros(t);
        let zz: u64 = z as u64;
        assert(zz <= 64);
        assert((z & !64u32) == (if z == 64 { 0u32 } else { z })) by (bit_vector)
            requires
                z <= 64,
        ;
        if 0 < n <= MAX_LEAVES {
            assert(zz < 64);
            assert((t >> zz) & 1 == 1);
            assert(t == 1u64 << zz && (zz > 0 ==> (1u64 << ((zz - 1) as u64)) == (1u64 << zz)
                / 2)) by (bit_vector)
                requires
                    zz < 64,
                    is_power_of_two(t),
                    (t >> zz) & 1 == 1,
            ;
        }
    }
    let rows = (z & !64) as u8;
    proof {
        assert(is_tree_rows(n, rows));
        lemma_tree_rows_unique(n, rows, tree_rows_of(n));
    }
    rows
}

/// One position has one row.
pub proof fn lemma_row_of_has_row(pos: u64, row: u8, forest_rows: u8)
    requires
        forest_rows < 64,
        has_row(pos, row, forest_rows),
    ensures
        row_of(pos, forest_rows) == row,
    decreases forest_rows,
{
    let m = forest_mask(forest_rows);
    if row == 0 {
    } else if forest_rows == 0 {
        assert(forest_mask(0) == 1u64 && (pos & 1u64 == 1u64 ==> pos & (1u64 << 0u8) != 0))
            by (bit_vector);
    } else {
        let below = (forest_rows - 1) as u8;
        let up = (row - 1) as u8;
        assert(pos & (1u64 << forest_rows) != 0 && has_row(pos, up, below)) by (bit_vector)
            requires
                0 < forest_rows < 64,
                row > 0,
                below == forest_rows - 1,
                up == row - 1,
                has_row(pos, row, forest_rows),
        ;
        lemma_row_of_has_row(pos, up, below);
    }
}

/// Two highest set bits of one number are the same.
pub proof fn lemma_top_bit_unique(x: u64, a: u8, b: u8)
    requires
        is_top_bit(x, a),
        is_top_bit(x, b),
    ensures
        a == b,
        top_bit(x) == a,
{
    lemma_top_bits_agree(x, a, b);
    lemma_top_bits_agree(x, a, top_bit(x));
}

proof fn lemma_top_bits_agree(x: u64, a: u8, b: u8)
    by (bit_vector)
    requires
        a < 64,
        b < 64,
        x >> a == 1,
        x >> b == 1,
    ensures
        a == b,
{
}

/// The highest set bit of a non-zero number.
pub fn highest_bit(x: u64) -> (bit: u8)
    requires
        x != 0,
    ensures
        is_top_bit(x, bit),
        bit == top_bit(x),
{
    let z: u32 = x.leading_zeros();
    proof {
        axiom_u64_leading_zeros(x);
        let zz: u64 = z as u64;
        let b: u64 = (63 - zz) as u64;
        let s: u64 = (64 - zz) as u64;
        assert((x >> b) & 1 != 0);
        assert(x >> s == 0);
        assert(x >> b == 1) by (bit_vector)
            requires
                b < 64,
                s == b + 1,
                (x >> b) & 1 != 0,
                b < 63 ==> x >> s == 0,
        ;
    }
    let bit = (63 - z) as u8;
    proof {
        lemma_top_bit_unique(x, bit, bit);
    }
    bit
}

/// The row of `pos` in a forest of `forest_rows` rows; `forest_rows + 1`
/// for the one value past the top.
pub fn detect_row(pos: u64, forest_rows: u8) -> (row: u8)
    requires
        forest_rows < 64,
    ensures
        row == row_of(pos, forest_rows),
        has_row(pos, row, forest_rows),
        row <= forest_rows + 1,
{
    let m = mask(forest_rows);
    let open: u64 = !pos & m;
    if open == 0 {
        proof {
            lemma_differ(pos, m);
            lemma_row_of_has_row(pos, (forest_rows + 1) as u8, forest_rows);
        }
        return forest_rows + 1;
    }
    let bit = highest_bit(open);
    proof {
        assert(bit <= forest_rows && has_row(pos, (forest_rows - bit) as u8, forest_rows))
            by (bit_vector)
            requires
                forest_rows < 64,
                bit < 64,
                m == forest_mask(forest_rows),
                open == !pos & m,
                open >> bit == 1,
        ;
        lemma_row_of_has_row(pos, (forest_rows - bit) as u8, forest_rows);
    }
    forest_rows - bit
}

/// The ancestor `rise` rows above `pos`; refused where the forest has
/// fewer rows than that.
pub fn n_grandparent(pos: u64, rise: u8, forest_rows: u8) -> (r: Result<u64, AccumulatorError>)
    requires
        forest_rows < 64,
    ensures
        rise > forest_rows ==> r == Err::<u64, AccumulatorError>(
            AccumulatorError::ArithmeticOutOfRange,
        ),
        rise <= forest_rows ==> r == Ok::<u64, AccumulatorError>(
            n_grandparent_of(pos, rise, forest_rows),
        ),
{
    if rise == 0 {
        return Ok(pos);
    }
    if rise > forest_rows {
        return Err(AccumulatorError::ArithmeticOutOfRange);
    }
    let m = mask(forest_rows);
    proof {
        lemma_ancestor_closed(pos, rise, forest_rows);
        assert(((pos >> rise) | (m << ((forest_rows - (rise - 1)) as u8))) & m == ((pos >> rise) | (
        m & !(m >> rise))) & m) by (bit_vector)
            requires
                0 < rise <= forest_rows < 64,
                m == forest_mask(forest_rows),
        ;
    }
    Ok(((pos >> rise) | (m << (forest_rows - (rise - 1)))) & m)
}

/// The leftmost descendant `drop` rows below `pos`; refused where the
/// forest has fewer rows than that.
pub fn n_grandchild(pos: u64, drop: u8, forest_rows: u8) -> (r: Result<u64, AccumulatorError>)
    requires
        forest_rows < 64,
    ensures
        drop > forest_rows ==> r == Err::<u64, AccumulatorError>(
            AccumulatorError::ArithmeticOutOfRange,
        ),
        drop <= forest_rows ==> r == Ok::<u64, AccumulatorError>(
            descendant_of(pos, drop, forest_rows),
        ),
{
    if drop == 0 {
        return Ok(pos);
    }
    if drop > forest_rows {
        return Err(AccumulatorError::ArithmeticOutOfRange);
    }
    let m = mask(forest_rows);
    proof {
        lemma_descendant_closed(pos, drop, forest_rows);
    }
    Ok((pos << drop) & m)
}

/// The position of the root of row `row`.
pub fn root_position(num_leaves: u64, row: u8, forest_rows: u8) -> (p: u64)
    requires
        row < 64,
        forest_rows < 64,
    ensures
        p == root_position_of(num_leaves, row, forest_rows),
{
    let m = mask(forest_rows);
    let before = (num_leaves >> row) & !1;
    let shifted = before | (m & !(m >> row));
    shifted & m
}

/// The positions of the roots of the forest, that of the lowest row first.
pub fn get_roots_reverse(num_leaves: u64, forest_rows: u8) -> (roots: Vec<u64>)
    requires
        forest_rows < 64,
    ensures
        roots@ == roots_upto(num_leaves, forest_rows, (forest_rows + 1) as nat),
{
    let mut roots: Vec<u64> = Vec::new();
    let mut row: u8 = 0;
    while row <= forest_rows
        invariant
            forest_rows < 64,
            row <= forest_rows + 1,
            roots@ == roots_upto(num_leaves, forest_rows, row as nat),
        decreases forest_rows + 1 - row,
    {
        if (num_leaves >> row) & 1 == 1 {
            roots.push(root_position(num_leaves, row, forest_rows));
        }
        row += 1;
    }
    roots
}

/// Where `pos` hangs in the forest of `num_leaves` leaves; refused where
/// the forest has no such node.
pub fn detect_offset(pos: u64, num_leaves: u64) -> (r: Result<(u8, u8, u64), AccumulatorError>)
    ensures
        in_forest(pos, num_leaves) ==> r == Ok::<(u8, u8, u64), AccumulatorError>(
            offset_of(pos, num_leaves),
        ),
        !in_forest(pos, num_leaves) ==> r == Err::<(u8, u8, u64), AccumulatorError>(
            AccumulatorError::InvalidPosition,
        ),
        r is Ok ==> r->Ok_0.1 < 64,
{
    if num_leaves == 0 || num_leaves > MAX_LEAVES {
        return Err(AccumulatorError::InvalidPosition);
    }
    let rows = tree_rows(num_leaves);
    let m = mask(rows);
    if pos > m {
        return Err(AccumulatorError::InvalidPosition);
    }
    let row = detect_row(pos, rows);
    if row > rows {
        return Err(AccumulatorError::InvalidPosition);
    }
    let leaf = (pos & (m >> row)) << row;
    proof {
        lemma_first_leaf_up(pos, row, (row + 1) as u8, rows);
        lemma_low_bit(0, row);
        lemma_differ(leaf, num_leaves);
    }
    if leaf + (1 << row) > num_leaves {
        return Err(AccumulatorError::InvalidPosition);
    }
    let height = highest_bit(leaf ^ num_leaves);
    proof {
        lemma_same_tree_up(leaf, num_leaves, row, (row + 1) as u8, rows, height);
    }
    let tree = num_roots((num_leaves >> height) >> 1);
    let branch = height - row;
    proof {
        lemma_low_bit(0, branch);
    }
    let bits = pos & ((1 << branch) - 1);
    Ok((tree, branch, bits))
}

/// The height of the tree that holds leaf `pos`; refused where the forest
/// has no such leaf.
pub fn detect_sub_tree_rows(pos: u64, num_leaves: u64) -> (r: Result<u8, AccumulatorError>)
    ensures
        pos < num_leaves ==> r == Ok::<u8, AccumulatorError>(tree_height_of(pos, num_leaves)),
        pos >= num_leaves ==> r == Err::<u8, AccumulatorError>(AccumulatorError::InvalidPosition),
{
    if pos >= num_leaves {
        return Err(AccumulatorError::InvalidPosition);
    }
    let subtree_leaves = previous_pow2(pos ^ num_leaves);
    let rows = tree_rows(subtree_leaves);
    proof {
        let d = pos ^ num_leaves;
        lemma_differ(pos, num_leaves);
        lemma_differ(subtree_leaves, 0);
        assert(d >> rows == 1) by (bit_vector)
            requires
                rows <= 63,
                is_power_of_two(subtree_leaves),
                subtree_leaves <= d,
                d / 2 < subtree_leaves,
                subtree_leaves <= (1u64 << rows),
                rows > 0 ==> (1u64 << ((rows - 1) as u8)) < subtree_leaves,
        ;
        lemma_top_bit_unique(d, rows, rows);
    }
    Ok(rows)
}

/// Finds the siblings that are deleted together: where two neighbours of
/// `nodes` are the left and right child of one parent, the parent goes to
/// the first list and both children to the second. With fewer than two
/// nodes there is no pair, whatever `forest_rows` is.
pub fn extract_twins(nodes: Vec<u64>, forest_rows: u8) -> (r: (Vec<u64>, Vec<u64>))
    requires
        nodes@.len() >= 2 ==> forest_rows < 64,
    ensures
        r.0@ == twin_parents(nodes@, forest_rows),
        r.1@ == twins(nodes@),
{
    let mut parents: Vec<u64> = Vec::new();
    let mut twined: Vec<u64> = Vec::new();
    let mut i: usize = 1;
    while i < nodes.len()
        invariant
            nodes@.len() >= 2 ==> forest_rows < 64,
            1 <= i,
            i <= nodes.len() || nodes.len() == 0,
            nodes.len() > 0 ==> parents@ == twin_parents(nodes@.take(i as int), forest_rows),
            nodes.len() > 0 ==> twined@ == twins(nodes@.take(i as int)),
            nodes.len() == 0 ==> parents@.len() == 0 && twined@.len() == 0,
        decreases nodes.len() - i,
    {
        proof {
            assert(nodes@.take(i + 1).drop_last() =~= nodes@.take(i as int));
        }
        if nodes[i - 1] | 1 == nodes[i] {
            parents.push(parent(nodes[i - 1], forest_rows));
            twined.push(nodes[i - 1]);
            twined.push(nodes[i]);
        }
        i += 1;
    }
    proof {
        assert(nodes@.take(nodes@.len() as int) =~= nodes@);
        if nodes.len() == 0 {
            assert(parents@ =~= twin_parents(nodes@, forest_rows));
            assert(twined@ =~= twins(nodes@));
        }
    }
    (parents, twined)
}

/// Rising `rise` rows shifts the position right and fills the top of the
/// window with set bits.
pub proof fn lemma_ancestor_closed(pos: u64, rise: u8, forest_rows: u8)
    requires
        rise <= forest_rows < 64,
    ensures
        ancestor_of(pos, rise, forest_rows) == (pos >> rise) | (forest_mask(forest_rows) & !(
        forest_mask(forest_rows) >> rise)),
    decreases rise,
{
    let m = forest_mask(forest_rows);
    if rise == 0 {
        lemma_differ(pos, m);
    } else {
        let less = (rise - 1) as u8;
        lemma_ancestor_closed(pos, less, forest_rows);
        assert((((pos >> less) | (m & !(m >> less))) >> 1) | (1u64 << forest_rows) == (pos >> rise)
            | (m & !(m >> rise))) by (bit_vector)
            requires
                0 < rise <= forest_rows < 64,
                less == rise - 1,
                m == forest_mask(forest_rows),
        ;
    }
}

/// Dropping `drop` rows shifts the position left within the window.
pub proof fn lemma_descendant_closed(pos: u64, drop: u8, forest_rows: u8)
    requires
        0 < drop <= forest_rows < 64,
    ensures
        descendant_of(pos, drop, forest_rows) == (pos << drop) & forest_mask(forest_rows),
    decreases drop,
{
    let m = forest_mask(forest_rows);
    if drop == 1 {
        assert(descendant_of(pos, 0, forest_rows) == pos);
    } else {
        let less = (drop - 1) as u8;
        lemma_descendant_closed(pos, less, forest_rows);
        assert((((pos << less) & m) << 1) & m == (pos << drop) & m) by (bit_vector)
            requires
                1 < drop <= forest_rows < 64,
                less == drop - 1,
                m == forest_mask(forest_rows),
        ;
    }
}

/// The first leaf below a node has no bit below the row of the node, and
/// the first leaf below the parent is the same leaf without the bit of
/// that row.
pub(crate) proof fn lemma_first_leaf_up(pos: u64, row: u8, above: u8, rows: u8)
    by (bit_vector)
    requires
        row <= rows < 64,
        above == row + 1,
        pos <= forest_mask(rows),
        has_row(pos, row, rows),
    ensures
        first_leaf(pos, row, rows) & (((1u64 << row) - 1) as u64) == 0,
        first_leaf(pos, row, rows) + (1u64 << row) <= (1u64 << rows),
        (1u64 << rows) <= 0x8000_0000_0000_0000u64,
        row < rows ==> first_leaf(parent_of(pos, rows), above, rows) == first_leaf(
            pos,
            row,
            rows,
        ) & !(1u64 << row),
{
}

/// A node that lies lower than the top of its tree has its parent in the
/// same tree.
pub(crate) proof fn lemma_same_tree_up(
    leaf: u64,
    num_leaves: u64,
    row: u8,
    above: u8,
    rows: u8,
    height: u8,
)
    by (bit_vector)
    requires
        row <= rows < 64,
        above == row + 1,
        height < 64,
        num_leaves <= (1u64 << rows),
        leaf + (1u64 << row) <= (1u64 << rows),
        leaf & (((1u64 << row) - 1) as u64) == 0,
        leaf + (1u64 << row) <= num_leaves,
        (leaf ^ num_leaves) >> height == 1,
    ensures
        height >= row,
        height <= rows,
        height > row ==> (leaf & !(1u64 << row)) + (1u64 << above) <= num_leaves,
        height > row ==> ((leaf & !(1u64 << row)) ^ num_leaves) >> height == 1,
{
}

/// Numbers that differ differ in a bit, a power of two is no more than
/// 2^63, and what has no bit where a mask has one has all bits of the
/// mask.
pub proof fn lemma_differ(a: u64, b: u64)
    by (bit_vector)
    ensures
        a < b ==> a ^ b != 0,
        is_power_of_two(a) ==> a <= 0x8000_0000_0000_0000u64,
        !a & b == 0 ==> a & b == b,
        (a >> 0u8) | (b & !(b >> 0u8)) == a,
{
}

} // verus!
