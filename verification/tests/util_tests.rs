use rustreexo::accumulator::types::AccumulatorError;
use rustreexo::accumulator::util::{
    child, cousin, detect_offset, detect_row, detect_sub_tree_rows, extract_twins,
    get_roots_reverse, highest_bit,
    mask, n_grandchild, n_grandparent, next_pow2, num_roots, parent, previous_pow2,
    root_position, row_start, tree_rows,
};

#[test]
fn pow_tests() {
    // Check one
    assert_eq!(next_pow2(1), 1);

    // Check 2 through 64
    for i in 2..64u64 {
        let x = 1 << i - 1;
        assert_eq!(next_pow2(x), 1 << (i - 1));
    }
}

#[test]
fn util_test() {
    let test = vec![0, 1, 2, 3, 4, 7, 10];

    println!("hihsidfhisdhifshd");
    let x = extract_twins(test, 4);
    assert_eq!(x.1, vec![0, 1, 2, 3]);
    println!("{:?}", x.0);
    println!("{:?}", x.1);

    for leaf_count in 4..5000 {
        for pos in 0..leaf_count {
            let n_vec = vec![pos, pos | 1, pos + 2, pos + 10];
            let x = extract_twins(n_vec, tree_rows(leaf_count));
            assert_eq!(x.1, vec![pos, pos | 1]);
        }
    }
}

#[test]
fn tree_rows_of_small_forests() {
    assert_eq!(tree_rows(0), 0);
    assert_eq!(tree_rows(1), 0);
    assert_eq!(tree_rows(2), 1);
    assert_eq!(tree_rows(3), 2);
    assert_eq!(tree_rows(4), 2);
    assert_eq!(tree_rows(5), 3);
    assert_eq!(tree_rows(8), 3);
    assert_eq!(tree_rows(9), 4);
    assert_eq!(tree_rows(16), 4);
    assert_eq!(tree_rows(17), 5);
}

#[test]
fn tree_rows_at_the_limits() {
    assert_eq!(tree_rows(1 << 63), 63);
    assert_eq!(tree_rows((1 << 62) + 1), 63);
    assert_eq!(tree_rows(1 << 62), 62);
    assert_eq!(tree_rows((1 << 63) + 1), 0);
    assert_eq!(tree_rows(u64::MAX), 0);
}

#[test]
fn next_pow2_rounds_up() {
    assert_eq!(next_pow2(0), 0);
    assert_eq!(next_pow2(2), 2);
    assert_eq!(next_pow2(3), 4);
    assert_eq!(next_pow2(9), 16);
    assert_eq!(next_pow2(33), 64);
    assert_eq!(next_pow2((1 << 63) - 1), 1 << 63);
    assert_eq!(next_pow2(1 << 63), 1 << 63);
    assert_eq!(next_pow2((1 << 63) + 1), 0);
}

#[test]
fn previous_pow2_rounds_down() {
    assert_eq!(previous_pow2(0), 0);
    assert_eq!(previous_pow2(1), 1);
    assert_eq!(previous_pow2(9), 8);
    assert_eq!(previous_pow2(33), 32);
    assert_eq!(previous_pow2(64), 64);
    assert_eq!(previous_pow2(u64::MAX), 1 << 63);
}

#[test]
fn num_roots_counts_set_bits() {
    assert_eq!(num_roots(0), 0);
    assert_eq!(num_roots(1), 1);
    assert_eq!(num_roots(5), 2);
    assert_eq!(num_roots(255), 8);
    assert_eq!(num_roots(256), 1);
    assert_eq!(num_roots(u64::MAX), 64);
    for n in 0..2000u64 {
        let mut count = 0u8;
        for bit in 0..64 {
            if (n >> bit) & 1 == 1 {
                count += 1;
            }
        }
        assert_eq!(num_roots(n), count);
    }
}

#[test]
fn mask_is_two_shifted_minus_one() {
    assert_eq!(mask(0), 1);
    assert_eq!(mask(3), 15);
    for rows in 0..63u8 {
        assert_eq!(mask(rows), (2u64 << rows) - 1);
    }
    assert_eq!(mask(63), u64::MAX);
}

#[test]
fn parent_and_child_formulas() {
    // a forest of three rows above the leaves: 0..8, 8..12, 12..14, 14
    assert_eq!(parent(0, 3), 8);
    assert_eq!(parent(1, 3), 8);
    assert_eq!(parent(6, 3), 11);
    assert_eq!(parent(7, 3), 11);
    assert_eq!(parent(8, 3), 12);
    assert_eq!(parent(11, 3), 13);
    assert_eq!(parent(12, 3), 14);
    assert_eq!(parent(13, 3), 14);
    assert_eq!(child(14, 3), 12);
    assert_eq!(child(13, 3), 10);
    assert_eq!(child(12, 3), 8);
    assert_eq!(child(8, 3), 0);
    assert_eq!(child(11, 3), 6);
    assert_eq!(cousin(0), 2);
    assert_eq!(cousin(3), 1);
    assert_eq!(cousin(9), 11);
}

#[test]
fn parent_undoes_child_above_the_leaves() {
    for rows in 0..12u8 {
        let m = mask(rows);
        for pos in (1u64 << rows)..=m {
            assert_eq!(parent(child(pos, rows), rows), pos);
        }
    }
    assert_eq!(parent(child(u64::MAX, 63), 63), u64::MAX);
    assert_eq!(parent(child(1 << 63, 63), 63), 1 << 63);
}

#[test]
fn parent_does_not_undo_child_of_a_leaf() {
    assert_eq!(child(3, 3), 6);
    assert_eq!(parent(child(3, 3), 3), 11);
}

#[test]
fn child_of_parent_is_the_left_sibling() {
    for rows in 1..10u8 {
        for pos in 0..(mask(rows) - 1) {
            assert_eq!(child(parent(pos, rows), rows), pos & !1);
        }
    }
}

#[test]
fn detect_row_finds_rows() {
    assert_eq!(detect_row(0, 3), 0);
    assert_eq!(detect_row(7, 3), 0);
    assert_eq!(detect_row(8, 3), 1);
    assert_eq!(detect_row(11, 3), 1);
    assert_eq!(detect_row(12, 3), 2);
    assert_eq!(detect_row(13, 3), 2);
    assert_eq!(detect_row(14, 3), 3);
    assert_eq!(detect_row(15, 3), 4);
    assert_eq!(detect_row(0, 0), 0);
    assert_eq!(detect_row(1, 0), 1);
    assert_eq!(detect_row(0, 63), 0);
    assert_eq!(detect_row(1 << 63, 63), 1);
    assert_eq!(detect_row(u64::MAX - 1, 63), 63);
    assert_eq!(detect_row(u64::MAX, 63), 64);
}

#[test]
fn detect_row_agrees_with_row_start() {
    for rows in 0..10u8 {
        for row in 0..=rows {
            let first = row_start(row, rows);
            let count = 1u64 << (rows - row);
            for pos in first..first + count {
                assert_eq!(detect_row(pos, rows), row);
            }
        }
    }
}

#[test]
fn row_start_values() {
    assert_eq!(row_start(0, 3), 0);
    assert_eq!(row_start(1, 3), 8);
    assert_eq!(row_start(2, 3), 12);
    assert_eq!(row_start(3, 3), 14);
    assert_eq!(row_start(63, 63), u64::MAX - 1);
}

#[test]
fn highest_bit_values() {
    assert_eq!(highest_bit(1), 0);
    assert_eq!(highest_bit(2), 1);
    assert_eq!(highest_bit(3), 1);
    assert_eq!(highest_bit(0x80), 7);
    assert_eq!(highest_bit(u64::MAX), 63);
}

#[test]
fn grandparents_and_grandchildren() {
    assert_eq!(n_grandparent(5, 0, 3), Ok(5));
    assert_eq!(n_grandparent(5, 1, 3), Ok(10));
    assert_eq!(n_grandparent(5, 2, 3), Ok(13));
    assert_eq!(n_grandparent(5, 3, 3), Ok(14));
    assert_eq!(n_grandparent(0, 3, 3), Ok(14));
    assert_eq!(n_grandparent(5, 4, 3), Err(AccumulatorError::ArithmeticOutOfRange));
    assert_eq!(n_grandchild(14, 0, 3), Ok(14));
    assert_eq!(n_grandchild(14, 1, 3), Ok(12));
    assert_eq!(n_grandchild(14, 2, 3), Ok(8));
    assert_eq!(n_grandchild(14, 3, 3), Ok(0));
    assert_eq!(n_grandchild(13, 2, 3), Ok(4));
    assert_eq!(n_grandchild(14, 4, 3), Err(AccumulatorError::ArithmeticOutOfRange));
    assert_eq!(n_grandchild(1, 1, 0), Err(AccumulatorError::ArithmeticOutOfRange));
}

#[test]
fn grandparent_is_parent_repeated() {
    for rows in 1..9u8 {
        for pos in 0..(1u64 << rows) {
            let mut up = pos;
            for rise in 0..=rows {
                assert_eq!(n_grandparent(pos, rise, rows), Ok(up));
                up = parent(up, rows);
            }
        }
    }
}

#[test]
fn grandchild_is_child_repeated() {
    for rows in 1..9u8 {
        let top = mask(rows) - 1;
        let mut down = top;
        for drop in 0..=rows {
            assert_eq!(n_grandchild(top, drop, rows), Ok(down));
            down = child(down, rows);
        }
    }
}

#[test]
fn root_position_values() {
    // five leaves, three rows: the tree of four has its root at 12, the
    // single leaf is its own root at 4
    assert_eq!(root_position(5, 2, 3), 12);
    assert_eq!(root_position(5, 0, 3), 4);
    // seven leaves: roots at 12, 10 and 6
    assert_eq!(root_position(7, 2, 3), 12);
    assert_eq!(root_position(7, 1, 3), 10);
    assert_eq!(root_position(7, 0, 3), 6);
    // eight leaves: the one root is the top
    assert_eq!(root_position(8, 3, 3), 14);
    assert_eq!(root_position(1, 0, 0), 0);
    assert_eq!(root_position(1 << 63, 63, 63), u64::MAX - 1);
}

#[test]
fn detect_offset_values() {
    // seven leaves: trees of 4, 2 and 1
    assert_eq!(detect_offset(0, 7), Ok((0, 2, 0)));
    assert_eq!(detect_offset(3, 7), Ok((0, 2, 3)));
    assert_eq!(detect_offset(4, 7), Ok((1, 1, 0)));
    assert_eq!(detect_offset(5, 7), Ok((1, 1, 1)));
    assert_eq!(detect_offset(6, 7), Ok((2, 0, 0)));
    assert_eq!(detect_offset(8, 7), Ok((0, 1, 0)));
    assert_eq!(detect_offset(9, 7), Ok((0, 1, 1)));
    assert_eq!(detect_offset(10, 7), Ok((1, 0, 0)));
    assert_eq!(detect_offset(12, 7), Ok((0, 0, 0)));
    assert_eq!(detect_offset(7, 7), Err(AccumulatorError::InvalidPosition));
    assert_eq!(detect_offset(11, 7), Err(AccumulatorError::InvalidPosition));
    assert_eq!(detect_offset(13, 7), Err(AccumulatorError::InvalidPosition));
    assert_eq!(detect_offset(14, 7), Err(AccumulatorError::InvalidPosition));
    assert_eq!(detect_offset(15, 7), Err(AccumulatorError::InvalidPosition));
    assert_eq!(detect_offset(16, 7), Err(AccumulatorError::InvalidPosition));
    assert_eq!(detect_offset(0, 0), Err(AccumulatorError::InvalidPosition));
    assert_eq!(detect_offset(0, 1), Ok((0, 0, 0)));
    assert_eq!(detect_offset(1, 1), Err(AccumulatorError::InvalidPosition));
    assert_eq!(detect_offset(0, u64::MAX), Err(AccumulatorError::InvalidPosition));
    assert_eq!(detect_offset(14, 8), Ok((0, 0, 0)));
    assert_eq!(detect_offset(5, 8), Ok((0, 3, 5)));
}

#[test]
fn detect_sub_tree_rows_values() {
    assert_eq!(detect_sub_tree_rows(0, 7), Ok(2));
    assert_eq!(detect_sub_tree_rows(3, 7), Ok(2));
    assert_eq!(detect_sub_tree_rows(4, 7), Ok(1));
    assert_eq!(detect_sub_tree_rows(5, 7), Ok(1));
    assert_eq!(detect_sub_tree_rows(6, 7), Ok(0));
    assert_eq!(detect_sub_tree_rows(7, 7), Err(AccumulatorError::InvalidPosition));
    assert_eq!(detect_sub_tree_rows(0, 0), Err(AccumulatorError::InvalidPosition));
    assert_eq!(detect_sub_tree_rows(0, 1), Ok(0));
    assert_eq!(detect_sub_tree_rows(5, 8), Ok(3));
}

#[test]
fn extract_twins_of_four_siblings() {
    let (parents, twined) = extract_twins(vec![0, 1, 2, 3], 2);
    assert_eq!(twined, vec![0, 1, 2, 3]);
    assert_eq!(parents, vec![4, 5]);
}

#[test]
fn extract_twins_gives_parents() {
    let (parents, twined) = extract_twins(vec![0, 1, 2, 3, 4, 7, 10], 4);
    assert_eq!(parents, vec![16, 17]);
    assert_eq!(twined, vec![0, 1, 2, 3]);
    let (parents, twined) = extract_twins(vec![], 4);
    assert_eq!(parents, Vec::<u64>::new());
    assert_eq!(twined, Vec::<u64>::new());
    let (parents, twined) = extract_twins(vec![6], 4);
    assert_eq!(parents, Vec::<u64>::new());
    assert_eq!(twined, Vec::<u64>::new());
    let (parents, twined) = extract_twins(vec![1, 2, 5, 6, 7], 3);
    assert_eq!(parents, vec![11]);
    assert_eq!(twined, vec![6, 7]);
}

#[test]
fn get_roots_reverse_lists_the_roots_from_the_lowest() {
    assert_eq!(get_roots_reverse(7, 3), vec![6, 10, 12]);
    assert_eq!(get_roots_reverse(5, 3), vec![4, 12]);
    assert_eq!(get_roots_reverse(8, 3), vec![14]);
    assert_eq!(get_roots_reverse(0, 0), Vec::<u64>::new());
    assert_eq!(get_roots_reverse(1, 0), vec![0]);
    for n in 1..200u64 {
        let rows = tree_rows(n);
        let roots = get_roots_reverse(n, rows);
        assert_eq!(roots.len(), num_roots(n) as usize);
        let mut index = 0;
        for row in 0..=rows {
            if (n >> row) & 1 == 1 {
                assert_eq!(roots[index], root_position(n, row, rows));
                assert_eq!(detect_row(roots[index], rows), row);
                assert_eq!(
                    detect_offset(roots[index], n),
                    Ok(((roots.len() - 1 - index) as u8, 0, 0))
                );
                index += 1;
            }
        }
    }
}

#[test]
fn the_way_to_a_node_is_the_way_to_its_parent_and_one_turn() {
    for n in 1..70u64 {
        let rows = tree_rows(n);
        for pos in 0..mask(rows) {
            if let Ok((tree, branch, bits)) = detect_offset(pos, n) {
                if branch >= 1 {
                    assert_eq!(detect_offset(parent(pos, rows), n), Ok((tree, branch - 1, bits >> 1)));
                    assert_eq!(bits & 1, pos & 1);
                }
            }
        }
    }
}

#[test]
fn extract_twins_of_less_than_two_nodes() {
    for rows in [0u8, 3, 63, 64, 200, 255] {
        assert_eq!(extract_twins(vec![], rows), (vec![], vec![]));
        assert_eq!(extract_twins(vec![6], rows), (vec![], vec![]));
    }
}
