use rustreexo::accumulator::transform::{fill, follow, transform, RowPlan};
use rustreexo::accumulator::types::Arrow;

fn plain(rows: &Vec<RowPlan>) -> Vec<(Vec<u64>, Vec<(u64, u64)>, Option<u64>)> {
    rows.iter()
        .map(|row| {
            (
                row.dirty.clone(),
                row.swaps.iter().map(|a| (a.from, a.to)).collect(),
                row.root,
            )
        })
        .collect()
}

#[test]
fn fill_moves_the_rightmost_into_the_hole() {
    let (swaps, end) = fill(&vec![0], 0, 8);
    assert_eq!(swaps, vec![Arrow { from: 7, to: 0 }]);
    assert_eq!(end, 7);
}

#[test]
fn fill_gives_up_deleted_places_at_the_end() {
    let (swaps, end) = fill(&vec![7], 0, 8);
    assert_eq!(swaps, Vec::<Arrow>::new());
    assert_eq!(end, 7);
    let (swaps, end) = fill(&vec![0, 1, 2, 3], 0, 4);
    assert_eq!(swaps, Vec::<Arrow>::new());
    assert_eq!(end, 0);
}

#[test]
fn fill_passes_deleted_siblings_and_fills_holes() {
    // 0 and 1 die together and stay; 4 is a hole, 9 is given up
    let (swaps, end) = fill(&vec![0, 1, 4, 9], 0, 10);
    assert_eq!(swaps, vec![Arrow { from: 8, to: 4 }]);
    assert_eq!(end, 8);
    let (swaps, end) = fill(&vec![18, 21, 22, 23], 16, 24);
    assert_eq!(swaps, vec![Arrow { from: 20, to: 18 }]);
    assert_eq!(end, 20);
    let (swaps, end) = fill(&vec![], 16, 24);
    assert_eq!(swaps, Vec::<Arrow>::new());
    assert_eq!(end, 24);
}

#[test]
fn transform_of_one_leaf_of_eight() {
    let rows = transform(vec![0], 8, 3);
    assert_eq!(
        plain(&rows),
        vec![
            (vec![], vec![(7, 0)], Some(6)),
            (vec![8], vec![], Some(10)),
            (vec![12], vec![], Some(12)),
            (vec![], vec![], None),
        ]
    );
}

#[test]
fn transform_of_three_leaves_of_eight() {
    let rows = transform(vec![0, 1, 2], 8, 3);
    assert_eq!(
        plain(&rows),
        vec![
            (vec![], vec![(7, 2)], Some(6)),
            (vec![9], vec![(10, 8)], None),
            (vec![12], vec![], Some(12)),
            (vec![], vec![], None),
        ]
    );
}

#[test]
fn transform_of_seven_leaves_of_sixteen() {
    let rows = transform(vec![0, 1, 2, 3, 4, 7, 10], 16, 4);
    assert_eq!(
        plain(&rows),
        vec![
            (vec![], vec![(15, 4), (14, 7), (13, 10)], Some(12)),
            (vec![18, 19, 21], vec![], None),
            (vec![25, 26], vec![(26, 24)], None),
            (vec![28], vec![], Some(28)),
            (vec![], vec![], None),
        ]
    );
}

#[test]
fn transform_of_all_leaves_moves_nothing() {
    for n in 1..40u64 {
        let mut rows_of_forest = 0u8;
        while (1u64 << rows_of_forest) < n {
            rows_of_forest += 1;
        }
        let rows = transform((0..n).collect(), n, rows_of_forest);
        assert_eq!(rows.len(), rows_of_forest as usize + 1);
        for row in rows.iter() {
            assert!(row.dirty.is_empty());
            assert!(row.swaps.is_empty());
            assert_eq!(row.root, None);
        }
    }
}

#[test]
fn transform_of_nothing_keeps_the_roots() {
    let rows = transform(vec![], 7, 3);
    assert_eq!(
        plain(&rows),
        vec![
            (vec![], vec![], Some(6)),
            (vec![], vec![], Some(10)),
            (vec![], vec![], Some(12)),
            (vec![], vec![], None),
        ]
    );
}

#[test]
fn transform_leaves_one_root_for_each_set_bit() {
    for n in 1..24u64 {
        let mut rows_of_forest = 0u8;
        while (1u64 << rows_of_forest) < n {
            rows_of_forest += 1;
        }
        for pick in 1u64..(1u64 << n.min(12)) {
            let dels: Vec<u64> = (0..n).filter(|i| *i < 12 && (pick >> i) & 1 == 1).collect();
            let left = n - dels.len() as u64;
            let rows = transform(dels, n, rows_of_forest);
            for (row, plan) in rows.iter().enumerate() {
                assert_eq!(plan.root.is_some(), (left >> row) & 1 == 1);
                for arrow in plan.swaps.iter() {
                    assert!(arrow.to < arrow.from);
                }
            }
        }
    }
}

#[test]
fn follow_one_leaf_of_eight_deleted() {
    let rows = transform(vec![0], 8, 3);
    assert_eq!(follow(&rows, 7, 3, 0), None);
    assert_eq!(follow(&rows, 7, 3, 7), Some(0));
    assert_eq!(follow(&rows, 7, 3, 1), Some(1));
    assert_eq!(follow(&rows, 7, 3, 2), Some(2));
    assert_eq!(follow(&rows, 7, 3, 3), Some(3));
    assert_eq!(follow(&rows, 7, 3, 4), Some(4));
    assert_eq!(follow(&rows, 7, 3, 5), Some(5));
    assert_eq!(follow(&rows, 7, 3, 6), Some(6));
}

#[test]
fn follow_three_leaves_of_eight_deleted() {
    let rows = transform(vec![0, 1, 2], 8, 3);
    let after: Vec<Option<u64>> = (0..8).map(|leaf| follow(&rows, 5, 3, leaf)).collect();
    assert_eq!(
        after,
        vec![None, None, None, Some(3), Some(0), Some(1), Some(4), Some(2)]
    );
}

#[test]
fn follow_gives_each_leaf_that_is_left_a_place_of_its_own() {
    for n in 1..20u64 {
        let mut rows_of_forest = 0u8;
        while (1u64 << rows_of_forest) < n {
            rows_of_forest += 1;
        }
        for pick in 1u64..(1u64 << n.min(10)) {
            let dels: Vec<u64> = (0..n).filter(|i| *i < 10 && (pick >> i) & 1 == 1).collect();
            let left = n - dels.len() as u64;
            let rows = transform(dels.clone(), n, rows_of_forest);
            let mut taken = vec![false; left as usize];
            for leaf in 0..n {
                match follow(&rows, left, rows_of_forest, leaf) {
                    None => assert!(dels.contains(&leaf)),
                    Some(place) => {
                        assert!(!dels.contains(&leaf));
                        assert!(!taken[place as usize]);
                        taken[place as usize] = true;
                    }
                }
            }
            assert!(taken.iter().all(|t| *t));
        }
    }
}
