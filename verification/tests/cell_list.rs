use md::{
    all_pairs, bin_cell, build_cells, cell_list_pairs, neighbour_cells, pair_plan, unique_pairs, use_cells,
    wrap_coord, ForceMode, PairPlan,
};
use std::collections::BTreeSet;

fn as_set(pairs: &[(usize, usize)]) -> BTreeSet<(usize, usize)> {
    pairs.iter().copied().collect()
}

#[test]
fn wrap_coord_is_euclidean_remainder() {
    assert_eq!(wrap_coord(-1, 4), 3);
    assert_eq!(wrap_coord(5, 4), 1);
    assert_eq!(wrap_coord(4, 4), 0);
    assert_eq!(wrap_coord(3, 4), 3);
    assert_eq!(wrap_coord(-9, 4), 3);
    assert_eq!(wrap_coord(7, 1), 0);
    assert_eq!(wrap_coord(isize::MIN, 3), (isize::MIN).rem_euclid(3) as usize);
}

#[test]
fn neighbour_cells_on_a_wide_grid_are_nine() {
    let cells = neighbour_cells(0, 0, 4, 4);
    assert_eq!(
        cells,
        vec![(3, 3), (0, 3), (1, 3), (3, 0), (0, 0), (1, 0), (3, 1), (0, 1), (1, 1)]
    );
    let inner = neighbour_cells(2, 2, 5, 5);
    assert_eq!(inner.len(), 9);
    assert!(inner.contains(&(2, 2)));
}

#[test]
fn neighbour_cells_deduplicate_on_a_two_cell_grid() {
    assert_eq!(neighbour_cells(0, 0, 2, 2), vec![(1, 1), (0, 1), (1, 0), (0, 0)]);
    assert_eq!(neighbour_cells(0, 0, 1, 1), vec![(0, 0)]);
    assert_eq!(neighbour_cells(1, 0, 3, 1), vec![(0, 0), (1, 0), (2, 0)]);
}

#[test]
fn build_cells_lists_atoms_in_order() {
    let bins = vec![(1, 0), (0, 0), (1, 1), (1, 0), (0, 1)];
    let cells = build_cells(&bins, 2, 2);
    assert_eq!(cells, vec![vec![1], vec![0, 3], vec![4], vec![2]]);
}

#[test]
fn two_cell_box_visits_each_pair_once() {
    // Box 5 wide, cutoff 2.5: a 2 by 2 grid where every cell neighbours every other.
    let bins = vec![(0, 0), (1, 0), (0, 1), (1, 1)];
    let pairs = cell_list_pairs(&bins, 2, 2);
    assert_eq!(pairs.len(), 6);
    assert_eq!(as_set(&pairs), as_set(&all_pairs(4)));
}

#[test]
fn pair_across_the_periodic_boundary_is_found() {
    // Box 12, cutoff 2.5: four cells of width 3 per side.
    let bins = vec![(0, 2), (3, 2), (1, 1)];
    let pairs = cell_list_pairs(&bins, 4, 4);
    assert_eq!(as_set(&pairs), as_set(&[(0, 1), (0, 2)]));
    assert_eq!(pairs.len(), 2);
}

#[test]
fn cell_list_pairs_follow_the_scan_order() {
    let bins = vec![(0, 0), (0, 0), (4, 0), (2, 0)];
    // Cell (0,0) holds atoms 0 and 1; its neighbours in scan order are
    // (4,4),(0,4),(1,4),(4,0),(0,0),(1,0),(4,1),(0,1),(1,1).
    let pairs = cell_list_pairs(&bins, 5, 5);
    assert_eq!(pairs, vec![(0, 2), (0, 1), (1, 2)]);
}

#[test]
fn all_pairs_are_lexicographic() {
    assert_eq!(all_pairs(4), vec![(0, 1), (0, 2), (0, 3), (1, 2), (1, 3), (2, 3)]);
    assert!(all_pairs(1).is_empty());
    assert!(all_pairs(0).is_empty());
    assert_eq!(all_pairs(100).len(), 4950);
}

#[test]
fn cell_list_on_a_large_grid_matches_brute_force() {
    let nx = 7;
    let ny = 5;
    let mut bins = Vec::new();
    for k in 0..60usize {
        bins.push(((k * 5 + 3) % nx, (k * 3 + k / 7) % ny));
    }
    let pairs = cell_list_pairs(&bins, nx, ny);
    let adjacent = |a: usize, b: usize, n: usize| {
        (a + n - 1) % n == b || a == b || (a + 1) % n == b
    };
    let mut expected = BTreeSet::new();
    for i in 0..bins.len() {
        for j in (i + 1)..bins.len() {
            if adjacent(bins[i].0, bins[j].0, nx) && adjacent(bins[i].1, bins[j].1, ny) {
                expected.insert((i, j));
            }
        }
    }
    assert_eq!(pairs.len(), expected.len());
    assert_eq!(as_set(&pairs), expected);
}

#[test]
fn small_grid_visits_all_pairs() {
    let bins = vec![(0, 0), (2, 2), (1, 0), (2, 1), (0, 2)];
    let pairs = cell_list_pairs(&bins, 3, 3);
    assert_eq!(as_set(&pairs), as_set(&all_pairs(5)));
    assert_eq!(pairs.len(), 10);
}

#[test]
fn plan_falls_back_to_all_pairs() {
    assert!(use_cells(true, ForceMode::Cells));
    assert!(!use_cells(true, ForceMode::Naive));
    assert!(!use_cells(false, ForceMode::Cells));
    assert_eq!(pair_plan(true, ForceMode::Cells, 4, 4), PairPlan::CellList { nx: 4, ny: 4 });
    assert_eq!(pair_plan(true, ForceMode::Cells, 0, 4), PairPlan::AllPairs);
    assert_eq!(pair_plan(true, ForceMode::Cells, 4, 0), PairPlan::AllPairs);
    assert_eq!(pair_plan(true, ForceMode::Naive, 4, 4), PairPlan::AllPairs);
    assert_eq!(pair_plan(false, ForceMode::Cells, 4, 4), PairPlan::AllPairs);
}

#[test]
fn unique_pairs_follow_the_plan() {
    let bins = vec![(0, 0), (3, 3), (0, 1)];
    assert_eq!(unique_pairs(3, PairPlan::AllPairs, &Vec::new()), all_pairs(3));
    let cell = unique_pairs(3, PairPlan::CellList { nx: 6, ny: 6 }, &bins);
    assert_eq!(as_set(&cell), as_set(&[(0, 2)]));
}

#[test]
fn bin_cell_clamps_the_top_and_wraps_below() {
    assert_eq!(bin_cell(0, 3), 0);
    assert_eq!(bin_cell(2, 3), 2);
    // x = 0.9999999999999999 over a width of 1/3 rounds up to 3.0.
    assert_eq!(bin_cell((0.9999999999999999_f64 / (1.0 / 3.0)).floor() as isize, 3), 2);
    assert_eq!(bin_cell(3, 3), 2);
    assert_eq!(bin_cell(7, 3), 2);
    assert_eq!(bin_cell(-1, 3), 2);
    assert_eq!(bin_cell(-4, 3), 2);
    assert_eq!(bin_cell(-3, 3), 0);
    assert_eq!(bin_cell(5, 1), 0);
}
