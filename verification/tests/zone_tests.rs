use mine_deduction::rules::{
    add_min_bounds, count_differences, empty_zone, full_zone, handle_small_overlaps,
    max_min_bound_overlap, strict_subset, SolveError,
};
use mine_deduction::zone::Zone;
use std::collections::HashSet;

fn zone(cells: &[usize], counts: &[usize]) -> Zone {
    Zone::new(cells.to_vec(), counts.to_vec()).unwrap()
}

fn set(cells: &[usize]) -> HashSet<usize> {
    cells.iter().copied().collect()
}

fn sorted(mut v: Vec<usize>) -> Vec<usize> {
    v.sort();
    v.dedup();
    v
}

#[test]
fn sections_of_two_zones() {
    let a = zone(&[1, 2, 3], &[1]);
    let b = zone(&[2, 3, 4], &[1]);
    assert_eq!(a.sections(&b), (vec![1], vec![2, 3], vec![4]));
    assert_eq!(b.sections(&a), (vec![4], vec![2, 3], vec![1]));
    assert!(a.has_overlap(&b));
    assert!(!a.has_overlap(&zone(&[4, 5], &[0])));
}

#[test]
fn zones_need_cells_and_counts() {
    assert!(Zone::new(vec![], vec![1]).is_none());
    assert!(Zone::new(vec![1], vec![]).is_none());
    assert!(Zone::new(vec![1, 2, 1], vec![1]).is_none());
    let z = zone(&[4, 9, 2], &[3, 1, 2, 1]);
    assert_eq!(z.cells(), &vec![4, 9, 2]);
    assert_eq!(z.counts(), &vec![3, 1, 2, 1]);
    assert_eq!((z.min(), z.max(), z.count()), (1, 3, 3));
}

#[test]
fn full_and_empty_zones_resolve() {
    let full = full_zone(&zone(&[5, 6], &[2])).unwrap();
    assert_eq!(full.mines, set(&[5, 6]));
    assert!(full.safe.is_empty());
    let empty = empty_zone(&zone(&[5, 6], &[0])).unwrap();
    assert_eq!(empty.safe, set(&[5, 6]));
    assert!(empty.mines.is_empty());
    assert!(full_zone(&zone(&[5, 6], &[1, 2])).is_none());
    assert!(full_zone(&zone(&[5, 6], &[0])).is_none());
    assert!(empty_zone(&zone(&[5, 6], &[0, 1])).is_none());
    assert!(empty_zone(&zone(&[5, 6], &[2])).is_none());
}

#[test]
fn subset_leaves_the_difference() {
    let small = zone(&[1, 2], &[1]);
    let large = zone(&[1, 2, 3, 4], &[2, 3]);
    let left = strict_subset(&small, &large).unwrap().unwrap();
    assert_eq!(left.cells(), &vec![3, 4]);
    assert_eq!(sorted(left.counts().clone()), vec![1, 2]);
    let left = strict_subset(&large, &small).unwrap().unwrap();
    assert_eq!(left.cells(), &vec![3, 4]);
    assert_eq!(sorted(left.counts().clone()), vec![1, 2]);
    let mixed = strict_subset(&zone(&[1, 2], &[0, 2]), &zone(&[1, 2, 3], &[1])).unwrap().unwrap();
    assert_eq!(mixed.counts(), &vec![1]);
    assert!(strict_subset(&small, &zone(&[2, 3], &[1])).unwrap().is_none());
    assert!(strict_subset(&small, &zone(&[2, 1], &[1])).unwrap().is_none());
}

#[test]
fn subset_with_only_larger_values_is_a_fault() {
    let small = zone(&[1, 2], &[2]);
    let large = zone(&[1, 2, 3], &[0, 1]);
    assert_eq!(strict_subset(&small, &large).err(), Some(SolveError::SubsetHasOnlyLargerValues));
    assert_eq!(strict_subset(&large, &small).err(), Some(SolveError::SubsetHasOnlyLargerValues));
    assert_eq!(
        strict_subset(&zone(&[1, 2], &[2]), &zone(&[2, 1], &[1])).err(),
        Some(SolveError::SubsetHasOnlyLargerValues)
    );
}

#[test]
fn differences_of_counts() {
    assert_eq!(count_differences(&vec![1, 3], &vec![2, 5]), vec![1, 4, 2]);
    assert_eq!(count_differences(&vec![4], &vec![2, 3]), Vec::<usize>::new());
}

#[test]
fn need_for_mines_in_the_overlap_bounds_the_rest() {
    let a = zone(&[1, 2, 3], &[3]);
    let b = zone(&[2, 3, 4, 5], &[2, 3]);
    let derived = add_min_bounds(&a, &b).unwrap().unwrap();
    assert_eq!(derived.cells(), &vec![4, 5]);
    assert_eq!(derived.counts(), &vec![0, 1]);
    let derived = add_min_bounds(&b, &a).unwrap().unwrap();
    assert_eq!(derived.cells(), &vec![4, 5]);
    assert_eq!(derived.counts(), &vec![0, 1]);
    assert!(add_min_bounds(&zone(&[1, 2], &[1]), &zone(&[2, 3], &[1])).unwrap().is_none());
    assert!(add_min_bounds(&zone(&[1, 2], &[2]), &zone(&[1, 2, 3], &[2])).unwrap().is_none());
    assert_eq!(
        add_min_bounds(&zone(&[1, 2, 3], &[3]), &zone(&[2, 3, 4], &[1])).err(),
        Some(SolveError::BoundBelowZero)
    );
}

#[test]
fn separate_ranges_bound_the_own_cells() {
    let a = zone(&[1, 2], &[0, 1]);
    let b = zone(&[2, 3, 4], &[3]);
    let derived = handle_small_overlaps(&a, &b).unwrap().unwrap();
    assert_eq!(derived.cells(), &vec![3, 4]);
    assert_eq!(derived.counts(), &vec![2, 3]);
    let derived = handle_small_overlaps(&b, &a).unwrap().unwrap();
    assert_eq!(derived.cells(), &vec![3, 4]);
    assert_eq!(derived.counts(), &vec![2, 3]);
    assert!(handle_small_overlaps(&a, &zone(&[2, 3], &[1])).unwrap().is_none());
    assert!(handle_small_overlaps(&a, &zone(&[1, 2, 3], &[3])).unwrap().is_none());
}

#[test]
fn bounds_of_an_overlap_resolve_both_sides() {
    let a = zone(&[1, 2, 3], &[1]);
    let b = zone(&[3, 4, 5], &[3]);
    let known = max_min_bound_overlap(&a, &b).unwrap();
    assert_eq!(known.mines, set(&[4, 5]));
    assert_eq!(known.safe, set(&[1, 2]));
    let known = max_min_bound_overlap(&b, &a).unwrap();
    assert_eq!(known.mines, set(&[4, 5]));
    assert_eq!(known.safe, set(&[1, 2]));
    assert!(max_min_bound_overlap(&a, &zone(&[3, 4, 5], &[2])).is_none());
    let inside = max_min_bound_overlap(&zone(&[1, 2, 3], &[1]), &zone(&[1, 2], &[1])).unwrap();
    assert_eq!(inside.safe, set(&[3]));
    assert!(inside.mines.is_empty());
}
