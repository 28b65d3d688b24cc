use dustsort::dust::{array_block_length, buffer_block_length, insert_sort, MIN_RUN};
use dustsort::merge::{merge_in_place, merge_lazy};
use dustsort::scan::{build_runs, next_non_desc_run, next_sorted_run};
use dustsort::util::{
    block_swap_length, conditional, cycle_swap, insert_left, insert_right, reverse, rotate,
    search_left, search_right, Hole, NaturalOrder,
};

#[test]
fn conditional_selects() {
    assert_eq!(conditional(3u64, 9u64, false), 3);
    assert_eq!(conditional(3u64, 9u64, true), 9);
}

#[test]
fn reverse_region() {
    let mut v: Vec<u64> = vec![0, 1, 2, 3, 4, 5];
    reverse(&mut v, 1, 5);
    assert_eq!(v, vec![0, 4, 3, 2, 1, 5]);
}

#[test]
fn rotate_regions() {
    let mut v: Vec<u64> = vec![1, 2, 3, 4, 5, 6, 7];
    rotate(&mut v, 1, 2, 4);
    assert_eq!(v, vec![1, 4, 5, 6, 7, 2, 3]);

    let mut w: Vec<u64> = (0..100).collect();
    rotate(&mut w, 10, 37, 43);
    let mut expected: Vec<u64> = (0..10).collect();
    expected.extend(47..90);
    expected.extend(10..47);
    expected.extend(90..100);
    assert_eq!(w, expected);
}

#[test]
fn insert_shifts() {
    let mut v: Vec<u64> = vec![9, 1, 2, 3, 4];
    insert_right(&mut v, 0, 3);
    assert_eq!(v, vec![1, 2, 3, 9, 4]);

    let mut w: Vec<u64> = vec![1, 2, 3, 0, 4];
    insert_left(&mut w, 3, 3);
    assert_eq!(w, vec![0, 1, 2, 3, 4]);
}

#[test]
fn cycle_swap_exchanges() {
    let mut v: Vec<u64> = vec![1, 2, 3, 10, 20, 30];
    cycle_swap(&mut v, 0, 3, 3);
    assert_eq!(v, vec![10, 20, 30, 1, 2, 3]);
}

#[test]
fn hole_cycles_values() {
    let mut v: Vec<u64> = vec![100, 1, 2, 3];
    let mut h = Hole::new(0);
    // The element at `dst` falls into the hole; `src` refills `dst`.
    h.cycle(&mut v, 3, 1);
    assert_eq!(h.pos, 3);
    assert_eq!(v, vec![1, 3, 2, 100]);
    let mut sorted_check = v.clone();
    sorted_check.sort();
    assert_eq!(sorted_check, vec![1, 2, 3, 100]);
}

#[test]
fn binary_searches() {
    let v: Vec<u64> = vec![1, 3, 3, 5, 7, 9];
    let mut cmp = NaturalOrder;
    assert_eq!(search_left(&v, 0, 6, &3, &mut cmp), 1);
    assert_eq!(search_right(&v, 0, 6, &3, &mut cmp), 3);
    assert_eq!(search_left(&v, 0, 6, &0, &mut cmp), 0);
    assert_eq!(search_right(&v, 0, 6, &20, &mut cmp), 6);
    // Restricted to a sub-region.
    assert_eq!(search_left(&v, 3, 3, &8, &mut cmp), 2);
}

#[test]
fn block_swap_radius() {
    // Left run 1 3 5 7, right run 2 4 6 8: the radius pairs the smallest
    // right elements against the largest left ones.
    let v: Vec<u64> = vec![1, 3, 5, 7, 2, 4, 6, 8];
    let mut cmp = NaturalOrder;
    let e = block_swap_length(&v, 0, 4, 4, 4, &mut cmp);
    assert_eq!(e, 2);
}

#[test]
fn insert_sort_sorts() {
    let mut v: Vec<u64> = vec![42, 5, 3, 8, 1, 9, 2, 99];
    let mut cmp = NaturalOrder;
    insert_sort(&mut v, 1, 1, 6, &mut cmp);
    assert_eq!(v, vec![42, 1, 2, 3, 5, 8, 9, 99]);
}

#[test]
fn scan_finds_runs() {
    let v: Vec<u64> = vec![1, 2, 2, 3, 1, 0, 9];
    let mut cmp = NaturalOrder;
    assert_eq!(next_non_desc_run(&v, 0, 7, &mut cmp), 4);
    assert_eq!(next_non_desc_run(&v, 4, 3, &mut cmp), 1);
}

#[test]
fn scan_normalizes_descending_run() {
    let mut v: Vec<u64> = vec![9, 7, 5, 3, 8, 1];
    let mut cmp = NaturalOrder;
    let len = next_sorted_run(&mut v, 0, 6, &mut cmp);
    assert_eq!(len, 4);
    assert_eq!(&v[..4], &[3, 5, 7, 9]);
    assert_eq!(&v[4..], &[8, 1]);
}

#[test]
fn build_runs_sorts_windows() {
    let mut state: u64 = 3;
    let mut v: Vec<u64> = (0..100)
        .map(|_| {
            state = state.wrapping_mul(6364136223846793005).wrapping_add(1442695040888963407);
            state >> 40
        })
        .collect();
    let mut cmp = NaturalOrder;
    build_runs(&mut v, 0, 0, 100, &mut cmp);
    for w in v.chunks(MIN_RUN) {
        assert!(w.windows(2).all(|p| p[0] <= p[1]));
    }
}

#[test]
fn merge_lazy_merges() {
    let mut v: Vec<u64> = vec![1, 4, 9, 2, 3, 10, 11];
    let mut cmp = NaturalOrder;
    merge_lazy(&mut v, 0, 3, 4, &mut cmp);
    assert_eq!(v, vec![1, 2, 3, 4, 9, 10, 11]);
}

#[test]
fn merge_in_place_merges() {
    let mut left: Vec<u64> = (0..700).map(|x| 2 * x).collect();
    let right: Vec<u64> = (0..700).map(|x| 2 * x + 1).collect();
    left.extend(right);
    let mut cmp = NaturalOrder;
    merge_in_place(&mut left, 0, 700, 700, &mut cmp);
    assert_eq!(left, (0..1400).collect::<Vec<u64>>());
}

#[test]
fn merge_in_place_subregion() {
    let mut v: Vec<u64> = vec![99, 1, 5, 2, 6, 77];
    let mut cmp = NaturalOrder;
    merge_in_place(&mut v, 1, 2, 2, &mut cmp);
    assert_eq!(v, vec![99, 1, 2, 5, 6, 77]);
}

#[test]
fn block_length_values() {
    assert_eq!(array_block_length(1), 1);
    assert_eq!(array_block_length(100), 16);
    assert_eq!(array_block_length(4096), 64);
    assert_eq!(array_block_length(65), 8);

    assert_eq!(buffer_block_length(1), 2);
    assert_eq!(buffer_block_length(10), 8);
    assert_eq!(buffer_block_length(100), 64);
}
