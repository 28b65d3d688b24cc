use dustsort::util::{CountingLess, FirstOfPair, NaturalOrder};

fn lcg_next(state: &mut u64) -> u64 {
    *state = state.wrapping_mul(6364136223846793005).wrapping_add(1442695040888963407);
    *state >> 16
}

fn is_sorted<T: Ord>(v: &[T]) -> bool {
    v.windows(2).all(|w| w[0] <= w[1])
}

#[test]
fn empty_input() {
    let mut v: Vec<u64> = vec![];
    dustsort::sort(&mut v);
    assert_eq!(v, Vec::<u64>::new());
}

#[test]
fn singleton_input() {
    let mut v: Vec<i32> = vec![7];
    dustsort::sort(&mut v);
    assert_eq!(v, vec![7]);
}

#[test]
fn small_mixed_input() {
    let mut v: Vec<i32> = vec![3, 1, 4, 1, 5, 9, 2, 6, 5, 3, 5];
    dustsort::sort(&mut v);
    assert_eq!(v, vec![1, 1, 2, 3, 3, 4, 5, 5, 5, 6, 9]);
}

#[test]
fn descending_ten() {
    let mut v: Vec<u32> = (1..=10).rev().collect();
    dustsort::sort(&mut v);
    assert_eq!(v, (1..=10).collect::<Vec<u32>>());
}

#[test]
fn descending_long() {
    let mut v: Vec<u64> = (0..1000).rev().collect();
    dustsort::sort(&mut v);
    assert_eq!(v, (0..1000).collect::<Vec<u64>>());
}

#[test]
fn all_equal_is_stable() {
    // A thousand equal keys, each tagged with its original index: the tags
    // must stay in their original order.
    let mut v: Vec<(u64, u64)> = (0..1000).map(|i| (0, i)).collect();
    dustsort::sort_by_key(&mut v, FirstOfPair);
    for (i, &(k, tag)) in v.iter().enumerate() {
        assert_eq!(k, 0);
        assert_eq!(tag, i as u64);
    }
}

#[test]
fn pairs_sorted_by_first_coordinate() {
    let a = 'a' as u64;
    let b = 'b' as u64;
    let c = 'c' as u64;
    let d = 'd' as u64;
    let mut v: Vec<(u64, u64)> = vec![(1, a), (1, b), (0, c), (1, d)];
    dustsort::sort_by_key(&mut v, FirstOfPair);
    assert_eq!(v, vec![(0, c), (1, a), (1, b), (1, d)]);
}

#[test]
fn stability_random_keys() {
    // Few distinct keys over many elements; tags within one key must keep
    // their original relative order.
    let mut state: u64 = 42;
    let mut v: Vec<(u64, u64)> = (0..5000).map(|i| (lcg_next(&mut state) % 7, i)).collect();
    let reference = v.clone();
    dustsort::sort_by_key(&mut v, FirstOfPair);

    let mut expected = reference;
    expected.sort_by_key(|p| p.0);
    assert_eq!(v, expected);
}

#[test]
fn boundary_sizes() {
    for &n in &[0usize, 1, 2, 7, 8, 31, 32, 33, 63, 64, 127, 128, 511, 512, 4095, 4096] {
        let mut state: u64 = 7 + n as u64;
        let mut v: Vec<u64> = (0..n).map(|_| lcg_next(&mut state) % 97).collect();
        let mut expected = v.clone();
        expected.sort();
        dustsort::sort(&mut v);
        assert_eq!(v, expected, "size {}", n);
    }
}

#[test]
fn already_sorted_is_untouched() {
    let mut v: Vec<u64> = (0..300).collect();
    let before = v.clone();
    dustsort::sort(&mut v);
    assert_eq!(v, before);
}

#[test]
fn sorting_twice_changes_nothing() {
    let mut state: u64 = 99;
    let mut v: Vec<u64> = (0..2000).map(|_| lcg_next(&mut state)).collect();
    dustsort::sort(&mut v);
    let once = v.clone();
    dustsort::sort(&mut v);
    assert_eq!(v, once);
}

#[test]
fn few_distinct_values() {
    // Exactly eleven distinct values over a large array.
    let mut state: u64 = 5;
    let mut v: Vec<u64> = (0..2000).map(|_| lcg_next(&mut state) % 11).collect();
    let mut expected = v.clone();
    expected.sort();
    dustsort::sort(&mut v);
    assert_eq!(v, expected);
}

#[test]
fn sorted_prefix_with_small_tail() {
    // A long presorted head followed by a short unsorted tail.
    let mut v: Vec<u64> = (0..5000).collect();
    v.extend([12, 3, 999, 0, 77, 5, 41].iter());
    let mut expected = v.clone();
    expected.sort();
    dustsort::sort(&mut v);
    assert_eq!(v, expected);
}

#[test]
fn sort_by_explicit_comparator() {
    let mut v: Vec<i64> = vec![5, -3, 12, -3, 0, 7, -20];
    let mut cmp = NaturalOrder;
    dustsort::sort_by(&mut v, &mut cmp);
    assert_eq!(v, vec![-20, -3, -3, 0, 5, 7, 12]);
}

#[test]
fn comparison_count_stays_bounded() {
    // A pseudorandom array with a fixed seed: the sort must stay within
    // 40 * n * log2(n) comparisons.
    let n: usize = 30000;
    let mut state: u64 = 123456789;
    let mut v: Vec<u64> = (0..n).map(|_| lcg_next(&mut state)).collect();
    let mut expected = v.clone();
    expected.sort();

    let mut cmp = CountingLess { inner: NaturalOrder, count: 0 };
    dustsort::sort_by(&mut v, &mut cmp);

    assert_eq!(v, expected);
    let bound = 40 * (n as u64) * (n as u64).ilog2() as u64;
    assert!(cmp.count <= bound, "comparisons {} over bound {}", cmp.count, bound);
}

#[test]
fn comparison_count_on_descending() {
    let n: usize = 10000;
    let mut v: Vec<u64> = (0..n as u64).rev().collect();
    let mut cmp = CountingLess { inner: NaturalOrder, count: 0 };
    dustsort::sort_by(&mut v, &mut cmp);
    assert!(is_sorted(&v));
    let bound = 40 * (n as u64) * (n as u64).ilog2() as u64;
    assert!(cmp.count <= bound, "comparisons {} over bound {}", cmp.count, bound);
}

#[test]
fn long_head_with_clustered_tail() {
    // A long sorted head, a dozen distinct stragglers right behind it, and a
    // large constant tail.
    let mut v: Vec<u64> = (1000..1800).collect();
    v.extend(2..14);
    v.extend(std::iter::repeat(77).take(188));
    let mut expected = v.clone();
    expected.sort();
    dustsort::sort(&mut v);
    assert_eq!(v, expected);
}
