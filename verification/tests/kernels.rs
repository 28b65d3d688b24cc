use dustsort::buffer::Buffer;
use dustsort::merge::{
    exponential_merge_left, exponential_merge_right, merge, merge_left, merge_right,
};
use dustsort::util::NaturalOrder;

// The rightwards kernels expect the second run at the tail of the
// destination, scratch in front of it, and the first run elsewhere.
#[test]
fn merge_right_merges_through_scratch() {
    // first run [2, 5, 8] parked at the end; destination holds scratch
    // 0 0 0 then the second run [1, 5, 9].
    let mut v: Vec<u64> = vec![0, 0, 0, 1, 5, 9, 2, 5, 8];
    let mut cmp = NaturalOrder;
    let r = merge_right(&mut v, 6, 3, 3, 3, 0, &mut cmp);
    assert_eq!(&v[..6], &[1, 2, 5, 5, 8, 9]);
    // the displaced scratch landed where the first run was
    let mut rest = v[6..].to_vec();
    rest.sort();
    assert_eq!(rest, vec![0, 0, 0]);
    // five elements go through the two-pointer loop before the first run
    // runs out
    assert_eq!(r, 5);
}

#[test]
fn merge_right_is_stable() {
    // Equal keys: the first run's elements must come out first. Keys are
    // encoded in the high bits, tags in the low bits.
    let a1 = 10 * 100 + 1;
    let a2 = 20 * 100 + 1;
    let b1 = 10 * 100 + 2;
    let b2 = 30 * 100 + 2;
    let mut v: Vec<u64> = vec![0, 0, b1, b2, a1, a2];
    // compare by key only: use sort_by-style wrapper comparison via the
    // natural order of the key value, here encoded so natural order of the
    // whole value matches key order except between equal keys.
    // a1 < b1 holds numerically, so the stable outcome puts a1 first.
    let mut cmp = NaturalOrder;
    merge_right(&mut v, 4, 2, 2, 2, 0, &mut cmp);
    assert_eq!(&v[..4], &[a1, b1, a2, b2]);
}

#[test]
fn merge_left_merges_through_gap() {
    // first run [1, 4, 7] at the front, gap of scratch, second run [2, 3, 9].
    let mut v: Vec<u64> = vec![1, 4, 7, 0, 0, 0, 2, 3, 9];
    let mut cmp = NaturalOrder;
    merge_left(&mut v, 0, 3, 6, 3, 0, &mut cmp);
    assert_eq!(&v[..6], &[1, 2, 3, 4, 7, 9]);
    let mut rest = v[6..].to_vec();
    rest.sort();
    assert_eq!(rest, vec![0, 0, 0]);
}

#[test]
fn exponential_merge_right_matches_plain() {
    let left: Vec<u64> = vec![100, 200, 300];
    let right: Vec<u64> = (0..40).map(|x| 7 * x).collect();

    let mut v: Vec<u64> = vec![9; 3];
    v.extend(&right);
    v.extend(&left);
    let mut w = v.clone();

    let n1 = left.len();
    let n2 = right.len();
    let s1 = 3 + n2;
    let mut cmp = NaturalOrder;
    merge_right(&mut v, s1, n1, 3, n2, 0, &mut cmp);
    exponential_merge_right(&mut w, s1, n1, 3, n2, 0, &mut cmp);
    assert_eq!(&v[..n1 + n2], &w[..n1 + n2]);

    let mut expected: Vec<u64> = left.iter().chain(right.iter()).copied().collect();
    expected.sort();
    assert_eq!(&v[..n1 + n2], &expected[..]);
}

#[test]
fn exponential_merge_left_matches_plain() {
    let left: Vec<u64> = (0..40).map(|x| 5 * x + 1).collect();
    let right: Vec<u64> = vec![3, 90, 91];

    let mut v: Vec<u64> = left.clone();
    v.extend(vec![7; 3]);
    v.extend(&right);
    let mut w = v.clone();

    let n1 = left.len();
    let n2 = right.len();
    let mut cmp = NaturalOrder;
    merge_left(&mut v, 0, n1, n1 + n2, n2, 0, &mut cmp);
    exponential_merge_left(&mut w, 0, n1, n1 + n2, n2, 0, &mut cmp);
    assert_eq!(&v[..n1 + n2], &w[..n1 + n2]);

    let mut expected: Vec<u64> = left.iter().chain(right.iter()).copied().collect();
    expected.sort();
    assert_eq!(&v[..n1 + n2], &expected[..]);
}

#[test]
fn adaptive_merge_with_buffer() {
    // Two adjacent runs and a buffer of distinct keys at the far end.
    let mut v: Vec<u64> = vec![2, 4, 6, 8, 1, 3, 5, 7, 100, 101, 102, 103];
    let mut buf = Buffer { start: 8, len: 4, unsorted: 0 };
    let mut cmp = NaturalOrder;
    let ok = merge(&mut buf, &mut v, 0, 4, 4, &mut cmp);
    assert!(ok);
    assert_eq!(&v[..8], &[1, 2, 3, 4, 5, 6, 7, 8]);
    // The buffer still holds its own elements, permuted at worst.
    let mut tail = v[8..].to_vec();
    tail.sort();
    assert_eq!(tail, vec![100, 101, 102, 103]);
    assert_eq!(buf.start, 8);
    assert_eq!(buf.len, 4);
    assert!(buf.unsorted <= 4);
}

#[test]
fn adaptive_merge_reports_small_buffer() {
    // A maximally interleaved pair with no buffer at all cannot be merged.
    let mut v: Vec<u64> = vec![2, 4, 6, 8, 1, 3, 5, 7];
    let before = v.clone();
    let mut buf = Buffer { start: 8, len: 0, unsorted: 0 };
    let mut cmp = NaturalOrder;
    let ok = merge(&mut buf, &mut v, 0, 4, 4, &mut cmp);
    assert!(!ok);
    assert_eq!(v, before);
}

#[test]
fn adaptive_merge_sorted_input_is_noop() {
    let mut v: Vec<u64> = vec![1, 2, 3, 10, 20, 30, 99];
    let before = v.clone();
    let mut buf = Buffer { start: 6, len: 1, unsorted: 0 };
    let mut cmp = NaturalOrder;
    let ok = merge(&mut buf, &mut v, 0, 3, 3, &mut cmp);
    assert!(ok);
    assert_eq!(v, before);
}

#[test]
fn adaptive_merge_rotates_disjoint_runs() {
    let mut v: Vec<u64> = vec![7, 8, 9, 1, 2, 3, 50];
    let mut buf = Buffer { start: 6, len: 1, unsorted: 0 };
    let mut cmp = NaturalOrder;
    let ok = merge(&mut buf, &mut v, 0, 3, 3, &mut cmp);
    assert!(ok);
    assert_eq!(&v[..6], &[1, 2, 3, 7, 8, 9]);
}

#[test]
fn buffer_begin_merge_swaps_and_raises_watermark() {
    let mut v: Vec<u64> = vec![5, 6, 7, 100, 101, 102];
    let mut buf = Buffer { start: 3, len: 3, unsorted: 1 };
    buf.begin_merge(&mut v, 0, 2);
    assert_eq!(v, vec![100, 101, 7, 5, 6, 102]);
    assert_eq!(buf.unsorted, 2);
}

#[test]
fn buffer_shift_preserves_contents() {
    let mut v: Vec<u64> = vec![0, 1, 2, 50, 60, 70, 9];
    let mut buf = Buffer { start: 3, len: 3, unsorted: 0 };
    buf.shift(&mut v, 1);
    assert_eq!(buf.start, 1);
    assert_eq!(&v[1..4], &[50, 60, 70]);

    buf.shift(&mut v, 4);
    assert_eq!(buf.start, 4);
    assert_eq!(&v[4..7], &[50, 60, 70]);
}

#[test]
fn buffer_sort_restores_order() {
    let mut v: Vec<u64> = vec![9, 30, 10, 20, 40, 50, 3];
    let mut buf = Buffer { start: 1, len: 5, unsorted: 3 };
    let mut cmp = NaturalOrder;
    buf.sort(&mut v, &mut cmp);
    assert_eq!(&v[1..6], &[10, 20, 30, 40, 50]);
    assert_eq!(buf.unsorted, 0);
}

#[test]
fn buffer_collects_distinct_keys() {
    let mut v: Vec<u64> = vec![5, 3, 5, 1, 3, 7, 9];
    let mut buf = Buffer { start: 7, len: 0, unsorted: 0 };
    let mut cmp = NaturalOrder;
    buf.binary_find_keys(&mut v, 0, 7, 4, &mut cmp);
    assert_eq!(buf.len, 4);
    assert_eq!(buf.start, 3);
    assert_eq!(&v[3..7], &[1, 3, 7, 9]);
    assert_eq!(&v[..3], &[5, 3, 5]);
}

#[test]
fn buffer_skips_equivalent_keys() {
    let mut v: Vec<u64> = vec![2, 2, 2, 5, 2];
    let mut buf = Buffer { start: 5, len: 0, unsorted: 0 };
    let mut cmp = NaturalOrder;
    buf.binary_find_keys(&mut v, 0, 5, 10, &mut cmp);
    assert_eq!(buf.len, 2);
    assert_eq!(buf.start, 3);
    assert_eq!(&v[3..5], &[2, 5]);
}

#[test]
fn buffer_sort_long_prefix() {
    // A long perturbed prefix exercises the binary-insertion phase.
    let n: usize = 200;
    let mut vals: Vec<u64> = (0..n as u64).collect();
    // rotate the prefix so it is out of order but below the sorted tail
    vals[..150].reverse();
    let mut v: Vec<u64> = vec![999];
    v.extend(&vals);
    let mut buf = Buffer { start: 1, len: n, unsorted: 150 };
    let mut cmp = NaturalOrder;
    buf.sort(&mut v, &mut cmp);
    assert_eq!(&v[1..n + 1], &(0..n as u64).collect::<Vec<u64>>()[..]);
    assert_eq!(buf.unsorted, 0);
}

#[test]
fn buffer_merges_keys_from_sorted_range() {
    // A sorted range in front of a buffer of three keys.
    let mut v: Vec<u64> = vec![1, 10, 15, 20, 40, 10, 20, 30];
    let mut buf = Buffer { start: 5, len: 3, unsorted: 0 };
    let mut cmp = NaturalOrder;
    buf.block_find_keys(&mut v, 0, 5, 8, &mut cmp);
    assert_eq!(buf.start, 0);
    assert_eq!(buf.len, 6);
    assert_eq!(&v[..6], &[1, 10, 15, 20, 30, 40]);
    let mut rest = v[6..].to_vec();
    rest.sort();
    assert_eq!(rest, vec![10, 20]);
}

#[test]
fn adaptive_merge_uses_search_on_imbalance() {
    // A tiny radius against long runs drives the merge through the
    // exponential-search kernels.
    let mut v: Vec<u64> = (10..20).collect();
    v.push(15);
    v.extend(21..30);
    v.push(100);
    let n = v.len();
    let mut buf = Buffer { start: n - 1, len: 1, unsorted: 0 };
    let mut cmp = NaturalOrder;
    let ok = merge(&mut buf, &mut v, 0, 10, 10, &mut cmp);
    assert!(ok);
    let mut expected: Vec<u64> = (10..20).collect();
    expected.push(15);
    expected.extend(21..30);
    expected.sort();
    assert_eq!(&v[..20], &expected[..]);
    assert_eq!(v[20], 100);
}

#[test]
fn find_keys_variants_agree() {
    // On a sorted range both collectors gather the same keys.
    let mut v1: Vec<u64> = vec![1, 1, 4, 4, 9, 30];
    let mut b1 = Buffer { start: 5, len: 1, unsorted: 0 };
    let mut v2 = v1.clone();
    let mut b2 = Buffer { start: 5, len: 1, unsorted: 0 };
    let mut cmp = NaturalOrder;
    b1.binary_find_keys(&mut v1, 0, 5, 10, &mut cmp);
    b2.block_find_keys(&mut v2, 0, 5, 10, &mut cmp);
    assert_eq!(b1.len, b2.len);
    assert_eq!(
        &v1[b1.start..b1.start + b1.len],
        &v2[b2.start..b2.start + b2.len]
    );
    assert_eq!(&v1[b1.start..b1.start + b1.len], &[1, 4, 9, 30]);
}
