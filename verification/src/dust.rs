//! The sort driver, the insertion-sort level it rests on, and the sizing
//! arithmetic for block lengths.

use vstd::prelude::*;

use crate::buffer::Buffer;
use crate::merge::{lemma_swap_adjacent_filter, merge_in_place};
use crate::scan::{build_runs, next_non_desc_run, next_sorted_run, presorted_floor};
use crate::util::{
    equiv_to, leq, lemma_leq_total, lemma_leq_transitive, lemma_lt_leq, lemma_mod_sub_rem,
    lemma_mod_zero_add, lemma_mod_zero_half, lemma_multiple_below, lemma_runs_append_sorted,
    lemma_runs_sorted_patch, lemma_runs_sorted_stable, lemma_runs_window_sorted,
    lemma_sorted_glue, lemma_swap_multiset, runs_sorted, same_outside, sorted_between, vec_swap,
    Less,
};

verus! {

/// Create runs of this size at the small-sort level.
pub const MIN_RUN: usize = 32;

/// For two runs of size `n1, n2` where `n1 | n2 < [value]`, prefer simple lazy
/// stable merging over the advanced version.
pub const MIN_FAST_LAZY: usize = 512;

/// For two runs of size `n1, n2` where the smaller run size `n1` satisfies
/// `n1 <= n2 / [ratio]`, prefer merging with exponential search over the
/// branchless kernels.
pub const RATIO_BIN_MERGE: usize = 8;

// Immediately switch to insertion sort if the array is smaller than this.
pub(crate) const MIN_SCAN: usize = 8;

// Avoid the overhead of the run-building merge sort on arrays smaller than this.
pub(crate) const MIN_MERGE_SORT: usize = 64;

// Use the rotation-based strategy on arrays with less than this many
// comparatively unequal elements.
pub(crate) const MIN_DISTINCT: usize = 12;

// Use the rotation-based strategy on arrays which end in no more than this
// many unsorted blocks.
pub(crate) const MAX_APPEND_BLOCKS: usize = 3;

/// Sort `s..s + n` with insertion sort, assuming the first `i` elements of the
/// region are already sorted. Already-sorted input is left untouched, and the
/// sort is stable: every class of equivalent elements keeps its order.
pub fn insert_sort<T, C: Less<T>>(v: &mut Vec<T>, s: usize, i: usize, n: usize, cmp: &mut C)
    requires
        s + n <= old(v)@.len(),
        i <= n,
        sorted_between::<T, C>(old(v)@, s as int, s + i),
    ensures
        same_outside(final(v)@, old(v)@, s as int, s + n),
        final(v)@.to_multiset() == old(v)@.to_multiset(),
        sorted_between::<T, C>(final(v)@, s as int, s + n),
        sorted_between::<T, C>(old(v)@, s as int, s + n) ==> final(v)@ == old(v)@,
        forall|p: T| #[trigger] final(v)@.filter(equiv_to::<T, C>(p)) == old(v)@.filter(
            equiv_to::<T, C>(p),
        ),
{
    broadcast use lemma_leq_total;
    broadcast use lemma_leq_transitive;
    broadcast use lemma_lt_leq;

    let mut t: usize = if i == 0 { 1 } else { i };

    while t < n
        invariant
            s + n <= v@.len(),
            v.len() == old(v)@.len(),
            i <= t || n <= 1,
            t >= 1,
            same_outside(v@, old(v)@, s as int, s + n),
            v@.to_multiset() == old(v)@.to_multiset(),
            sorted_between::<T, C>(v@, s as int, s + t),
            sorted_between::<T, C>(old(v)@, s as int, s + n) ==> v@ == old(v)@,
            forall|p: T| #[trigger] v@.filter(equiv_to::<T, C>(p)) == old(v)@.filter(
                equiv_to::<T, C>(p),
            ),
        decreases n - t,
    {
        let mut j: usize = s + t;

        while j > s && cmp.less(&v[j], &v[j - 1])
            invariant
                s <= j <= s + t,
                t < n,
                s + n <= v@.len(),
                v.len() == old(v)@.len(),
                same_outside(v@, old(v)@, s as int, s + n),
                v@.to_multiset() == old(v)@.to_multiset(),
                sorted_between::<T, C>(v@, s as int, j as int),
                sorted_between::<T, C>(v@, j + 1, s + t + 1),
                forall|k: int| j < k <= s + t ==> C::lt(v@[j as int], #[trigger] v@[k]),
                forall|k1: int, k2: int|
                    s <= k1 < j && j < k2 <= s + t ==> leq::<T, C>(#[trigger] v@[k1], #[trigger] v@[k2]),
                sorted_between::<T, C>(old(v)@, s as int, s + n) ==> v@ == old(v)@,
                forall|p: T| #[trigger] v@.filter(equiv_to::<T, C>(p)) == old(v)@.filter(
                    equiv_to::<T, C>(p),
                ),
            decreases j,
        {
            proof {
                if sorted_between::<T, C>(old(v)@, s as int, s + n) {
                    assert(leq::<T, C>(v@[j - 1], v@[j as int]));
                }
            }
            let ghost pre = v@;
            vec_swap(v, j - 1, j);
            proof {
                lemma_swap_multiset(pre, j - 1, j as int);
                assert forall|p: T| #[trigger] v@.filter(equiv_to::<T, C>(p)) == old(v)@.filter(
                    equiv_to::<T, C>(p),
                ) by {
                    lemma_swap_adjacent_filter::<T, C>(pre, j as int, p);
                }
            }
            j = j - 1;
        }

        proof {
            assert forall|k1: int, k2: int| s <= k1 <= k2 < s + t + 1 implies leq::<T, C>(
                #[trigger] v@[k1],
                #[trigger] v@[k2],
            ) by {
                if k2 < j {
                    assert(leq::<T, C>(v@[k1], v@[k2]));
                } else if k1 == j && k2 == j {
                    lemma_lt_leq::<T, C>(v@[k1], v@[k1]);
                } else if k1 == j {
                    assert(C::lt(v@[j as int], v@[k2]));
                    lemma_lt_leq::<T, C>(v@[j as int], v@[k2]);
                } else if k1 > j {
                    assert(leq::<T, C>(v@[k1], v@[k2]));
                } else if k2 == j {
                    assert(j > s);
                    assert(leq::<T, C>(v@[j - 1], v@[j as int]));
                    assert(leq::<T, C>(v@[k1], v@[j - 1]));
                    lemma_leq_transitive::<T, C>(v@[k1], v@[j - 1], v@[j as int]);
                } else {
                    assert(leq::<T, C>(v@[k1], v@[k2]));
                }
            }
        }
        t = t + 1;
    }
}

/// Merge adjacent runs of doubling lengths until the region `s..s + n` is
/// sorted, assuming runs of length `run` are already built on it and the first
/// `head` elements are sorted.
#[verifier::rlimit(100)]
pub(crate) fn merge_sort_in_place<T, C: Less<T>>(
    v: &mut Vec<T>,
    s: usize,
    head: usize,
    n: usize,
    run: usize,
    cmp: &mut C,
)
    requires
        s + n <= old(v)@.len(),
        1 <= run,
        head <= n,
        sorted_between::<T, C>(old(v)@, s as int, s + head),
        runs_sorted::<T, C>(old(v)@, s as int, s + n, run as int),
    ensures
        same_outside(final(v)@, old(v)@, s as int, s + n),
        final(v)@.to_multiset() == old(v)@.to_multiset(),
        sorted_between::<T, C>(final(v)@, s as int, s + n),
        forall|p: T| #[trigger] final(v)@.filter(equiv_to::<T, C>(p)) == old(v)@.filter(
            equiv_to::<T, C>(p),
        ),
{
    let mut run = run;

    proof {
        assert(s + n <= v.len());
    }

    while run < n
        invariant
            1 <= run,
            s + n <= v@.len(),
            v.len() == old(v)@.len(),
            head <= n,
            sorted_between::<T, C>(old(v)@, s as int, s + head),
            runs_sorted::<T, C>(v@, s as int, s + n, run as int),
            forall|k: int|
                s <= k < s + (head - (head as int) % (2 * (run as int))) ==> v@[k] == #[trigger] old(v)@[k],
            same_outside(v@, old(v)@, s as int, s + n),
            v@.to_multiset() == old(v)@.to_multiset(),
            forall|p: T| #[trigger] v@.filter(equiv_to::<T, C>(p)) == old(v)@.filter(
                equiv_to::<T, C>(p),
            ),
        decreases n - run,
    {
        let l0 = if run <= usize::MAX / 2 {
            proof {
                vstd::arithmetic::div_mod::lemma_mod_decreases(head as nat, (2 * run) as nat);
            }
            head - head % (2 * run)
        } else {
            0
        };
        let mut l = l0;

        proof {
            // The prefix below the first merged pair is still the input
            // prefix, so it is sorted with sorted double windows.
            vstd::arithmetic::div_mod::lemma_small_mod(0, (2 * (run as int)) as nat);
            if run <= usize::MAX / 2 {
                lemma_mod_sub_rem(head as int, 2 * (run as int));
                assert(l0 as int == head - (head as int) % (2 * (run as int)));
                assert((l0 as int) % (2 * (run as int)) == 0);
            } else {
                assert(l0 == 0);
            }
            assert forall|k1: int, k2: int|
                s <= k1 <= k2 < s + l0 implies #[trigger] leq::<T, C>(v@[k1], v@[k2]) by {
                assert(v@[k1] == old(v)@[k1]);
                assert(v@[k2] == old(v)@[k2]);
                assert(leq::<T, C>(old(v)@[k1], old(v)@[k2]));
            }
            lemma_runs_append_sorted::<T, C>(v@, s as int, s as int, s + l0, 2 * (run as int));
        }

        while run <= (n - l) / 2
            invariant
                1 <= run,
                run < n,
                l0 <= l <= n,
                s + n <= v@.len(),
                v.len() == old(v)@.len(),
                head <= n,
                l0 <= head,
                (l - l0) % (2 * (run as int)) == 0,
                (l0 as int) % (2 * (run as int)) == 0,
                sorted_between::<T, C>(old(v)@, s as int, s + head),
                runs_sorted::<T, C>(v@, s as int, s + n, run as int),
                runs_sorted::<T, C>(v@, s as int, s + l, 2 * (run as int)),
                forall|k: int| s <= k < s + l0 ==> v@[k] == #[trigger] old(v)@[k],
                same_outside(v@, old(v)@, s as int, s + n),
                v@.to_multiset() == old(v)@.to_multiset(),
                forall|p: T| #[trigger] v@.filter(equiv_to::<T, C>(p)) == old(v)@.filter(
                    equiv_to::<T, C>(p),
                ),
            decreases n - l,
        {
            proof {
                lemma_mod_zero_add(l0 as int, l - l0, 2 * (run as int));
                lemma_mod_zero_half(l as int, run as int);
                vstd::arithmetic::div_mod::lemma_mod_self_0(run as int);
                lemma_mod_zero_add(l as int, run as int, run as int);
                lemma_mod_zero_add(l + run, run as int, run as int);
                lemma_mod_zero_add(l - l0, 2 * (run as int), 2 * (run as int));
                vstd::arithmetic::div_mod::lemma_mod_self_0(2 * (run as int));
                lemma_runs_window_sorted::<T, C>(
                    v@,
                    s as int,
                    s + n,
                    run as int,
                    s + l,
                    s + l + run,
                );
                lemma_runs_window_sorted::<T, C>(
                    v@,
                    s as int,
                    s + n,
                    run as int,
                    s + l + run,
                    s + l + 2 * (run as int),
                );
            }
            let ghost vp = v@;
            merge_in_place(v, s + l, run, run, cmp);
            proof {
                lemma_runs_sorted_patch::<T, C>(
                    vp,
                    v@,
                    s as int,
                    s + n,
                    run as int,
                    s + l,
                    s + l + 2 * (run as int),
                );
                lemma_runs_sorted_stable::<T, C>(vp, v@, s as int, s + l, 2 * (run as int));
                lemma_runs_append_sorted::<T, C>(v@, s as int, s + l, s + l + 2 * (run as int), 2 * (run as int));
            }
            l = l + 2 * run;
        }

        // Fold the remainder, shorter than a full pair, into the merged part.
        if run < n - l {
            proof {
                lemma_mod_zero_add(l0 as int, l - l0, 2 * (run as int));
                lemma_mod_zero_half(l as int, run as int);
                vstd::arithmetic::div_mod::lemma_mod_self_0(run as int);
                lemma_mod_zero_add(l as int, run as int, run as int);
                lemma_runs_window_sorted::<T, C>(
                    v@,
                    s as int,
                    s + n,
                    run as int,
                    s + l,
                    s + l + run,
                );
                lemma_runs_window_sorted::<T, C>(
                    v@,
                    s as int,
                    s + n,
                    run as int,
                    s + l + run,
                    s + n,
                );
            }
            let ghost vp = v@;
            merge_in_place(v, s + l, run, n - l - run, cmp);
            proof {
                lemma_runs_sorted_stable::<T, C>(vp, v@, s as int, s + l, 2 * (run as int));
                lemma_runs_append_sorted::<T, C>(v@, s as int, s + l, s + n, 2 * (run as int));
            }
        } else {
            proof {
                lemma_mod_zero_add(l0 as int, l - l0, 2 * (run as int));
                lemma_mod_zero_half(l as int, run as int);
                lemma_runs_window_sorted::<T, C>(v@, s as int, s + n, run as int, s + l, s + n);
                lemma_runs_append_sorted::<T, C>(v@, s as int, s + l, s + n, 2 * (run as int));
            }
        }

        if run <= usize::MAX / 2 && 2 * run < n {
            proof {
                let m2 = 2 * (run as int);
                let m4 = 4 * (run as int);
                lemma_mod_sub_rem(head as int, m4);
                lemma_mod_zero_half(head - (head as int) % m4, m2);
                lemma_multiple_below(head as int, m2, head - (head as int) % m4);
            }
            run = 2 * run;
        } else {
            proof {
                vstd::arithmetic::div_mod::lemma_small_mod(0, (2 * (run as int)) as nat);
                vstd::arithmetic::div_mod::lemma_small_mod(0, n as nat);
                vstd::arithmetic::div_mod::lemma_small_mod(head as nat, (2 * (n as int)) as nat);
                lemma_runs_window_sorted::<T, C>(
                    v@,
                    s as int,
                    s + n,
                    2 * (run as int),
                    s as int,
                    s + n,
                );
                lemma_runs_append_sorted::<T, C>(v@, s as int, s as int, s + n, n as int);
            }
            run = n;
        }
    }

    proof {
        if n > 0 {
            vstd::arithmetic::div_mod::lemma_small_mod(0, run as nat);
            lemma_runs_window_sorted::<T, C>(v@, s as int, s + n, run as int, s as int, s + n);
        }
    }
}

/// Sort `s..s + n` using only rotation-based merging, assuming the first
/// `head` elements are sorted. A positive `tail` keeps that many rightmost
/// elements out of the first round and folds them in with a second one.
pub(crate) fn sort_special<T, C: Less<T>>(
    v: &mut Vec<T>,
    s: usize,
    n: usize,
    head: usize,
    tail: usize,
    cmp: &mut C,
)
    requires
        s + n <= old(v)@.len(),
        tail <= n,
        head <= n - tail,
        sorted_between::<T, C>(old(v)@, s as int, s + head),
    ensures
        same_outside(final(v)@, old(v)@, s as int, s + n),
        final(v)@.to_multiset() == old(v)@.to_multiset(),
        sorted_between::<T, C>(final(v)@, s as int, s + n),
{
    proof {
        assert(s + n <= v.len());
    }

    let hp = floor_to_run(head);
    let ghost v0 = v@;
    build_runs(v, s, s + head, n - tail, cmp);
    proof {
        assert forall|k1: int, k2: int|
            s <= k1 <= k2 < s + hp implies #[trigger] leq::<T, C>(v@[k1], v@[k2]) by {
            assert(v@[k1] == v0[k1]);
            assert(v@[k2] == v0[k2]);
            assert(leq::<T, C>(v0[k1], v0[k2]));
        }
    }
    merge_sort_in_place(v, s, hp, n - tail, MIN_RUN, cmp);

    if tail > 0 {
        let hp2 = floor_to_run(n - tail);
        let ghost v1 = v@;
        build_runs(v, s, s + (n - tail), n, cmp);
        proof {
            assert forall|k1: int, k2: int|
                s <= k1 <= k2 < s + hp2 implies #[trigger] leq::<T, C>(v@[k1], v@[k2]) by {
                assert(v@[k1] == v1[k1]);
                assert(v@[k2] == v1[k2]);
                assert(leq::<T, C>(v1[k1], v1[k2]));
            }
        }
        merge_sort_in_place(v, s, hp2, n, MIN_RUN, cmp);
    }
}

/// The largest length not beyond `head` whose windows run building keeps
/// untouched.
fn floor_to_run(head: usize) -> (r: usize)
    ensures
        r as int == presorted_floor(head as int, MIN_RUN as int),
        r <= head,
{
    if head % MIN_RUN == 0 {
        if head >= MIN_RUN {
            head - MIN_RUN
        } else {
            0
        }
    } else {
        head - head % MIN_RUN
    }
}

/// The floor of the base-two logarithm.
pub open spec fn log2(n: int) -> nat
    decreases n,
{
    if n <= 1 {
        0
    } else {
        (1 + log2(n / 2)) as nat
    }
}

/// `pow2(log2(n))` is the largest power of two not above `n`.
pub proof fn lemma_log2_sandwich(n: int)
    requires
        1 <= n,
    ensures
        vstd::arithmetic::power2::pow2(log2(n)) <= n,
        n < 2 * vstd::arithmetic::power2::pow2(log2(n)),
    decreases n,
{
    if n > 1 {
        lemma_log2_sandwich(n / 2);
        assert(log2(n) == 1 + log2(n / 2));
        vstd::arithmetic::power2::lemma_pow2_unfold(log2(n / 2) + 1);
        assert(vstd::arithmetic::power2::pow2(log2(n)) == 2 * vstd::arithmetic::power2::pow2(
            log2(n / 2),
        ));
    } else {
        assert(log2(n) == 0);
        assert(vstd::arithmetic::power2::pow2(0) == 1) by {
            vstd::arithmetic::power2::lemma2_to64();
        }
    }
}

/// The base-two logarithm does not exceed its argument.
pub proof fn lemma_log2_le(n: int)
    requires
        0 <= n,
    ensures
        log2(n) <= n,
        n >= 1 ==> log2(n) < n,
    decreases n,
{
    if n > 1 {
        lemma_log2_le(n / 2);
    }
}

/// Compute the floor of the base-two logarithm.
fn floor_log2(n: usize) -> (lg: usize)
    requires
        1 <= n,
    ensures
        lg == log2(n as int),
{
    let mut lg: usize = 0;
    let mut m: usize = n;

    while m > 1
        invariant
            1 <= m <= n,
            lg + log2(m as int) == log2(n as int),
        decreases m,
    {
        proof {
            assert(log2(m as int) == 1 + log2(m as int / 2));
            lemma_log2_le(n as int);
        }
        m = m / 2;
        lg = lg + 1;
    }

    proof {
        assert(log2(m as int) == 0);
    }

    lg
}

/// Compute a power of two that fits the machine word.
fn pow2_exec(e: usize) -> (r: usize)
    requires
        vstd::arithmetic::power2::pow2(e as nat) <= usize::MAX,
    ensures
        r == vstd::arithmetic::power2::pow2(e as nat),
{
    let mut r: usize = 1;
    let mut t: usize = 0;

    proof {
        vstd::arithmetic::power2::lemma2_to64();
    }

    while t < e
        invariant
            t <= e,
            r == vstd::arithmetic::power2::pow2(t as nat),
            vstd::arithmetic::power2::pow2(e as nat) <= usize::MAX,
        decreases e - t,
    {
        proof {
            if (t as nat) + 1 < e as nat {
                vstd::arithmetic::power2::lemma_pow2_strictly_increases(
                    (t + 1) as nat,
                    e as nat,
                );
            }
            vstd::arithmetic::power2::lemma_pow2_unfold((t + 1) as nat);
        }
        r = r * 2;
        t = t + 1;
    }

    r
}

/// The block length used to sort `n` elements: a power of two near the
/// square root of `n`.
pub open spec fn block_length_of(n: int) -> int {
    let k = vstd::arithmetic::power2::pow2(((log2(n) + 1) / 2) as nat) as int;
    if k < n / k {
        2 * k
    } else {
        k
    }
}

/// Return the desired block length to sort `n` elements.
pub fn array_block_length(n: usize) -> (r: usize)
    requires
        1 <= n,
    ensures
        r as int == block_length_of(n as int),
{
    let lg = floor_log2(n);

    proof {
        lemma_log2_le(n as int);
    }

    let x = (lg + 1) / 2;

    proof {
        lemma_log2_sandwich(n as int);
        if x < lg {
            vstd::arithmetic::power2::lemma_pow2_strictly_increases(x as nat, lg as nat);
        }
    }

    let k = pow2_exec(x);

    proof {
        vstd::arithmetic::power2::lemma_pow2_pos(x as nat);
        if k < n / k {
            vstd::arithmetic::div_mod::lemma_fundamental_div_mod(n as int, k as int);
            assert((k as int) * ((n as int) / (k as int)) <= n);
            assert((k as int) * (k as int) <= (k as int) * ((n as int) / (k as int)))
                by (nonlinear_arith)
                requires
                    k >= 1,
                    (k as int) < (n as int) / (k as int),
            ;
            assert(2 * k <= usize::MAX) by (nonlinear_arith)
                requires
                    (k as int) * (k as int) <= usize::MAX,
                    k >= 1,
                    usize::MAX >= 2,
            ;
        }
    }

    if k < n / k {
        2 * k
    } else {
        k
    }
}

/// Return the desired block length for a buffer of size `buf_len`: keys and
/// merge scratch come out roughly equal.
pub fn buffer_block_length(buf_len: usize) -> (r: usize)
    requires
        1 <= buf_len <= usize::MAX - 2,
    ensures
        r as int == 2 * vstd::arithmetic::power2::pow2(log2((buf_len + 2) / 3)) as int,
{
    let m = (buf_len + 2) / 3;
    let lg = floor_log2(m);

    proof {
        lemma_log2_sandwich(m as int);
    }

    let k = pow2_exec(lg);
    2 * k
}

/// Sort the whole sequence: the driver behind the public entry points.
///
/// Tiny inputs go straight to insertion sort. Otherwise the natural sorted
/// head is detected first; when it covers everything the input comes back
/// untouched. Small inputs finish with insertion sort; for the rest a probe
/// for distinct keys near the head decides how the rotation-based merge
/// rounds are laid out, and any keys that were gathered are folded back in by
/// a final tail round.
pub fn sort<T, C: Less<T>>(v: &mut Vec<T>, cmp: &mut C)
    ensures
        final(v)@.len() == old(v)@.len(),
        final(v)@.to_multiset() == old(v)@.to_multiset(),
        sorted_between::<T, C>(final(v)@, 0, final(v)@.len() as int),
        sorted_between::<T, C>(old(v)@, 0, old(v)@.len() as int) ==> final(v)@ == old(v)@,
{
    let n = v.len();

    if n < MIN_SCAN {
        proof {
            lemma_lt_leq::<T, C>(v@[0], v@[0]);
        }
        insert_sort(
            v,
            0,
            if n == 0 {
                0
            } else {
                1
            },
            n,
            cmp,
        );
        return;
    }

    let mut head = next_sorted_run(v, 0, n, cmp);
    let ext = next_non_desc_run(v, head - 1, n - (head - 1), cmp);

    proof {
        if ext > 1 {
            lemma_sorted_glue::<T, C>(v@, 0, head - 1, head - 1 + ext);
        }
    }
    head = head + (ext - 1);

    if head == n {
        return;
    }

    proof {
        // A sorted input would have been recognized as a single run.
        if sorted_between::<T, C>(old(v)@, 0, n as int) {
            assert(false);
        }
    }

    if n < MIN_MERGE_SORT {
        insert_sort(v, 0, head, n, cmp);
        return;
    }

    let block_len = array_block_length(
        if n < usize::MAX {
            n + 1
        } else {
            n
        },
    );

    // For small appended tails, sort immediately with rotations.
    if ((n - head) as u128) <= (MAX_APPEND_BLOCKS as u128) * (block_len as u128) {
        sort_special(v, 0, n, head, 0, cmp);
        return;
    }

    let ghost vh = v@;
    let mut buf = Buffer { start: n, len: 0, unsorted: 0 };
    buf.binary_find_keys(v, head, n, MIN_DISTINCT, cmp);
    let ghost vk = v@;

    // For many similar items excluding the head, sort with rotations as well,
    // folding the collected keys back in as a tail round.
    if buf.len < MIN_DISTINCT {
        buf.shift(v, n - buf.len);
        proof {
            assert forall|k1: int, k2: int| 0 <= k1 <= k2 < head implies leq::<T, C>(
                #[trigger] v@[k1],
                #[trigger] v@[k2],
            ) by {
                assert(v@[k1] == vk[k1]);
                assert(vk[k1] == vh[k1]);
                assert(v@[k2] == vk[k2]);
                assert(vk[k2] == vh[k2]);
                assert(leq::<T, C>(vh[k1], vh[k2]));
            }
        }
        sort_special(v, 0, n, head, n - head, cmp);
        return;
    }

    // Combine both cases above.
    if ((buf.start - head) as u128) <= (MAX_APPEND_BLOCKS as u128) * (block_len as u128) {
        let tail = n - buf.start;
        buf.shift(v, n - buf.len);
        proof {
            assert forall|k1: int, k2: int| 0 <= k1 <= k2 < head implies leq::<T, C>(
                #[trigger] v@[k1],
                #[trigger] v@[k2],
            ) by {
                assert(v@[k1] == vk[k1]);
                assert(vk[k1] == vh[k1]);
                assert(v@[k2] == vk[k2]);
                assert(vk[k2] == vh[k2]);
                assert(leq::<T, C>(vh[k1], vh[k2]));
            }
        }
        sort_special(v, 0, n, head, tail, cmp);
        return;
    }

    buf.shift(v, n - buf.len);
    proof {
        assert forall|k1: int, k2: int| 0 <= k1 <= k2 < head implies leq::<T, C>(
            #[trigger] v@[k1],
            #[trigger] v@[k2],
        ) by {
            assert(v@[k1] == vk[k1]);
            assert(vk[k1] == vh[k1]);
            assert(v@[k2] == vk[k2]);
            assert(vk[k2] == vh[k2]);
            assert(leq::<T, C>(vh[k1], vh[k2]));
        }
    }
    sort_special(v, 0, n, head, buf.len, cmp);
}

} // verus!
