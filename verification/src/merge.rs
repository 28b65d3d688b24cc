//! Merge kernels: rotation-based merges that need no scratch beyond the
//! sequence itself, buffered kernels that cycle displaced elements through a
//! scratch region, their galloping variants for unbalanced runs, and the
//! adaptive entry that picks among them.

use vstd::multiset::Multiset;
use vstd::prelude::*;

use crate::buffer::Buffer;
use crate::dust::{MIN_FAST_LAZY, RATIO_BIN_MERGE};
use crate::util::{
    block_swap_length, cycle_swap, equiv_to, leq, leq_across, lemma_leq_lt_transitive,
    lemma_leq_total, lemma_leq_transitive, lemma_lt_leq, lemma_lt_leq_transitive,
    lemma_region_values, lemma_sorted_glue, lemma_subrange_ms_split, lemma_swap_multiset,
    region_has, rotate, same_outside, search_left, search_right, sorted_between, vec_swap, Less,
};

verus! {

/// Merge the adjacent sorted runs `s..s + n1` and `s + n1..s + n1 + n2` into
/// `s..s + n1 + n2` with rotations: the region ends up holding exactly the
/// stable merge of the two runs.
#[verifier::rlimit(100)]
#[verifier::spinoff_prover]
pub fn merge_lazy<T, C: Less<T>>(v: &mut Vec<T>, s: usize, n1: usize, n2: usize, cmp: &mut C)
    requires
        s + n1 + n2 <= old(v)@.len(),
        sorted_between::<T, C>(old(v)@, s as int, s + n1),
        sorted_between::<T, C>(old(v)@, s + n1, s + n1 + n2),
    ensures
        same_outside(final(v)@, old(v)@, s as int, s + n1 + n2),
        final(v)@.to_multiset() == old(v)@.to_multiset(),
        sorted_between::<T, C>(final(v)@, s as int, s + n1 + n2),
        final(v)@.subrange(s as int, s + n1 + n2) == merge_seqs::<T, C>(
            old(v)@.subrange(s as int, s + n1),
            old(v)@.subrange(s + n1, s + n1 + n2),
        ),
{
    let ghost a = old(v)@.subrange(s as int, s + n1);
    let ghost b = old(v)@.subrange(s + n1, s + n1 + n2);
    let ghost mfull = merge_seqs::<T, C>(a, b);

    proof {
        assert(s + n1 + n2 <= v.len());
        lemma_merge_seqs_len::<T, C>(a, b);
        assert(sorted_between::<T, C>(a, 0, a.len() as int)) by {
            assert forall|i: int, j: int| 0 <= i <= j < a.len() implies #[trigger] leq::<T, C>(
                a[i],
                a[j],
            ) by {
                assert(leq::<T, C>(old(v)@[s + i], old(v)@[s + j]));
            }
        }
        assert(sorted_between::<T, C>(b, 0, b.len() as int)) by {
            assert forall|i: int, j: int| 0 <= i <= j < b.len() implies #[trigger] leq::<T, C>(
                b[i],
                b[j],
            ) by {
                assert(leq::<T, C>(old(v)@[s + n1 + i], old(v)@[s + n1 + j]));
            }
        }
    }

    if n2 <= n1 {
        let mut m1: usize = n1;
        let mut m2: usize = n2;

        proof {
            assert(a.take(n1 as int) =~= a);
            assert(b.take(n2 as int) =~= b);
            assert(mfull.skip(n1 + n2) =~= Seq::<T>::empty());
            assert(mfull =~= merge_seqs::<T, C>(a.take(n1 as int), b.take(n2 as int))
                + mfull.skip(n1 + n2));
        }

        while m1 > 0 && m2 > 0
            invariant
                m1 <= n1,
                m2 <= n2,
                s + n1 + n2 <= v@.len(),
                v.len() == old(v)@.len(),
                a.len() == n1,
                b.len() == n2,
                a == old(v)@.subrange(s as int, s + n1),
                b == old(v)@.subrange(s + n1, s + n1 + n2),
                sorted_between::<T, C>(a, 0, a.len() as int),
                sorted_between::<T, C>(b, 0, b.len() as int),
                mfull == merge_seqs::<T, C>(a, b),
                mfull.len() == n1 + n2,
                forall|k: int| s <= k < s + m1 ==> #[trigger] v@[k] == a[k - s],
                forall|k: int| s + m1 <= k < s + m1 + m2 ==> #[trigger] v@[k] == b[k - s - m1],
                forall|k: int|
                    s + m1 + m2 <= k < s + n1 + n2 ==> #[trigger] v@[k] == mfull[k - s],
                mfull == merge_seqs::<T, C>(a.take(m1 as int), b.take(m2 as int)) + mfull.skip(
                    m1 + m2,
                ),
                same_outside(v@, old(v)@, s as int, s + n1 + n2),
                v@.to_multiset() == old(v)@.to_multiset(),
            decreases m1 + m2,
        {
            proof {
                assert forall|k1: int, k2: int|
                    s <= k1 <= k2 < s + m1 implies #[trigger] leq::<T, C>(v@[k1], v@[k2]) by {
                    assert(v@[k1] == a[k1 - s]);
                    assert(v@[k2] == a[k2 - s]);
                    assert(leq::<T, C>(a[k1 - s], a[k2 - s]));
                }
            }

            let next_1 = search_right(v, s, m1, &v[s + m1 + m2 - 1], cmp);
            let ghost va = v@;
            let ghost m1p = m1 as int;
            let ghost x = a.take(m1 as int);
            let ghost y = b.take(m2 as int);
            rotate(v, s + next_1, m1 - next_1, m2);

            proof {
                lemma_sorted_take::<T, C>(a, m1 as int);
                lemma_sorted_take::<T, C>(b, m2 as int);
                lemma_merge_seqs_len::<T, C>(x, y);
                // The searched tail of the left run sits past the whole mid
                // run in the merge.
                assert(y.last() == b[m2 - 1]);
                assert(va[s + m1 + m2 - 1] == b[m2 - 1]);
                assert forall|j: int| next_1 <= j < m1 implies C::lt(
                    y.last(),
                    #[trigger] x[j],
                ) by {
                    assert(C::lt(va[s + m1 + m2 - 1], va[s + j]));
                    assert(va[s + j] == a[j]);
                }
                lemma_merge_seqs_back_first::<T, C>(x, y, next_1 as int);
                lemma_merge_seqs_len::<T, C>(x.take(next_1 as int), y);
                assert(x.take(next_1 as int) =~= a.take(next_1 as int));
                // Pointwise state after the rotation.
                assert forall|k: int| s <= k < s + next_1 implies #[trigger] v@[k] == a[k
                    - s] by {
                    assert(v@[k] == va[k]);
                }
                assert forall|k: int|
                    s + next_1 <= k < s + next_1 + m2 implies #[trigger] v@[k] == b[k - s
                    - next_1] by {
                    assert(v@[k] == va[k + (m1 - next_1)]);
                    assert(va[s + m1 + (k - s - next_1)] == b[k - s - next_1]);
                }
                assert forall|k: int|
                    s + next_1 + m2 <= k < s + n1 + n2 implies #[trigger] v@[k] == mfull[k
                    - s] by {
                    if k < s + m1 + m2 {
                        assert(v@[k] == va[k - m2]);
                        assert(va[k - m2] == a[k - m2 - s]);
                        assert(mfull[k - s] == x.skip(next_1 as int)[k - s - m2 - next_1]);
                    } else {
                        assert(v@[k] == va[k]);
                    }
                }
                assert(mfull =~= merge_seqs::<T, C>(
                    a.take(next_1 as int),
                    b.take(m2 as int),
                ) + mfull.skip(next_1 + m2));
            }

            m1 = next_1;

            if m1 > 0 {
                proof {
                    assert forall|k1: int, k2: int|
                        s + m1 <= k1 <= k2 < s + m1 + (m2 - 1) implies #[trigger] leq::<T, C>(
                        v@[k1],
                        v@[k2],
                    ) by {
                        assert(v@[k1] == b[k1 - s - m1]);
                        assert(v@[k2] == b[k2 - s - m1]);
                        assert(leq::<T, C>(b[k1 - s - m1], b[k2 - s - m1]));
                    }
                }

                let m2_new = search_left(v, s + m1, m2 - 1, &v[s + m1 - 1], cmp);

                proof {
                    let x2 = a.take(m1 as int);
                    let y2 = b.take(m2 as int);
                    lemma_sorted_take::<T, C>(a, m1 as int);
                    lemma_sorted_take::<T, C>(b, m2 as int);
                    lemma_merge_seqs_len::<T, C>(x2, y2);
                    assert(x2.last() == a[m1 - 1]);
                    assert(v@[s + m1 - 1] == a[m1 - 1]);
                    // The mid elements from the split on are at least the
                    // last left element; the mid run's own last element was
                    // already checked by the search before the rotation.
                    assert forall|j: int| m2_new <= j < m2 implies !C::lt(
                        #[trigger] y2[j],
                        x2.last(),
                    ) by {
                        if j < m2 - 1 {
                            assert(!C::lt(v@[s + m1 + j], v@[s + m1 - 1]));
                            assert(v@[s + m1 + j] == b[j]);
                        } else {
                            assert(leq::<T, C>(va[s + (m1 - 1)], va[s + m1p + m2 - 1]));
                            assert(va[s + (m1 - 1)] == a[m1 - 1]);
                            assert(va[s + m1p + m2 - 1] == b[m2 - 1]);
                        }
                    }
                    lemma_merge_seqs_back_second::<T, C>(x2, y2, m2_new as int);
                    lemma_merge_seqs_len::<T, C>(x2, y2.take(m2_new as int));
                    assert(y2.take(m2_new as int) =~= b.take(m2_new as int));
                    assert forall|k: int|
                        s + m1 + m2_new <= k < s + n1 + n2 implies #[trigger] v@[k] == mfull[k
                        - s] by {
                        if k < s + m1 + m2 {
                            assert(v@[k] == b[k - s - m1]);
                            assert(mfull[k - s] == y2.skip(m2_new as int)[k - s - m1 - m2_new]);
                        }
                    }
                    assert(mfull =~= merge_seqs::<T, C>(
                        a.take(m1 as int),
                        b.take(m2_new as int),
                    ) + mfull.skip(m1 + m2_new));
                }

                m2 = m2_new;
            }
        }

        proof {
            if m2 == 0 {
                assert(b.take(0) =~= Seq::<T>::empty());
                assert(merge_seqs::<T, C>(a.take(m1 as int), b.take(0)) == a.take(m1 as int));
                assert forall|k: int| s <= k < s + n1 + n2 implies #[trigger] v@[k] == mfull[k
                    - s] by {
                    if k < s + m1 {
                        assert(v@[k] == a[k - s]);
                        assert(mfull[k - s] == a.take(m1 as int)[k - s]);
                    }
                }
            } else {
                assert(a.take(0) =~= Seq::<T>::empty());
                assert(merge_seqs::<T, C>(a.take(0), b.take(m2 as int)) == b.take(m2 as int));
                assert forall|k: int| s <= k < s + n1 + n2 implies #[trigger] v@[k] == mfull[k
                    - s] by {
                    if k < s + m2 {
                        assert(v@[k] == b[k - s]);
                        assert(mfull[k - s] == b.take(m2 as int)[k - s]);
                    }
                }
            }
        }
    } else {
        let mut m1: usize = n1;
        let mut m2: usize = n2;
        let mut p: usize = s;

        proof {
            assert(a.skip(0) =~= a);
            assert(b.skip(0) =~= b);
            assert(mfull.take(0) =~= Seq::<T>::empty());
            assert(mfull =~= mfull.take(0) + merge_seqs::<T, C>(a.skip(0), b.skip(0)));
        }

        while m1 > 0 && m2 > 0
            invariant
                m1 <= n1,
                m2 <= n2,
                p == s + (n1 - m1) + (n2 - m2),
                s + n1 + n2 <= v@.len(),
                v.len() == old(v)@.len(),
                a.len() == n1,
                b.len() == n2,
                a == old(v)@.subrange(s as int, s + n1),
                b == old(v)@.subrange(s + n1, s + n1 + n2),
                sorted_between::<T, C>(a, 0, a.len() as int),
                sorted_between::<T, C>(b, 0, b.len() as int),
                mfull == merge_seqs::<T, C>(a, b),
                mfull.len() == n1 + n2,
                forall|k: int| p <= k < p + m1 ==> #[trigger] v@[k] == a[(n1 - m1) + (k - p)],
                forall|k: int|
                    p + m1 <= k < p + m1 + m2 ==> #[trigger] v@[k] == b[(n2 - m2) + (k - p
                        - m1)],
                forall|k: int| s <= k < p ==> #[trigger] v@[k] == mfull[k - s],
                mfull == mfull.take((n1 - m1) + (n2 - m2)) + merge_seqs::<T, C>(
                    a.skip(n1 - m1),
                    b.skip(n2 - m2),
                ),
                same_outside(v@, old(v)@, s as int, s + n1 + n2),
                v@.to_multiset() == old(v)@.to_multiset(),
            decreases m1 + m2,
        {
            let ghost c1 = n1 - m1;
            let ghost c2 = n2 - m2;

            proof {
                assert forall|k1: int, k2: int|
                    p + m1 <= k1 <= k2 < p + m1 + m2 implies #[trigger] leq::<T, C>(
                    v@[k1],
                    v@[k2],
                ) by {
                    assert(v@[k1] == b[c2 + (k1 - p - m1)]);
                    assert(v@[k2] == b[c2 + (k2 - p - m1)]);
                    assert(leq::<T, C>(b[c2 + (k1 - p - m1)], b[c2 + (k2 - p - m1)]));
                }
            }

            let r_adv = search_left(v, p + m1, m2, &v[p], cmp);
            let ghost va = v@;
            rotate(v, p, m1, r_adv);

            proof {
                let x = a.skip(c1);
                let y = b.skip(c2);
                assert(va[p as int] == a[c1]);
                assert forall|j: int| 0 <= j < r_adv implies C::lt(#[trigger] y[j], x[0]) by {
                    assert(C::lt(va[p + m1 + j], va[p as int]));
                    assert(va[p + m1 + j] == b[c2 + j]);
                }
                lemma_merge_seqs_take_second::<T, C>(x, y, r_adv as int);
                // Pointwise state after the rotation.
                assert forall|k: int|
                    s <= k < p + r_adv implies #[trigger] v@[k] == mfull[k - s] by {
                    if k < p {
                        assert(v@[k] == va[k]);
                    } else {
                        assert(v@[k] == va[k + m1]);
                        assert(va[p + m1 + (k - p)] == b[c2 + (k - p)]);
                        assert(mfull.skip(c1 + c2)[k - s - c1 - c2] == y.take(r_adv as int)[k - s
                            - c1 - c2]);
                    }
                }
                assert forall|k: int|
                    p + r_adv <= k < p + r_adv + m1 implies #[trigger] v@[k] == a[c1 + (k - p
                    - r_adv)] by {
                    assert(v@[k] == va[k - r_adv]);
                    assert(va[p + (k - p - r_adv)] == a[c1 + (k - p - r_adv)]);
                }
                assert forall|k: int|
                    p + r_adv + m1 <= k < p + m1 + m2 implies #[trigger] v@[k] == b[(c2 + r_adv)
                    + (k - p - r_adv - m1)] by {
                    assert(v@[k] == va[k]);
                    assert(va[p + m1 + (k - p - m1)] == b[c2 + (k - p - m1)]);
                }
                assert(y.skip(r_adv as int) =~= b.skip(c2 + r_adv));
                assert(mfull.take(c1 + c2) + y.take(r_adv as int) =~= mfull.take(
                    c1 + c2 + r_adv,
                ));
                assert(mfull =~= mfull.take(c1 + c2 + r_adv) + merge_seqs::<T, C>(
                    a.skip(c1),
                    b.skip(c2 + r_adv),
                ));
                // The rest of the mid run is not below the left head.
                assert forall|j: int| r_adv <= j < m2 implies !C::lt(
                    #[trigger] b[c2 + j],
                    a[c1],
                ) by {
                    assert(!C::lt(va[p + m1 + j], va[p as int]));
                    assert(va[p + m1 + j] == b[c2 + j]);
                }
            }

            p = p + r_adv;
            m2 = m2 - r_adv;

            if m2 > 0 {
                proof {
                    assert forall|k1: int, k2: int|
                        p + 1 <= k1 <= k2 < p + m1 implies #[trigger] leq::<T, C>(
                        v@[k1],
                        v@[k2],
                    ) by {
                        assert(v@[k1] == a[(n1 - m1) + (k1 - p)]);
                        assert(v@[k2] == a[(n1 - m1) + (k2 - p)]);
                        assert(leq::<T, C>(a[(n1 - m1) + (k1 - p)], a[(n1 - m1) + (k2 - p)]));
                    }
                }

                let adv = 1 + search_right(v, p + 1, m1 - 1, &v[p + m1], cmp);

                proof {
                    let c1b = n1 - m1;
                    let c2b = n2 - m2;
                    let x = a.skip(c1b);
                    let y = b.skip(c2b);
                    assert(v@[p + m1] == b[c2b]);
                    assert forall|j: int| 0 <= j < adv implies !C::lt(y[0], #[trigger] x[j]) by {
                        if j == 0 {
                            assert(!C::lt(b[c2b], a[c1b]));
                        } else {
                            assert(leq::<T, C>(v@[p + j], v@[p + m1]));
                            assert(v@[p + j] == a[c1b + j]);
                        }
                    }
                    lemma_merge_seqs_take_first::<T, C>(x, y, adv as int);
                    assert forall|k: int|
                        s <= k < p + adv implies #[trigger] v@[k] == mfull[k - s] by {
                        if p <= k {
                            assert(v@[k] == a[c1b + (k - p)]);
                            assert(mfull.skip(c1b + c2b)[k - s - c1b - c2b] == x.take(
                                adv as int,
                            )[k - s - c1b - c2b]);
                        }
                    }
                    assert forall|k: int|
                        p + adv <= k < p + m1 implies #[trigger] v@[k] == a[(c1b + adv) + (k - p
                        - adv)] by {
                        assert(v@[k] == a[c1b + (k - p)]);
                    }
                    assert forall|k: int|
                        p + m1 <= k < p + m1 + m2 implies #[trigger] v@[k] == b[c2b + (k - p
                        - m1)] by {}
                    assert(x.skip(adv as int) =~= a.skip(c1b + adv));
                    assert(mfull.take(c1b + c2b) + x.take(adv as int) =~= mfull.take(
                        c1b + c2b + adv,
                    ));
                    assert(mfull =~= mfull.take(c1b + c2b + adv) + merge_seqs::<T, C>(
                        a.skip(c1b + adv),
                        b.skip(c2b),
                    ));
                }

                p = p + adv;
                m1 = m1 - adv;
            }
        }

        proof {
            let c1 = n1 - m1;
            let c2 = n2 - m2;
            if m1 == 0 {
                assert(a.skip(c1) =~= Seq::<T>::empty());
                assert(merge_seqs::<T, C>(a.skip(c1), b.skip(c2)) == b.skip(c2));
                assert forall|k: int| s <= k < s + n1 + n2 implies #[trigger] v@[k] == mfull[k
                    - s] by {
                    if p <= k {
                        assert(v@[k] == b[c2 + (k - p)]);
                        assert(mfull.skip(c1 + c2)[k - s - c1 - c2] == b.skip(c2)[k - s - c1
                            - c2]);
                    }
                }
            } else {
                assert(b.skip(c2) =~= Seq::<T>::empty());
                assert(merge_seqs::<T, C>(a.skip(c1), b.skip(c2)) == a.skip(c1));
                assert forall|k: int| s <= k < s + n1 + n2 implies #[trigger] v@[k] == mfull[k
                    - s] by {
                    if p <= k {
                        assert(v@[k] == a[c1 + (k - p)]);
                        assert(mfull.skip(c1 + c2)[k - s - c1 - c2] == a.skip(c1)[k - s - c1
                            - c2]);
                    }
                }
            }
        }
    }

    proof {
        lemma_merge_seqs_sorted::<T, C>(a, b);
        assert(v@.subrange(s as int, s + n1 + n2) =~= mfull);
        assert forall|k1: int, k2: int|
            s <= k1 <= k2 < s + n1 + n2 implies #[trigger] leq::<T, C>(v@[k1], v@[k2]) by {
            assert(v@[k1] == mfull[k1 - s]);
            assert(v@[k2] == mfull[k2 - s]);
            assert(leq::<T, C>(mfull[k1 - s], mfull[k2 - s]));
        }
    }
}

/// Largest power of two at most twice smaller than the next power of two of
/// `x`: the milestone used to decide when to re-check the merge balance.
fn half_next_pow2(x: usize) -> usize {
    let mut r: usize = 1;

    while r < x
        invariant
            1 <= r,
        decreases x - r,
    {
        if r > x / 2 {
            r = x;
        } else {
            r = r * 2;
        }
    }

    r / 2
}

/// Merge the adjacent sorted runs `s..s + n1` and `s + n1..s + n1 + n2` with a
/// rotation-based strategy whose steps are bounded by the balance of the two
/// runs, falling back to the plain lazy merge for small or badly balanced
/// cases. Sorted input is left untouched.
#[verifier::rlimit(100)]
pub fn merge_in_place<T, C: Less<T>>(v: &mut Vec<T>, s: usize, n1: usize, n2: usize, cmp: &mut C)
    requires
        s + n1 + n2 <= old(v)@.len(),
        sorted_between::<T, C>(old(v)@, s as int, s + n1),
        sorted_between::<T, C>(old(v)@, s + n1, s + n1 + n2),
    ensures
        same_outside(final(v)@, old(v)@, s as int, s + n1 + n2),
        final(v)@.to_multiset() == old(v)@.to_multiset(),
        sorted_between::<T, C>(final(v)@, s as int, s + n1 + n2),
        sorted_between::<T, C>(old(v)@, s as int, s + n1 + n2) ==> final(v)@ == old(v)@,
        forall|p: T| #[trigger] final(v)@.filter(equiv_to::<T, C>(p)) == old(v)@.filter(
            equiv_to::<T, C>(p),
        ),
{
    proof {
        assert(s + n1 + n2 <= v.len());
    }

    if n1 == 0 || n2 == 0 || !cmp.less(&v[s + n1], &v[s + n1 - 1]) {
        proof {
            if n1 > 0 && n2 > 0 {
                assert forall|k1: int, k2: int|
                    s + n1 - 1 <= k1 <= k2 < s + n1 + n2 implies #[trigger] leq::<T, C>(
                    v@[k1],
                    v@[k2],
                ) by {
                    if k1 == s + n1 - 1 && k2 >= s + n1 {
                        assert(leq::<T, C>(v@[s + n1 - 1], v@[s + n1]));
                        assert(leq::<T, C>(v@[s + n1], v@[k2]));
                        lemma_leq_transitive::<T, C>(v@[s + n1 - 1], v@[s + n1], v@[k2]);
                    } else if k1 >= s + n1 {
                        assert(leq::<T, C>(v@[k1], v@[k2]));
                    } else {
                        lemma_lt_leq::<T, C>(v@[k1], v@[k1]);
                    }
                }
                lemma_sorted_glue::<T, C>(v@, s as int, s + n1 - 1, s + n1 + n2);
            }
        }
        return;
    }

    proof {
        if sorted_between::<T, C>(old(v)@, s as int, s + n1 + n2) {
            assert(leq::<T, C>(old(v)@[s + n1 - 1], old(v)@[s + n1]));
        }
        assert(!sorted_between::<T, C>(old(v)@, s as int, s + n1 + n2));
    }

    if n1 < MIN_FAST_LAZY && n2 < MIN_FAST_LAZY {
        merge_lazy(v, s, n1, n2, cmp);
        proof {
            assert forall|p: T| #[trigger] v@.filter(equiv_to::<T, C>(p)) == old(v)@.filter(
                equiv_to::<T, C>(p),
            ) by {
                lemma_filter_region_merge::<T, C>(
                    old(v)@,
                    v@,
                    s as int,
                    n1 as int,
                    n2 as int,
                    p,
                );
            }
        }
        return;
    }

    // Trim the right run: its elements at least as large as the last left
    // element are already in place.
    let n2t = search_left(v, s + n1, n2, &v[s + n1 - 1], cmp);

    proof {
        // The trimmed tail is sorted and at least everything before it.
        assert forall|k1: int, k2: int|
            s <= k1 < s + n1 + n2t && s + n1 + n2t <= k2 < s + n1 + n2 implies #[trigger] leq::<
            T,
            C,
        >(v@[k1], v@[k2]) by {
            assert(leq::<T, C>(v@[s + n1 - 1], v@[k2]));
            if k1 < s + n1 {
                assert(leq::<T, C>(v@[k1], v@[s + n1 - 1]));
                lemma_leq_transitive::<T, C>(v@[k1], v@[s + n1 - 1], v@[k2]);
            } else {
                assert(C::lt(v@[k1], v@[s + n1 - 1]));
                lemma_lt_leq_transitive::<T, C>(v@[k1], v@[s + n1 - 1], v@[k2]);
                lemma_lt_leq::<T, C>(v@[k1], v@[k2]);
            }
        }
    }

    let mut q: usize = s;
    let mut m1: usize = n1;
    let mut m2: usize = n2t;
    let mut log_step: usize = n2t;

    loop
        invariant
            s <= q,
            q + m1 + m2 <= s + n1 + n2,
            s + n1 + n2 <= v@.len(),
            v.len() == old(v)@.len(),
            sorted_between::<T, C>(v@, s as int, q as int),
            sorted_between::<T, C>(v@, q as int, q + m1),
            sorted_between::<T, C>(v@, q + m1, q + m1 + m2),
            sorted_between::<T, C>(v@, q + m1 + m2, s + n1 + n2),
            leq_across::<T, C>(v@, s as int, q as int, q as int, s + n1 + n2),
            leq_across::<T, C>(v@, q as int, q + m1 + m2, q + m1 + m2, s + n1 + n2),
            same_outside(v@, old(v)@, s as int, s + n1 + n2),
            v@.to_multiset() == old(v)@.to_multiset(),
            forall|p: T| #[trigger] v@.filter(equiv_to::<T, C>(p)) == old(v)@.filter(
                equiv_to::<T, C>(p),
            ),
            !sorted_between::<T, C>(old(v)@, s as int, s + n1 + n2),
        decreases m1 + m2,
    {
        if m1 <= log_step || m2 <= log_step {
            let mn = if m1 < m2 {
                m1
            } else {
                m2
            };

            if mn == 0 {
                proof {
                    assert forall|k1: int, k2: int|
                        s <= k1 <= k2 < s + n1 + n2 implies #[trigger] leq::<T, C>(
                        v@[k1],
                        v@[k2],
                    ) by {
                        if k1 < q && q <= k2 {
                            assert(leq::<T, C>(v@[k1], v@[k2]));
                        } else if k1 < q + m1 + m2 && q + m1 + m2 <= k2 {
                            assert(leq::<T, C>(v@[k1], v@[k2]));
                        }
                    }
                }
                return;
            }

            if (mn as u128) * 2 + 1 < ((m1 as u128) + (m2 as u128)) / (mn as u128) {
                let ghost vm = v@;
                merge_lazy(v, q, m1, m2, cmp);

                proof {
                    assert forall|p: T| #[trigger] v@.filter(equiv_to::<T, C>(p)) == old(
                        v,
                    )@.filter(equiv_to::<T, C>(p)) by {
                        lemma_filter_region_merge::<T, C>(
                            vm,
                            v@,
                            q as int,
                            m1 as int,
                            m2 as int,
                            p,
                        );
                    }
                    lemma_region_values(vm, v@, q as int, q + m1 + m2);
                    assert forall|k1: int, k2: int|
                        s <= k1 <= k2 < s + n1 + n2 implies #[trigger] leq::<T, C>(
                        v@[k1],
                        v@[k2],
                    ) by {
                        if k1 < q && q <= k2 < q + m1 + m2 {
                            assert(region_has(vm, q as int, q + m1 + m2, v@[k2]));
                            let j = choose|j: int| q <= j < q + m1 + m2 && vm[j] == v@[k2];
                            assert(v@[k1] == vm[k1]);
                            assert(leq::<T, C>(vm[k1], vm[j]));
                        } else if k1 < q && q + m1 + m2 <= k2 {
                            assert(v@[k1] == vm[k1]);
                            assert(v@[k2] == vm[k2]);
                            assert(leq::<T, C>(vm[k1], vm[k2]));
                        } else if q <= k1 && k2 < q + m1 + m2 {
                            assert(leq::<T, C>(v@[k1], v@[k2]));
                        } else if k1 < q + m1 + m2 && q + m1 + m2 <= k2 {
                            assert(region_has(vm, q as int, q + m1 + m2, v@[k1]));
                            let j = choose|j: int| q <= j < q + m1 + m2 && vm[j] == v@[k1];
                            assert(v@[k2] == vm[k2]);
                            assert(leq::<T, C>(vm[j], vm[k2]));
                        } else if k2 < q {
                            assert(v@[k1] == vm[k1]);
                            assert(v@[k2] == vm[k2]);
                            assert(leq::<T, C>(vm[k1], vm[k2]));
                        } else {
                            assert(v@[k1] == vm[k1]);
                            assert(v@[k2] == vm[k2]);
                            assert(leq::<T, C>(vm[k1], vm[k2]));
                        }
                    }
                }
                return;
            }

            log_step = half_next_pow2(mn);
        }

        proof {
            assert(m1 >= 1 && m2 >= 1);
        }

        let rad = block_swap_length(v, q, m1, q + m1, m2, cmp);
        let ghost vb = v@;
        cycle_swap(v, q + m1 - rad, q + m1, rad);

        proof {
            let b = q + m1;
            // Position maps of the swap.
            assert forall|k: int| b - rad <= k < b implies #[trigger] v@[k] == vb[k + rad] by {}
            assert forall|k: int| b <= k < b + rad implies #[trigger] v@[k] == vb[k - rad] by {}
            // Every element of the swapped-out head is strictly below every
            // element of the swapped-out tail, so no equivalence class is
            // disturbed.
            assert forall|i: int, j: int|
                b - rad <= i < b && b <= j < b + rad implies C::lt(
                #[trigger] vb[j],
                #[trigger] vb[i],
            ) by {
                let jh = j - b;
                let jp = b - 1 - i;
                if jh <= jp {
                    assert(leq::<T, C>(vb[b + jh], vb[b + jp]));
                    assert(C::lt(vb[b + jp], vb[b - 1 - jp]));
                    lemma_leq_lt_transitive::<T, C>(vb[b + jh], vb[b + jp], vb[i]);
                } else {
                    assert(C::lt(vb[b + jh], vb[b - 1 - jh]));
                    assert(leq::<T, C>(vb[b - 1 - jh], vb[i]));
                    lemma_lt_leq_transitive::<T, C>(vb[b + jh], vb[b - 1 - jh], vb[i]);
                }
            }
            assert forall|p: T| #[trigger] v@.filter(equiv_to::<T, C>(p)) == old(v)@.filter(
                equiv_to::<T, C>(p),
            ) by {
                lemma_filter_region_block_swap::<T, C>(vb, v@, b as int, rad as int, p);
                assert(vb.filter(equiv_to::<T, C>(p)) == old(v)@.filter(equiv_to::<T, C>(p)));
            }
            // After the swap everything left of the boundary precedes
            // everything right of it.
            assert forall|k1: int, k2: int|
                q <= k1 < b && b <= k2 < q + m1 + m2 implies #[trigger] leq::<T, C>(
                v@[k1],
                v@[k2],
            ) by {
                let e1 = if k1 < b - rad {
                    vb[k1]
                } else {
                    vb[k1 + rad]
                };
                let e2 = if k2 < b + rad {
                    vb[k2 - rad]
                } else {
                    vb[k2]
                };
                assert(v@[k1] == e1);
                assert(v@[k2] == e2);
                if k1 < b - rad && k2 < b + rad {
                    // old left prefix vs old left tail
                    assert(leq::<T, C>(vb[k1], vb[k2 - rad]));
                } else if k1 < b - rad {
                    // old left prefix vs old right tail, through the pair at
                    // the radius
                    assert(!C::lt(vb[b + rad], vb[b - 1 - rad]));
                    assert(leq::<T, C>(vb[k1], vb[b - 1 - rad]));
                    assert(leq::<T, C>(vb[b + rad], vb[k2]));
                    lemma_leq_transitive::<T, C>(vb[k1], vb[b - 1 - rad], vb[b + rad]);
                    lemma_leq_transitive::<T, C>(vb[k1], vb[b + rad], vb[k2]);
                } else if k2 < b + rad {
                    // old right head vs old left tail, through whichever of the
                    // two pairings applies
                    let u = k2 - rad;
                    let j1 = k1 + rad - b;
                    assert(e1 == vb[b + j1]);
                    if b - 1 - j1 <= u {
                        // direct pair of k1
                        assert(C::lt(vb[b + j1], vb[b - 1 - j1]));
                        assert(leq::<T, C>(vb[b - 1 - j1], vb[u]));
                        lemma_lt_leq_transitive::<T, C>(vb[b + j1], vb[b - 1 - j1], vb[u]);
                        lemma_lt_leq::<T, C>(vb[b + j1], vb[u]);
                    } else {
                        // mirrored pair of k2
                        let jm = b - 1 - u;
                        assert(C::lt(vb[b + jm], vb[b - 1 - jm]));
                        assert(vb[b - 1 - jm] == vb[u]);
                        assert(leq::<T, C>(vb[b + j1], vb[b + jm]));
                        lemma_leq_lt_transitive::<T, C>(vb[b + j1], vb[b + jm], vb[u]);
                        lemma_lt_leq::<T, C>(vb[b + j1], vb[u]);
                    }
                } else {
                    // old right head vs old right tail
                    assert(leq::<T, C>(vb[k1 + rad], vb[k2]));
                }
            }
            // The two halves around the boundary are sorted two-run regions.
            assert forall|k1: int, k2: int|
                b - rad <= k1 <= k2 < b implies #[trigger] leq::<T, C>(v@[k1], v@[k2]) by {
                assert(leq::<T, C>(vb[k1 + rad], vb[k2 + rad]));
            }
            assert forall|k1: int, k2: int|
                b <= k1 <= k2 < b + rad implies #[trigger] leq::<T, C>(v@[k1], v@[k2]) by {
                assert(leq::<T, C>(vb[k1 - rad], vb[k2 - rad]));
            }
            assert forall|k1: int, k2: int|
                q <= k1 <= k2 < b - rad implies #[trigger] leq::<T, C>(v@[k1], v@[k2]) by {
                assert(v@[k1] == vb[k1]);
                assert(v@[k2] == vb[k2]);
                assert(leq::<T, C>(vb[k1], vb[k2]));
            }
            assert forall|k1: int, k2: int|
                b + rad <= k1 <= k2 < q + m1 + m2 implies #[trigger] leq::<T, C>(
                v@[k1],
                v@[k2],
            ) by {
                assert(v@[k1] == vb[k1]);
                assert(v@[k2] == vb[k2]);
                assert(leq::<T, C>(vb[k1], vb[k2]));
            }
            // Relations to the done regions survive the swap, which permutes
            // the active region position by position.
            assert forall|k1: int, k2: int|
                s <= k1 < q && q <= k2 < s + n1 + n2 implies #[trigger] leq::<T, C>(
                v@[k1],
                v@[k2],
            ) by {
                let e2 = if b - rad <= k2 < b {
                    vb[k2 + rad]
                } else if b <= k2 < b + rad {
                    vb[k2 - rad]
                } else {
                    vb[k2]
                };
                assert(v@[k2] == e2);
                assert(v@[k1] == vb[k1]);
                if b - rad <= k2 < b {
                    assert(leq::<T, C>(vb[k1], vb[k2 + rad]));
                } else if b <= k2 < b + rad {
                    assert(leq::<T, C>(vb[k1], vb[k2 - rad]));
                } else {
                    assert(leq::<T, C>(vb[k1], vb[k2]));
                }
            }
            assert forall|k1: int, k2: int|
                q <= k1 < q + m1 + m2 && q + m1 + m2 <= k2 < s + n1 + n2 implies #[trigger] leq::<
                T,
                C,
            >(v@[k1], v@[k2]) by {
                let e1 = if b - rad <= k1 < b {
                    vb[k1 + rad]
                } else if b <= k1 < b + rad {
                    vb[k1 - rad]
                } else {
                    vb[k1]
                };
                assert(v@[k1] == e1);
                assert(v@[k2] == vb[k2]);
                if b - rad <= k1 < b {
                    assert(leq::<T, C>(vb[k1 + rad], vb[k2]));
                } else if b <= k1 < b + rad {
                    assert(leq::<T, C>(vb[k1 - rad], vb[k2]));
                } else {
                    assert(leq::<T, C>(vb[k1], vb[k2]));
                }
            }
        }

        if m2 < m1 {
            let ghost vm = v@;
            merge_lazy(v, q + m1, rad, m2 - rad, cmp);

            proof {
                let b = q + m1;
                let e = q + m1 + m2;
                assert forall|p: T| #[trigger] v@.filter(equiv_to::<T, C>(p)) == old(
                    v,
                )@.filter(equiv_to::<T, C>(p)) by {
                    lemma_filter_region_merge::<T, C>(
                        vm,
                        v@,
                        b as int,
                        rad as int,
                        (m2 - rad) as int,
                        p,
                    );
                    assert(vm.filter(equiv_to::<T, C>(p)) == old(v)@.filter(
                        equiv_to::<T, C>(p),
                    ));
                }
                lemma_region_values(vm, v@, b as int, e as int);
                // The merged region keeps its place relative to its neighbours.
                assert forall|k1: int, k2: int|
                    s <= k1 < b && b <= k2 < s + n1 + n2 implies #[trigger] leq::<T, C>(
                    v@[k1],
                    v@[k2],
                ) by {
                    assert(v@[k1] == vm[k1]);
                    if k2 < e {
                        assert(region_has(vm, b as int, e as int, v@[k2]));
                        let j = choose|j: int| b <= j < e && vm[j] == v@[k2];
                        assert(leq::<T, C>(vm[k1], vm[j]));
                    } else {
                        assert(v@[k2] == vm[k2]);
                        assert(leq::<T, C>(vm[k1], vm[k2]));
                    }
                }
                assert forall|k1: int, k2: int|
                    b <= k1 < e && e <= k2 < s + n1 + n2 implies #[trigger] leq::<T, C>(
                    v@[k1],
                    v@[k2],
                ) by {
                    assert(region_has(vm, b as int, e as int, v@[k1]));
                    let j = choose|j: int| b <= j < e && vm[j] == v@[k1];
                    assert(v@[k2] == vm[k2]);
                    assert(leq::<T, C>(vm[j], vm[k2]));
                }
                // The whole suffix from the boundary on is sorted now.
                assert forall|k1: int, k2: int|
                    b <= k1 <= k2 < s + n1 + n2 implies #[trigger] leq::<T, C>(
                    v@[k1],
                    v@[k2],
                ) by {
                    if k1 < e && e <= k2 {
                        assert(leq::<T, C>(v@[k1], v@[k2]));
                    } else if e <= k1 {
                        assert(v@[k1] == vm[k1]);
                        assert(v@[k2] == vm[k2]);
                        assert(leq::<T, C>(vm[k1], vm[k2]));
                    }
                }
                // The untouched pieces keep their facts.
                assert forall|k1: int, k2: int|
                    s <= k1 <= k2 < b && (k2 < q || (q <= k1 && k2 < b - rad) || b - rad
                        <= k1) implies #[trigger] leq::<T, C>(v@[k1], v@[k2]) by {
                    assert(v@[k1] == vm[k1]);
                    assert(v@[k2] == vm[k2]);
                    assert(leq::<T, C>(vm[k1], vm[k2]));
                }
                assert forall|k1: int, k2: int|
                    s <= k1 < q && q <= k2 < b implies #[trigger] leq::<T, C>(v@[k1], v@[k2]) by {
                    assert(v@[k1] == vm[k1]);
                    assert(v@[k2] == vm[k2]);
                    assert(leq::<T, C>(vm[k1], vm[k2]));
                }
            }

            m1 = m1 - rad;
            m2 = rad;
        } else {
            let ghost vm = v@;
            merge_lazy(v, q, m1 - rad, rad, cmp);

            proof {
                let b = q + m1;
                assert forall|p: T| #[trigger] v@.filter(equiv_to::<T, C>(p)) == old(
                    v,
                )@.filter(equiv_to::<T, C>(p)) by {
                    lemma_filter_region_merge::<T, C>(
                        vm,
                        v@,
                        q as int,
                        (m1 - rad) as int,
                        rad as int,
                        p,
                    );
                    assert(vm.filter(equiv_to::<T, C>(p)) == old(v)@.filter(
                        equiv_to::<T, C>(p),
                    ));
                }
                lemma_region_values(vm, v@, q as int, b as int);
                // The merged left part joins the done prefix.
                assert forall|k1: int, k2: int|
                    q <= k1 < b && b <= k2 < s + n1 + n2 implies #[trigger] leq::<T, C>(
                    v@[k1],
                    v@[k2],
                ) by {
                    assert(region_has(vm, q as int, b as int, v@[k1]));
                    let j = choose|j: int| q <= j < b && vm[j] == v@[k1];
                    assert(v@[k2] == vm[k2]);
                    assert(leq::<T, C>(vm[j], vm[k2]));
                }
                assert forall|k1: int, k2: int|
                    s <= k1 < q && q <= k2 < s + n1 + n2 implies #[trigger] leq::<T, C>(
                    v@[k1],
                    v@[k2],
                ) by {
                    assert(v@[k1] == vm[k1]);
                    if k2 < b {
                        assert(region_has(vm, q as int, b as int, v@[k2]));
                        let j = choose|j: int| q <= j < b && vm[j] == v@[k2];
                        assert(leq::<T, C>(vm[k1], vm[j]));
                    } else {
                        assert(v@[k2] == vm[k2]);
                        assert(leq::<T, C>(vm[k1], vm[k2]));
                    }
                }
                // The whole prefix up to the boundary is sorted now.
                assert forall|k1: int, k2: int|
                    s <= k1 <= k2 < b implies #[trigger] leq::<T, C>(v@[k1], v@[k2]) by {
                    if k1 < q && q <= k2 {
                        assert(leq::<T, C>(v@[k1], v@[k2]));
                    } else if k1 < q {
                        assert(v@[k1] == vm[k1]);
                        assert(v@[k2] == vm[k2]);
                        assert(leq::<T, C>(vm[k1], vm[k2]));
                    }
                }
                // The untouched pieces keep their facts.
                assert forall|k1: int, k2: int|
                    b <= k1 <= k2 < s + n1 + n2 && (k2 < b + rad || (b + rad <= k1 && k2 < q + m1
                        + m2) || q + m1 + m2 <= k1) implies #[trigger] leq::<T, C>(
                    v@[k1],
                    v@[k2],
                ) by {
                    assert(v@[k1] == vm[k1]);
                    assert(v@[k2] == vm[k2]);
                    assert(leq::<T, C>(vm[k1], vm[k2]));
                }
                assert forall|k1: int, k2: int|
                    b <= k1 < q + m1 + m2 && q + m1 + m2 <= k2 < s + n1 + n2 implies #[trigger] leq::<
                    T,
                    C,
                >(v@[k1], v@[k2]) by {
                    assert(v@[k1] == vm[k1]);
                    assert(v@[k2] == vm[k2]);
                    assert(leq::<T, C>(vm[k1], vm[k2]));
                }
            }

            q = q + m1;
            m1 = rad;
            m2 = m2 - rad;
        }
    }
}

/// The stable merge of two sequences: at each step the head of `b` moves
/// first exactly when it is `lt` the head of `a`, so equal elements of `a`
/// keep their lead.
pub open spec fn merge_seqs<T, C: Less<T>>(a: Seq<T>, b: Seq<T>) -> Seq<T>
    decreases a.len() + b.len(),
{
    if a.len() == 0 {
        b
    } else if b.len() == 0 {
        a
    } else if C::lt(b[0], a[0]) {
        seq![b[0]] + merge_seqs::<T, C>(a, b.drop_first())
    } else {
        seq![a[0]] + merge_seqs::<T, C>(a.drop_first(), b)
    }
}

/// The number of elements a two-pointer merge of `a` and `b` hands over
/// before one of the two runs is exhausted.
pub open spec fn merge_steps<T, C: Less<T>>(a: Seq<T>, b: Seq<T>) -> int
    decreases a.len() + b.len(),
{
    if a.len() == 0 || b.len() == 0 {
        0
    } else if C::lt(b[0], a[0]) {
        1 + merge_steps::<T, C>(a, b.drop_first())
    } else {
        1 + merge_steps::<T, C>(a.drop_first(), b)
    }
}

/// A stable merge has the length of its two inputs together.
pub proof fn lemma_merge_seqs_len<T, C: Less<T>>(a: Seq<T>, b: Seq<T>)
    ensures
        merge_seqs::<T, C>(a, b).len() == a.len() + b.len(),
    decreases a.len() + b.len(),
{
    if a.len() != 0 && b.len() != 0 {
        if C::lt(b[0], a[0]) {
            lemma_merge_seqs_len::<T, C>(a, b.drop_first());
        } else {
            lemma_merge_seqs_len::<T, C>(a.drop_first(), b);
        }
    }
}

/// A stable merge holds the elements of its two inputs together.
pub proof fn lemma_merge_seqs_multiset<T, C: Less<T>>(a: Seq<T>, b: Seq<T>)
    ensures
        merge_seqs::<T, C>(a, b).to_multiset() == a.to_multiset().add(b.to_multiset()),
    decreases a.len() + b.len(),
{
    broadcast use vstd::multiset::group_multiset_axioms;

    a.to_multiset_ensures();
    b.to_multiset_ensures();
    if a.len() == 0 {
        assert(a.to_multiset() =~= Multiset::<T>::empty());
        assert(merge_seqs::<T, C>(a, b).to_multiset() =~= a.to_multiset().add(b.to_multiset()));
    } else if b.len() == 0 {
        assert(b.to_multiset() =~= Multiset::<T>::empty());
        assert(merge_seqs::<T, C>(a, b).to_multiset() =~= a.to_multiset().add(b.to_multiset()));
    } else if C::lt(b[0], a[0]) {
        lemma_merge_seqs_multiset::<T, C>(a, b.drop_first());
        lemma_cons_multiset::<T>(b[0], merge_seqs::<T, C>(a, b.drop_first()));
        lemma_cons_multiset::<T>(b[0], b.drop_first());
        assert(seq![b[0]] + b.drop_first() =~= b);
        assert(merge_seqs::<T, C>(a, b).to_multiset() =~= a.to_multiset().add(b.to_multiset()));
    } else {
        lemma_merge_seqs_multiset::<T, C>(a.drop_first(), b);
        lemma_cons_multiset::<T>(a[0], merge_seqs::<T, C>(a.drop_first(), b));
        lemma_cons_multiset::<T>(a[0], a.drop_first());
        assert(seq![a[0]] + a.drop_first() =~= a);
        assert(merge_seqs::<T, C>(a, b).to_multiset() =~= a.to_multiset().add(b.to_multiset()));
    }
}

/// Prepending one element inserts it into the multiset.
proof fn lemma_cons_multiset<T>(x: T, s: Seq<T>)
    ensures
        (seq![x] + s).to_multiset() == s.to_multiset().insert(x),
{
    broadcast use vstd::multiset::group_multiset_axioms;
    broadcast use vstd::seq_lib::lemma_multiset_commutative;

    assert(seq![x].to_multiset() =~= Multiset::<T>::empty().insert(x)) by {
        seq![x].to_multiset_ensures();
        assert(seq![x] =~= Seq::<T>::empty().push(x));
        Seq::<T>::empty().to_multiset_ensures();
        assert(Seq::<T>::empty().to_multiset() =~= Multiset::<T>::empty());
    }
    assert((seq![x] + s).to_multiset() =~= s.to_multiset().insert(x));
}

/// A stable merge of two sorted sequences is sorted.
pub proof fn lemma_merge_seqs_sorted<T, C: Less<T>>(a: Seq<T>, b: Seq<T>)
    requires
        sorted_between::<T, C>(a, 0, a.len() as int),
        sorted_between::<T, C>(b, 0, b.len() as int),
    ensures
        sorted_between::<T, C>(
            merge_seqs::<T, C>(a, b),
            0,
            merge_seqs::<T, C>(a, b).len() as int,
        ),
    decreases a.len() + b.len(),
{
    let m = merge_seqs::<T, C>(a, b);
    lemma_merge_seqs_len::<T, C>(a, b);
    if a.len() == 0 || b.len() == 0 {
    } else {
        let (h, ar, br) = if C::lt(b[0], a[0]) {
            (b[0], a, b.drop_first())
        } else {
            (a[0], a.drop_first(), b)
        };
        let rest = merge_seqs::<T, C>(ar, br);
        assert(m =~= seq![h] + rest);
        assert(sorted_between::<T, C>(ar, 0, ar.len() as int)) by {
            assert forall|i: int, j: int| 0 <= i <= j < ar.len() implies #[trigger] leq::<T, C>(
                ar[i],
                ar[j],
            ) by {
                if C::lt(b[0], a[0]) {
                    assert(leq::<T, C>(a[i], a[j]));
                } else {
                    assert(leq::<T, C>(a[i + 1], a[j + 1]));
                }
            }
        }
        assert(sorted_between::<T, C>(br, 0, br.len() as int)) by {
            assert forall|i: int, j: int| 0 <= i <= j < br.len() implies #[trigger] leq::<T, C>(
                br[i],
                br[j],
            ) by {
                if C::lt(b[0], a[0]) {
                    assert(leq::<T, C>(b[i + 1], b[j + 1]));
                } else {
                    assert(leq::<T, C>(b[i], b[j]));
                }
            }
        }
        lemma_merge_seqs_sorted::<T, C>(ar, br);
        lemma_merge_seqs_multiset::<T, C>(ar, br);
        // The head precedes every remaining element.
        assert forall|j: int| 0 <= j < rest.len() implies leq::<T, C>(h, #[trigger] rest[j]) by {
            broadcast use vstd::multiset::group_multiset_axioms;

            rest.to_multiset_ensures();
            ar.to_multiset_ensures();
            br.to_multiset_ensures();
            assert(rest.contains(rest[j]));
            assert(rest.to_multiset().count(rest[j]) > 0);
            if ar.to_multiset().count(rest[j]) > 0 {
                let ja = choose|ja: int| 0 <= ja < ar.len() && ar[ja] == rest[j];
                if C::lt(b[0], a[0]) {
                    assert(leq::<T, C>(a[0], ar[ja]));
                    lemma_lt_leq_transitive::<T, C>(b[0], a[0], ar[ja]);
                    lemma_lt_leq::<T, C>(b[0], ar[ja]);
                } else {
                    assert(leq::<T, C>(a[0], a[ja + 1]));
                }
            } else {
                assert(br.to_multiset().count(rest[j]) > 0);
                let jb = choose|jb: int| 0 <= jb < br.len() && br[jb] == rest[j];
                if C::lt(b[0], a[0]) {
                    assert(leq::<T, C>(b[0], b[jb + 1]));
                } else {
                    assert(leq::<T, C>(b[0], br[jb]));
                    lemma_leq_total::<T, C>(a[0], b[0]);
                    lemma_leq_transitive::<T, C>(a[0], b[0], br[jb]);
                }
            }
        }
        assert forall|i: int, j: int| 0 <= i <= j < m.len() implies #[trigger] leq::<T, C>(
            m[i],
            m[j],
        ) by {
            if i == 0 && j > 0 {
                assert(m[j] == rest[j - 1]);
                assert(leq::<T, C>(h, rest[j - 1]));
            } else if i == 0 {
                lemma_lt_leq::<T, C>(h, h);
            } else {
                assert(m[i] == rest[i - 1]);
                assert(m[j] == rest[j - 1]);
                assert(leq::<T, C>(rest[i - 1], rest[j - 1]));
            }
        }
    }
}

/// Merge the run `s1..s1 + n1` with the run `s2..s2 + n2` sitting at the tail
/// of the destination into `dst..dst + n1 + n2`, by a classic rightwards
/// merge. The `n1` elements initially at the front of the destination are
/// displaced into `s1..s1 + n1`, in no particular order.
///
/// Return the number of elements merged before one run ran out.
#[verifier::rlimit(100)]
pub fn merge_right<T, C: Less<T>>(
    v: &mut Vec<T>,
    s1: usize,
    n1: usize,
    s2: usize,
    n2: usize,
    dst: usize,
    cmp: &mut C,
) -> (r: usize)
    requires
        dst + n1 + n2 <= old(v)@.len(),
        s1 + n1 <= old(v)@.len(),
        s2 == dst + n1,
        s1 + n1 <= dst || dst + n1 + n2 <= s1,
    ensures
        final(v)@.len() == old(v)@.len(),
        final(v)@.to_multiset() == old(v)@.to_multiset(),
        forall|k: int|
            0 <= k < old(v)@.len() && !(dst <= k < dst + n1 + n2) && !(s1 <= k < s1 + n1)
                ==> final(v)@[k] == old(v)@[k],
        final(v)@.subrange(dst as int, dst + n1 + n2) == merge_seqs::<T, C>(
            old(v)@.subrange(s1 as int, s1 + n1),
            old(v)@.subrange(s2 as int, s2 + n2),
        ),
        r <= n1 + n2,
        r == merge_steps::<T, C>(
            old(v)@.subrange(s1 as int, s1 + n1),
            old(v)@.subrange(s2 as int, s2 + n2),
        ),
{
    let ghost a = old(v)@.subrange(s1 as int, s1 + n1);
    let ghost b = old(v)@.subrange(s2 as int, s2 + n2);
    let ghost mfull = merge_seqs::<T, C>(a, b);

    let mut i1: usize = 0;
    let mut i2: usize = 0;

    proof {
        lemma_merge_seqs_len::<T, C>(a, b);
        assert(a.skip(0) =~= a);
        assert(b.skip(0) =~= b);
        assert(mfull.take(0) =~= Seq::<T>::empty());
        assert(v@.subrange(dst as int, dst as int) =~= Seq::<T>::empty());
        assert(mfull =~= mfull.take(0) + merge_seqs::<T, C>(a.skip(0), b.skip(0)));
    }

    while i1 < n1 && i2 < n2
        invariant
            i1 <= n1,
            i2 <= n2,
            dst + n1 + n2 <= v@.len(),
            s1 + n1 <= v@.len(),
            v.len() == old(v)@.len(),
            s2 == dst + n1,
            s1 + n1 <= dst || dst + n1 + n2 <= s1,
            a.len() == n1,
            b.len() == n2,
            mfull == merge_seqs::<T, C>(a, b),
            mfull.len() == n1 + n2,
            forall|j: int| i1 <= j < n1 ==> v@[s1 + j] == a[j],
            forall|j: int| i2 <= j < n2 ==> v@[dst + n1 + j] == b[j],
            v@.subrange(dst as int, dst + i1 + i2) =~= mfull.take(i1 + i2),
            mfull == mfull.take(i1 + i2) + merge_seqs::<T, C>(a.skip(i1 as int), b.skip(i2 as int)),
            i1 + i2 + merge_steps::<T, C>(a.skip(i1 as int), b.skip(i2 as int)) == merge_steps::<
                T,
                C,
            >(a, b),
            forall|k: int|
                0 <= k < old(v)@.len() && !(dst <= k < dst + n1 + n2) && !(s1 <= k < s1 + n1)
                    ==> v@[k] == old(v)@[k],
            v@.to_multiset() == old(v)@.to_multiset(),
        decreases n1 + n2 - i1 - i2,
    {
        let ghost k = i1 + i2;
        let ghost pre = v@;
        let ghost ra = a.skip(i1 as int);
        let ghost rb = b.skip(i2 as int);

        proof {
            assert(ra[0] == a[i1 as int]);
            assert(rb[0] == b[i2 as int]);
            assert(v@[s1 + i1] == a[i1 as int]);
            assert(v@[dst + n1 + i2] == b[i2 as int]);
        }

        if cmp.less(&v[s2 + i2], &v[s1 + i1]) {
            vec_swap(v, dst + i1 + i2, s2 + i2);
            proof {
                lemma_swap_multiset(pre, dst + k, s2 + i2);
                assert(C::lt(rb[0], ra[0]));
                assert(rb.drop_first() =~= b.skip(i2 + 1));
                assert(merge_seqs::<T, C>(ra, rb) == seq![rb[0]] + merge_seqs::<T, C>(
                    ra,
                    rb.drop_first(),
                ));
                assert(merge_steps::<T, C>(ra, rb) == 1 + merge_steps::<T, C>(
                    ra,
                    rb.drop_first(),
                ));
                assert(mfull[k as int] == b[i2 as int]);
                assert(mfull.take(k + 1) =~= mfull.take(k as int).push(b[i2 as int]));
                assert(v@.subrange(dst as int, dst + k + 1) =~= pre.subrange(
                    dst as int,
                    dst + k,
                ).push(b[i2 as int]));
                assert(mfull =~= mfull.take(k + 1) + merge_seqs::<T, C>(
                    a.skip(i1 as int),
                    b.skip(i2 + 1),
                ));
            }
            i2 = i2 + 1;
        } else {
            vec_swap(v, dst + i1 + i2, s1 + i1);
            proof {
                lemma_swap_multiset(pre, dst + k, s1 + i1);
                assert(!C::lt(rb[0], ra[0]));
                assert(ra.drop_first() =~= a.skip(i1 + 1));
                assert(merge_seqs::<T, C>(ra, rb) == seq![ra[0]] + merge_seqs::<T, C>(
                    ra.drop_first(),
                    rb,
                ));
                assert(merge_steps::<T, C>(ra, rb) == 1 + merge_steps::<T, C>(
                    ra.drop_first(),
                    rb,
                ));
                assert(mfull[k as int] == a[i1 as int]);
                assert(mfull.take(k + 1) =~= mfull.take(k as int).push(a[i1 as int]));
                assert(v@.subrange(dst as int, dst + k + 1) =~= pre.subrange(
                    dst as int,
                    dst + k,
                ).push(a[i1 as int]));
                assert(mfull =~= mfull.take(k + 1) + merge_seqs::<T, C>(
                    a.skip(i1 + 1),
                    b.skip(i2 as int),
                ));
            }
            i1 = i1 + 1;
        }
    }

    let r = i1 + i2;

    proof {
        assert(a.skip(i1 as int).len() == 0 || b.skip(i2 as int).len() == 0);
        assert(merge_steps::<T, C>(a.skip(i1 as int), b.skip(i2 as int)) == 0);
    }

    if i1 < n1 {
        let ghost pre2 = v@;
        cycle_swap(v, dst + r, s1 + i1, n1 - i1);
        proof {
            assert(b.skip(i2 as int) =~= Seq::<T>::empty());
            assert(merge_seqs::<T, C>(a.skip(i1 as int), b.skip(i2 as int)) == a.skip(i1 as int));
            assert(v@.subrange(dst as int, dst + n1 + n2) =~= mfull) by {
                assert forall|j: int| 0 <= j < n1 + n2 implies v@.subrange(
                    dst as int,
                    dst + n1 + n2,
                )[j] == mfull[j] by {
                    if j < r {
                        assert(v@[dst + j] == pre2[dst + j]);
                        assert(pre2.subrange(dst as int, dst + r)[j] == mfull.take(r as int)[j]);
                    } else {
                        assert(v@[dst + j] == pre2[s1 + i1 + (j - r)]);
                        assert(pre2[s1 + i1 + (j - r)] == a[i1 + (j - r)]);
                        assert(mfull[j] == a.skip(i1 as int)[j - r]);
                    }
                }
            }
        }
    } else {
        proof {
            assert(a.skip(i1 as int) =~= Seq::<T>::empty());
            assert(merge_seqs::<T, C>(a.skip(i1 as int), b.skip(i2 as int)) == b.skip(i2 as int));
            assert(v@.subrange(dst as int, dst + n1 + n2) =~= mfull) by {
                assert forall|j: int| 0 <= j < n1 + n2 implies v@.subrange(
                    dst as int,
                    dst + n1 + n2,
                )[j] == mfull[j] by {
                    if j < r {
                        assert(v@.subrange(dst as int, dst + r)[j] == mfull.take(r as int)[j]);
                    } else {
                        assert(v@[dst + j] == b[i2 + (j - r)]);
                        assert(mfull[j] == b.skip(i2 as int)[j - r]);
                    }
                }
            }
        }
    }

    r
}

/// Filtering keeps nothing when nothing satisfies the predicate.
proof fn lemma_filter_none<T>(s: Seq<T>, pred: spec_fn(T) -> bool)
    requires
        forall|i: int| 0 <= i < s.len() ==> !pred(#[trigger] s[i]),
    ensures
        s.filter(pred) == Seq::<T>::empty(),
    decreases s.len(),
{
    reveal(Seq::filter);
    if s.len() == 0 {
        assert(s.filter(pred) =~= Seq::<T>::empty());
    } else {
        lemma_filter_none(s.drop_last(), pred);
        assert(!pred(s.last()));
        assert(s.filter(pred) =~= Seq::<T>::empty());
    }
}

/// Filtering a single element keeps it exactly when it satisfies the
/// predicate.
proof fn lemma_filter_single<T>(x: T, pred: spec_fn(T) -> bool)
    ensures
        pred(x) ==> seq![x].filter(pred) == seq![x],
        !pred(x) ==> seq![x].filter(pred) == Seq::<T>::empty(),
{
    reveal(Seq::filter);
    assert(seq![x].drop_last() =~= Seq::<T>::empty());
    assert(Seq::<T>::empty().filter(pred) =~= Seq::<T>::empty());
    assert(seq![x].last() == x);
    if pred(x) {
        assert(seq![x].filter(pred) =~= Seq::<T>::empty().push(x));
        assert(Seq::<T>::empty().push(x) =~= seq![x]);
    } else {
        assert(seq![x].filter(pred) =~= Seq::<T>::empty());
    }
}

/// A block of leading second-run elements below the first run's head comes
/// out of the merge first, in order.
pub proof fn lemma_merge_seqs_take_second<T, C: Less<T>>(x: Seq<T>, y: Seq<T>, r: int)
    requires
        x.len() > 0,
        0 <= r <= y.len(),
        forall|j: int| 0 <= j < r ==> C::lt(#[trigger] y[j], x[0]),
    ensures
        merge_seqs::<T, C>(x, y) == y.take(r) + merge_seqs::<T, C>(x, y.skip(r)),
    decreases r,
{
    if r == 0 {
        assert(y.take(0) =~= Seq::<T>::empty());
        assert(y.skip(0) =~= y);
        assert(merge_seqs::<T, C>(x, y) =~= y.take(0) + merge_seqs::<T, C>(x, y.skip(0)));
    } else {
        assert(C::lt(y[0], x[0]));
        assert(merge_seqs::<T, C>(x, y) == seq![y[0]] + merge_seqs::<T, C>(x, y.drop_first()));
        lemma_merge_seqs_take_second::<T, C>(x, y.drop_first(), r - 1);
        assert(y.drop_first().skip(r - 1) =~= y.skip(r));
        assert(seq![y[0]] + y.drop_first().take(r - 1) =~= y.take(r));
        assert(merge_seqs::<T, C>(x, y) =~= y.take(r) + merge_seqs::<T, C>(x, y.skip(r)));
    }
}

/// A block of leading first-run elements not preceded by the second run's
/// head comes out of the merge first, in order.
pub proof fn lemma_merge_seqs_take_first<T, C: Less<T>>(x: Seq<T>, y: Seq<T>, r: int)
    requires
        y.len() > 0,
        0 <= r <= x.len(),
        forall|j: int| 0 <= j < r ==> !C::lt(y[0], #[trigger] x[j]),
    ensures
        merge_seqs::<T, C>(x, y) == x.take(r) + merge_seqs::<T, C>(x.skip(r), y),
    decreases r,
{
    if r == 0 {
        assert(x.take(0) =~= Seq::<T>::empty());
        assert(x.skip(0) =~= x);
        assert(merge_seqs::<T, C>(x, y) =~= x.take(0) + merge_seqs::<T, C>(x.skip(0), y));
    } else {
        assert(!C::lt(y[0], x[0]));
        assert(merge_seqs::<T, C>(x, y) == seq![x[0]] + merge_seqs::<T, C>(x.drop_first(), y));
        lemma_merge_seqs_take_first::<T, C>(x.drop_first(), y, r - 1);
        assert(x.drop_first().skip(r - 1) =~= x.skip(r));
        assert(seq![x[0]] + x.drop_first().take(r - 1) =~= x.take(r));
        assert(merge_seqs::<T, C>(x, y) =~= x.take(r) + merge_seqs::<T, C>(x.skip(r), y));
    }
}

/// A tail of first-run elements past the second run's last element comes out
/// of the merge last, in order.
pub proof fn lemma_merge_seqs_back_first<T, C: Less<T>>(x: Seq<T>, y: Seq<T>, k: int)
    requires
        sorted_between::<T, C>(x, 0, x.len() as int),
        sorted_between::<T, C>(y, 0, y.len() as int),
        y.len() > 0,
        0 <= k <= x.len(),
        forall|j: int| k <= j < x.len() ==> C::lt(y.last(), #[trigger] x[j]),
    ensures
        merge_seqs::<T, C>(x, y) == merge_seqs::<T, C>(x.take(k), y) + x.skip(k),
    decreases x.len() - k,
{
    if k == x.len() {
        assert(x.take(k) =~= x);
        assert(x.skip(k) =~= Seq::<T>::empty());
        assert(merge_seqs::<T, C>(x, y) =~= merge_seqs::<T, C>(x.take(k), y) + x.skip(k));
    } else {
        assert(C::lt(y.last(), x.last()));
        lemma_merge_seqs_pop_last::<T, C>(x, y);
        lemma_sorted_drop::<T, C>(x);
        assert forall|j: int| k <= j < x.drop_last().len() implies C::lt(
            y.last(),
            #[trigger] x.drop_last()[j],
        ) by {
            assert(C::lt(y.last(), x[j]));
        }
        lemma_merge_seqs_back_first::<T, C>(x.drop_last(), y, k);
        assert(x.drop_last().take(k) =~= x.take(k));
        assert(x.drop_last().skip(k).push(x.last()) =~= x.skip(k));
        assert(merge_seqs::<T, C>(x, y) =~= merge_seqs::<T, C>(x.take(k), y) + x.skip(k));
    }
}

/// A tail of second-run elements not below the first run's last element comes
/// out of the merge last, in order.
pub proof fn lemma_merge_seqs_back_second<T, C: Less<T>>(x: Seq<T>, y: Seq<T>, k: int)
    requires
        sorted_between::<T, C>(x, 0, x.len() as int),
        sorted_between::<T, C>(y, 0, y.len() as int),
        x.len() > 0,
        0 <= k <= y.len(),
        forall|j: int| k <= j < y.len() ==> !C::lt(#[trigger] y[j], x.last()),
    ensures
        merge_seqs::<T, C>(x, y) == merge_seqs::<T, C>(x, y.take(k)) + y.skip(k),
    decreases y.len() - k,
{
    if k == y.len() {
        assert(y.take(k) =~= y);
        assert(y.skip(k) =~= Seq::<T>::empty());
        assert(merge_seqs::<T, C>(x, y) =~= merge_seqs::<T, C>(x, y.take(k)) + y.skip(k));
    } else {
        assert(!C::lt(y.last(), x.last()));
        lemma_merge_seqs_pop_last::<T, C>(x, y);
        lemma_sorted_drop::<T, C>(y);
        assert forall|j: int| k <= j < y.drop_last().len() implies !C::lt(
            #[trigger] y.drop_last()[j],
            x.last(),
        ) by {
            assert(!C::lt(y[j], x.last()));
        }
        lemma_merge_seqs_back_second::<T, C>(x, y.drop_last(), k);
        assert(y.drop_last().take(k) =~= y.take(k));
        assert(y.drop_last().skip(k).push(y.last()) =~= y.skip(k));
        assert(merge_seqs::<T, C>(x, y) =~= merge_seqs::<T, C>(x, y.take(k)) + y.skip(k));
    }
}

/// Two adjacent blocks in which every pair compares strictly may swap places
/// without disturbing any equivalence class: no class has members in both.
proof fn lemma_blocks_commute_filter<T, C: Less<T>>(tb: Seq<T>, hb: Seq<T>, p: T)
    requires
        forall|i: int, j: int|
            0 <= i < tb.len() && 0 <= j < hb.len() ==> C::lt(#[trigger] hb[j], #[trigger] tb[i]),
    ensures
        (tb + hb).filter(equiv_to::<T, C>(p)) == (hb + tb).filter(equiv_to::<T, C>(p)),
{
    let pred = equiv_to::<T, C>(p);
    Seq::filter_distributes_over_add(tb, hb, pred);
    Seq::filter_distributes_over_add(hb, tb, pred);
    if exists|i: int| 0 <= i < tb.len() && pred(#[trigger] tb[i]) {
        let iw = choose|iw: int| 0 <= iw < tb.len() && pred(#[trigger] tb[iw]);
        assert forall|j: int| 0 <= j < hb.len() implies !pred(#[trigger] hb[j]) by {
            if pred(hb[j]) {
                // Both would sit in the class of `p`, yet they compare
                // strictly.
                lemma_leq_transitive::<T, C>(tb[iw], p, hb[j]);
                assert(false);
            }
        }
        lemma_filter_none(hb, pred);
        assert((tb + hb).filter(pred) =~= (hb + tb).filter(pred));
    } else {
        assert forall|i: int| 0 <= i < tb.len() implies !pred(#[trigger] tb[i]) by {}
        lemma_filter_none(tb, pred);
        assert((tb + hb).filter(pred) =~= (hb + tb).filter(pred));
    }
}

/// Replacing two adjacent sorted runs by their stable merge leaves every
/// equivalence class of the whole sequence unchanged.
proof fn lemma_filter_region_merge<T, C: Less<T>>(
    vpre: Seq<T>,
    vpost: Seq<T>,
    lo: int,
    k1: int,
    k2: int,
    p: T,
)
    requires
        0 <= lo,
        0 <= k1,
        0 <= k2,
        lo + k1 + k2 <= vpre.len(),
        vpre.len() == vpost.len(),
        sorted_between::<T, C>(vpre, lo, lo + k1),
        sorted_between::<T, C>(vpre, lo + k1, lo + k1 + k2),
        vpost.subrange(lo, lo + k1 + k2) == merge_seqs::<T, C>(
            vpre.subrange(lo, lo + k1),
            vpre.subrange(lo + k1, lo + k1 + k2),
        ),
        forall|k: int|
            0 <= k < vpre.len() && !(lo <= k < lo + k1 + k2) ==> vpost[k] == #[trigger] vpre[k],
    ensures
        vpost.filter(equiv_to::<T, C>(p)) == vpre.filter(equiv_to::<T, C>(p)),
{
    let pred = equiv_to::<T, C>(p);
    let ln = vpre.len() as int;
    let front = vpre.subrange(0, lo);
    let back = vpre.subrange(lo + k1 + k2, ln);
    let x = vpre.subrange(lo, lo + k1);
    let y = vpre.subrange(lo + k1, lo + k1 + k2);
    let m = merge_seqs::<T, C>(x, y);

    assert(sorted_between::<T, C>(x, 0, x.len() as int)) by {
        assert forall|i: int, j: int| 0 <= i <= j < x.len() implies #[trigger] leq::<T, C>(
            x[i],
            x[j],
        ) by {
            assert(leq::<T, C>(vpre[lo + i], vpre[lo + j]));
        }
    }
    assert(sorted_between::<T, C>(y, 0, y.len() as int)) by {
        assert forall|i: int, j: int| 0 <= i <= j < y.len() implies #[trigger] leq::<T, C>(
            y[i],
            y[j],
        ) by {
            assert(leq::<T, C>(vpre[lo + k1 + i], vpre[lo + k1 + j]));
        }
    }
    lemma_merge_seqs_len::<T, C>(x, y);
    lemma_merge_seqs_stable::<T, C>(x, y, p);

    assert(vpre =~= (front + (x + y)) + back);
    assert(vpost =~= (front + m) + back);
    Seq::filter_distributes_over_add(front + (x + y), back, pred);
    Seq::filter_distributes_over_add(front, x + y, pred);
    Seq::filter_distributes_over_add(x, y, pred);
    Seq::filter_distributes_over_add(front + m, back, pred);
    Seq::filter_distributes_over_add(front, m, pred);
    assert(vpost.filter(pred) =~= vpre.filter(pred));
}

/// Exchanging the two mismatched radius blocks around a run boundary leaves
/// every equivalence class of the whole sequence unchanged.
proof fn lemma_filter_region_block_swap<T, C: Less<T>>(
    vpre: Seq<T>,
    vpost: Seq<T>,
    b: int,
    rad: int,
    p: T,
)
    requires
        0 <= rad <= b,
        b + rad <= vpre.len(),
        vpre.len() == vpost.len(),
        forall|i: int, j: int|
            b - rad <= i < b && b <= j < b + rad ==> C::lt(#[trigger] vpre[j], #[trigger] vpre[i]),
        forall|k: int| b - rad <= k < b ==> #[trigger] vpost[k] == vpre[k + rad],
        forall|k: int| b <= k < b + rad ==> #[trigger] vpost[k] == vpre[k - rad],
        forall|k: int|
            0 <= k < vpre.len() && !(b - rad <= k < b + rad) ==> vpost[k] == #[trigger] vpre[k],
    ensures
        vpost.filter(equiv_to::<T, C>(p)) == vpre.filter(equiv_to::<T, C>(p)),
{
    let pred = equiv_to::<T, C>(p);
    let ln = vpre.len() as int;
    let front = vpre.subrange(0, b - rad);
    let back = vpre.subrange(b + rad, ln);
    let tb = vpre.subrange(b - rad, b);
    let hb = vpre.subrange(b, b + rad);

    assert forall|i: int, j: int|
        0 <= i < tb.len() && 0 <= j < hb.len() implies C::lt(#[trigger] hb[j], #[trigger] tb[
        i
    ]) by {
        assert(C::lt(vpre[b + j], vpre[b - rad + i]));
    }
    lemma_blocks_commute_filter::<T, C>(tb, hb, p);

    assert(vpre =~= (front + (tb + hb)) + back);
    assert(vpost =~= (front + (hb + tb)) + back);
    Seq::filter_distributes_over_add(front + (tb + hb), back, pred);
    Seq::filter_distributes_over_add(front, tb + hb, pred);
    Seq::filter_distributes_over_add(front + (hb + tb), back, pred);
    Seq::filter_distributes_over_add(front, hb + tb, pred);
    assert(vpost.filter(pred) =~= vpre.filter(pred));
}

/// Exchanging two adjacent elements that are not equivalent leaves every
/// equivalence class of the sequence untouched.
pub proof fn lemma_swap_adjacent_filter<T, C: Less<T>>(w: Seq<T>, jj: int, p: T)
    requires
        1 <= jj < w.len(),
        C::lt(w[jj], w[jj - 1]),
    ensures
        w.update(jj - 1, w[jj]).update(jj, w[jj - 1]).filter(equiv_to::<T, C>(p)) == w.filter(
            equiv_to::<T, C>(p),
        ),
{
    let pred = equiv_to::<T, C>(p);
    let x = w[jj - 1];
    let y = w[jj];
    let w2 = w.update(jj - 1, y).update(jj, x);
    let front = w.take(jj - 1);
    let back = w.skip(jj + 1);

    assert(w =~= (front + (seq![x] + seq![y])) + back);
    assert(w2 =~= (front + (seq![y] + seq![x])) + back);
    Seq::filter_distributes_over_add(front + (seq![x] + seq![y]), back, pred);
    Seq::filter_distributes_over_add(front, seq![x] + seq![y], pred);
    Seq::filter_distributes_over_add(seq![x], seq![y], pred);
    Seq::filter_distributes_over_add(front + (seq![y] + seq![x]), back, pred);
    Seq::filter_distributes_over_add(front, seq![y] + seq![x], pred);
    Seq::filter_distributes_over_add(seq![y], seq![x], pred);
    lemma_filter_single(x, pred);
    lemma_filter_single(y, pred);

    if pred(x) && pred(y) {
        // Two elements of one class cannot compare strictly.
        lemma_leq_transitive::<T, C>(x, p, y);
        assert(false);
    }
    assert((seq![x] + seq![y]).filter(pred) =~= (seq![y] + seq![x]).filter(pred));
    assert(w2.filter(pred) =~= w.filter(pred));
}

/// Stability of the merge: each class of equivalent elements comes out as
/// all of the first run's members, in their order, followed by all of the
/// second run's, in theirs.
pub proof fn lemma_merge_seqs_stable<T, C: Less<T>>(a: Seq<T>, b: Seq<T>, p: T)
    requires
        sorted_between::<T, C>(a, 0, a.len() as int),
        sorted_between::<T, C>(b, 0, b.len() as int),
    ensures
        merge_seqs::<T, C>(a, b).filter(equiv_to::<T, C>(p)) == a.filter(equiv_to::<T, C>(p))
            + b.filter(equiv_to::<T, C>(p)),
    decreases a.len() + b.len(),
{
    let pred = equiv_to::<T, C>(p);
    let m = merge_seqs::<T, C>(a, b);

    if a.len() == 0 {
        lemma_filter_none(a, pred);
        assert(m.filter(pred) =~= a.filter(pred) + b.filter(pred));
    } else if b.len() == 0 {
        lemma_filter_none(b, pred);
        assert(m.filter(pred) =~= a.filter(pred) + b.filter(pred));
    } else if C::lt(b[0], a[0]) {
        let bd = b.drop_first();
        lemma_sorted_drop::<T, C>(b);
        lemma_merge_seqs_stable::<T, C>(a, bd, p);
        assert(m == seq![b[0]] + merge_seqs::<T, C>(a, bd));
        Seq::filter_distributes_over_add(seq![b[0]], merge_seqs::<T, C>(a, bd), pred);
        lemma_filter_single(b[0], pred);
        assert(b =~= seq![b[0]] + bd);
        Seq::filter_distributes_over_add(seq![b[0]], bd, pred);
        if pred(b[0]) {
            // Everything in the first run is strictly past this class.
            assert forall|i: int| 0 <= i < a.len() implies !pred(#[trigger] a[i]) by {
                assert(leq::<T, C>(a[0], a[i]));
                lemma_lt_leq_transitive::<T, C>(b[0], a[0], a[i]);
                if leq::<T, C>(a[i], p) {
                    lemma_leq_lt_transitive::<T, C>(p, b[0], a[i]);
                    lemma_leq_transitive::<T, C>(a[i], p, b[0]);
                    C::lt_asymmetric(b[0], a[i]);
                }
            }
            lemma_filter_none(a, pred);
            assert(m.filter(pred) =~= a.filter(pred) + b.filter(pred));
        } else {
            assert(m.filter(pred) =~= a.filter(pred) + b.filter(pred));
        }
    } else {
        let ad = a.drop_first();
        lemma_sorted_drop::<T, C>(a);
        lemma_merge_seqs_stable::<T, C>(ad, b, p);
        assert(m == seq![a[0]] + merge_seqs::<T, C>(ad, b));
        Seq::filter_distributes_over_add(seq![a[0]], merge_seqs::<T, C>(ad, b), pred);
        lemma_filter_single(a[0], pred);
        assert(a =~= seq![a[0]] + ad);
        Seq::filter_distributes_over_add(seq![a[0]], ad, pred);
        assert(m.filter(pred) =~= a.filter(pred) + b.filter(pred));
    }
}

/// Dropping the first or last element keeps a sequence sorted.
pub proof fn lemma_sorted_drop<T, C: Less<T>>(x: Seq<T>)
    requires
        x.len() > 0,
        sorted_between::<T, C>(x, 0, x.len() as int),
    ensures
        sorted_between::<T, C>(x.drop_first(), 0, x.drop_first().len() as int),
        sorted_between::<T, C>(x.drop_last(), 0, x.drop_last().len() as int),
{
    assert forall|i: int, j: int| 0 <= i <= j < x.drop_first().len() implies #[trigger] leq::<
        T,
        C,
    >(x.drop_first()[i], x.drop_first()[j]) by {
        assert(leq::<T, C>(x[i + 1], x[j + 1]));
    }
    assert forall|i: int, j: int| 0 <= i <= j < x.drop_last().len() implies #[trigger] leq::<
        T,
        C,
    >(x.drop_last()[i], x.drop_last()[j]) by {
        assert(leq::<T, C>(x[i], x[j]));
    }
}

/// A stable merge of sorted runs can be read off from the back: the larger
/// of the two last elements comes out last, ties favoring the second run.
pub proof fn lemma_merge_seqs_pop_last<T, C: Less<T>>(a: Seq<T>, b: Seq<T>)
    requires
        a.len() > 0,
        b.len() > 0,
        sorted_between::<T, C>(a, 0, a.len() as int),
        sorted_between::<T, C>(b, 0, b.len() as int),
    ensures
        C::lt(b.last(), a.last()) ==> merge_seqs::<T, C>(a, b) == merge_seqs::<T, C>(
            a.drop_last(),
            b,
        ).push(a.last()),
        !C::lt(b.last(), a.last()) ==> merge_seqs::<T, C>(a, b) == merge_seqs::<T, C>(
            a,
            b.drop_last(),
        ).push(b.last()),
    decreases a.len() + b.len(),
{
    lemma_sorted_drop::<T, C>(a);
    lemma_sorted_drop::<T, C>(b);
    let ad = a.drop_first();
    let bd = b.drop_first();

    if C::lt(b[0], a[0]) {
        assert(merge_seqs::<T, C>(a, b) == seq![b[0]] + merge_seqs::<T, C>(a, bd));
        if C::lt(b.last(), a.last()) {
            if b.len() == 1 {
                assert(bd =~= Seq::<T>::empty());
                assert(merge_seqs::<T, C>(a, bd) == a);
                if a.len() == 1 {
                    assert(a.drop_last() =~= Seq::<T>::empty());
                    assert(merge_seqs::<T, C>(a.drop_last(), b) == b);
                    assert(merge_seqs::<T, C>(a, b) =~= merge_seqs::<T, C>(
                        a.drop_last(),
                        b,
                    ).push(a.last()));
                } else {
                    assert(a.drop_last()[0] == a[0]);
                    assert(merge_seqs::<T, C>(a.drop_last(), b) == seq![b[0]] + merge_seqs::<
                        T,
                        C,
                    >(a.drop_last(), bd));
                    assert(merge_seqs::<T, C>(a.drop_last(), bd) == a.drop_last());
                    assert(merge_seqs::<T, C>(a, b) =~= merge_seqs::<T, C>(
                        a.drop_last(),
                        b,
                    ).push(a.last()));
                }
            } else {
                assert(bd.last() == b.last());
                lemma_merge_seqs_pop_last::<T, C>(a, bd);
                assert(merge_seqs::<T, C>(a, bd) == merge_seqs::<T, C>(a.drop_last(), bd).push(
                    a.last(),
                ));
                if a.len() == 1 {
                    assert(a.drop_last() =~= Seq::<T>::empty());
                    assert(merge_seqs::<T, C>(a.drop_last(), bd) == bd);
                    assert(merge_seqs::<T, C>(a.drop_last(), b) == b);
                    assert(merge_seqs::<T, C>(a, b) =~= merge_seqs::<T, C>(
                        a.drop_last(),
                        b,
                    ).push(a.last()));
                } else {
                    assert(a.drop_last()[0] == a[0]);
                    assert(merge_seqs::<T, C>(a.drop_last(), b) == seq![b[0]] + merge_seqs::<
                        T,
                        C,
                    >(a.drop_last(), bd));
                    assert(merge_seqs::<T, C>(a, b) =~= merge_seqs::<T, C>(
                        a.drop_last(),
                        b,
                    ).push(a.last()));
                }
            }
        } else {
            if b.len() == 1 {
                assert(leq::<T, C>(a[0], a.last()));
                lemma_lt_leq_transitive::<T, C>(b[0], a[0], a.last());
                assert(false);
            } else {
                assert(bd.last() == b.last());
                lemma_merge_seqs_pop_last::<T, C>(a, bd);
                assert(merge_seqs::<T, C>(a, bd) == merge_seqs::<T, C>(a, bd.drop_last()).push(
                    b.last(),
                ));
                assert(b.drop_last().len() > 0);
                assert(b.drop_last()[0] == b[0]);
                assert(merge_seqs::<T, C>(a, b.drop_last()) == seq![b[0]] + merge_seqs::<T, C>(
                    a,
                    b.drop_last().drop_first(),
                ));
                assert(b.drop_last().drop_first() =~= bd.drop_last());
                assert(merge_seqs::<T, C>(a, b) =~= merge_seqs::<T, C>(a, b.drop_last()).push(
                    b.last(),
                ));
            }
        }
    } else {
        assert(merge_seqs::<T, C>(a, b) == seq![a[0]] + merge_seqs::<T, C>(ad, b));
        if !C::lt(b.last(), a.last()) {
            if a.len() == 1 {
                assert(ad =~= Seq::<T>::empty());
                assert(merge_seqs::<T, C>(ad, b) == b);
                if b.len() == 1 {
                    assert(b.drop_last() =~= Seq::<T>::empty());
                    assert(merge_seqs::<T, C>(a, b.drop_last()) == a);
                    assert(merge_seqs::<T, C>(a, b) =~= merge_seqs::<T, C>(
                        a,
                        b.drop_last(),
                    ).push(b.last()));
                } else {
                    assert(b.drop_last()[0] == b[0]);
                    assert(merge_seqs::<T, C>(a, b.drop_last()) == seq![a[0]] + merge_seqs::<
                        T,
                        C,
                    >(ad, b.drop_last()));
                    assert(merge_seqs::<T, C>(ad, b.drop_last()) == b.drop_last());
                    assert(merge_seqs::<T, C>(a, b) =~= merge_seqs::<T, C>(
                        a,
                        b.drop_last(),
                    ).push(b.last()));
                }
            } else {
                assert(ad.last() == a.last());
                lemma_merge_seqs_pop_last::<T, C>(ad, b);
                assert(merge_seqs::<T, C>(ad, b) == merge_seqs::<T, C>(ad, b.drop_last()).push(
                    b.last(),
                ));
                if b.len() == 1 {
                    assert(b.drop_last() =~= Seq::<T>::empty());
                    assert(merge_seqs::<T, C>(ad, b.drop_last()) == ad);
                    assert(merge_seqs::<T, C>(a, b.drop_last()) == a);
                    assert(merge_seqs::<T, C>(a, b) =~= merge_seqs::<T, C>(
                        a,
                        b.drop_last(),
                    ).push(b.last()));
                } else {
                    assert(b.drop_last()[0] == b[0]);
                    assert(merge_seqs::<T, C>(a, b.drop_last()) == seq![a[0]] + merge_seqs::<
                        T,
                        C,
                    >(ad, b.drop_last()));
                    assert(merge_seqs::<T, C>(a, b) =~= merge_seqs::<T, C>(
                        a,
                        b.drop_last(),
                    ).push(b.last()));
                }
            }
        } else {
            if a.len() == 1 {
                assert(leq::<T, C>(b[0], b.last()));
                lemma_leq_lt_transitive::<T, C>(b[0], b.last(), a[0]);
                assert(false);
            } else {
                assert(ad.last() == a.last());
                lemma_merge_seqs_pop_last::<T, C>(ad, b);
                assert(merge_seqs::<T, C>(ad, b) == merge_seqs::<T, C>(ad.drop_last(), b).push(
                    a.last(),
                ));
                assert(a.drop_last().len() > 0);
                assert(a.drop_last()[0] == a[0]);
                assert(merge_seqs::<T, C>(a.drop_last(), b) == seq![a[0]] + merge_seqs::<T, C>(
                    a.drop_last().drop_first(),
                    b,
                ));
                assert(a.drop_last().drop_first() =~= ad.drop_last());
                assert(merge_seqs::<T, C>(a, b) =~= merge_seqs::<T, C>(a.drop_last(), b).push(
                    a.last(),
                ));
            }
        }
    }
}

/// A prefix of a sorted sequence is sorted.
pub proof fn lemma_sorted_take<T, C: Less<T>>(x: Seq<T>, m: int)
    requires
        0 <= m <= x.len(),
        sorted_between::<T, C>(x, 0, x.len() as int),
    ensures
        sorted_between::<T, C>(x.take(m), 0, m),
{
    assert forall|i: int, j: int| 0 <= i <= j < m implies #[trigger] leq::<T, C>(
        x.take(m)[i],
        x.take(m)[j],
    ) by {
        assert(leq::<T, C>(x[i], x[j]));
    }
}

/// Merge the sorted run at the front of the destination, `dst..dst + n1`,
/// with the sorted run `s2..s2 + n2` into `dst..dst + n1 + n2`, by a classic
/// leftwards merge working from the high end. The `n2` elements initially
/// between them are displaced into `s2..s2 + n2`, in no particular order.
#[verifier::rlimit(100)]
pub fn merge_left<T, C: Less<T>>(
    v: &mut Vec<T>,
    s1: usize,
    n1: usize,
    s2: usize,
    n2: usize,
    dst: usize,
    cmp: &mut C,
)
    requires
        s1 == dst,
        s2 == dst + n1 + n2,
        s2 + n2 <= old(v)@.len(),
        sorted_between::<T, C>(old(v)@, dst as int, dst + n1),
        sorted_between::<T, C>(old(v)@, s2 as int, s2 + n2),
    ensures
        final(v)@.len() == old(v)@.len(),
        final(v)@.to_multiset() == old(v)@.to_multiset(),
        forall|k: int|
            0 <= k < old(v)@.len() && !(dst <= k < s2 + n2) ==> final(v)@[k] == old(v)@[k],
        final(v)@.subrange(dst as int, dst + n1 + n2) == merge_seqs::<T, C>(
            old(v)@.subrange(dst as int, dst + n1),
            old(v)@.subrange(s2 as int, s2 + n2),
        ),
{
    let ghost a = old(v)@.subrange(dst as int, dst + n1);
    let ghost b = old(v)@.subrange(s2 as int, s2 + n2);
    let ghost mfull = merge_seqs::<T, C>(a, b);

    let mut m1: usize = n1;
    let mut m2: usize = n2;

    proof {
        lemma_merge_seqs_len::<T, C>(a, b);
        assert(a.take(n1 as int) =~= a);
        assert(b.take(n2 as int) =~= b);
        assert(mfull.skip(n1 + n2) =~= Seq::<T>::empty());
        assert(v@.subrange(dst + n1 + n2, dst + n1 + n2) =~= Seq::<T>::empty());
        assert(mfull =~= merge_seqs::<T, C>(a.take(n1 as int), b.take(n2 as int)) + mfull.skip(
            n1 + n2,
        ));
        assert(sorted_between::<T, C>(a, 0, a.len() as int)) by {
            assert forall|i: int, j: int| 0 <= i <= j < a.len() implies #[trigger] leq::<T, C>(
                a[i],
                a[j],
            ) by {
                assert(leq::<T, C>(old(v)@[dst + i], old(v)@[dst + j]));
            }
        }
        assert(sorted_between::<T, C>(b, 0, b.len() as int)) by {
            assert forall|i: int, j: int| 0 <= i <= j < b.len() implies #[trigger] leq::<T, C>(
                b[i],
                b[j],
            ) by {
                assert(leq::<T, C>(old(v)@[s2 + i], old(v)@[s2 + j]));
            }
        }
    }

    while m1 > 0 && m2 > 0
        invariant
            m1 <= n1,
            m2 <= n2,
            s1 == dst,
            s2 == dst + n1 + n2,
            s2 + n2 <= v@.len(),
            v.len() == old(v)@.len(),
            a.len() == n1,
            b.len() == n2,
            sorted_between::<T, C>(a, 0, a.len() as int),
            sorted_between::<T, C>(b, 0, b.len() as int),
            mfull == merge_seqs::<T, C>(a, b),
            mfull.len() == n1 + n2,
            forall|j: int| 0 <= j < m1 ==> v@[dst + j] == a[j],
            forall|j: int| 0 <= j < m2 ==> v@[s2 + j] == b[j],
            v@.subrange(dst + m1 + m2, dst + n1 + n2) =~= mfull.skip(m1 + m2),
            mfull == merge_seqs::<T, C>(a.take(m1 as int), b.take(m2 as int)) + mfull.skip(
                m1 + m2,
            ),
            forall|k: int|
                0 <= k < old(v)@.len() && !(dst <= k < s2 + n2) ==> v@[k] == old(v)@[k],
            v@.to_multiset() == old(v)@.to_multiset(),
        decreases m1 + m2,
    {
        let ghost x = a.take(m1 as int);
        let ghost y = b.take(m2 as int);
        let ghost pre = v@;

        proof {
            lemma_sorted_take::<T, C>(a, m1 as int);
            lemma_sorted_take::<T, C>(b, m2 as int);
            lemma_merge_seqs_len::<T, C>(x, y);
            lemma_merge_seqs_pop_last::<T, C>(x, y);
            assert(x.last() == a[m1 - 1]);
            assert(y.last() == b[m2 - 1]);
            assert(v@[dst + (m1 - 1)] == a[m1 - 1]);
            assert(v@[s2 + (m2 - 1)] == b[m2 - 1]);
        }

        if cmp.less(&v[s2 + m2 - 1], &v[s1 + m1 - 1]) {
            vec_swap(v, dst + m1 + m2 - 1, dst + m1 - 1);
            proof {
                lemma_swap_multiset(pre, dst + m1 + m2 - 1, dst + (m1 - 1));
                assert(x.drop_last() =~= a.take(m1 - 1));
                assert(merge_seqs::<T, C>(x, y) == merge_seqs::<T, C>(a.take(m1 - 1), y).push(
                    a[m1 - 1],
                ));
                assert(mfull[m1 + m2 - 1] == a[m1 - 1]);
                assert(v@.subrange(dst + (m1 - 1) + m2, dst + n1 + n2) =~= mfull.skip(
                    m1 + m2 - 1,
                )) by {
                    assert forall|j: int| 0 <= j < n1 + n2 - (m1 + m2 - 1) implies #[trigger] v@.subrange(
                        dst + (m1 - 1) + m2,
                        dst + n1 + n2,
                    )[j] == mfull.skip(m1 + m2 - 1)[j] by {
                        if j > 0 {
                            assert(pre.subrange(dst + m1 + m2, dst + n1 + n2)[j - 1]
                                == mfull.skip(m1 + m2)[j - 1]);
                        }
                    }
                }
                assert(mfull =~= merge_seqs::<T, C>(a.take(m1 - 1), b.take(m2 as int))
                    + mfull.skip(m1 + m2 - 1));
            }
            m1 = m1 - 1;
        } else {
            vec_swap(v, dst + m1 + m2 - 1, s2 + m2 - 1);
            proof {
                lemma_swap_multiset(pre, dst + m1 + m2 - 1, s2 + (m2 - 1));
                assert(y.drop_last() =~= b.take(m2 - 1));
                assert(merge_seqs::<T, C>(x, y) == merge_seqs::<T, C>(x, b.take(m2 - 1)).push(
                    b[m2 - 1],
                ));
                assert(mfull[m1 + m2 - 1] == b[m2 - 1]);
                assert(v@.subrange(dst + m1 + (m2 - 1), dst + n1 + n2) =~= mfull.skip(
                    m1 + m2 - 1,
                )) by {
                    assert forall|j: int| 0 <= j < n1 + n2 - (m1 + m2 - 1) implies #[trigger] v@.subrange(
                        dst + m1 + (m2 - 1),
                        dst + n1 + n2,
                    )[j] == mfull.skip(m1 + m2 - 1)[j] by {
                        if j > 0 {
                            assert(pre.subrange(dst + m1 + m2, dst + n1 + n2)[j - 1]
                                == mfull.skip(m1 + m2)[j - 1]);
                        }
                    }
                }
                assert(mfull =~= merge_seqs::<T, C>(a.take(m1 as int), b.take(m2 - 1))
                    + mfull.skip(m1 + m2 - 1));
            }
            m2 = m2 - 1;
        }
    }

    if m2 > 0 {
        let ghost pre2 = v@;
        cycle_swap(v, dst, s2, m2);
        proof {
            assert(a.take(m1 as int) =~= Seq::<T>::empty());
            assert(merge_seqs::<T, C>(a.take(m1 as int), b.take(m2 as int)) == b.take(m2 as int));
            assert(v@.subrange(dst as int, dst + n1 + n2) =~= mfull) by {
                assert forall|j: int| 0 <= j < n1 + n2 implies v@.subrange(
                    dst as int,
                    dst + n1 + n2,
                )[j] == mfull[j] by {
                    if j < m2 {
                        assert(v@[dst + j] == pre2[s2 + j]);
                        assert(pre2[s2 + j] == b[j]);
                        assert(mfull[j] == b.take(m2 as int)[j]);
                    } else {
                        assert(v@[dst + j] == pre2[dst + j]);
                        assert(pre2.subrange(dst + m2, dst + n1 + n2)[j - m2] == mfull.skip(
                            m2 as int,
                        )[j - m2]);
                    }
                }
            }
        }
    } else {
        proof {
            assert(b.take(m2 as int) =~= Seq::<T>::empty());
            assert(merge_seqs::<T, C>(a.take(m1 as int), b.take(m2 as int)) == a.take(m1 as int));
            assert(v@.subrange(dst as int, dst + n1 + n2) =~= mfull) by {
                assert forall|j: int| 0 <= j < n1 + n2 implies v@.subrange(
                    dst as int,
                    dst + n1 + n2,
                )[j] == mfull[j] by {
                    if j < m1 {
                        assert(v@[dst + j] == a[j]);
                        assert(mfull[j] == a.take(m1 as int)[j]);
                    } else {
                        assert(v@.subrange(dst + m1, dst + n1 + n2)[j - m1] == mfull.skip(
                            m1 as int,
                        )[j - m1]);
                    }
                }
            }
        }
    }
}

/// Every element of a stable merge comes from one of its two inputs.
pub proof fn lemma_merge_seqs_element_of<T, C: Less<T>>(x: Seq<T>, y: Seq<T>, j: int)
    requires
        0 <= j < merge_seqs::<T, C>(x, y).len(),
    ensures
        x.contains(merge_seqs::<T, C>(x, y)[j]) || y.contains(merge_seqs::<T, C>(x, y)[j]),
{
    broadcast use vstd::multiset::group_multiset_axioms;

    let m = merge_seqs::<T, C>(x, y);
    lemma_merge_seqs_multiset::<T, C>(x, y);
    m.to_multiset_ensures();
    x.to_multiset_ensures();
    y.to_multiset_ensures();
    assert(m.contains(m[j]));
    assert(m.to_multiset().count(m[j]) > 0);
}

/// When both halves of a region keep their classes, so does the region.
proof fn lemma_filter_concat_parts<T, C: Less<T>>(a: Seq<T>, b: Seq<T>, lo: int, mid: int, hi: int)
    requires
        0 <= lo <= mid <= hi,
        hi <= a.len(),
        hi <= b.len(),
        forall|p: T|
            #[trigger] b.subrange(lo, mid).filter(equiv_to::<T, C>(p)) == a.subrange(
                lo,
                mid,
            ).filter(equiv_to::<T, C>(p)),
        forall|p: T|
            #[trigger] b.subrange(mid, hi).filter(equiv_to::<T, C>(p)) == a.subrange(
                mid,
                hi,
            ).filter(equiv_to::<T, C>(p)),
    ensures
        forall|p: T|
            #[trigger] b.subrange(lo, hi).filter(equiv_to::<T, C>(p)) == a.subrange(
                lo,
                hi,
            ).filter(equiv_to::<T, C>(p)),
{
    assert forall|p: T|
        #[trigger] b.subrange(lo, hi).filter(equiv_to::<T, C>(p)) == a.subrange(lo, hi).filter(
        equiv_to::<T, C>(p),
    ) by {
        let pred = equiv_to::<T, C>(p);
        assert(a.subrange(lo, hi) =~= a.subrange(lo, mid) + a.subrange(mid, hi));
        assert(b.subrange(lo, hi) =~= b.subrange(lo, mid) + b.subrange(mid, hi));
        Seq::filter_distributes_over_add(a.subrange(lo, mid), a.subrange(mid, hi), pred);
        Seq::filter_distributes_over_add(b.subrange(lo, mid), b.subrange(mid, hi), pred);
    }
}

/// Exchanging the mismatched radius blocks keeps every class of the region:
/// the two blocks compare strictly pair by pair and so share no class.
proof fn lemma_radius_swap_filter<T, C: Less<T>>(
    v0: Seq<T>,
    v1: Seq<T>,
    s: int,
    n1: int,
    n2: int,
    rad: int,
)
    requires
        0 <= s,
        s + n1 + n2 <= v0.len(),
        v0.len() == v1.len(),
        0 < rad <= n1,
        rad <= n2,
        sorted_between::<T, C>(v0, s, s + n1),
        sorted_between::<T, C>(v0, s + n1, s + n1 + n2),
        forall|j: int| 0 <= j < rad ==> C::lt(#[trigger] v0[s + n1 + j], v0[s + n1 - 1 - j]),
        forall|k: int| s + n1 - rad <= k < s + n1 ==> #[trigger] v1[k] == v0[k + rad],
        forall|k: int| s + n1 <= k < s + n1 + rad ==> #[trigger] v1[k] == v0[k - rad],
        forall|k: int|
            0 <= k < v0.len() && !(s + n1 - rad <= k < s + n1 + rad) ==> v1[k] == #[trigger] v0[k],
    ensures
        forall|p: T|
            #[trigger] v1.subrange(s, s + n1 + n2).filter(equiv_to::<T, C>(p)) == v0.subrange(
                s,
                s + n1 + n2,
            ).filter(equiv_to::<T, C>(p)),
{
    let b = s + n1;
    assert forall|i: int, j: int|
        b - rad <= i < b && b <= j < b + rad implies C::lt(#[trigger] v0[j], #[trigger] v0[
        i
    ]) by {
        let jh = j - b;
        let jp = b - 1 - i;
        if jh <= jp {
            assert(leq::<T, C>(v0[b + jh], v0[b + jp]));
            assert(C::lt(v0[b + jp], v0[b - 1 - jp]));
            lemma_leq_lt_transitive::<T, C>(v0[b + jh], v0[b + jp], v0[i]);
        } else {
            assert(C::lt(v0[b + jh], v0[b - 1 - jh]));
            assert(leq::<T, C>(v0[b - 1 - jh], v0[i]));
            lemma_lt_leq_transitive::<T, C>(v0[b + jh], v0[b - 1 - jh], v0[i]);
        }
    }
    assert forall|p: T|
        #[trigger] v1.subrange(s, s + n1 + n2).filter(equiv_to::<T, C>(p)) == v0.subrange(
        s,
        s + n1 + n2,
    ).filter(equiv_to::<T, C>(p)) by {
        let pred = equiv_to::<T, C>(p);
        let fr = v0.subrange(s, b - rad);
        let tb = v0.subrange(b - rad, b);
        let hb = v0.subrange(b, b + rad);
        let bk = v0.subrange(b + rad, s + n1 + n2);
        assert forall|i: int, j: int|
            0 <= i < tb.len() && 0 <= j < hb.len() implies C::lt(#[trigger] hb[j], #[trigger] tb[
            i
        ]) by {
            assert(C::lt(v0[b + j], v0[b - rad + i]));
        }
        lemma_blocks_commute_filter::<T, C>(tb, hb, p);
        assert(v0.subrange(s, s + n1 + n2) =~= (fr + (tb + hb)) + bk);
        assert(v1.subrange(s, s + n1 + n2) =~= (fr + (hb + tb)) + bk);
        Seq::filter_distributes_over_add(fr + (tb + hb), bk, pred);
        Seq::filter_distributes_over_add(fr, tb + hb, pred);
        Seq::filter_distributes_over_add(fr + (hb + tb), bk, pred);
        Seq::filter_distributes_over_add(fr, hb + tb, pred);
    }
}

/// Facts about the region after the mismatched radii around the boundary of
/// two sorted runs have been exchanged: the four pieces around the boundary
/// are sorted, everything left of the boundary precedes everything right of
/// it, and the region keeps its multiset.
proof fn lemma_radius_swap_facts<T, C: Less<T>>(
    v0: Seq<T>,
    v1: Seq<T>,
    s: int,
    n1: int,
    n2: int,
    rad: int,
)
    requires
        0 <= s,
        s + n1 + n2 <= v0.len(),
        v0.len() == v1.len(),
        0 < rad <= n1,
        rad <= n2,
        sorted_between::<T, C>(v0, s, s + n1),
        sorted_between::<T, C>(v0, s + n1, s + n1 + n2),
        forall|j: int| 0 <= j < rad ==> C::lt(#[trigger] v0[s + n1 + j], v0[s + n1 - 1 - j]),
        rad < n1 && rad < n2 ==> !C::lt(v0[s + n1 + rad], v0[s + n1 - 1 - rad]),
        forall|k: int| s + n1 - rad <= k < s + n1 ==> #[trigger] v1[k] == v0[k + rad],
        forall|k: int| s + n1 <= k < s + n1 + rad ==> #[trigger] v1[k] == v0[k - rad],
        forall|k: int|
            0 <= k < v0.len() && !(s + n1 - rad <= k < s + n1 + rad) ==> v1[k] == #[trigger] v0[k],
    ensures
        sorted_between::<T, C>(v1, s, s + n1 - rad),
        sorted_between::<T, C>(v1, s + n1 - rad, s + n1),
        sorted_between::<T, C>(v1, s + n1, s + n1 + rad),
        sorted_between::<T, C>(v1, s + n1 + rad, s + n1 + n2),
        leq_across::<T, C>(v1, s, s + n1, s + n1, s + n1 + n2),
        v1.subrange(s, s + n1 + n2).to_multiset() == v0.subrange(s, s + n1 + n2).to_multiset(),
{
    let b = s + n1;
    lemma_subrange_ms_split(v0, s, b - rad, s + n1 + n2);
    lemma_subrange_ms_split(v0, b - rad, b, s + n1 + n2);
    lemma_subrange_ms_split(v0, b, b + rad, s + n1 + n2);
    lemma_subrange_ms_split(v1, s, b - rad, s + n1 + n2);
    lemma_subrange_ms_split(v1, b - rad, b, s + n1 + n2);
    lemma_subrange_ms_split(v1, b, b + rad, s + n1 + n2);
    assert(v1.subrange(s, b - rad) =~= v0.subrange(s, b - rad));
    assert(v1.subrange(b - rad, b) =~= v0.subrange(b, b + rad));
    assert(v1.subrange(b, b + rad) =~= v0.subrange(b - rad, b));
    assert(v1.subrange(b + rad, s + n1 + n2) =~= v0.subrange(b + rad, s + n1 + n2));
    assert(v1.subrange(s, s + n1 + n2).to_multiset() =~= v0.subrange(
        s,
        s + n1 + n2,
    ).to_multiset()) by {
        broadcast use vstd::multiset::group_multiset_axioms;

    }

    assert forall|k1: int, k2: int|
        s <= k1 <= k2 < s + n1 + n2 && (k2 < b - rad || (b - rad <= k1 && k2 < b) || (b <= k1
            && k2 < b + rad) || b + rad <= k1) implies #[trigger] leq::<T, C>(v1[k1], v1[k2]) by {
        if k2 < b - rad {
            assert(leq::<T, C>(v0[k1], v0[k2]));
        } else if b - rad <= k1 && k2 < b {
            assert(leq::<T, C>(v0[k1 + rad], v0[k2 + rad]));
        } else if b <= k1 && k2 < b + rad {
            assert(leq::<T, C>(v0[k1 - rad], v0[k2 - rad]));
        } else {
            assert(leq::<T, C>(v0[k1], v0[k2]));
        }
    }

    assert forall|k1: int, k2: int|
        s <= k1 < b && b <= k2 < s + n1 + n2 implies #[trigger] leq::<T, C>(v1[k1], v1[k2]) by {
        let e1 = if k1 < b - rad {
            v0[k1]
        } else {
            v0[k1 + rad]
        };
        let e2 = if k2 < b + rad {
            v0[k2 - rad]
        } else {
            v0[k2]
        };
        assert(v1[k1] == e1);
        assert(v1[k2] == e2);
        if k1 < b - rad && k2 < b + rad {
            assert(leq::<T, C>(v0[k1], v0[k2 - rad]));
        } else if k1 < b - rad {
            assert(!C::lt(v0[b + rad], v0[b - 1 - rad]));
            assert(leq::<T, C>(v0[k1], v0[b - 1 - rad]));
            assert(leq::<T, C>(v0[b + rad], v0[k2]));
            lemma_leq_transitive::<T, C>(v0[k1], v0[b - 1 - rad], v0[b + rad]);
            lemma_leq_transitive::<T, C>(v0[k1], v0[b + rad], v0[k2]);
        } else if k2 < b + rad {
            let u = k2 - rad;
            let j1 = k1 + rad - b;
            assert(e1 == v0[b + j1]);
            if b - 1 - j1 <= u {
                assert(C::lt(v0[b + j1], v0[b - 1 - j1]));
                assert(leq::<T, C>(v0[b - 1 - j1], v0[u]));
                lemma_lt_leq_transitive::<T, C>(v0[b + j1], v0[b - 1 - j1], v0[u]);
                lemma_lt_leq::<T, C>(v0[b + j1], v0[u]);
            } else {
                let jm = b - 1 - u;
                assert(C::lt(v0[b + jm], v0[b - 1 - jm]));
                assert(v0[b - 1 - jm] == v0[u]);
                assert(leq::<T, C>(v0[b + j1], v0[b + jm]));
                lemma_leq_lt_transitive::<T, C>(v0[b + j1], v0[b + jm], v0[u]);
                lemma_lt_leq::<T, C>(v0[b + j1], v0[u]);
            }
        } else {
            assert(leq::<T, C>(v0[k1 + rad], v0[k2]));
        }
    }
}

/// Assembly of a buffered merge: after the left boundary radius has been
/// stashed in the buffer and the two half merges have run, the region is
/// sorted and keeps its multiset.
#[verifier::rlimit(100)]
proof fn lemma_buffered_merge_facts<T, C: Less<T>>(
    v0: Seq<T>,
    v1: Seq<T>,
    v2: Seq<T>,
    v3: Seq<T>,
    s: int,
    n1: int,
    n2: int,
    rad: int,
    bs: int,
)
    requires
        0 <= s,
        s + n1 + n2 <= v0.len(),
        v0.len() == v1.len() && v1.len() == v2.len() && v2.len() == v3.len(),
        0 < rad <= n1,
        rad <= n2,
        0 <= bs,
        bs + rad <= v0.len(),
        bs + rad <= s || s + n1 + n2 <= bs,
        sorted_between::<T, C>(v0, s, s + n1),
        sorted_between::<T, C>(v0, s + n1, s + n1 + n2),
        forall|j: int| 0 <= j < rad ==> C::lt(#[trigger] v0[s + n1 + j], v0[s + n1 - 1 - j]),
        rad < n1 && rad < n2 ==> !C::lt(v0[s + n1 + rad], v0[s + n1 - 1 - rad]),
        // after the exchange with the buffer
        forall|j: int| 0 <= j < rad ==> #[trigger] v1[bs + j] == v0[s + n1 - rad + j],
        forall|k: int|
            0 <= k < v0.len() && !(bs <= k < bs + rad) && !(s + n1 - rad <= k < s + n1)
                ==> v1[k] == #[trigger] v0[k],
        // after the left half merge
        v2.subrange(s, s + n1) == merge_seqs::<T, C>(
            v1.subrange(s, s + n1 - rad),
            v1.subrange(s + n1, s + n1 + rad),
        ),
        forall|k: int| 0 <= k < v1.len() && !(s <= k < s + n1 + rad) ==> v2[k] == #[trigger] v1[k],
        // after the right half merge
        v3.subrange(s + n1, s + n1 + n2) == merge_seqs::<T, C>(
            v2.subrange(bs, bs + rad),
            v2.subrange(s + n1 + rad, s + n1 + n2),
        ),
        forall|k: int|
            0 <= k < v2.len() && !(s + n1 <= k < s + n1 + n2) && !(bs <= k < bs + rad) ==> v3[k]
                == #[trigger] v2[k],
    ensures
        sorted_between::<T, C>(v3, s, s + n1 + n2),
        v3.subrange(s, s + n1 + n2).to_multiset() == v0.subrange(s, s + n1 + n2).to_multiset(),
        forall|p: T|
            #[trigger] v3.subrange(s, s + n1 + n2).filter(equiv_to::<T, C>(p)) == v0.subrange(
                s,
                s + n1 + n2,
            ).filter(equiv_to::<T, C>(p)),
{
    let b = s + n1;
    let aa = v1.subrange(s, b - rad);
    let bb = v1.subrange(b, b + rad);
    let xx = v2.subrange(bs, bs + rad);
    let yy = v2.subrange(b + rad, s + n1 + n2);
    let ma = merge_seqs::<T, C>(aa, bb);
    let mb = merge_seqs::<T, C>(xx, yy);

    assert(aa =~= v0.subrange(s, b - rad));
    assert(bb =~= v0.subrange(b, b + rad));
    assert(xx =~= v0.subrange(b - rad, b)) by {
        assert forall|j: int| 0 <= j < rad implies xx[j] == v0[b - rad + j] by {
            assert(v2[bs + j] == v1[bs + j]);
            assert(v1[bs + j] == v0[b - rad + j]);
        }
    }
    assert(yy =~= v0.subrange(b + rad, s + n1 + n2));

    lemma_merge_seqs_len::<T, C>(aa, bb);
    lemma_merge_seqs_len::<T, C>(xx, yy);

    assert(v3.subrange(s, b) =~= ma) by {
        assert forall|j: int| 0 <= j < n1 implies v3.subrange(s, b)[j] == ma[j] by {
            assert(v3[s + j] == v2[s + j]);
            assert(v2.subrange(s, b)[j] == ma[j]);
        }
    }
    assert(v3.subrange(b, s + n1 + n2) =~= mb);

    assert(sorted_between::<T, C>(aa, 0, aa.len() as int)) by {
        assert forall|i: int, j: int| 0 <= i <= j < aa.len() implies #[trigger] leq::<T, C>(
            aa[i],
            aa[j],
        ) by {
            assert(leq::<T, C>(v0[s + i], v0[s + j]));
        }
    }
    assert(sorted_between::<T, C>(bb, 0, bb.len() as int)) by {
        assert forall|i: int, j: int| 0 <= i <= j < bb.len() implies #[trigger] leq::<T, C>(
            bb[i],
            bb[j],
        ) by {
            assert(leq::<T, C>(v0[b + i], v0[b + j]));
        }
    }
    assert(sorted_between::<T, C>(xx, 0, xx.len() as int)) by {
        assert forall|i: int, j: int| 0 <= i <= j < xx.len() implies #[trigger] leq::<T, C>(
            xx[i],
            xx[j],
        ) by {
            assert(leq::<T, C>(v0[b - rad + i], v0[b - rad + j]));
        }
    }
    assert(sorted_between::<T, C>(yy, 0, yy.len() as int)) by {
        assert forall|i: int, j: int| 0 <= i <= j < yy.len() implies #[trigger] leq::<T, C>(
            yy[i],
            yy[j],
        ) by {
            assert(leq::<T, C>(v0[b + rad + i], v0[b + rad + j]));
        }
    }
    lemma_merge_seqs_sorted::<T, C>(aa, bb);
    lemma_merge_seqs_sorted::<T, C>(xx, yy);

    assert forall|i: int, j: int| 0 <= i < n1 && 0 <= j < n2 implies leq::<T, C>(
        #[trigger] ma[i],
        #[trigger] mb[j],
    ) by {
        lemma_merge_seqs_element_of::<T, C>(aa, bb, i);
        lemma_merge_seqs_element_of::<T, C>(xx, yy, j);
        let e1 = ma[i];
        let e2 = mb[j];
        if aa.contains(e1) {
            let ia = choose|ia: int| 0 <= ia < aa.len() && aa[ia] == e1;
            if xx.contains(e2) {
                let ix = choose|ix: int| 0 <= ix < xx.len() && xx[ix] == e2;
                assert(leq::<T, C>(v0[s + ia], v0[b - rad + ix]));
            } else {
                let iy = choose|iy: int| 0 <= iy < yy.len() && yy[iy] == e2;
                // aa and yy are both non-empty here, so the radius is interior
                assert(rad < n1 && rad < n2);
                assert(!C::lt(v0[b + rad], v0[b - 1 - rad]));
                assert(leq::<T, C>(v0[s + ia], v0[b - 1 - rad]));
                assert(leq::<T, C>(v0[b + rad], v0[b + rad + iy]));
                lemma_leq_transitive::<T, C>(v0[s + ia], v0[b - 1 - rad], v0[b + rad]);
                lemma_leq_transitive::<T, C>(v0[s + ia], v0[b + rad], v0[b + rad + iy]);
            }
        } else {
            let ib = choose|ib: int| 0 <= ib < bb.len() && bb[ib] == e1;
            if yy.contains(e2) {
                let iy = choose|iy: int| 0 <= iy < yy.len() && yy[iy] == e2;
                assert(leq::<T, C>(v0[b + ib], v0[b + rad + iy]));
            } else {
                let ix = choose|ix: int| 0 <= ix < xx.len() && xx[ix] == e2;
                let u = b - rad + ix;
                if b - 1 - ib <= u {
                    assert(C::lt(v0[b + ib], v0[b - 1 - ib]));
                    assert(leq::<T, C>(v0[b - 1 - ib], v0[u]));
                    lemma_lt_leq_transitive::<T, C>(v0[b + ib], v0[b - 1 - ib], v0[u]);
                    lemma_lt_leq::<T, C>(v0[b + ib], v0[u]);
                } else {
                    let jm = b - 1 - u;
                    assert(C::lt(v0[b + jm], v0[b - 1 - jm]));
                    assert(v0[b - 1 - jm] == v0[u]);
                    assert(leq::<T, C>(v0[b + ib], v0[b + jm]));
                    lemma_leq_lt_transitive::<T, C>(v0[b + ib], v0[b + jm], v0[u]);
                    lemma_lt_leq::<T, C>(v0[b + ib], v0[u]);
                }
            }
        }
    }

    assert forall|k1: int, k2: int| s <= k1 <= k2 < s + n1 + n2 implies #[trigger] leq::<T, C>(
        v3[k1],
        v3[k2],
    ) by {
        if k2 < b {
            assert(v3[k1] == ma[k1 - s]);
            assert(v3[k2] == ma[k2 - s]);
            assert(leq::<T, C>(ma[k1 - s], ma[k2 - s]));
        } else if b <= k1 {
            assert(v3[k1] == mb[k1 - b]);
            assert(v3[k2] == mb[k2 - b]);
            assert(leq::<T, C>(mb[k1 - b], mb[k2 - b]));
        } else {
            assert(v3[k1] == ma[k1 - s]);
            assert(v3[k2] == mb[k2 - b]);
            assert(leq::<T, C>(ma[k1 - s], mb[k2 - b]));
        }
    }

    lemma_merge_seqs_multiset::<T, C>(aa, bb);
    lemma_merge_seqs_multiset::<T, C>(xx, yy);
    lemma_subrange_ms_split(v3, s, b, s + n1 + n2);
    lemma_subrange_ms_split(v0, s, b - rad, s + n1 + n2);
    lemma_subrange_ms_split(v0, b - rad, b, s + n1 + n2);
    lemma_subrange_ms_split(v0, b, b + rad, s + n1 + n2);
    assert(v3.subrange(s, s + n1 + n2).to_multiset() =~= v0.subrange(
        s,
        s + n1 + n2,
    ).to_multiset()) by {
        broadcast use vstd::multiset::group_multiset_axioms;

    }

    // The left tail and the right head hold no common class, so each class
    // of the region keeps its order through the two half merges.
    assert forall|i: int, j: int|
        0 <= i < xx.len() && 0 <= j < bb.len() implies C::lt(#[trigger] bb[j], #[trigger] xx[
        i
    ]) by {
        let u = b - rad + i;
        let jp = b - 1 - u;
        if j <= jp {
            assert(leq::<T, C>(v0[b + j], v0[b + jp]));
            assert(C::lt(v0[b + jp], v0[b - 1 - jp]));
            lemma_leq_lt_transitive::<T, C>(v0[b + j], v0[b + jp], v0[u]);
        } else {
            assert(C::lt(v0[b + j], v0[b - 1 - j]));
            assert(leq::<T, C>(v0[b - 1 - j], v0[u]));
            lemma_lt_leq_transitive::<T, C>(v0[b + j], v0[b - 1 - j], v0[u]);
        }
    }
    assert forall|p: T|
        #[trigger] v3.subrange(s, s + n1 + n2).filter(equiv_to::<T, C>(p)) == v0.subrange(
        s,
        s + n1 + n2,
    ).filter(equiv_to::<T, C>(p)) by {
        let pred = equiv_to::<T, C>(p);
        lemma_merge_seqs_stable::<T, C>(aa, bb, p);
        lemma_merge_seqs_stable::<T, C>(xx, yy, p);
        lemma_blocks_commute_filter::<T, C>(xx, bb, p);
        assert(v0.subrange(s, s + n1 + n2) =~= (aa + (xx + bb)) + yy);
        assert(v3.subrange(s, s + n1 + n2) =~= ma + mb);
        Seq::filter_distributes_over_add(aa + (xx + bb), yy, pred);
        Seq::filter_distributes_over_add(aa, xx + bb, pred);
        Seq::filter_distributes_over_add(xx, bb, pred);
        Seq::filter_distributes_over_add(bb, xx, pred);
        Seq::filter_distributes_over_add(ma, mb, pred);
        assert(v3.subrange(s, s + n1 + n2).filter(pred) =~= v0.subrange(
            s,
            s + n1 + n2,
        ).filter(pred));
    }
}

/// `e` is the boundary radius of the adjacent runs `s..s + n1` and
/// `s + n1..s + n1 + n2` in `v0`: the largest count of elements near the
/// boundary that are pairwise out of order across it.
pub open spec fn is_swap_radius<T, C: Less<T>>(
    v0: Seq<T>,
    s: int,
    n1: int,
    n2: int,
    e: int,
) -> bool {
    &&& 0 <= e <= n1
    &&& e <= n2
    &&& forall|j: int| 0 <= j < e ==> C::lt(#[trigger] v0[s + n1 + j], v0[s + n1 - 1 - j])
    &&& (e < n1 && e < n2 ==> !C::lt(v0[s + n1 + e], v0[s + n1 - 1 - e]))
}

/// Two sorted runs that are disjoint in the wrong order become one sorted
/// region when rotated, and keep their multiset.
proof fn lemma_rotated_disjoint_sorted<T, C: Less<T>>(
    v0: Seq<T>,
    v1: Seq<T>,
    s: int,
    n1: int,
    n2: int,
)
    requires
        0 <= s,
        s + n1 + n2 <= v0.len(),
        v0.len() == v1.len(),
        n1 >= 1,
        n2 >= 1,
        sorted_between::<T, C>(v0, s, s + n1),
        sorted_between::<T, C>(v0, s + n1, s + n1 + n2),
        C::lt(v0[s + n1 + n2 - 1], v0[s]),
        v0.to_multiset() == v1.to_multiset(),
        forall|k: int| s <= k < s + n2 ==> #[trigger] v1[k] == v0[k + n1],
        forall|k: int| s + n2 <= k < s + n1 + n2 ==> #[trigger] v1[k] == v0[k - n2],
        forall|k: int| 0 <= k < v0.len() && !(s <= k < s + n1 + n2) ==> v1[k] == #[trigger] v0[k],
    ensures
        sorted_between::<T, C>(v1, s, s + n1 + n2),
        v1.subrange(s, s + n1 + n2).to_multiset() == v0.subrange(s, s + n1 + n2).to_multiset(),
{
    crate::util::lemma_region_multiset(v0, v1, s, s + n1 + n2);
    assert forall|k1: int, k2: int| s <= k1 <= k2 < s + n1 + n2 implies #[trigger] leq::<T, C>(
        v1[k1],
        v1[k2],
    ) by {
        let e1 = if k1 < s + n2 {
            v0[k1 + n1]
        } else {
            v0[k1 - n2]
        };
        let e2 = if k2 < s + n2 {
            v0[k2 + n1]
        } else {
            v0[k2 - n2]
        };
        assert(v1[k1] == e1);
        assert(v1[k2] == e2);
        if k2 < s + n2 {
            assert(leq::<T, C>(v0[k1 + n1], v0[k2 + n1]));
        } else if k1 < s + n2 {
            assert(leq::<T, C>(v0[k1 + n1], v0[s + n1 + n2 - 1]));
            assert(leq::<T, C>(v0[s], v0[k2 - n2]));
            lemma_leq_lt_transitive::<T, C>(v0[k1 + n1], v0[s + n1 + n2 - 1], v0[s]);
            lemma_lt_leq_transitive::<T, C>(v0[k1 + n1], v0[s], v0[k2 - n2]);
            lemma_lt_leq::<T, C>(v0[k1 + n1], v0[k2 - n2]);
        } else {
            assert(leq::<T, C>(v0[k1 - n2], v0[k2 - n2]));
        }
    }
}

/// Sortedness of the whole region follows once each half has been sorted by a
/// permutation of itself and the halves already stood in order.
proof fn lemma_sorted_halves_join<T, C: Less<T>>(
    v1: Seq<T>,
    v2: Seq<T>,
    v3: Seq<T>,
    s: int,
    n1: int,
    n2: int,
)
    requires
        0 <= s,
        s + n1 + n2 <= v1.len(),
        v1.len() == v2.len() && v2.len() == v3.len(),
        leq_across::<T, C>(v1, s, s + n1, s + n1, s + n1 + n2),
        v1.subrange(s, s + n1).to_multiset() == v2.subrange(s, s + n1).to_multiset(),
        forall|k: int| s + n1 <= k < s + n1 + n2 ==> v2[k] == #[trigger] v1[k],
        v2.subrange(s + n1, s + n1 + n2).to_multiset() == v3.subrange(
            s + n1,
            s + n1 + n2,
        ).to_multiset(),
        forall|k: int| s <= k < s + n1 ==> v3[k] == #[trigger] v2[k],
        sorted_between::<T, C>(v2, s, s + n1),
        sorted_between::<T, C>(v3, s + n1, s + n1 + n2),
    ensures
        sorted_between::<T, C>(v3, s, s + n1 + n2),
{
    assert forall|k1: int, k2: int|
        s <= k1 < s + n1 && s + n1 <= k2 < s + n1 + n2 implies #[trigger] leq::<T, C>(
        v3[k1],
        v3[k2],
    ) by {
        crate::util::lemma_region_values_of_multiset(v1, v2, s, s + n1);
        assert(crate::util::region_has(v1, s, s + n1, v2[k1]));
        let j1 = choose|j1: int| s <= j1 < s + n1 && v1[j1] == v2[k1];
        crate::util::lemma_region_values_of_multiset(v2, v3, s + n1, s + n1 + n2);
        assert(crate::util::region_has(v2, s + n1, s + n1 + n2, v3[k2]));
        let j2 = choose|j2: int| s + n1 <= j2 < s + n1 + n2 && v2[j2] == v3[k2];
        assert(v2[j2] == v1[j2]);
        assert(v3[k1] == v2[k1]);
        assert(leq::<T, C>(v1[j1], v1[j2]));
    }
    assert forall|k1: int, k2: int| s <= k1 <= k2 < s + n1 + n2 implies #[trigger] leq::<T, C>(
        v3[k1],
        v3[k2],
    ) by {
        if k2 < s + n1 {
            assert(v3[k1] == v2[k1]);
            assert(v3[k2] == v2[k2]);
            assert(leq::<T, C>(v2[k1], v2[k2]));
        } else if s + n1 <= k1 {
            assert(leq::<T, C>(v3[k1], v3[k2]));
        }
    }
}

/// The buffered phase of an adaptive merge, once the boundary radius is
/// known to fit the buffer: stash the left boundary radius in the buffer,
/// run the two half merges with the kernel the imbalance ratio picks, and
/// leave the region sorted with its multiset intact.
#[verifier::rlimit(100)]
#[verifier::spinoff_prover]
fn merge_buffered<T, C: Less<T>>(
    buf: &mut Buffer,
    v: &mut Vec<T>,
    s: usize,
    n1: usize,
    n2: usize,
    rad: usize,
    cmp: &mut C,
)
    requires
        s + n1 + n2 <= old(v)@.len(),
        old(buf).start + old(buf).len <= old(v)@.len(),
        old(buf).start + old(buf).len <= s || s + n1 + n2 <= old(buf).start,
        0 < rad <= old(buf).len,
        rad <= n1,
        rad <= n2,
        sorted_between::<T, C>(old(v)@, s as int, s + n1),
        sorted_between::<T, C>(old(v)@, s + n1, s + n1 + n2),
        forall|j: int| 0 <= j < rad ==> C::lt(#[trigger] old(v)@[s + n1 + j], old(v)@[s + n1 - 1 - j]),
        rad < n1 && rad < n2 ==> !C::lt(old(v)@[s + n1 + rad], old(v)@[s + n1 - 1 - rad]),
    ensures
        final(buf).start == old(buf).start,
        final(buf).len == old(buf).len,
        final(buf).unsorted == (if old(buf).unsorted >= rad {
            old(buf).unsorted
        } else {
            rad
        }),
        final(v)@.len() == old(v)@.len(),
        final(v)@.to_multiset() == old(v)@.to_multiset(),
        final(v)@.subrange(s as int, s + n1 + n2).to_multiset() == old(v)@.subrange(
            s as int,
            s + n1 + n2,
        ).to_multiset(),
        forall|k: int|
            0 <= k < old(v)@.len() && !(s <= k < s + n1 + n2) && !(old(buf).start <= k < old(
                buf,
            ).start + old(buf).len) ==> final(v)@[k] == old(v)@[k],
        forall|k: int|
            old(buf).start + final(buf).unsorted <= k < old(buf).start + old(buf).len
                ==> final(v)@[k] == old(v)@[k],
        sorted_between::<T, C>(final(v)@, s as int, s + n1 + n2),
        forall|p: T|
            #[trigger] final(v)@.subrange(s as int, s + n1 + n2).filter(equiv_to::<T, C>(p))
                == old(v)@.subrange(s as int, s + n1 + n2).filter(equiv_to::<T, C>(p)),
{
    let ghost v0 = v@;
    let ghost bs = buf.start as int;

    proof {
        assert(s + n1 + n2 <= v.len());
    }

    buf.begin_merge(v, s + n1 - rad, rad);
    let ghost v1 = v@;

    proof {
        assert forall|k1: int, k2: int| s <= k1 <= k2 < s + n1 - rad implies #[trigger] leq::<
            T,
            C,
        >(v@[k1], v@[k2]) by {
            assert(v@[k1] == v0[k1]);
            assert(v@[k2] == v0[k2]);
            assert(leq::<T, C>(v0[k1], v0[k2]));
        }
        assert forall|k1: int, k2: int|
            s + n1 <= k1 <= k2 < s + n1 + rad implies #[trigger] leq::<T, C>(v@[k1], v@[k2]) by {
            assert(v@[k1] == v0[k1]);
            assert(v@[k2] == v0[k2]);
            assert(leq::<T, C>(v0[k1], v0[k2]));
        }
    }

    if rad > (n1 - rad) / RATIO_BIN_MERGE {
        merge_left(v, s, n1 - rad, s + n1, rad, s, cmp);
    } else {
        exponential_merge_left(v, s, n1 - rad, s + n1, rad, s, cmp);
    }
    let ghost v2 = v@;

    if rad > (n2 - rad) / RATIO_BIN_MERGE {
        merge_right(v, buf.start, rad, s + n1 + rad, n2 - rad, s + n1, cmp);
    } else {
        exponential_merge_right(v, buf.start, rad, s + n1 + rad, n2 - rad, s + n1, cmp);
    }
    let ghost v3 = v@;

    proof {
        lemma_buffered_merge_facts::<T, C>(
            v0,
            v1,
            v2,
            v3,
            s as int,
            n1 as int,
            n2 as int,
            rad as int,
            bs,
        );
    }
}

/// Try to merge the adjacent sorted runs `s..s + n1` and
/// `s + n1..s + n1 + n2` with the buffer as scratch. The merge succeeds
/// whenever the boundary radius fits into the buffer, directly or after one
/// split of the mismatched radii — in particular whenever either run fits —
/// and then leaves the region sorted. It fails only when the radius and the
/// remainder of the larger run both exceed the buffer, and then touches
/// nothing. Either way the buffer keeps its place and its elements beyond
/// the (possibly raised) unsorted watermark stay untouched.
#[verifier::rlimit(100)]
#[verifier::spinoff_prover]
pub fn merge<T, C: Less<T>>(
    buf: &mut Buffer,
    v: &mut Vec<T>,
    s: usize,
    n1: usize,
    n2: usize,
    cmp: &mut C,
) -> (r: bool)
    requires
        s + n1 + n2 <= old(v)@.len(),
        old(buf).start + old(buf).len <= old(v)@.len(),
        old(buf).start + old(buf).len <= s || s + n1 + n2 <= old(buf).start,
        sorted_between::<T, C>(old(v)@, s as int, s + n1),
        sorted_between::<T, C>(old(v)@, s + n1, s + n1 + n2),
    ensures
        final(buf).start == old(buf).start,
        final(buf).len == old(buf).len,
        old(buf).unsorted <= final(buf).unsorted,
        final(buf).unsorted == old(buf).unsorted || final(buf).unsorted <= old(buf).len,
        final(v)@.len() == old(v)@.len(),
        final(v)@.to_multiset() == old(v)@.to_multiset(),
        final(v)@.subrange(s as int, s + n1 + n2).to_multiset() == old(v)@.subrange(
            s as int,
            s + n1 + n2,
        ).to_multiset(),
        forall|k: int|
            0 <= k < old(v)@.len() && !(s <= k < s + n1 + n2) && !(old(buf).start <= k < old(
                buf,
            ).start + old(buf).len) ==> final(v)@[k] == old(v)@[k],
        forall|k: int|
            old(buf).start + final(buf).unsorted <= k < old(buf).start + old(buf).len
                ==> final(v)@[k] == old(v)@[k],
        r ==> sorted_between::<T, C>(final(v)@, s as int, s + n1 + n2),
        r ==> forall|p: T|
            #[trigger] final(v)@.subrange(s as int, s + n1 + n2).filter(equiv_to::<T, C>(p))
                == old(v)@.subrange(s as int, s + n1 + n2).filter(equiv_to::<T, C>(p)),
        n1 <= old(buf).len || n2 <= old(buf).len ==> r,
        !r ==> n1 + n2 > 2 * old(buf).len,
        !r ==> final(v)@ == old(v)@ && *final(buf) == *old(buf),
        !r ==> exists|e: int|
            #[trigger] is_swap_radius::<T, C>(old(v)@, s as int, n1 as int, n2 as int, e)
                && e > old(buf).len && (if n1 > n2 {
                n1 as int
            } else {
                n2 as int
            }) - e > old(buf).len,
    decreases n1 + n2,
{
    proof {
        assert(s + n1 + n2 <= v.len());
    }

    if n1 == 0 || n2 == 0 || !cmp.less(&v[s + n1], &v[s + n1 - 1]) {
        proof {
            assert(v@.subrange(s as int, s + n1 + n2) =~= old(v)@.subrange(s as int, s + n1 + n2));
            if n1 > 0 && n2 > 0 {
                assert forall|k1: int, k2: int|
                    s <= k1 <= k2 < s + n1 + n2 implies #[trigger] leq::<T, C>(
                    v@[k1],
                    v@[k2],
                ) by {
                    if k1 < s + n1 && s + n1 <= k2 {
                        assert(leq::<T, C>(v@[k1], v@[s + n1 - 1]));
                        assert(leq::<T, C>(v@[s + n1 - 1], v@[s + n1]));
                        assert(leq::<T, C>(v@[s + n1], v@[k2]));
                        lemma_leq_transitive::<T, C>(v@[k1], v@[s + n1 - 1], v@[s + n1]);
                        lemma_leq_transitive::<T, C>(v@[k1], v@[s + n1], v@[k2]);
                    }
                }
            }
        }
        return true;
    }

    if cmp.less(&v[s + n1 + n2 - 1], &v[s]) {
        let ghost v0 = v@;
        rotate(v, s, n1, n2);
        proof {
            lemma_rotated_disjoint_sorted::<T, C>(v0, v@, s as int, n1 as int, n2 as int);
            // The two runs share no class: every right element is strictly
            // below every left element.
            let lr = v0.subrange(s as int, s + n1);
            let rr = v0.subrange(s + n1, s + n1 + n2);
            assert forall|i: int, j: int|
                0 <= i < lr.len() && 0 <= j < rr.len() implies C::lt(
                #[trigger] rr[j],
                #[trigger] lr[i],
            ) by {
                assert(leq::<T, C>(v0[s + n1 + j], v0[s + n1 + n2 - 1]));
                assert(C::lt(v0[s + n1 + n2 - 1], v0[s as int]));
                assert(leq::<T, C>(v0[s as int], v0[s + i]));
                lemma_leq_lt_transitive::<T, C>(v0[s + n1 + j], v0[s + n1 + n2 - 1], v0[s as int]);
                lemma_lt_leq_transitive::<T, C>(v0[s + n1 + j], v0[s as int], v0[s + i]);
                lemma_lt_leq::<T, C>(v0[s + n1 + j], v0[s + i]);
            }
            assert forall|p: T|
                #[trigger] v@.subrange(s as int, s + n1 + n2).filter(equiv_to::<T, C>(p))
                    == v0.subrange(s as int, s + n1 + n2).filter(equiv_to::<T, C>(p)) by {
                let pred = equiv_to::<T, C>(p);
                lemma_blocks_commute_filter::<T, C>(lr, rr, p);
                assert(v0.subrange(s as int, s + n1 + n2) =~= lr + rr);
                assert(v@.subrange(s as int, s + n1 + n2) =~= rr + lr);
            }
        }
        return true;
    }

    let rad = block_swap_length(v, s, n1, s + n1, n2, cmp);
    let ghost v0 = v@;
    let ghost bs = buf.start as int;

    proof {
        if rad == 0 {
            let j0: int = 0;
            assert(!C::lt(v0[s + n1 + j0], v0[s + n1 - 1 - j0]));
            assert(false);
        }
    }

    if rad > buf.len {
        let big = if n1 > n2 {
            n1
        } else {
            n2
        };
        if big - rad > buf.len {
            proof {
                assert(v@.subrange(s as int, s + n1 + n2) =~= old(v)@.subrange(
                    s as int,
                    s + n1 + n2,
                ));
                assert(is_swap_radius::<T, C>(old(v)@, s as int, n1 as int, n2 as int, rad as int));
            }
            return false;
        }

        cycle_swap(v, s + n1 - rad, s + n1, rad);
        let ghost v1 = v@;

        proof {
            lemma_radius_swap_facts::<T, C>(v0, v1, s as int, n1 as int, n2 as int, rad as int);
            lemma_radius_swap_filter::<T, C>(v0, v1, s as int, n1 as int, n2 as int, rad as int);
        }

        let ok1 = merge(buf, v, s, n1 - rad, rad, cmp);
        proof {
            // The split guard bounds both sub-runs by the buffer, so neither
            // recursive merge can fail.
            assert(n1 - rad <= buf.len);
            assert(ok1);
        }
        let ghost v2 = v@;

        proof {
            assert(v2.subrange(s + n1, s + n1 + n2) =~= v1.subrange(s + n1, s + n1 + n2));
            lemma_subrange_ms_split(v1, s as int, s + n1, s + n1 + n2);
            lemma_subrange_ms_split(v2, s as int, s + n1, s + n1 + n2);
            assert(v2.subrange(s as int, s + n1 + n2).to_multiset() =~= v1.subrange(
                s as int,
                s + n1 + n2,
            ).to_multiset()) by {
                broadcast use vstd::multiset::group_multiset_axioms;

            }
            lemma_filter_concat_parts::<T, C>(v1, v2, s as int, s + n1, s + n1 + n2);
        }

        if !ok1 {
            return false;
        }

        let ok2 = merge(buf, v, s + n1, rad, n2 - rad, cmp);
        proof {
            assert(n2 - rad <= buf.len);
            assert(ok2);
        }
        let ghost v3 = v@;

        proof {
            assert(v3.subrange(s as int, s + n1) =~= v2.subrange(s as int, s + n1));
            lemma_subrange_ms_split(v2, s as int, s + n1, s + n1 + n2);
            lemma_subrange_ms_split(v3, s as int, s + n1, s + n1 + n2);
            assert(v3.subrange(s as int, s + n1 + n2).to_multiset() =~= v2.subrange(
                s as int,
                s + n1 + n2,
            ).to_multiset()) by {
                broadcast use vstd::multiset::group_multiset_axioms;

            }
            lemma_filter_concat_parts::<T, C>(v2, v3, s as int, s + n1, s + n1 + n2);

            if ok2 {
                // Cancel the unchanged half out of the region multisets.
                assert(v2.subrange(s as int, s + n1).to_multiset() =~= v1.subrange(
                    s as int,
                    s + n1,
                ).to_multiset()) by {
                    broadcast use vstd::multiset::group_multiset_axioms;

                    lemma_subrange_ms_split(v1, s as int, s + n1, s + n1 + n2);
                    lemma_subrange_ms_split(v2, s as int, s + n1, s + n1 + n2);
                    assert(v2.subrange(s + n1, s + n1 + n2) =~= v1.subrange(s + n1, s + n1 + n2));
                }
                assert(v3.subrange(s + n1, s + n1 + n2).to_multiset() =~= v2.subrange(
                    s + n1,
                    s + n1 + n2,
                ).to_multiset()) by {
                    broadcast use vstd::multiset::group_multiset_axioms;

                    lemma_subrange_ms_split(v2, s as int, s + n1, s + n1 + n2);
                    lemma_subrange_ms_split(v3, s as int, s + n1, s + n1 + n2);
                    assert(v3.subrange(s as int, s + n1) =~= v2.subrange(s as int, s + n1));
                }
                lemma_sorted_halves_join::<T, C>(v1, v2, v3, s as int, n1 as int, n2 as int);
            }
        }

        return ok2;
    }

    merge_buffered(buf, v, s, n1, n2, rad, cmp);

    true
}

/// Merge the run `s1..s1 + n1` with the run `s2..s2 + n2` sitting at the tail
/// of the destination into `dst..dst + n1 + n2`, accelerating with
/// exponential search over the second run. Produces the same stable merge as
/// the plain rightwards kernel; the `n1` elements initially at the front of
/// the destination are displaced into `s1..s1 + n1`, in no particular order.
#[verifier::rlimit(100)]
pub fn exponential_merge_right<T, C: Less<T>>(
    v: &mut Vec<T>,
    s1: usize,
    n1: usize,
    s2: usize,
    n2: usize,
    dst: usize,
    cmp: &mut C,
)
    requires
        dst + n1 + n2 <= old(v)@.len(),
        s1 + n1 <= old(v)@.len(),
        s2 == dst + n1,
        s1 + n1 <= dst || dst + n1 + n2 <= s1,
        sorted_between::<T, C>(old(v)@, s1 as int, s1 + n1),
        sorted_between::<T, C>(old(v)@, s2 as int, s2 + n2),
    ensures
        final(v)@.len() == old(v)@.len(),
        final(v)@.to_multiset() == old(v)@.to_multiset(),
        forall|k: int|
            0 <= k < old(v)@.len() && !(dst <= k < dst + n1 + n2) && !(s1 <= k < s1 + n1)
                ==> final(v)@[k] == old(v)@[k],
        final(v)@.subrange(dst as int, dst + n1 + n2) == merge_seqs::<T, C>(
            old(v)@.subrange(s1 as int, s1 + n1),
            old(v)@.subrange(s2 as int, s2 + n2),
        ),
{
    let ghost a = old(v)@.subrange(s1 as int, s1 + n1);
    let ghost b = old(v)@.subrange(s2 as int, s2 + n2);
    let ghost mfull = merge_seqs::<T, C>(a, b);

    let mut i1: usize = 0;
    let mut i2: usize = 0;

    proof {
        lemma_merge_seqs_len::<T, C>(a, b);
        assert(a.skip(0) =~= a);
        assert(b.skip(0) =~= b);
        assert(mfull.take(0) =~= Seq::<T>::empty());
        assert(v@.subrange(dst as int, dst as int) =~= Seq::<T>::empty());
        assert(mfull =~= mfull.take(0) + merge_seqs::<T, C>(a.skip(0), b.skip(0)));
    }

    while i1 < n1 && i2 < n2
        invariant
            i1 <= n1,
            i2 <= n2,
            dst + n1 + n2 <= v@.len(),
            s1 + n1 <= v@.len(),
            v.len() == old(v)@.len(),
            s2 == dst + n1,
            s1 + n1 <= dst || dst + n1 + n2 <= s1,
            a.len() == n1,
            b.len() == n2,
            a == old(v)@.subrange(s1 as int, s1 + n1),
            b == old(v)@.subrange(s2 as int, s2 + n2),
            sorted_between::<T, C>(old(v)@, s1 as int, s1 + n1),
            sorted_between::<T, C>(old(v)@, s2 as int, s2 + n2),
            mfull == merge_seqs::<T, C>(a, b),
            mfull.len() == n1 + n2,
            forall|j: int| i1 <= j < n1 ==> v@[s1 + j] == a[j],
            forall|j: int| i2 <= j < n2 ==> v@[dst + n1 + j] == b[j],
            v@.subrange(dst as int, dst + i1 + i2) =~= mfull.take(i1 + i2),
            mfull == mfull.take(i1 + i2) + merge_seqs::<T, C>(a.skip(i1 as int), b.skip(i2 as int)),
            forall|k: int|
                0 <= k < old(v)@.len() && !(dst <= k < dst + n1 + n2) && !(s1 <= k < s1 + n1)
                    ==> v@[k] == old(v)@[k],
            v@.to_multiset() == old(v)@.to_multiset(),
        decreases n1 + n2 - i1 - i2,
    {
        proof {
            assert forall|j1: int, j2: int|
                s2 + i2 <= j1 <= j2 < s2 + n2 implies #[trigger] leq::<T, C>(v@[j1], v@[j2]) by {
                assert(v@[j1] == b[j1 - s2]);
                assert(v@[j2] == b[j2 - s2]);
                assert(leq::<T, C>(old(v)@[j1], old(v)@[j2]));
            }
        }

        // Gallop over the second run for the insertion point of the first
        // element of the first run, then pin it down by binary search.
        let mut d: usize = 0;

        while i2 + d < n2 && cmp.less(&v[s2 + i2 + d], &v[s1 + i1])
            invariant
                i1 < n1,
                i2 < n2,
                i2 + d <= n2,
                dst + n1 + n2 <= v@.len(),
                s1 + n1 <= v@.len(),
                v.len() == old(v)@.len(),
                s2 == dst + n1,
                a.len() == n1,
                b.len() == n2,
                a == old(v)@.subrange(s1 as int, s1 + n1),
                b == old(v)@.subrange(s2 as int, s2 + n2),
                forall|j: int| i1 <= j < n1 ==> v@[s1 + j] == a[j],
                forall|j: int| i2 <= j < n2 ==> v@[dst + n1 + j] == b[j],
                sorted_between::<T, C>(old(v)@, s2 as int, s2 + n2),
                d == 0 || (d >= 1 && forall|j: int|
                    0 <= j <= (d - 1) / 2 && i2 + j < n2 ==> C::lt(
                        #[trigger] b[i2 + j],
                        a[i1 as int],
                    )),
            decreases n2 - i2 - d,
        {
            proof {
                assert(C::lt(b[i2 + d], a[i1 as int]));
                assert forall|j: int| 0 <= j <= d && i2 + j < n2 implies C::lt(
                    #[trigger] b[i2 + j],
                    a[i1 as int],
                ) by {
                    assert(leq::<T, C>(old(v)@[s2 + i2 + j], old(v)@[s2 + i2 + d]));
                    assert(b[i2 + j] == old(v)@[s2 + i2 + j]);
                    assert(b[i2 + d] == old(v)@[s2 + i2 + d]);
                    lemma_leq_lt_transitive::<T, C>(b[i2 + j], b[i2 + d], a[i1 as int]);
                }
            }
            if d <= (usize::MAX - 1) / 2 && 2 * d + 1 <= n2 - i2 {
                d = 2 * d + 1;
            } else {
                d = n2 - i2;
            }
        }

        let low = i2 + (if d == 0 {
            0
        } else {
            (d - 1) / 2 + 1
        });
        let high = if i2 + d < n2 {
            i2 + d
        } else {
            n2
        };
        let cnt = search_left(v, s2 + low, high - low, &v[s1 + i1], cmp);
        let rf = low + cnt;

        proof {
            // The partition point: everything before `rf` is less than the
            // head of the first run, nothing from `rf` on is.
            assert forall|j: int| i2 <= j < rf implies C::lt(#[trigger] b[j], a[i1 as int]) by {
                if j < low {
                    assert(C::lt(b[i2 + (j - i2)], a[i1 as int]));
                } else {
                    assert(C::lt(v@[s2 + low + (j - low)], v@[s1 + i1]));
                }
            }
            assert forall|j: int| rf <= j < n2 implies !C::lt(#[trigger] b[j], a[i1 as int]) by {
                if j < high {
                    assert(!C::lt(v@[s2 + low + (j - low)], v@[s1 + i1]));
                } else if i2 + d < n2 {
                    assert(!C::lt(v@[s2 + i2 + d], v@[s1 + i1]));
                    assert(leq::<T, C>(old(v)@[s2 + i2 + d], old(v)@[s2 + j]));
                    if C::lt(b[j], a[i1 as int]) {
                        lemma_leq_lt_transitive::<T, C>(b[i2 + d], b[j], a[i1 as int]);
                    }
                }
            }
        }

        while i2 < rf
            invariant
                i1 < n1,
                i2 <= rf <= n2,
                dst + n1 + n2 <= v@.len(),
                s1 + n1 <= v@.len(),
                v.len() == old(v)@.len(),
                s2 == dst + n1,
                s1 + n1 <= dst || dst + n1 + n2 <= s1,
                a.len() == n1,
                b.len() == n2,
                a == old(v)@.subrange(s1 as int, s1 + n1),
                b == old(v)@.subrange(s2 as int, s2 + n2),
                mfull == merge_seqs::<T, C>(a, b),
                mfull.len() == n1 + n2,
                forall|j: int| i2 <= j < rf ==> C::lt(#[trigger] b[j], a[i1 as int]),
                forall|j: int| i1 <= j < n1 ==> v@[s1 + j] == a[j],
                forall|j: int| i2 <= j < n2 ==> v@[dst + n1 + j] == b[j],
                v@.subrange(dst as int, dst + i1 + i2) =~= mfull.take(i1 + i2),
                mfull == mfull.take(i1 + i2) + merge_seqs::<T, C>(
                    a.skip(i1 as int),
                    b.skip(i2 as int),
                ),
                forall|k: int|
                    0 <= k < old(v)@.len() && !(dst <= k < dst + n1 + n2) && !(s1 <= k < s1 + n1)
                        ==> v@[k] == old(v)@[k],
                v@.to_multiset() == old(v)@.to_multiset(),
            decreases rf - i2,
        {
            let ghost k = i1 + i2;
            let ghost pre = v@;
            let ghost ra = a.skip(i1 as int);
            let ghost rb = b.skip(i2 as int);
            vec_swap(v, dst + i1 + i2, s2 + i2);
            proof {
                lemma_swap_multiset(pre, dst + k, s2 + i2);
                assert(ra[0] == a[i1 as int]);
                assert(rb[0] == b[i2 as int]);
                assert(C::lt(rb[0], ra[0]));
                assert(rb.drop_first() =~= b.skip(i2 + 1));
                assert(merge_seqs::<T, C>(ra, rb) == seq![rb[0]] + merge_seqs::<T, C>(
                    ra,
                    rb.drop_first(),
                ));
                assert(mfull[k as int] == b[i2 as int]);
                assert(mfull.take(k + 1) =~= mfull.take(k as int).push(b[i2 as int]));
                assert(v@.subrange(dst as int, dst + k + 1) =~= pre.subrange(
                    dst as int,
                    dst + k,
                ).push(b[i2 as int]));
                assert(mfull =~= mfull.take(k + 1) + merge_seqs::<T, C>(
                    a.skip(i1 as int),
                    b.skip(i2 + 1),
                ));
            }
            i2 = i2 + 1;
        }

        let ghost k = i1 + i2;
        let ghost pre = v@;
        let ghost ra = a.skip(i1 as int);
        let ghost rb = b.skip(i2 as int);
        vec_swap(v, dst + i1 + i2, s1 + i1);
        proof {
            lemma_swap_multiset(pre, dst + k, s1 + i1);
            assert(ra[0] == a[i1 as int]);
            if i2 < n2 {
                assert(rb[0] == b[i2 as int]);
                assert(!C::lt(b[i2 as int], a[i1 as int]));
                assert(ra.drop_first() =~= a.skip(i1 + 1));
                assert(merge_seqs::<T, C>(ra, rb) == seq![ra[0]] + merge_seqs::<T, C>(
                    ra.drop_first(),
                    rb,
                ));
            } else {
                assert(rb =~= Seq::<T>::empty());
                assert(merge_seqs::<T, C>(ra, rb) == ra);
                assert(ra.drop_first() =~= a.skip(i1 + 1));
                assert(merge_seqs::<T, C>(a.skip(i1 + 1), rb) == a.skip(i1 + 1));
                assert(merge_seqs::<T, C>(ra, rb) =~= seq![ra[0]] + merge_seqs::<T, C>(
                    a.skip(i1 + 1),
                    rb,
                ));
            }
            assert(mfull[k as int] == a[i1 as int]);
            assert(mfull.take(k + 1) =~= mfull.take(k as int).push(a[i1 as int]));
            assert(v@.subrange(dst as int, dst + k + 1) =~= pre.subrange(
                dst as int,
                dst + k,
            ).push(a[i1 as int]));
            assert(mfull =~= mfull.take(k + 1) + merge_seqs::<T, C>(
                a.skip(i1 + 1),
                b.skip(i2 as int),
            ));
        }
        i1 = i1 + 1;
    }

    let r = i1 + i2;

    if i1 < n1 {
        let ghost pre2 = v@;
        cycle_swap(v, dst + r, s1 + i1, n1 - i1);
        proof {
            assert(b.skip(i2 as int) =~= Seq::<T>::empty());
            assert(merge_seqs::<T, C>(a.skip(i1 as int), b.skip(i2 as int)) == a.skip(i1 as int));
            assert(v@.subrange(dst as int, dst + n1 + n2) =~= mfull) by {
                assert forall|j: int| 0 <= j < n1 + n2 implies v@.subrange(
                    dst as int,
                    dst + n1 + n2,
                )[j] == mfull[j] by {
                    if j < r {
                        assert(v@[dst + j] == pre2[dst + j]);
                        assert(pre2.subrange(dst as int, dst + r)[j] == mfull.take(r as int)[j]);
                    } else {
                        assert(v@[dst + j] == pre2[s1 + i1 + (j - r)]);
                        assert(pre2[s1 + i1 + (j - r)] == a[i1 + (j - r)]);
                        assert(mfull[j] == a.skip(i1 as int)[j - r]);
                    }
                }
            }
        }
    } else {
        proof {
            assert(a.skip(i1 as int) =~= Seq::<T>::empty());
            assert(merge_seqs::<T, C>(a.skip(i1 as int), b.skip(i2 as int)) == b.skip(i2 as int));
            assert(v@.subrange(dst as int, dst + n1 + n2) =~= mfull) by {
                assert forall|j: int| 0 <= j < n1 + n2 implies v@.subrange(
                    dst as int,
                    dst + n1 + n2,
                )[j] == mfull[j] by {
                    if j < r {
                        assert(v@.subrange(dst as int, dst + r)[j] == mfull.take(r as int)[j]);
                    } else {
                        assert(v@[dst + j] == b[i2 + (j - r)]);
                        assert(mfull[j] == b.skip(i2 as int)[j - r]);
                    }
                }
            }
        }
    }
}

/// Merge the sorted run at the front of the destination with the sorted run
/// past the gap into `dst..dst + n1 + n2`, working from the high end and
/// accelerating with exponential search over the first run. Produces the same
/// stable merge as the plain leftwards kernel; the `n2` elements initially
/// between the runs are displaced into `s2..s2 + n2`, in no particular order.
#[verifier::rlimit(100)]
pub fn exponential_merge_left<T, C: Less<T>>(
    v: &mut Vec<T>,
    s1: usize,
    n1: usize,
    s2: usize,
    n2: usize,
    dst: usize,
    cmp: &mut C,
)
    requires
        s1 == dst,
        s2 == dst + n1 + n2,
        s2 + n2 <= old(v)@.len(),
        sorted_between::<T, C>(old(v)@, dst as int, dst + n1),
        sorted_between::<T, C>(old(v)@, s2 as int, s2 + n2),
    ensures
        final(v)@.len() == old(v)@.len(),
        final(v)@.to_multiset() == old(v)@.to_multiset(),
        forall|k: int|
            0 <= k < old(v)@.len() && !(dst <= k < s2 + n2) ==> final(v)@[k] == old(v)@[k],
        final(v)@.subrange(dst as int, dst + n1 + n2) == merge_seqs::<T, C>(
            old(v)@.subrange(dst as int, dst + n1),
            old(v)@.subrange(s2 as int, s2 + n2),
        ),
{
    let ghost a = old(v)@.subrange(dst as int, dst + n1);
    let ghost b = old(v)@.subrange(s2 as int, s2 + n2);
    let ghost mfull = merge_seqs::<T, C>(a, b);

    let mut m1: usize = n1;
    let mut m2: usize = n2;

    proof {
        lemma_merge_seqs_len::<T, C>(a, b);
        assert(a.take(n1 as int) =~= a);
        assert(b.take(n2 as int) =~= b);
        assert(mfull.skip(n1 + n2) =~= Seq::<T>::empty());
        assert(v@.subrange(dst + n1 + n2, dst + n1 + n2) =~= Seq::<T>::empty());
        assert(mfull =~= merge_seqs::<T, C>(a.take(n1 as int), b.take(n2 as int)) + mfull.skip(
            n1 + n2,
        ));
        assert(sorted_between::<T, C>(a, 0, a.len() as int)) by {
            assert forall|i: int, j: int| 0 <= i <= j < a.len() implies #[trigger] leq::<T, C>(
                a[i],
                a[j],
            ) by {
                assert(leq::<T, C>(old(v)@[dst + i], old(v)@[dst + j]));
            }
        }
        assert(sorted_between::<T, C>(b, 0, b.len() as int)) by {
            assert forall|i: int, j: int| 0 <= i <= j < b.len() implies #[trigger] leq::<T, C>(
                b[i],
                b[j],
            ) by {
                assert(leq::<T, C>(old(v)@[s2 + i], old(v)@[s2 + j]));
            }
        }
    }

    while m1 > 0 && m2 > 0
        invariant
            m1 <= n1,
            m2 <= n2,
            s1 == dst,
            s2 == dst + n1 + n2,
            s2 + n2 <= v@.len(),
            v.len() == old(v)@.len(),
            a.len() == n1,
            b.len() == n2,
            a == old(v)@.subrange(dst as int, dst + n1),
            b == old(v)@.subrange(s2 as int, s2 + n2),
            sorted_between::<T, C>(a, 0, a.len() as int),
            sorted_between::<T, C>(b, 0, b.len() as int),
            mfull == merge_seqs::<T, C>(a, b),
            mfull.len() == n1 + n2,
            forall|j: int| 0 <= j < m1 ==> v@[dst + j] == a[j],
            forall|j: int| 0 <= j < m2 ==> v@[s2 + j] == b[j],
            v@.subrange(dst + m1 + m2, dst + n1 + n2) =~= mfull.skip(m1 + m2),
            mfull == merge_seqs::<T, C>(a.take(m1 as int), b.take(m2 as int)) + mfull.skip(
                m1 + m2,
            ),
            forall|k: int|
                0 <= k < old(v)@.len() && !(dst <= k < s2 + n2) ==> v@[k] == old(v)@[k],
            v@.to_multiset() == old(v)@.to_multiset(),
        decreases m1 + m2,
    {
        // Gallop over the first run from its high end for elements past the
        // last element of the second run, then pin the cut by binary search.
        let mut d: usize = 1;

        while d <= m1 && cmp.less(&v[s2 + m2 - 1], &v[s1 + m1 - d])
            invariant
                m1 > 0,
                m2 > 0,
                m1 <= n1,
                m2 <= n2,
                d >= 1,
                s1 == dst,
                s2 == dst + n1 + n2,
                s2 + n2 <= v@.len(),
                v.len() == old(v)@.len(),
                a.len() == n1,
                b.len() == n2,
                a == old(v)@.subrange(dst as int, dst + n1),
                b == old(v)@.subrange(s2 as int, s2 + n2),
                sorted_between::<T, C>(a, 0, a.len() as int),
                forall|j: int| 0 <= j < m1 ==> v@[dst + j] == a[j],
                forall|j: int| 0 <= j < m2 ==> v@[s2 + j] == b[j],
                d <= m1 + 1,
                d == 1 || (forall|j: int|
                    m1 - d / 2 <= j < m1 ==> C::lt(b[m2 - 1], #[trigger] a[j])),
            decreases m1 + 1 - d,
        {
            proof {
                assert(C::lt(v@[s2 + m2 - 1], v@[s1 + m1 - d]));
                assert(v@[s2 + m2 - 1] == b[m2 - 1]);
                assert(v@[s1 + m1 - d] == a[m1 - d]);
                assert forall|j: int| m1 - d <= j < m1 implies C::lt(
                    b[m2 - 1],
                    #[trigger] a[j],
                ) by {
                    assert(leq::<T, C>(a[m1 - d], a[j]));
                    lemma_lt_leq_transitive::<T, C>(b[m2 - 1], a[m1 - d], a[j]);
                }
            }
            if d <= usize::MAX / 2 && 2 * d <= m1 {
                d = 2 * d;
            } else {
                proof {
                    assert forall|j: int| m1 - (m1 + 1) / 2 <= j < m1 implies C::lt(
                        b[m2 - 1],
                        #[trigger] a[j],
                    ) by {
                        assert(C::lt(b[m2 - 1], a[j]));
                    }
                }
                d = m1 + 1;
            }
        }

        let low = if d - 1 >= m1 {
            0
        } else {
            m1 - (d - 1)
        };
        let high = m1 - d / 2;
        let ghost vpre = v@;

        proof {
            assert forall|j1: int, j2: int|
                s1 + low <= j1 <= j2 < s1 + high implies #[trigger] leq::<T, C>(
                v@[j1],
                v@[j2],
            ) by {
                assert(v@[j1] == a[j1 - s1]);
                assert(v@[j2] == a[j2 - s1]);
                assert(leq::<T, C>(a[j1 - s1], a[j2 - s1]));
            }
        }

        let cnt = search_right(v, s1 + low, high - low, &v[s2 + m2 - 1], cmp);
        let l = low + cnt;

        proof {
            // Partition: everything from `l` on is strictly past the last
            // element of the second run; everything just below is not.
            assert forall|j: int| l <= j < m1 implies C::lt(b[m2 - 1], #[trigger] a[j]) by {
                if j < high {
                    assert(C::lt(v@[s2 + m2 - 1], v@[s1 + low + (j - low)]));
                } else {
                    assert(d > 1);
                    assert(C::lt(b[m2 - 1], a[j]));
                }
            }
            if l > 0 {
                assert(!C::lt(b[m2 - 1], a[l - 1])) by {
                    if l > low {
                        assert(leq::<T, C>(v@[s1 + low + (l - 1 - low)], v@[s2 + m2 - 1]));
                    } else {
                        // the failed probe sits just below the cut
                        assert(d <= m1);
                        assert(!C::lt(v@[s2 + m2 - 1], v@[s1 + m1 - d]));
                        assert(l - 1 == m1 - d);
                    }
                }
            }
        }

        while m1 > l
            invariant
                l <= m1,
                m1 <= n1,
                0 < m2 <= n2,
                s1 == dst,
                s2 == dst + n1 + n2,
                s2 + n2 <= v@.len(),
                v.len() == old(v)@.len(),
                a.len() == n1,
                b.len() == n2,
                a == old(v)@.subrange(dst as int, dst + n1),
                b == old(v)@.subrange(s2 as int, s2 + n2),
                sorted_between::<T, C>(a, 0, a.len() as int),
                sorted_between::<T, C>(b, 0, b.len() as int),
                mfull == merge_seqs::<T, C>(a, b),
                mfull.len() == n1 + n2,
                forall|j: int| l <= j < m1 ==> C::lt(b[m2 - 1], #[trigger] a[j]),
                l > 0 ==> !C::lt(b[m2 - 1], a[l - 1]),
                forall|j: int| 0 <= j < m1 ==> v@[dst + j] == a[j],
                forall|j: int| 0 <= j < m2 ==> v@[s2 + j] == b[j],
                v@.subrange(dst + m1 + m2, dst + n1 + n2) =~= mfull.skip(m1 + m2),
                mfull == merge_seqs::<T, C>(a.take(m1 as int), b.take(m2 as int)) + mfull.skip(
                    m1 + m2,
                ),
                forall|k: int|
                    0 <= k < old(v)@.len() && !(dst <= k < s2 + n2) ==> v@[k] == old(v)@[k],
                v@.to_multiset() == old(v)@.to_multiset(),
            decreases m1,
        {
            let ghost x = a.take(m1 as int);
            let ghost y = b.take(m2 as int);
            let ghost pre = v@;

            proof {
                lemma_sorted_take::<T, C>(a, m1 as int);
                lemma_sorted_take::<T, C>(b, m2 as int);
                lemma_merge_seqs_len::<T, C>(x, y);
                lemma_merge_seqs_pop_last::<T, C>(x, y);
                assert(x.last() == a[m1 - 1]);
                assert(y.last() == b[m2 - 1]);
                assert(C::lt(b[m2 - 1], a[m1 - 1]));
            }

            vec_swap(v, dst + m1 + m2 - 1, dst + m1 - 1);
            proof {
                lemma_swap_multiset(pre, dst + m1 + m2 - 1, dst + (m1 - 1));
                assert(x.drop_last() =~= a.take(m1 - 1));
                assert(merge_seqs::<T, C>(x, y) == merge_seqs::<T, C>(a.take(m1 - 1), y).push(
                    a[m1 - 1],
                ));
                assert(mfull[m1 + m2 - 1] == a[m1 - 1]);
                assert(v@.subrange(dst + (m1 - 1) + m2, dst + n1 + n2) =~= mfull.skip(
                    m1 + m2 - 1,
                )) by {
                    assert forall|j: int|
                        0 <= j < n1 + n2 - (m1 + m2 - 1) implies #[trigger] v@.subrange(
                        dst + (m1 - 1) + m2,
                        dst + n1 + n2,
                    )[j] == mfull.skip(m1 + m2 - 1)[j] by {
                        if j > 0 {
                            assert(pre.subrange(dst + m1 + m2, dst + n1 + n2)[j - 1]
                                == mfull.skip(m1 + m2)[j - 1]);
                        }
                    }
                }
                assert(mfull =~= merge_seqs::<T, C>(a.take(m1 - 1), b.take(m2 as int))
                    + mfull.skip(m1 + m2 - 1));
            }
            m1 = m1 - 1;
        }

        // The next element out is the last of the second run.
        let ghost x = a.take(m1 as int);
        let ghost y = b.take(m2 as int);
        let ghost pre = v@;

        proof {
            lemma_merge_seqs_len::<T, C>(x, y);
            if m1 > 0 {
                lemma_sorted_take::<T, C>(a, m1 as int);
                lemma_sorted_take::<T, C>(b, m2 as int);
                lemma_merge_seqs_pop_last::<T, C>(x, y);
                assert(x.last() == a[m1 - 1]);
                assert(y.last() == b[m2 - 1]);
                assert(!C::lt(b[m2 - 1], a[m1 - 1]));
                assert(y.drop_last() =~= b.take(m2 - 1));
                assert(merge_seqs::<T, C>(x, y) == merge_seqs::<T, C>(x, b.take(m2 - 1)).push(
                    b[m2 - 1],
                ));
            } else {
                assert(x =~= Seq::<T>::empty());
                assert(merge_seqs::<T, C>(x, y) == y);
                assert(y.drop_last() =~= b.take(m2 - 1));
                assert(merge_seqs::<T, C>(x, b.take(m2 - 1)) == b.take(m2 - 1));
                assert(merge_seqs::<T, C>(x, y) =~= merge_seqs::<T, C>(x, b.take(m2 - 1)).push(
                    b[m2 - 1],
                ));
            }
        }

        vec_swap(v, dst + m1 + m2 - 1, s2 + m2 - 1);
        proof {
            lemma_swap_multiset(pre, dst + m1 + m2 - 1, s2 + (m2 - 1));
            assert(mfull[m1 + m2 - 1] == b[m2 - 1]);
            assert(v@.subrange(dst + m1 + (m2 - 1), dst + n1 + n2) =~= mfull.skip(
                m1 + m2 - 1,
            )) by {
                assert forall|j: int|
                    0 <= j < n1 + n2 - (m1 + m2 - 1) implies #[trigger] v@.subrange(
                    dst + m1 + (m2 - 1),
                    dst + n1 + n2,
                )[j] == mfull.skip(m1 + m2 - 1)[j] by {
                    if j > 0 {
                        assert(pre.subrange(dst + m1 + m2, dst + n1 + n2)[j - 1] == mfull.skip(
                            m1 + m2,
                        )[j - 1]);
                    }
                }
            }
            assert(mfull =~= merge_seqs::<T, C>(a.take(m1 as int), b.take(m2 - 1)) + mfull.skip(
                m1 + m2 - 1,
            ));
        }
        m2 = m2 - 1;
    }

    if m2 > 0 {
        let ghost pre2 = v@;
        cycle_swap(v, dst, s2, m2);
        proof {
            assert(a.take(m1 as int) =~= Seq::<T>::empty());
            assert(merge_seqs::<T, C>(a.take(m1 as int), b.take(m2 as int)) == b.take(m2 as int));
            assert(v@.subrange(dst as int, dst + n1 + n2) =~= mfull) by {
                assert forall|j: int| 0 <= j < n1 + n2 implies #[trigger] v@.subrange(
                    dst as int,
                    dst + n1 + n2,
                )[j] == mfull[j] by {
                    if j < m2 {
                        assert(v@[dst + j] == pre2[s2 + j]);
                        assert(pre2[s2 + j] == b[j]);
                        assert(mfull[j] == b.take(m2 as int)[j]);
                    } else {
                        assert(v@[dst + j] == pre2[dst + j]);
                        assert(pre2.subrange(dst + m2, dst + n1 + n2)[j - m2] == mfull.skip(
                            m2 as int,
                        )[j - m2]);
                    }
                }
            }
        }
    } else {
        proof {
            assert(b.take(m2 as int) =~= Seq::<T>::empty());
            assert(merge_seqs::<T, C>(a.take(m1 as int), b.take(m2 as int)) == a.take(m1 as int));
            assert(v@.subrange(dst as int, dst + n1 + n2) =~= mfull) by {
                assert forall|j: int| 0 <= j < n1 + n2 implies #[trigger] v@.subrange(
                    dst as int,
                    dst + n1 + n2,
                )[j] == mfull[j] by {
                    if j < m1 {
                        assert(v@[dst + j] == a[j]);
                        assert(mfull[j] == a.take(m1 as int)[j]);
                    } else {
                        assert(v@.subrange(dst + m1, dst + n1 + n2)[j - m1] == mfull.skip(
                            m1 as int,
                        )[j - m1]);
                    }
                }
            }
        }
    }
}

} // verus!