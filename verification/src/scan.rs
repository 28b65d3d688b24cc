//! Detection and normalization of naturally sorted runs.

use vstd::prelude::*;

use crate::dust::{insert_sort, MIN_RUN};
use crate::util::{
    leq, lemma_leq_lt_transitive, lemma_leq_transitive, lemma_lt_leq, lemma_lt_leq_transitive,
    lemma_runs_append_sorted, lemma_runs_sorted_stable, reverse, runs_sorted, same_outside,
    sorted_between, Less,
};

verus! {

/// Return the length of the longest non-descending prefix of `s..s + n`.
pub fn next_non_desc_run<T, C: Less<T>>(v: &Vec<T>, s: usize, n: usize, cmp: &mut C) -> (i: usize)
    requires
        s + n <= v@.len(),
    ensures
        i <= n,
        n > 0 ==> 1 <= i,
        sorted_between::<T, C>(v@, s as int, s + i),
        i < n ==> C::lt(v@[s + i], v@[s + i - 1]),
{
    if n == 0 {
        return 0;
    }

    proof {
        lemma_lt_leq::<T, C>(v@[s as int], v@[s as int]);
    }

    let mut i: usize = 1;

    while i < n
        invariant
            1 <= i <= n,
            s + n <= v@.len(),
            v.len() == v@.len(),
            sorted_between::<T, C>(v@, s as int, s + i),
        decreases n - i,
    {
        if cmp.less(&v[s + i], &v[s + i - 1]) {
            return i;
        }

        proof {
            assert forall|k1: int, k2: int| s <= k1 <= k2 < s + i + 1 implies leq::<T, C>(
                #[trigger] v@[k1],
                #[trigger] v@[k2],
            ) by {
                if k2 == s + i {
                    lemma_lt_leq::<T, C>(v@[k2], v@[k2]);
                    if k1 < k2 {
                        assert(leq::<T, C>(v@[k1], v@[s + i - 1]));
                        lemma_leq_transitive::<T, C>(v@[k1], v@[s + i - 1], v@[s + i]);
                    }
                }
            }
        }
        i = i + 1;
    }

    i
}

/// The elements of `s0[lo..hi]` fall strictly at every step.
pub open spec fn strictly_descending<T, C: Less<T>>(s0: Seq<T>, lo: int, hi: int) -> bool {
    forall|j: int| lo < j < hi ==> C::lt(#[trigger] s0[j], s0[j - 1])
}

/// Find the longest run that can start at `s`, normalizing it to
/// non-descending order: a strictly descending front is reversed, with runs of
/// equivalent elements flipped back so their relative order is kept.
///
/// Return the length of the run, whose elements end up in non-descending
/// order; the rest of the sequence is untouched.
pub fn next_sorted_run<T, C: Less<T>>(v: &mut Vec<T>, s: usize, n: usize, cmp: &mut C) -> (i: usize)
    requires
        s + n <= old(v)@.len(),
    ensures
        i <= n,
        n > 0 ==> 1 <= i,
        same_outside(final(v)@, old(v)@, s as int, s + i),
        final(v)@.to_multiset() == old(v)@.to_multiset(),
        final(v)@.subrange(s as int, s + i).to_multiset() == old(v)@.subrange(
            s as int,
            s + i,
        ).to_multiset(),
        sorted_between::<T, C>(final(v)@, s as int, s + i),
        sorted_between::<T, C>(old(v)@, s as int, s + n) ==> i == n && final(v)@ == old(v)@,
        forall|k: int|
            1 <= k <= n && #[trigger] strictly_descending::<T, C>(old(v)@, s as int, s + k)
                ==> i >= k,
{
    broadcast use lemma_leq_transitive;
    broadcast use lemma_lt_leq;

    let i0 = next_non_desc_run(v, s, n, cmp);
    proof {
        assert(s + n <= v.len());
    }

    if i0 == n || (i0 > 1 && cmp.less(&v[s], &v[s + i0 - 1])) {
        proof {
            if i0 < n && sorted_between::<T, C>(old(v)@, s as int, s + n) {
                assert(leq::<T, C>(old(v)@[s + i0 - 1], old(v)@[s + i0]));
            }
            assert(v@.subrange(s as int, s + i0) =~= old(v)@.subrange(s as int, s + i0));
            assert forall|k: int|
                1 <= k <= n && #[trigger] strictly_descending::<T, C>(
                    old(v)@,
                    s as int,
                    s + k,
                ) implies i0 >= k by {
                if k > i0 && i0 < n {
                    // A descending pair right at the front contradicts the
                    // scanned non-descending prefix of length two or more.
                    assert(C::lt(old(v)@[s + 1], old(v)@[s as int]));
                    assert(leq::<T, C>(old(v)@[s as int], old(v)@[s + 1]));
                }
            }
        }
        return i0;
    }

    proof {
        if sorted_between::<T, C>(old(v)@, s as int, s + n) {
            assert(leq::<T, C>(old(v)@[s + i0 - 1], old(v)@[s + i0]));
        }
        // The scanned prefix consists of pairwise equivalent elements.
        assert forall|k1: int, k2: int| s <= k1 < s + i0 && s <= k2 < s + i0 implies leq::<T, C>(
            #[trigger] v@[k1],
            #[trigger] v@[k2],
        ) by {
            if k1 <= k2 {
                assert(leq::<T, C>(v@[k1], v@[k2]));
            } else {
                assert(leq::<T, C>(v@[s as int], v@[k2]));
                assert(leq::<T, C>(v@[k1], v@[s + i0 - 1]));
                assert(leq::<T, C>(v@[s + i0 - 1], v@[s as int]));
            }
        }
    }

    let ghost pre = v@;
    let mut l: usize = s + i0;
    reverse(v, s, s + i0);

    proof {
        assert forall|k1: int, k2: int| s <= k1 < s + i0 && s <= k2 < s + i0 implies leq::<T, C>(
            #[trigger] v@[k1],
            #[trigger] v@[k2],
        ) by {
            assert(v@[k1] == pre[s + (s + i0) - 1 - k1]);
            assert(v@[k2] == pre[s + (s + i0) - 1 - k2]);
        }
        assert forall|k1: int| s <= k1 < s + i0 implies C::lt(v@[s + i0], #[trigger] v@[k1]) by {
            assert(v@[k1] == pre[s + (s + i0) - 1 - k1]);
            assert(C::lt(pre[s + i0], pre[s + i0 - 1]));
            assert(leq::<T, C>(pre[s + i0 - 1], pre[s + (s + i0) - 1 - k1]));
            lemma_lt_leq_transitive::<T, C>(
                v@[s + i0],
                pre[s + i0 - 1],
                pre[s + (s + i0) - 1 - k1],
            );
        }
    }

    proof {
        lemma_lt_leq::<T, C>(v@[s + i0], v@[s + i0]);
    }

    let mut i: usize = i0 + 1;
    let mut stop = false;

    while i < n && !stop
        invariant
            s + 1 <= l < s + i,
            i <= n,
            s + n <= v@.len(),
            v.len() == old(v)@.len(),
            same_outside(v@, old(v)@, s as int, s + i),
            v@.to_multiset() == old(v)@.to_multiset(),
            forall|k1: int, k2: int|
                s <= k1 <= k2 < l ==> leq::<T, C>(#[trigger] v@[k2], #[trigger] v@[k1]),
            forall|k1: int, k2: int|
                l <= k1 < s + i && l <= k2 < s + i ==> leq::<T, C>(
                    #[trigger] v@[k1],
                    #[trigger] v@[k2],
                ),
            forall|k1: int, k2: int|
                s <= k1 < l && l <= k2 < s + i ==> C::lt(#[trigger] v@[k2], #[trigger] v@[k1]),
            forall|k: int| l <= k < s + i ==> #[trigger] v@[k] == old(v)@[k],
            stop ==> forall|k: int|
                1 <= k <= n && #[trigger] strictly_descending::<T, C>(old(v)@, s as int, s + k)
                    ==> k <= i,
        decreases n - i, (if stop { 0int } else { 1int }),
    {
        if cmp.less(&v[s + i], &v[s + i - 1]) {
            let ghost mid = v@;
            reverse(v, l, s + i);
            proof {
                assert forall|k1: int, k2: int|
                    s <= k1 <= k2 < s + i implies leq::<T, C>(
                    #[trigger] v@[k2],
                    #[trigger] v@[k1],
                ) by {
                    if k1 >= l {
                        assert(v@[k1] == mid[l + (s + i) - 1 - k1]);
                        assert(v@[k2] == mid[l + (s + i) - 1 - k2]);
                        assert(leq::<T, C>(mid[l + (s + i) - 1 - k2], mid[l + (s + i) - 1 - k1]));
                    } else if k2 >= l {
                        assert(v@[k1] == mid[k1]);
                        assert(v@[k2] == mid[l + (s + i) - 1 - k2]);
                        assert(C::lt(mid[l + (s + i) - 1 - k2], mid[k1]));
                        lemma_lt_leq::<T, C>(mid[l + (s + i) - 1 - k2], mid[k1]);
                    } else {
                        assert(v@[k1] == mid[k1]);
                        assert(v@[k2] == mid[k2]);
                        assert(leq::<T, C>(mid[k2], mid[k1]));
                    }
                }
                assert forall|k1: int| s <= k1 < s + i implies C::lt(v@[s + i], #[trigger] v@[k1]) by {
                    assert(v@[s + i] == mid[s + i]);
                    assert(C::lt(mid[s + i], mid[s + i - 1]));
                    if k1 >= l {
                        let k1m = l + (s + i) - 1 - k1;
                        assert(v@[k1] == mid[k1m]);
                        assert(leq::<T, C>(mid[s + i - 1], mid[k1m]));
                        lemma_lt_leq_transitive::<T, C>(mid[s + i], mid[s + i - 1], mid[k1m]);
                    } else {
                        assert(C::lt(mid[s + i - 1], mid[k1]));
                        lemma_lt_leq::<T, C>(mid[s + i - 1], mid[k1]);
                        assert(v@[k1] == mid[k1]);
                        lemma_lt_leq_transitive::<T, C>(mid[s + i], mid[s + i - 1], mid[k1]);
                    }
                }
                lemma_lt_leq::<T, C>(v@[s + i], v@[s + i]);
            }
            l = s + i;
            i = i + 1;
        } else if cmp.less(&v[s + i - 1], &v[s + i]) {
            proof {
                assert forall|k: int|
                    1 <= k <= n && #[trigger] strictly_descending::<T, C>(
                        old(v)@,
                        s as int,
                        s + k,
                    ) implies k <= i by {
                    if k > i {
                        assert(C::lt(old(v)@[s + i], old(v)@[s + i - 1]));
                        assert(v@[s + i] == old(v)@[s + i]);
                        assert(v@[s + i - 1] == old(v)@[s + i - 1]);
                        C::lt_asymmetric(old(v)@[s + i - 1], old(v)@[s + i]);
                    }
                }
            }
            stop = true;
        } else {
            proof {
                assert forall|k1: int| l <= k1 < s + i implies leq::<T, C>(
                    v@[s + i],
                    #[trigger] v@[k1],
                ) && leq::<T, C>(v@[k1], v@[s + i]) by {
                    assert(leq::<T, C>(v@[s + i - 1], v@[k1]));
                    assert(leq::<T, C>(v@[k1], v@[s + i - 1]));
                    assert(leq::<T, C>(v@[s + i], v@[s + i - 1]));
                    assert(leq::<T, C>(v@[s + i - 1], v@[s + i]));
                    lemma_leq_transitive::<T, C>(v@[s + i], v@[s + i - 1], v@[k1]);
                    lemma_leq_transitive::<T, C>(v@[k1], v@[s + i - 1], v@[s + i]);
                }
                lemma_lt_leq::<T, C>(v@[s + i], v@[s + i]);
                assert forall|k1: int| s <= k1 < l implies C::lt(v@[s + i], #[trigger] v@[k1]) by {
                    assert(C::lt(v@[l as int], v@[k1]));
                    assert(leq::<T, C>(v@[s + i], v@[l as int]));
                    lemma_leq_lt_transitive::<T, C>(v@[s + i], v@[l as int], v@[k1]);
                }
            }
            i = i + 1;
        }
    }

    let ghost va = v@;
    reverse(v, l, s + i);
    let ghost vb = v@;
    reverse(v, s, s + i);

    proof {
        crate::util::lemma_region_multiset(v@, old(v)@, s as int, s + i);
        assert forall|k: int|
            1 <= k <= n && #[trigger] strictly_descending::<T, C>(old(v)@, s as int, s + k)
                implies i >= k by {
            if !stop {
                assert(i == n);
            }
        }
        assert forall|k1: int, k2: int| s <= k1 <= k2 < s + i implies leq::<T, C>(
            #[trigger] v@[k1],
            #[trigger] v@[k2],
        ) by {
            let x1 = s + (s + i) - 1 - k1;
            let x2 = s + (s + i) - 1 - k2;
            assert(v@[k1] == vb[x1]);
            assert(v@[k2] == vb[x2]);
            // Relate the middle state to the loop-exit state.
            let y1 = if x1 >= l { l + (s + i) - 1 - x1 } else { x1 };
            let y2 = if x2 >= l { l + (s + i) - 1 - x2 } else { x2 };
            assert(vb[x1] == va[y1]);
            assert(vb[x2] == va[y2]);
            if x1 >= l && x2 >= l {
                assert(leq::<T, C>(va[y1], va[y2]));
            } else if x2 < l && x1 < l {
                assert(leq::<T, C>(va[y1], va[y2]));
            } else {
                assert(x2 < l && x1 >= l);
                assert(C::lt(va[y1], va[y2]));
            }
        }
    }

    i
}

/// The part of a sorted prefix of the given length that run building leaves
/// untouched: whole windows strictly before the one the prefix ends in.
pub open spec fn presorted_floor(off: int, run: int) -> int {
    if off % run == 0 {
        if off >= run {
            off - run
        } else {
            0
        }
    } else {
        off - off % run
    }
}

/// Build runs of length `MIN_RUN` on `s..s + n`, assuming the first elements
/// up to the absolute index `i` are already sorted. Only the rightmost run may
/// come out shorter than `MIN_RUN`.
#[verifier::rlimit(100)]
pub fn build_runs<T, C: Less<T>>(v: &mut Vec<T>, s: usize, i: usize, n: usize, cmp: &mut C)
    requires
        s + n <= old(v)@.len(),
        s <= i <= s + n,
        sorted_between::<T, C>(old(v)@, s as int, i as int),
    ensures
        same_outside(final(v)@, old(v)@, s as int, s + n),
        final(v)@.to_multiset() == old(v)@.to_multiset(),
        runs_sorted::<T, C>(final(v)@, s as int, s + n, MIN_RUN as int),
        forall|k: int|
            s <= k < s + presorted_floor(i - s, MIN_RUN as int) ==> final(v)@[k] == old(v)@[k],
{
    if n == 0 {
        return;
    }

    proof {
        assert(s + n <= v.len());
        lemma_lt_leq::<T, C>(v@[s as int], v@[s as int]);
    }

    let mut p: usize = s;
    let mut m: usize = n;
    let mut q: usize = if i > s {
        i
    } else {
        s + 1
    };

    let ghost sk0 = presorted_floor(i - s, MIN_RUN as int);

    while m > 0
        invariant
            s <= p,
            p + m == s + n,
            s + n <= v@.len(),
            v.len() == old(v)@.len(),
            m > 0 ==> (p - s) % (MIN_RUN as int) == 0,
            m > 0 ==> p < q <= s + n,
            sorted_between::<T, C>(v@, p as int, q as int),
            runs_sorted::<T, C>(v@, s as int, p as int, MIN_RUN as int),
            same_outside(v@, old(v)@, s as int, s + n),
            v@.to_multiset() == old(v)@.to_multiset(),
            s <= i <= s + n,
            sk0 == presorted_floor(i - s, MIN_RUN as int),
            p == s || s + sk0 <= p,
            p == s ==> q == (if i > s {
                i as int
            } else {
                s + 1
            }),
            forall|k: int| s <= k < s + sk0 ==> v@[k] == old(v)@[k],
        decreases m,
    {
        let offset = q - p;
        let rem = offset % MIN_RUN;
        let skip = if rem == 0 {
            offset - MIN_RUN
        } else {
            offset - rem
        };

        proof {
            assert((skip as int) % (MIN_RUN as int) == 0);
            if p == s {
                if i > s {
                    assert(offset as int == i - s);
                    assert(rem as int == (i - s) % (MIN_RUN as int));
                    if rem == 0 {
                        if offset < MIN_RUN {
                            vstd::arithmetic::div_mod::lemma_small_mod(
                                offset as nat,
                                MIN_RUN as nat,
                            );
                        }
                        assert(offset >= MIN_RUN);
                        assert(skip as int == (i - s) - (MIN_RUN as int));
                        assert(sk0 == (i - s) - (MIN_RUN as int));
                    } else {
                        assert(skip as int == (i - s) - (i - s) % (MIN_RUN as int));
                        assert(sk0 == (i - s) - (i - s) % (MIN_RUN as int));
                    }
                } else {
                    assert(offset == 1);
                    assert(rem == 1);
                    assert(skip == 0);
                    assert(sk0 == 0);
                }
                assert(skip as int == sk0);
            }
        }

        let ghost v0 = v@;
        let p2 = p + skip;
        let m2 = m - skip;

        proof {
            // The skipped windows sit inside the sorted prefix.
            lemma_runs_append_sorted::<T, C>(v@, s as int, p as int, p2 as int, MIN_RUN as int);
        }

        let len = if m2 < MIN_RUN {
            m2
        } else {
            MIN_RUN
        };
        let pref = if rem == 0 {
            1
        } else {
            rem
        };

        proof {
            lemma_lt_leq::<T, C>(v@[p2 as int], v@[p2 as int]);
        }
        insert_sort(v, p2, pref, len, cmp);

        proof {
            lemma_runs_sorted_stable::<T, C>(v0, v@, s as int, p2 as int, MIN_RUN as int);
            lemma_runs_append_sorted::<T, C>(
                v@,
                s as int,
                p2 as int,
                p2 + len,
                MIN_RUN as int,
            );
        }

        let ghost v1 = v@;
        let p3 = p2 + len;
        let m3 = m2 - len;
        let r = next_sorted_run(v, p3, m3, cmp);

        proof {
            lemma_runs_sorted_stable::<T, C>(v1, v@, s as int, p3 as int, MIN_RUN as int);
        }

        q = p3 + r;
        p = p3;
        m = m3;
    }
}

} // verus!
