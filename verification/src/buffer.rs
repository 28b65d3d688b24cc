//! The internal buffer: a region of the sequence reserved as scratch and as
//! a store of keys.

use vstd::prelude::*;

use crate::dust::insert_sort;
use crate::util::{
    cycle_swap, insert_left, insert_right, leq, leq_across, lemma_leq_lt_transitive,
    lemma_leq_transitive, lemma_lt_leq, lemma_lt_leq_transitive, rotate, same_outside, search_left,
    search_right, sorted_between, Less,
};

verus! {

/// The elements of `s[lo..hi]` are in strictly ascending order: sorted, with
/// no two equivalent.
pub open spec fn strict_sorted_between<T, C: Less<T>>(s: Seq<T>, lo: int, hi: int) -> bool {
    forall|i: int, j: int| lo <= i < j < hi ==> #[trigger] C::lt(s[i], s[j])
}

/// Some key of `s0[lo..hi]` is equivalent to `x` under the order of `C`.
pub open spec fn has_equiv_key<T, C: Less<T>>(s0: Seq<T>, lo: int, hi: int, x: T) -> bool {
    exists|j: int| lo <= j < hi && !C::lt(#[trigger] s0[j], x) && !C::lt(x, s0[j])
}

/// Sort the unsorted prefix plainly up to this many elements; beyond it,
/// binary insertion pays off.
pub const MIN_BINARY_INSERT: usize = 128;

/// Inserting an element at its search position keeps a run of keys strictly
/// ascending, provided it is equivalent to none of them.
proof fn lemma_insert_key_strict<T, C: Less<T>>(obuf: Seq<T>, x: T, pos: int)
    requires
        strict_sorted_between::<T, C>(obuf, 0, obuf.len() as int),
        0 <= pos <= obuf.len(),
        forall|j: int| 0 <= j < pos ==> C::lt(#[trigger] obuf[j], x),
        pos < obuf.len() ==> C::lt(x, obuf[pos as int]),
    ensures
        strict_sorted_between::<T, C>(obuf.insert(pos, x), 0, obuf.len() as int + 1),
{
    let nb = obuf.insert(pos, x);
    obuf.insert_ensures(pos, x);
    assert forall|j1: int, j2: int| 0 <= j1 < j2 < obuf.len() + 1 implies #[trigger] C::lt(
        nb[j1],
        nb[j2],
    ) by {
        let e1 = if j1 < pos {
            obuf[j1]
        } else if j1 == pos {
            x
        } else {
            obuf[j1 - 1]
        };
        let e2 = if j2 < pos {
            obuf[j2]
        } else if j2 == pos {
            x
        } else {
            obuf[j2 - 1]
        };
        assert(nb[j1] == e1);
        assert(nb[j2] == e2);
        if j1 < pos && j2 == pos {
            assert(C::lt(obuf[j1], x));
        } else if j1 == pos && j2 > pos {
            assert(C::lt(x, obuf[pos]));
            if j2 - 1 > pos {
                assert(C::lt(obuf[pos], obuf[j2 - 1]));
                lemma_lt_leq::<T, C>(obuf[pos], obuf[j2 - 1]);
                lemma_lt_leq_transitive::<T, C>(x, obuf[pos], obuf[j2 - 1]);
            }
        } else if j1 < pos && j2 > pos {
            if j2 - 1 == pos {
                assert(C::lt(obuf[j1], obuf[pos]));
            } else {
                assert(C::lt(obuf[j1], obuf[j2 - 1]));
            }
        } else if j1 < pos {
            assert(C::lt(obuf[j1], obuf[j2]));
        } else {
            assert(C::lt(obuf[j1 - 1], obuf[j2 - 1]));
        }
    }
}

/// Holds the state of an internal buffer: a contiguous scratch region inside
/// the sequence being sorted. Its fields only describe a region; every
/// operation takes the sequence it lives in alongside.
pub struct Buffer {
    /// Index of the leftmost element in the buffer.
    pub start: usize,

    /// Number of elements in the buffer.
    pub len: usize,

    /// Upper bound on the length of the unsorted prefix.
    pub unsorted: usize,
}

impl Buffer {
    /// Begin a merge operation by exchanging `cnt` buffer elements with the
    /// region at `dst`, and raising the unsorted watermark. A merge that
    /// needs no elements would mean the ordering predicate was violated, so
    /// empty exchanges are ruled out.
    pub fn begin_merge<T>(&mut self, v: &mut Vec<T>, dst: usize, cnt: usize)
        requires
            0 < cnt <= old(self).len,
            old(self).start + old(self).len <= old(v)@.len(),
            dst + cnt <= old(v)@.len(),
            dst + cnt <= old(self).start || old(self).start + cnt <= dst,
        ensures
            final(self).start == old(self).start,
            final(self).len == old(self).len,
            final(self).unsorted == (if old(self).unsorted >= cnt {
                old(self).unsorted
            } else {
                cnt
            }),
            final(v)@.len() == old(v)@.len(),
            forall|k: int|
                old(self).start <= k < old(self).start + cnt ==> final(v)@[k] == old(v)@[k
                    - old(self).start + dst],
            forall|k: int|
                dst <= k < dst + cnt ==> final(v)@[k] == old(v)@[k - dst + old(self).start],
            forall|k: int|
                0 <= k < old(v)@.len() && !(old(self).start <= k < old(self).start + cnt) && !(dst
                    <= k < dst + cnt) ==> final(v)@[k] == old(v)@[k],
            final(v)@.to_multiset() == old(v)@.to_multiset(),
    {
        if self.unsorted < cnt {
            self.unsorted = cnt;
        }
        cycle_swap(v, self.start, dst, cnt);
    }

    /// Expand the buffer leftward to take in the element at `item`, placing
    /// it at position `index` of the buffer; the elements that separated it
    /// from the buffer move past the buffer's new right edge, in order.
    #[verifier::rlimit(100)]
    #[verifier::spinoff_prover]
    pub fn insert<T>(&mut self, v: &mut Vec<T>, item: usize, index: usize)
        requires
            item < old(self).start,
            old(self).start + old(self).len <= old(v)@.len(),
            index <= old(self).len,
        ensures
            final(self).start == item,
            final(self).len == old(self).len + 1,
            final(self).unsorted == old(self).unsorted,
            final(v)@.len() == old(v)@.len(),
            final(v)@.subrange(item as int, item + old(self).len + 1) == old(v)@.subrange(
                old(self).start as int,
                old(self).start + old(self).len,
            ).insert(index as int, old(v)@[item as int]),
            forall|k: int|
                item + old(self).len + 1 <= k < old(self).start + old(self).len
                    ==> final(v)@[k] == old(v)@[k - old(self).len],
            forall|k: int|
                0 <= k < old(v)@.len() && !(item <= k < old(self).start + old(self).len)
                    ==> final(v)@[k] == old(v)@[k],
            final(v)@.to_multiset() == old(v)@.to_multiset(),
    {
        proof {
            assert(old(self).start + old(self).len <= v.len());
        }

        let ghost v0 = v@;
        let ghost bs = old(self).start as int;
        let ghost bl = old(self).len as int;

        rotate(v, item + 1, self.start - item - 1, self.len);
        let ghost v1 = v@;

        self.start = item;
        self.len = self.len + 1;
        insert_right(v, item, index);

        proof {
            let obuf = v0.subrange(bs, bs + bl);
            let nb = obuf.insert(index as int, v0[item as int]);
            obuf.insert_ensures(index as int, v0[item as int]);
            assert forall|j: int| 0 <= j < bl + 1 implies #[trigger] v@.subrange(
                item as int,
                item + bl + 1,
            )[j] == nb[j] by {
                assert(v@.subrange(item as int, item + bl + 1)[j] == v@[item + j]);
                if j < index {
                    assert(v@[item + j] == v1[item + 1 + j]);
                    assert(v1[item + 1 + j] == v0[bs + j]);
                    assert(nb[j] == obuf[j]);
                } else if j == index {
                    assert(v@[item + j] == v0[item as int]);
                    assert(nb[j] == v0[item as int]);
                } else {
                    assert(v@[item + j] == v1[item + j]);
                    assert(v1[item + j] == v0[bs + (j - 1)]);
                    assert(nb[j] == obuf[j - 1]);
                }
            }
            assert(v@.subrange(item as int, item + bl + 1) =~= nb);
            assert forall|k: int| item + bl + 1 <= k < bs + bl implies v@[k] == v0[k - bl] by {
                assert(v@[k] == v1[k]);
                assert(v1[k] == v0[k - bl]);
            }
        }
    }

    /// Search `s..i` from the right for elements not yet equivalent to any
    /// buffer element, absorbing each find, until the buffer holds `ideal`
    /// elements or the range is exhausted. Binary search keeps the buffer
    /// strictly ascending throughout, and a run that falls short of `ideal`
    /// means every scanned element already has an equivalent key.
    #[verifier::rlimit(100)]
    #[verifier::spinoff_prover]
    pub fn binary_find_keys<T, C: Less<T>>(
        &mut self,
        v: &mut Vec<T>,
        s: usize,
        i: usize,
        ideal: usize,
        cmp: &mut C,
    )
        requires
            s <= i,
            i == old(self).start,
            old(self).start + old(self).len <= old(v)@.len(),
            strict_sorted_between::<T, C>(
                old(v)@,
                old(self).start as int,
                old(self).start + old(self).len,
            ),
        ensures
            final(self).unsorted == old(self).unsorted,
            old(self).len <= final(self).len,
            final(self).len <= (if old(self).len >= ideal {
                old(self).len as int
            } else {
                ideal as int
            }),
            s <= final(self).start <= old(self).start,
            final(self).start + final(self).len <= old(self).start + old(self).len,
            strict_sorted_between::<T, C>(
                final(v)@,
                final(self).start as int,
                final(self).start + final(self).len,
            ),
            final(v)@.len() == old(v)@.len(),
            forall|k: int|
                0 <= k < old(v)@.len() && !(s <= k < old(self).start + old(self).len)
                    ==> final(v)@[k] == old(v)@[k],
            final(v)@.to_multiset() == old(v)@.to_multiset(),
            final(self).len < ideal ==> forall|k: int|
                s <= k < old(self).start + old(self).len ==> #[trigger] has_equiv_key::<T, C>(
                    final(v)@,
                    final(self).start as int,
                    final(self).start + final(self).len,
                    final(v)@[k],
                ),
    {
        let ghost edge = old(self).start + old(self).len;
        let mut i = i;

        while i > s && self.len < ideal
            invariant
                s <= i,
                i <= self.start,
                self.unsorted == old(self).unsorted,
                old(self).len <= self.len,
                self.len <= (if old(self).len >= ideal {
                    old(self).len as int
                } else {
                    ideal as int
                }),
                s <= self.start <= old(self).start,
                self.start + self.len <= edge,
                edge == old(self).start + old(self).len,
                edge <= v@.len(),
                v.len() == old(v)@.len(),
                strict_sorted_between::<T, C>(v@, self.start as int, self.start + self.len),
                forall|k: int|
                    i <= k < self.start ==> #[trigger] has_equiv_key::<T, C>(
                        v@,
                        self.start as int,
                        self.start + self.len,
                        v@[k],
                    ),
                forall|k: int|
                    self.start + self.len <= k < edge ==> #[trigger] has_equiv_key::<T, C>(
                        v@,
                        self.start as int,
                        self.start + self.len,
                        v@[k],
                    ),
                forall|k: int| s <= k < i ==> v@[k] == old(v)@[k],
                forall|k: int|
                    0 <= k < old(v)@.len() && !(s <= k < edge) ==> v@[k] == old(v)@[k],
                v@.to_multiset() == old(v)@.to_multiset(),
            decreases i - s,
        {
            i = i - 1;

            proof {
                assert forall|j1: int, j2: int|
                    self.start <= j1 <= j2 < self.start + self.len implies #[trigger] leq::<
                    T,
                    C,
                >(v@[j1], v@[j2]) by {
                    if j1 < j2 {
                        lemma_lt_leq::<T, C>(v@[j1], v@[j2]);
                    } else {
                        lemma_lt_leq::<T, C>(v@[j1], v@[j1]);
                    }
                }
            }

            let pos = search_left(v, self.start, self.len, &v[i], cmp);

            if pos == self.len || cmp.less(&v[i], &v[self.start + pos]) {
                let ghost vp = v@;
                let ghost bsp = self.start as int;
                let ghost blp = self.len as int;
                let ghost x = v@[i as int];
                self.insert(v, i, pos);

                proof {
                    let obuf = vp.subrange(bsp, bsp + blp);
                    assert forall|j: int| 0 <= j < pos implies C::lt(#[trigger] obuf[j], x) by {
                        assert(C::lt(vp[bsp + j], x));
                    }
                    assert forall|j1: int, j2: int|
                        0 <= j1 < j2 < blp implies #[trigger] C::lt(obuf[j1], obuf[j2]) by {
                        assert(C::lt(vp[bsp + j1], vp[bsp + j2]));
                    }
                    lemma_insert_key_strict::<T, C>(obuf, x, pos as int);
                    let nb = obuf.insert(pos as int, x);
                    obuf.insert_ensures(pos as int, x);
                    assert forall|j1: int, j2: int|
                        i <= j1 < j2 < i + blp + 1 implies #[trigger] C::lt(
                        v@[j1],
                        v@[j2],
                    ) by {
                        assert(v@.subrange(i as int, i + blp + 1) == nb);
                        assert(v@[j1] == nb[j1 - i]);
                        assert(v@[j2] == nb[j2 - i]);
                        assert(C::lt(nb[j1 - i], nb[j2 - i]));
                    }
                    // The rejected elements that sat between the scan point
                    // and the buffer, and those already past it, keep an
                    // equivalent key in the grown buffer.
                    assert forall|k: int|
                        i + blp + 1 <= k < edge implies #[trigger] has_equiv_key::<T, C>(
                        v@,
                        i as int,
                        i + blp + 1,
                        v@[k],
                    ) by {
                        let oldval = if k < bsp + blp {
                            vp[k - blp]
                        } else {
                            vp[k]
                        };
                        assert(v@[k] == oldval);
                        assert(has_equiv_key::<T, C>(vp, bsp, bsp + blp, oldval));
                        let jw = choose|jw: int|
                            bsp <= jw < bsp + blp && !C::lt(vp[jw], oldval) && !C::lt(
                                oldval,
                                vp[jw],
                            );
                        let rel = jw - bsp;
                        assert(obuf[rel] == vp[jw]);
                        let jnew = if rel < pos {
                            i + rel
                        } else {
                            i + rel + 1
                        };
                        assert(v@.subrange(i as int, i + blp + 1) == nb);
                        assert(v@[jnew] == nb[jnew - i]);
                        if rel < pos {
                            assert(nb[rel] == obuf[rel]);
                        } else {
                            assert(nb[rel + 1] == obuf[rel]);
                        }
                        assert(!C::lt(v@[jnew], v@[k]) && !C::lt(v@[k], v@[jnew]));
                    }
                }
            } else {
                proof {
                    // The scanned element is equivalent to the key its search
                    // position points at.
                    assert(!C::lt(v@[self.start + pos], v@[i as int]));
                    assert(has_equiv_key::<T, C>(
                        v@,
                        self.start as int,
                        self.start + self.len,
                        v@[i as int],
                    ));
                }
            }
        }

        proof {
            if self.len < ideal {
                assert(i == s);
                assert forall|k: int| s <= k < edge implies #[trigger] has_equiv_key::<T, C>(
                    v@,
                    self.start as int,
                    self.start + self.len,
                    v@[k],
                ) by {
                    if self.start <= k < self.start + self.len {
                        lemma_lt_leq::<T, C>(v@[k], v@[k]);
                        assert(!C::lt(v@[k], v@[k]));
                    }
                }
            }
        }
    }

    /// Search the sorted range `s..i` from the right for elements not yet
    /// equivalent to any buffer element, absorbing each find, until the
    /// buffer holds `ideal` elements or the range is exhausted. Because the
    /// range is sorted, a single virtual merge against the buffer replaces
    /// the per-element binary searches; a run that falls short of `ideal`
    /// means every scanned element already has an equivalent key.
    #[verifier::rlimit(100)]
    #[verifier::spinoff_prover]
    pub fn block_find_keys<T, C: Less<T>>(
        &mut self,
        v: &mut Vec<T>,
        s: usize,
        i: usize,
        ideal: usize,
        cmp: &mut C,
    )
        requires
            s < i,
            i == old(self).start,
            1 <= old(self).len,
            old(self).start + old(self).len <= old(v)@.len(),
            sorted_between::<T, C>(old(v)@, s as int, i as int),
            strict_sorted_between::<T, C>(
                old(v)@,
                old(self).start as int,
                old(self).start + old(self).len,
            ),
        ensures
            final(self).unsorted == old(self).unsorted,
            old(self).len <= final(self).len,
            final(self).len <= (if old(self).len >= ideal {
                old(self).len as int
            } else {
                ideal as int
            }),
            s <= final(self).start <= old(self).start,
            final(self).start + final(self).len <= old(self).start + old(self).len,
            strict_sorted_between::<T, C>(
                final(v)@,
                final(self).start as int,
                final(self).start + final(self).len,
            ),
            final(v)@.len() == old(v)@.len(),
            forall|k: int|
                0 <= k < old(v)@.len() && !(s <= k < old(self).start + old(self).len)
                    ==> final(v)@[k] == old(v)@[k],
            final(v)@.to_multiset() == old(v)@.to_multiset(),
            final(self).len < ideal ==> forall|k: int|
                s <= k < old(self).start + old(self).len ==> #[trigger] has_equiv_key::<T, C>(
                    final(v)@,
                    final(self).start as int,
                    final(self).start + final(self).len,
                    final(v)@[k],
                ),
    {
        let ghost edge = old(self).start + old(self).len;
        let mut i = i;

        proof {
            assert(old(self).start + old(self).len <= v.len());
            assert forall|j1: int, j2: int|
                self.start <= j1 <= j2 < self.start + (self.len - 1) implies leq::<T, C>(
                #[trigger] v@[j1],
                #[trigger] v@[j2],
            ) by {
                if j1 < j2 {
                    lemma_lt_leq::<T, C>(v@[j1], v@[j2]);
                } else {
                    lemma_lt_leq::<T, C>(v@[j1], v@[j1]);
                }
            }
        }

        // Bound the merge from above by the last range element.
        let upper = search_left(v, self.start, self.len - 1, &v[i - 1], cmp) + 1;
        let mut b = self.start + upper;

        proof {
            assert forall|j: int|
                b <= j < self.start + self.len implies C::lt(v@[i - 1], #[trigger] v@[j]) by {
                assert(!C::lt(v@[self.start + (upper - 1)], v@[i - 1]));
                if j > self.start + (upper - 1) {
                    assert(C::lt(v@[self.start + (upper - 1)], v@[j]));
                    lemma_leq_lt_transitive::<T, C>(
                        v@[i - 1],
                        v@[self.start + (upper - 1)],
                        v@[j],
                    );
                }
            }
        }

        while i > s && b > self.start && self.len < ideal
            invariant
                s <= i,
                i <= self.start,
                self.start <= b <= self.start + self.len,
                self.unsorted == old(self).unsorted,
                1 <= old(self).len <= self.len,
                self.len <= (if old(self).len >= ideal {
                    old(self).len as int
                } else {
                    ideal as int
                }),
                s <= self.start <= old(self).start,
                self.start + self.len <= edge,
                edge == old(self).start + old(self).len,
                edge <= v@.len(),
                v.len() == old(v)@.len(),
                strict_sorted_between::<T, C>(v@, self.start as int, self.start + self.len),
                forall|k: int| s <= k < i ==> v@[k] == old(v)@[k],
                sorted_between::<T, C>(old(v)@, s as int, i as int),
                i > s ==> forall|j: int|
                    b <= j < self.start + self.len ==> C::lt(v@[i - 1], #[trigger] v@[j]),
                forall|k: int|
                    i <= k < self.start ==> #[trigger] has_equiv_key::<T, C>(
                        v@,
                        self.start as int,
                        self.start + self.len,
                        v@[k],
                    ),
                forall|k: int|
                    self.start + self.len <= k < edge ==> #[trigger] has_equiv_key::<T, C>(
                        v@,
                        self.start as int,
                        self.start + self.len,
                        v@[k],
                    ),
                forall|k: int|
                    0 <= k < old(v)@.len() && !(s <= k < edge) ==> v@[k] == old(v)@[k],
                v@.to_multiset() == old(v)@.to_multiset(),
            decreases i + b,
        {
            if cmp.less(&v[i - 1], &v[b - 1]) {
                proof {
                    assert(C::lt(v@[i - 1], v@[b - 1]));
                }
                b = b - 1;
            } else {
                i = i - 1;

                proof {
                    if i > s {
                        assert forall|j: int|
                            b <= j < self.start + self.len implies C::lt(
                            v@[i - 1],
                            #[trigger] v@[j],
                        ) by {
                            assert(leq::<T, C>(old(v)@[i - 1], old(v)@[i as int]));
                            assert(C::lt(v@[i as int], v@[j]));
                            lemma_leq_lt_transitive::<T, C>(v@[i - 1], v@[i as int], v@[j]);
                        }
                    }
                }

                if cmp.less(&v[b - 1], &v[i]) {
                    let ghost vp = v@;
                    let ghost bsp = self.start as int;
                    let ghost blp = self.len as int;
                    let ghost x = v@[i as int];
                    let ghost bp = b as int;
                    let idx = b - self.start;
                    b = b - (self.start - i - 1);
                    self.insert(v, i, idx);

                    proof {
                        let obuf = vp.subrange(bsp, bsp + blp);
                        assert forall|j: int| 0 <= j < idx implies C::lt(
                            #[trigger] obuf[j],
                            x,
                        ) by {
                            assert(C::lt(vp[bsp + (idx - 1)], x));
                            if j < idx - 1 {
                                assert(C::lt(vp[bsp + j], vp[bsp + (idx - 1)]));
                                lemma_lt_leq::<T, C>(vp[bsp + j], vp[bsp + (idx - 1)]);
                                lemma_lt_leq_transitive::<T, C>(
                                    vp[bsp + j],
                                    vp[bsp + (idx - 1)],
                                    x,
                                );
                            }
                        }
                        assert forall|j1: int, j2: int|
                            0 <= j1 < j2 < blp implies #[trigger] C::lt(obuf[j1], obuf[j2]) by {
                            assert(C::lt(vp[bsp + j1], vp[bsp + j2]));
                        }
                        if idx < blp {
                            assert(C::lt(x, obuf[idx as int])) by {
                                assert(C::lt(vp[i as int], vp[bp]));
                            }
                        }
                        lemma_insert_key_strict::<T, C>(obuf, x, idx as int);
                        let nb = obuf.insert(idx as int, x);
                        obuf.insert_ensures(idx as int, x);
                        assert forall|j1: int, j2: int|
                            i <= j1 < j2 < i + blp + 1 implies #[trigger] C::lt(
                            v@[j1],
                            v@[j2],
                        ) by {
                            assert(v@.subrange(i as int, i + blp + 1) == nb);
                            assert(v@[j1] == nb[j1 - i]);
                            assert(v@[j2] == nb[j2 - i]);
                            assert(C::lt(nb[j1 - i], nb[j2 - i]));
                        }
                        // The virtual merge position keeps its meaning across
                        // the insertion.
                        if i > s {
                            assert forall|j: int|
                                b <= j < self.start + self.len implies C::lt(
                                v@[i - 1],
                                #[trigger] v@[j],
                            ) by {
                                assert(v@[j] == nb[j - i]);
                                assert(nb[j - i] == obuf[j - i - 1]);
                                assert(C::lt(vp[i - 1], vp[bsp + (j - i - 1)]));
                            }
                        }
                        // The rejected and already-passed elements keep an
                        // equivalent key in the grown buffer.
                        assert forall|k: int|
                            i + blp + 1 <= k < edge implies #[trigger] has_equiv_key::<T, C>(
                            v@,
                            i as int,
                            i + blp + 1,
                            v@[k],
                        ) by {
                            let oldval = if k < bsp + blp {
                                vp[k - blp]
                            } else {
                                vp[k]
                            };
                            assert(v@[k] == oldval);
                            assert(has_equiv_key::<T, C>(vp, bsp, bsp + blp, oldval));
                            let jw = choose|jw: int|
                                bsp <= jw < bsp + blp && !C::lt(vp[jw], oldval) && !C::lt(
                                    oldval,
                                    vp[jw],
                                );
                            let rel = jw - bsp;
                            assert(obuf[rel] == vp[jw]);
                            let jnew = if rel < idx {
                                i + rel
                            } else {
                                i + rel + 1
                            };
                            assert(v@.subrange(i as int, i + blp + 1) == nb);
                            assert(v@[jnew] == nb[jnew - i]);
                            if rel < idx {
                                assert(nb[rel] == obuf[rel]);
                            } else {
                                assert(nb[rel + 1] == obuf[rel]);
                            }
                            assert(!C::lt(v@[jnew], v@[k]) && !C::lt(v@[k], v@[jnew]));
                        }
                    }
                } else {
                    proof {
                        // The scanned element is equivalent to the key the
                        // virtual merge stands at.
                        assert(!C::lt(v@[i as int], v@[b - 1]));
                        assert(!C::lt(v@[b - 1], v@[i as int]));
                        assert(has_equiv_key::<T, C>(
                            v@,
                            self.start as int,
                            self.start + self.len,
                            v@[i as int],
                        ));
                    }
                }
            }
        }

        proof {
            if i > s && self.len < ideal {
                assert forall|j: int|
                    self.start <= j < self.start + self.len implies leq::<T, C>(
                    v@[i - 1],
                    #[trigger] v@[j],
                ) by {
                    assert(C::lt(v@[i - 1], v@[j]));
                    lemma_lt_leq::<T, C>(v@[i - 1], v@[j]);
                }
            }
        }

        while i > s && self.len < ideal
            invariant
                s <= i,
                i <= self.start,
                self.unsorted == old(self).unsorted,
                1 <= old(self).len <= self.len,
                self.len <= (if old(self).len >= ideal {
                    old(self).len as int
                } else {
                    ideal as int
                }),
                s <= self.start <= old(self).start,
                self.start + self.len <= edge,
                edge == old(self).start + old(self).len,
                edge <= v@.len(),
                v.len() == old(v)@.len(),
                strict_sorted_between::<T, C>(v@, self.start as int, self.start + self.len),
                forall|k: int| s <= k < i ==> v@[k] == old(v)@[k],
                sorted_between::<T, C>(old(v)@, s as int, old(self).start as int),
                i > s && self.len < ideal ==> forall|j: int|
                    self.start <= j < self.start + self.len ==> leq::<T, C>(
                        v@[i - 1],
                        #[trigger] v@[j],
                    ),
                forall|k: int|
                    i <= k < self.start ==> #[trigger] has_equiv_key::<T, C>(
                        v@,
                        self.start as int,
                        self.start + self.len,
                        v@[k],
                    ),
                forall|k: int|
                    self.start + self.len <= k < edge ==> #[trigger] has_equiv_key::<T, C>(
                        v@,
                        self.start as int,
                        self.start + self.len,
                        v@[k],
                    ),
                forall|k: int|
                    0 <= k < old(v)@.len() && !(s <= k < edge) ==> v@[k] == old(v)@[k],
                v@.to_multiset() == old(v)@.to_multiset(),
            decreases i - s,
        {
            i = i - 1;

            if cmp.less(&v[i], &v[self.start]) {
                let ghost vp = v@;
                let ghost bsp = self.start as int;
                let ghost blp = self.len as int;
                let ghost x = v@[i as int];
                self.insert(v, i, 0);

                proof {
                    let obuf = vp.subrange(bsp, bsp + blp);
                    assert forall|j1: int, j2: int|
                        0 <= j1 < j2 < blp implies #[trigger] C::lt(obuf[j1], obuf[j2]) by {
                        assert(C::lt(vp[bsp + j1], vp[bsp + j2]));
                    }
                    assert(C::lt(x, obuf[0]));
                    lemma_insert_key_strict::<T, C>(obuf, x, 0);
                    let nb = obuf.insert(0, x);
                    obuf.insert_ensures(0, x);
                    assert forall|j1: int, j2: int|
                        i <= j1 < j2 < i + blp + 1 implies #[trigger] C::lt(v@[j1], v@[j2]) by {
                        assert(v@.subrange(i as int, i + blp + 1) == nb);
                        assert(v@[j1] == nb[j1 - i]);
                        assert(v@[j2] == nb[j2 - i]);
                        assert(C::lt(nb[j1 - i], nb[j2 - i]));
                    }
                    // The next maximum still precedes every key, the new one
                    // included.
                    if i > s {
                        assert forall|j: int|
                            i <= j < i + blp + 1 implies leq::<T, C>(
                            v@[i - 1],
                            #[trigger] v@[j],
                        ) by {
                            assert(v@[j] == nb[j - i]);
                            assert(v@[i - 1] == old(v)@[i - 1]);
                            assert(leq::<T, C>(old(v)@[i - 1], old(v)@[i as int]));
                            if j > i {
                                assert(nb[j - i] == obuf[j - i - 1]);
                                assert(leq::<T, C>(vp[i as int], vp[bsp + (j - i - 1)]));
                                lemma_leq_transitive::<T, C>(
                                    v@[i - 1],
                                    vp[i as int],
                                    vp[bsp + (j - i - 1)],
                                );
                            }
                        }
                    }
                    // The rejected and already-passed elements keep an
                    // equivalent key in the grown buffer.
                    assert forall|k: int|
                        i + blp + 1 <= k < edge implies #[trigger] has_equiv_key::<T, C>(
                        v@,
                        i as int,
                        i + blp + 1,
                        v@[k],
                    ) by {
                        let oldval = if k < bsp + blp {
                            vp[k - blp]
                        } else {
                            vp[k]
                        };
                        assert(v@[k] == oldval);
                        assert(has_equiv_key::<T, C>(vp, bsp, bsp + blp, oldval));
                        let jw = choose|jw: int|
                            bsp <= jw < bsp + blp && !C::lt(vp[jw], oldval) && !C::lt(
                                oldval,
                                vp[jw],
                            );
                        let rel = jw - bsp;
                        assert(obuf[rel] == vp[jw]);
                        let jnew = i + rel + 1;
                        assert(v@.subrange(i as int, i + blp + 1) == nb);
                        assert(v@[jnew] == nb[jnew - i]);
                        assert(nb[rel + 1] == obuf[rel]);
                        assert(!C::lt(v@[jnew], v@[k]) && !C::lt(v@[k], v@[jnew]));
                    }
                }
            } else {
                proof {
                    // The scanned element is equivalent to the least key: it
                    // is not below it, and no key is below the running
                    // maximum of the sorted range.
                    assert(leq::<T, C>(v@[i as int], v@[self.start as int]));
                    assert(has_equiv_key::<T, C>(
                        v@,
                        self.start as int,
                        self.start + self.len,
                        v@[i as int],
                    ));
                    if i > s {
                        assert forall|j: int|
                            self.start <= j < self.start + self.len implies leq::<T, C>(
                            v@[i - 1],
                            #[trigger] v@[j],
                        ) by {
                            assert(leq::<T, C>(old(v)@[i - 1], old(v)@[i as int]));
                            assert(v@[i - 1] == old(v)@[i - 1]);
                            assert(v@[i as int] == old(v)@[i as int]);
                            assert(leq::<T, C>(v@[i as int], v@[j]));
                            lemma_leq_transitive::<T, C>(v@[i - 1], v@[i as int], v@[j]);
                        }
                    }
                }
            }
        }

        proof {
            if self.len < ideal {
                assert(i == s);
                assert forall|k: int| s <= k < edge implies #[trigger] has_equiv_key::<T, C>(
                    v@,
                    self.start as int,
                    self.start + self.len,
                    v@[k],
                ) by {
                    if self.start <= k < self.start + self.len {
                        lemma_lt_leq::<T, C>(v@[k], v@[k]);
                        assert(!C::lt(v@[k], v@[k]));
                    }
                }
            }
        }
    }

    /// Slide the buffer by rotation so that it starts at `dst`, keeping its
    /// contents in order.
    pub fn shift<T>(&mut self, v: &mut Vec<T>, dst: usize)
        requires
            old(self).start + old(self).len <= old(v)@.len(),
            dst + old(self).len <= old(v)@.len(),
        ensures
            final(self).start == dst,
            final(self).len == old(self).len,
            final(self).unsorted == old(self).unsorted,
            final(v)@.len() == old(v)@.len(),
            forall|k: int|
                dst <= k < dst + old(self).len ==> final(v)@[k] == old(v)@[k - dst + old(
                    self,
                ).start],
            final(v)@.to_multiset() == old(v)@.to_multiset(),
            dst <= old(self).start ==> same_outside(
                final(v)@,
                old(v)@,
                dst as int,
                old(self).start + old(self).len,
            ),
            dst >= old(self).start ==> same_outside(
                final(v)@,
                old(v)@,
                old(self).start as int,
                dst + old(self).len,
            ),
            dst <= old(self).start ==> forall|k: int|
                dst + old(self).len <= k < old(self).start + old(self).len
                    ==> #[trigger] final(v)@[k] == old(v)@[k - old(self).len],
            old(self).start <= dst ==> forall|k: int|
                old(self).start <= k < dst
                    ==> #[trigger] final(v)@[k] == old(v)@[k + old(self).len],
    {
        if dst < self.start {
            rotate(v, dst, self.start - dst, self.len);
        } else {
            rotate(v, self.start, self.len, dst - self.start);
        }
        self.start = dst;
    }

    /// Restore the ascending order of the buffer by sorting its unsorted
    /// prefix, which is assumed not to have gained elements beyond those the
    /// sorted remainder follows.
    pub fn sort<T, C: Less<T>>(&mut self, v: &mut Vec<T>, cmp: &mut C)
        requires
            old(self).unsorted <= old(self).len,
            old(self).start + old(self).len <= old(v)@.len(),
            sorted_between::<T, C>(
                old(v)@,
                old(self).start + old(self).unsorted,
                old(self).start + old(self).len,
            ),
            leq_across::<T, C>(
                old(v)@,
                old(self).start as int,
                old(self).start + old(self).unsorted,
                old(self).start + old(self).unsorted,
                old(self).start + old(self).len,
            ),
        ensures
            final(self).start == old(self).start,
            final(self).len == old(self).len,
            final(self).unsorted == 0,
            final(v)@.len() == old(v)@.len(),
            same_outside(
                final(v)@,
                old(v)@,
                old(self).start as int,
                old(self).start + old(self).unsorted,
            ),
            final(v)@.to_multiset() == old(v)@.to_multiset(),
            sorted_between::<T, C>(
                final(v)@,
                old(self).start as int,
                old(self).start + old(self).len,
            ),
    {
        let s = self.start;
        let u = self.unsorted;

        proof {
            lemma_lt_leq::<T, C>(v@[s as int], v@[s as int]);
            assert(old(self).start + old(self).len <= v.len());
        }

        if u > MIN_BINARY_INSERT {
            insert_sort(v, s, 1, MIN_BINARY_INSERT, cmp);

            let mut t: usize = MIN_BINARY_INSERT;

            while t < u
                invariant
                    MIN_BINARY_INSERT <= t <= u,
                    u <= old(self).len,
                    s == old(self).start,
                    s + old(self).len <= v@.len(),
                    v.len() == old(v)@.len(),
                    sorted_between::<T, C>(v@, s as int, s + t),
                    same_outside(v@, old(v)@, s as int, s + u),
                    v@.to_multiset() == old(v)@.to_multiset(),
                decreases u - t,
            {
                let cur = s + t;
                let pos = search_right(v, s, t, &v[cur], cmp);
                let ghost vp = v@;
                let ghost x = v@[cur as int];
                insert_left(v, cur, t - pos);
                proof {
                    assert forall|k1: int, k2: int|
                        s <= k1 <= k2 < s + t + 1 implies #[trigger] leq::<T, C>(
                        v@[k1],
                        v@[k2],
                    ) by {
                        let e1 = if k1 < s + pos {
                            vp[k1]
                        } else if k1 == s + pos {
                            x
                        } else {
                            vp[k1 - 1]
                        };
                        let e2 = if k2 < s + pos {
                            vp[k2]
                        } else if k2 == s + pos {
                            x
                        } else {
                            vp[k2 - 1]
                        };
                        assert(v@[k1] == e1);
                        assert(v@[k2] == e2);
                        if k1 < s + pos && k2 == s + pos {
                            assert(leq::<T, C>(vp[k1], x));
                        } else if k1 == s + pos && k2 > s + pos {
                            assert(C::lt(x, vp[k2 - 1]));
                            lemma_lt_leq::<T, C>(x, vp[k2 - 1]);
                        } else if k1 < s + pos && k2 > s + pos {
                            assert(leq::<T, C>(vp[k1], vp[k2 - 1]));
                        } else if k2 < s + pos || k1 > s + pos {
                            assert(leq::<T, C>(vp[if k1 > s + pos {
                                k1 - 1
                            } else {
                                k1
                            }], vp[if k2 > s + pos {
                                k2 - 1
                            } else {
                                k2
                            }]));
                        } else {
                            lemma_lt_leq::<T, C>(x, x);
                        }
                    }
                }
                t = t + 1;
            }
        } else {
            insert_sort(
                v,
                s,
                if u == 0 {
                    0
                } else {
                    1
                },
                u,
                cmp,
            );
        }

        proof {
            assert forall|k1: int, k2: int|
                s <= k1 <= k2 < s + self.len implies #[trigger] leq::<T, C>(v@[k1], v@[k2]) by {
                if k1 < s + u && s + u <= k2 {
                    // A sorted-prefix element is one of the old prefix values;
                    // every one of those precedes the untouched remainder.
                    assert(v@[k2] == old(v)@[k2]);
                    crate::util::lemma_region_values(old(v)@, v@, s as int, s + u);
                    assert(crate::util::region_has(old(v)@, s as int, s + u, v@[k1]));
                    let j = choose|j: int| s <= j < s + u && old(v)@[j] == v@[k1];
                    assert(leq::<T, C>(old(v)@[j], old(v)@[k2]));
                } else if s + u <= k1 {
                    assert(v@[k1] == old(v)@[k1]);
                    assert(v@[k2] == old(v)@[k2]);
                    assert(leq::<T, C>(old(v)@[k1], old(v)@[k2]));
                }
            }
        }
        self.unsorted = 0;
    }
}

} // verus!
