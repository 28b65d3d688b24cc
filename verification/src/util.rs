//! Comparator trait, ordering facts, and the small in-place primitives that
//! the sorting routines are built from.

use vstd::prelude::*;

verus! {

/// A strict-weak-order comparison context.
///
/// `lt` is the mathematical "less than" relation; `less` computes it. The two
/// proof obligations are exactly the strict-weak-order laws: asymmetry, and
/// transitivity of the derived "not greater" relation. Every consequence the
/// sorting routines need (irreflexivity, transitivity of `lt`, totality of
/// `leq`) follows from these two.
pub trait Less<T>: Sized {
    /// The comparison relation, as a mathematical predicate.
    spec fn lt(a: T, b: T) -> bool;

    /// `lt` never holds in both directions.
    proof fn lt_asymmetric(a: T, b: T)
        ensures
            Self::lt(a, b) ==> !Self::lt(b, a),
    ;

    /// The complement relation `!lt` is transitive.
    proof fn lt_negation_transitive(a: T, b: T, c: T)
        ensures
            !Self::lt(b, a) && !Self::lt(c, b) ==> !Self::lt(c, a),
    ;

    /// Decide whether `a` is less than `b`.
    fn less(&mut self, a: &T, b: &T) -> (r: bool)
        ensures
            r == Self::lt(*a, *b),
    ;
}

/// The natural "less than" order of the machine integer types, as a
/// comparison context.
pub struct NaturalOrder;

impl Less<u8> for NaturalOrder {
    open spec fn lt(a: u8, b: u8) -> bool {
        a < b
    }

    proof fn lt_asymmetric(a: u8, b: u8) {
    }

    proof fn lt_negation_transitive(a: u8, b: u8, c: u8) {
    }

    fn less(&mut self, a: &u8, b: &u8) -> (r: bool) {
        *a < *b
    }
}

impl Less<u16> for NaturalOrder {
    open spec fn lt(a: u16, b: u16) -> bool {
        a < b
    }

    proof fn lt_asymmetric(a: u16, b: u16) {
    }

    proof fn lt_negation_transitive(a: u16, b: u16, c: u16) {
    }

    fn less(&mut self, a: &u16, b: &u16) -> (r: bool) {
        *a < *b
    }
}

impl Less<u32> for NaturalOrder {
    open spec fn lt(a: u32, b: u32) -> bool {
        a < b
    }

    proof fn lt_asymmetric(a: u32, b: u32) {
    }

    proof fn lt_negation_transitive(a: u32, b: u32, c: u32) {
    }

    fn less(&mut self, a: &u32, b: &u32) -> (r: bool) {
        *a < *b
    }
}

impl Less<u64> for NaturalOrder {
    open spec fn lt(a: u64, b: u64) -> bool {
        a < b
    }

    proof fn lt_asymmetric(a: u64, b: u64) {
    }

    proof fn lt_negation_transitive(a: u64, b: u64, c: u64) {
    }

    fn less(&mut self, a: &u64, b: &u64) -> (r: bool) {
        *a < *b
    }
}

impl Less<usize> for NaturalOrder {
    open spec fn lt(a: usize, b: usize) -> bool {
        a < b
    }

    proof fn lt_asymmetric(a: usize, b: usize) {
    }

    proof fn lt_negation_transitive(a: usize, b: usize, c: usize) {
    }

    fn less(&mut self, a: &usize, b: &usize) -> (r: bool) {
        *a < *b
    }
}

impl Less<i8> for NaturalOrder {
    open spec fn lt(a: i8, b: i8) -> bool {
        a < b
    }

    proof fn lt_asymmetric(a: i8, b: i8) {
    }

    proof fn lt_negation_transitive(a: i8, b: i8, c: i8) {
    }

    fn less(&mut self, a: &i8, b: &i8) -> (r: bool) {
        *a < *b
    }
}

impl Less<i16> for NaturalOrder {
    open spec fn lt(a: i16, b: i16) -> bool {
        a < b
    }

    proof fn lt_asymmetric(a: i16, b: i16) {
    }

    proof fn lt_negation_transitive(a: i16, b: i16, c: i16) {
    }

    fn less(&mut self, a: &i16, b: &i16) -> (r: bool) {
        *a < *b
    }
}

impl Less<i32> for NaturalOrder {
    open spec fn lt(a: i32, b: i32) -> bool {
        a < b
    }

    proof fn lt_asymmetric(a: i32, b: i32) {
    }

    proof fn lt_negation_transitive(a: i32, b: i32, c: i32) {
    }

    fn less(&mut self, a: &i32, b: &i32) -> (r: bool) {
        *a < *b
    }
}

impl Less<i64> for NaturalOrder {
    open spec fn lt(a: i64, b: i64) -> bool {
        a < b
    }

    proof fn lt_asymmetric(a: i64, b: i64) {
    }

    proof fn lt_negation_transitive(a: i64, b: i64, c: i64) {
    }

    fn less(&mut self, a: &i64, b: &i64) -> (r: bool) {
        *a < *b
    }
}

impl Less<isize> for NaturalOrder {
    open spec fn lt(a: isize, b: isize) -> bool {
        a < b
    }

    proof fn lt_asymmetric(a: isize, b: isize) {
    }

    proof fn lt_negation_transitive(a: isize, b: isize, c: isize) {
    }

    fn less(&mut self, a: &isize, b: &isize) -> (r: bool) {
        *a < *b
    }
}

/// A key extraction function: elements are compared by the key it computes.
pub trait KeyExtract<T, K>: Sized {
    /// The key of an element.
    spec fn key(t: T) -> K;

    /// Compute the key of an element.
    fn extract(&mut self, t: &T) -> (r: K)
        ensures
            r == Self::key(*t),
    ;
}

/// The comparison context that orders elements by their extracted keys under
/// the natural order of the key type.
pub struct KeyLess<F, T, K> {
    /// The key extraction function.
    pub f: F,
    /// The element and key types this context compares by.
    pub marker: core::marker::PhantomData<(T, K)>,
}

impl<T, K, F: KeyExtract<T, K>> Less<T> for KeyLess<F, T, K> where NaturalOrder: Less<K> {
    open spec fn lt(a: T, b: T) -> bool {
        <NaturalOrder as Less<K>>::lt(F::key(a), F::key(b))
    }

    proof fn lt_asymmetric(a: T, b: T) {
        <NaturalOrder as Less<K>>::lt_asymmetric(F::key(a), F::key(b));
    }

    proof fn lt_negation_transitive(a: T, b: T, c: T) {
        <NaturalOrder as Less<K>>::lt_negation_transitive(F::key(a), F::key(b), F::key(c));
    }

    fn less(&mut self, a: &T, b: &T) -> (r: bool) {
        let ka = self.f.extract(a);
        let kb = self.f.extract(b);
        let mut ord = NaturalOrder;
        ord.less(&ka, &kb)
    }
}

/// Key extraction for pairs ordered by their first coordinate.
pub struct FirstOfPair;

impl KeyExtract<(u64, u64), u64> for FirstOfPair {
    open spec fn key(t: (u64, u64)) -> u64 {
        t.0
    }

    fn extract(&mut self, t: &(u64, u64)) -> (r: u64) {
        t.0
    }
}

/// A comparison context that counts how often it is consulted, saturating at
/// the largest counter value.
pub struct CountingLess<C> {
    /// The underlying comparison context.
    pub inner: C,
    /// The number of comparisons made so far.
    pub count: u64,
}

impl<T, C: Less<T>> Less<T> for CountingLess<C> {
    open spec fn lt(a: T, b: T) -> bool {
        C::lt(a, b)
    }

    proof fn lt_asymmetric(a: T, b: T) {
        C::lt_asymmetric(a, b);
    }

    proof fn lt_negation_transitive(a: T, b: T, c: T) {
        C::lt_negation_transitive(a, b, c);
    }

    fn less(&mut self, a: &T, b: &T) -> (r: bool) {
        if self.count < u64::MAX {
            self.count = self.count + 1;
        }
        self.inner.less(a, b)
    }
}

/// `a` precedes or is equivalent to `b`: `b` is not less than `a`.
pub open spec fn leq<T, C: Less<T>>(a: T, b: T) -> bool {
    !C::lt(b, a)
}

/// The elements equivalent to `p` under the order of `C`.
pub open spec fn equiv_to<T, C: Less<T>>(p: T) -> spec_fn(T) -> bool {
    |x: T| leq::<T, C>(p, x) && leq::<T, C>(x, p)
}

/// The elements of `s[lo..hi]` are in non-descending order.
pub open spec fn sorted_between<T, C: Less<T>>(s: Seq<T>, lo: int, hi: int) -> bool {
    forall|i: int, j: int| lo <= i <= j < hi ==> #[trigger] leq::<T, C>(s[i], s[j])
}

/// `a` and `b` have the same length and agree everywhere outside `[lo, hi)`.
pub open spec fn same_outside<T>(a: Seq<T>, b: Seq<T>, lo: int, hi: int) -> bool {
    &&& a.len() == b.len()
    &&& forall|k: int| 0 <= k < a.len() && !(lo <= k < hi) ==> a[k] == #[trigger] b[k]
}

/// Every element of `s[lo1..hi1]` precedes every element of `s[lo2..hi2]`.
pub open spec fn leq_across<T, C: Less<T>>(s: Seq<T>, lo1: int, hi1: int, lo2: int, hi2: int) -> bool {
    forall|i: int, j: int| lo1 <= i < hi1 && lo2 <= j < hi2 ==> #[trigger] leq::<T, C>(s[i], s[j])
}

/// `leq` is total: of two elements, one precedes the other.
pub broadcast proof fn lemma_leq_total<T, C: Less<T>>(a: T, b: T)
    ensures
        #[trigger] leq::<T, C>(a, b) || #[trigger] leq::<T, C>(b, a),
{
    C::lt_asymmetric(a, b);
    C::lt_asymmetric(b, a);
}

/// `leq` is transitive.
pub broadcast proof fn lemma_leq_transitive<T, C: Less<T>>(a: T, b: T, c: T)
    ensures
        #[trigger] leq::<T, C>(a, b) && #[trigger] leq::<T, C>(b, c) ==> leq::<T, C>(a, c),
{
    C::lt_negation_transitive(a, b, c);
}

/// `lt` composes with `leq` on the right.
pub broadcast proof fn lemma_lt_leq_transitive<T, C: Less<T>>(a: T, b: T, c: T)
    ensures
        #[trigger] C::lt(a, b) && #[trigger] leq::<T, C>(b, c) ==> C::lt(a, c),
{
    C::lt_negation_transitive(b, c, a);
    C::lt_asymmetric(a, b);
}

/// `leq` composes with `lt` on the right.
pub broadcast proof fn lemma_leq_lt_transitive<T, C: Less<T>>(a: T, b: T, c: T)
    ensures
        #[trigger] leq::<T, C>(a, b) && #[trigger] C::lt(b, c) ==> C::lt(a, c),
{
    C::lt_negation_transitive(c, a, b);
    C::lt_asymmetric(b, c);
}

/// `lt` implies `leq`, and `lt` is irreflexive.
pub broadcast proof fn lemma_lt_leq<T, C: Less<T>>(a: T, b: T)
    ensures
        #[trigger] C::lt(a, b) ==> leq::<T, C>(a, b),
        !C::lt(a, a),
{
    C::lt_asymmetric(a, b);
    C::lt_asymmetric(a, a);
}

/// Every aligned window of length `run`, relative to `base`, within
/// `[base, hi)` is in non-descending order.
pub open spec fn runs_sorted<T, C: Less<T>>(s: Seq<T>, base: int, hi: int, run: int) -> bool {
    forall|k1: int, k2: int|
        base <= k1 <= k2 < hi && (k1 - base) / run == (k2 - base) / run ==> #[trigger] leq::<
            T,
            C,
        >(s[k1], s[k2])
}

/// Indices within one aligned window share their window index.
pub proof fn lemma_window_of(base: int, run: int, p: int, k: int)
    requires
        run > 0,
        (p - base) % run == 0,
        p <= k < p + run,
    ensures
        (k - base) / run == (p - base) / run,
{
    let q0 = (p - base) / run;
    vstd::arithmetic::div_mod::lemma_fundamental_div_mod(p - base, run);
    assert(q0 * run == run * q0) by (nonlinear_arith);
    vstd::arithmetic::div_mod::lemma_fundamental_div_mod_converse(k - base, run, q0, k - p);
}

/// A sorted region appended at an aligned boundary keeps every window sorted.
pub proof fn lemma_runs_append_sorted<T, C: Less<T>>(
    s: Seq<T>,
    base: int,
    mid: int,
    hi: int,
    run: int,
)
    requires
        run > 0,
        base <= mid <= hi,
        (mid - base) % run == 0,
        runs_sorted::<T, C>(s, base, mid, run),
        sorted_between::<T, C>(s, mid, hi),
    ensures
        runs_sorted::<T, C>(s, base, hi, run),
{
    assert forall|k1: int, k2: int|
        base <= k1 <= k2 < hi && (k1 - base) / run == (k2 - base) / run implies leq::<T, C>(
        s[k1],
        s[k2],
    ) by {
        if k1 < mid && mid <= k2 {
            let q0 = (mid - base) / run;
            vstd::arithmetic::div_mod::lemma_fundamental_div_mod(mid - base, run);
            assert((q0 - 1) * run == run * q0 - run) by (nonlinear_arith);
            vstd::arithmetic::div_mod::lemma_fundamental_div_mod_converse(
                mid - 1 - base,
                run,
                q0 - 1,
                run - 1,
            );
            vstd::arithmetic::div_mod::lemma_div_is_ordered(k1 - base, mid - 1 - base, run);
            vstd::arithmetic::div_mod::lemma_div_is_ordered(mid - base, k2 - base, run);
            assert(false);
        } else if mid <= k1 {
            assert(leq::<T, C>(s[k1], s[k2]));
        }
    }
}

/// An aligned window clipped from a region with sorted windows is sorted.
pub proof fn lemma_runs_window_sorted<T, C: Less<T>>(
    s: Seq<T>,
    base: int,
    hi: int,
    run: int,
    p: int,
    q: int,
)
    requires
        run > 0,
        runs_sorted::<T, C>(s, base, hi, run),
        base <= p <= q <= hi,
        (p - base) % run == 0,
        q <= p + run,
    ensures
        sorted_between::<T, C>(s, p, q),
{
    assert forall|k1: int, k2: int| p <= k1 <= k2 < q implies #[trigger] leq::<T, C>(
        s[k1],
        s[k2],
    ) by {
        lemma_window_of(base, run, p, k1);
        lemma_window_of(base, run, p, k2);
    }
}

/// The sum of two multiples of `m` is a multiple of `m`.
pub proof fn lemma_mod_zero_add(x: int, y: int, m: int)
    requires
        m > 0,
        x % m == 0,
        y % m == 0,
    ensures
        (x + y) % m == 0,
{
    vstd::arithmetic::div_mod::lemma_add_mod_noop(x, y, m);
    vstd::arithmetic::div_mod::lemma_small_mod(0, m as nat);
}

/// A multiple of `2 * m` is a multiple of `m`.
pub proof fn lemma_mod_zero_half(x: int, m: int)
    requires
        m > 0,
        x % (2 * m) == 0,
    ensures
        x % m == 0,
{
    let q = x / (2 * m);
    vstd::arithmetic::div_mod::lemma_fundamental_div_mod(x, 2 * m);
    assert(2 * m * q == (2 * q) * m) by (nonlinear_arith);
    vstd::arithmetic::div_mod::lemma_fundamental_div_mod_converse(x, m, 2 * q, 0);
}

/// Rounding down to a multiple of `m` gives a multiple of `m`.
pub proof fn lemma_mod_sub_rem(x: int, m: int)
    requires
        m > 0,
        0 <= x,
    ensures
        (x - x % m) % m == 0,
{
    let q = x / m;
    vstd::arithmetic::div_mod::lemma_fundamental_div_mod(x, m);
    assert(m * q == q * m) by (nonlinear_arith);
    vstd::arithmetic::div_mod::lemma_fundamental_div_mod_converse(x - x % m, m, q, 0);
}

/// A multiple of `m` that does not exceed `x` does not exceed `x` rounded
/// down to a multiple of `m`.
pub proof fn lemma_multiple_below(x: int, m: int, y: int)
    requires
        m > 0,
        0 <= x,
        y % m == 0,
        y <= x,
    ensures
        y <= x - x % m,
{
    vstd::arithmetic::div_mod::lemma_fundamental_div_mod(x, m);
    vstd::arithmetic::div_mod::lemma_fundamental_div_mod(y, m);
    vstd::arithmetic::div_mod::lemma_div_is_ordered(y, x, m);
    assert(m * (y / m) <= m * (x / m)) by (nonlinear_arith)
        requires
            y / m <= x / m,
            m > 0,
    ;
}

/// An aligned boundary separates window indices.
pub proof fn lemma_window_separates(base: int, run: int, m: int, k1: int, k2: int)
    requires
        run > 0,
        (m - base) % run == 0,
        base <= k1 < m <= k2,
    ensures
        (k1 - base) / run != (k2 - base) / run,
{
    let q0 = (m - base) / run;
    vstd::arithmetic::div_mod::lemma_fundamental_div_mod(m - base, run);
    assert((q0 - 1) * run == run * q0 - run) by (nonlinear_arith);
    vstd::arithmetic::div_mod::lemma_fundamental_div_mod_converse(m - 1 - base, run, q0 - 1, run - 1);
    vstd::arithmetic::div_mod::lemma_div_is_ordered(k1 - base, m - 1 - base, run);
    vstd::arithmetic::div_mod::lemma_div_is_ordered(m - base, k2 - base, run);
}

/// Replacing an aligned stretch of a windowed region by a sorted one keeps
/// every window sorted.
pub proof fn lemma_runs_sorted_patch<T, C: Less<T>>(
    a: Seq<T>,
    b: Seq<T>,
    base: int,
    hi: int,
    run: int,
    p: int,
    e: int,
)
    requires
        run > 0,
        base <= p <= e <= hi,
        (p - base) % run == 0,
        (e - base) % run == 0 || e == hi,
        runs_sorted::<T, C>(a, base, hi, run),
        forall|k: int| base <= k < hi && !(p <= k < e) ==> a[k] == #[trigger] b[k],
        sorted_between::<T, C>(b, p, e),
    ensures
        runs_sorted::<T, C>(b, base, hi, run),
{
    assert forall|k1: int, k2: int|
        base <= k1 <= k2 < hi && (k1 - base) / run == (k2 - base) / run implies #[trigger] leq::<
        T,
        C,
    >(b[k1], b[k2]) by {
        if k2 < p || e <= k1 {
            assert(b[k1] == a[k1]);
            assert(b[k2] == a[k2]);
            assert(leq::<T, C>(a[k1], a[k2]));
        } else if p <= k1 && k2 < e {
            assert(leq::<T, C>(b[k1], b[k2]));
        } else if k1 < p {
            lemma_window_separates(base, run, p, k1, k2);
        } else {
            lemma_window_separates(base, run, e, k1, k2);
        }
    }
}

/// Window sortedness only depends on the elements of the region.
pub proof fn lemma_runs_sorted_stable<T, C: Less<T>>(
    a: Seq<T>,
    b: Seq<T>,
    base: int,
    hi: int,
    run: int,
)
    requires
        runs_sorted::<T, C>(a, base, hi, run),
        forall|k: int| base <= k < hi ==> a[k] == #[trigger] b[k],
    ensures
        runs_sorted::<T, C>(b, base, hi, run),
{
    assert forall|k1: int, k2: int|
        base <= k1 <= k2 < hi && (k1 - base) / run == (k2 - base) / run implies #[trigger] leq::<
        T,
        C,
    >(b[k1], b[k2]) by {
        assert(leq::<T, C>(a[k1], a[k2]));
    }
}

/// Two sorted regions that share their boundary element form one sorted region.
pub proof fn lemma_sorted_glue<T, C: Less<T>>(s: Seq<T>, lo: int, mid: int, hi: int)
    requires
        lo <= mid < hi,
        sorted_between::<T, C>(s, lo, mid + 1),
        sorted_between::<T, C>(s, mid, hi),
    ensures
        sorted_between::<T, C>(s, lo, hi),
{
    assert forall|k1: int, k2: int| lo <= k1 <= k2 < hi implies #[trigger] leq::<T, C>(
        s[k1],
        s[k2],
    ) by {
        if k1 <= mid && mid <= k2 {
            assert(leq::<T, C>(s[k1], s[mid]));
            assert(leq::<T, C>(s[mid], s[k2]));
            lemma_leq_transitive::<T, C>(s[k1], s[mid], s[k2]);
        }
    }
}

/// Return `b` if `is_b` or `a` otherwise.
#[inline(always)]
pub fn conditional<T: Copy>(a: T, b: T, is_b: bool) -> (r: T)
    ensures
        r == if is_b { b } else { a },
{
    if is_b { b } else { a }
}

/// Relies on `<[T]>::swap`: exchanges the elements at indices `i` and `j`.
#[verifier::external_body]
pub(crate) fn vec_swap<T>(v: &mut Vec<T>, i: usize, j: usize)
    requires
        i < old(v)@.len(),
        j < old(v)@.len(),
    ensures
        final(v)@ == old(v)@.update(i as int, old(v)@[j as int]).update(j as int, old(v)@[i as int]),
{
    v.as_mut_slice().swap(i, j);
}

/// Exchanging two positions of a sequence preserves its multiset of elements.
pub proof fn lemma_swap_multiset<T>(s: Seq<T>, i: int, j: int)
    requires
        0 <= i < s.len(),
        0 <= j < s.len(),
    ensures
        s.update(i, s[j]).update(j, s[i]).to_multiset() == s.to_multiset(),
{
    broadcast use vstd::seq_lib::to_multiset_update;
    broadcast use vstd::seq::Seq::to_multiset_ensures;
    broadcast use vstd::multiset::group_multiset_axioms;

    if i == j {
        assert(s.update(i, s[j]).update(j, s[i]) =~= s);
    } else {
        let u1 = s.update(i, s[j]);
        let u2 = u1.update(j, s[i]);
        s.to_multiset_ensures();
        assert(s.contains(s[i]));
        assert(s.contains(s[j]));
        assert(u1.to_multiset() == s.to_multiset().insert(s[j]).remove(s[i]));
        assert(u1[j] == s[j]);
        assert(u2.to_multiset() == u1.to_multiset().insert(s[i]).remove(s[j]));
        assert forall|x: T| u2.to_multiset().count(x) == s.to_multiset().count(x) by {
            assert(s.to_multiset().count(s[i]) > 0);
            assert(s.to_multiset().count(s[j]) > 0);
        }
        assert(u2.to_multiset() =~= s.to_multiset());
    }
}

/// If two sequences agree outside a region and hold equal multisets, the
/// region itself holds equal multisets.
pub proof fn lemma_region_multiset<T>(a: Seq<T>, b: Seq<T>, lo: int, hi: int)
    requires
        0 <= lo <= hi <= a.len(),
        a.len() == b.len(),
        same_outside(a, b, lo, hi),
        a.to_multiset() == b.to_multiset(),
    ensures
        a.subrange(lo, hi).to_multiset() == b.subrange(lo, hi).to_multiset(),
{
    broadcast use vstd::seq_lib::lemma_multiset_commutative;
    broadcast use vstd::multiset::group_multiset_axioms;

    let ln = a.len() as int;
    let a0 = a.subrange(0, lo);
    let am = a.subrange(lo, hi);
    let a1 = a.subrange(hi, ln);
    let b0 = b.subrange(0, lo);
    let bm = b.subrange(lo, hi);
    let b1 = b.subrange(hi, ln);
    assert(a =~= (a0 + am) + a1);
    assert(b =~= (b0 + bm) + b1);
    assert(a0 =~= b0);
    assert(a1 =~= b1);
    assert(((a0 + am) + a1).to_multiset() =~= a0.to_multiset().add(am.to_multiset()).add(
        a1.to_multiset(),
    ));
    assert(((b0 + bm) + b1).to_multiset() =~= b0.to_multiset().add(bm.to_multiset()).add(
        b1.to_multiset(),
    ));
    assert forall|x: T| am.to_multiset().count(x) == bm.to_multiset().count(x) by {
        assert(a.to_multiset().count(x) == a0.to_multiset().count(x) + am.to_multiset().count(x)
            + a1.to_multiset().count(x));
        assert(b.to_multiset().count(x) == b0.to_multiset().count(x) + bm.to_multiset().count(x)
            + b1.to_multiset().count(x));
    }
    assert(am.to_multiset() =~= bm.to_multiset());
}

/// A region's multiset splits at any interior point.
pub proof fn lemma_subrange_ms_split<T>(s: Seq<T>, lo: int, mid: int, hi: int)
    requires
        0 <= lo <= mid <= hi <= s.len(),
    ensures
        s.subrange(lo, hi).to_multiset() == s.subrange(lo, mid).to_multiset().add(
            s.subrange(mid, hi).to_multiset(),
        ),
{
    broadcast use vstd::seq_lib::lemma_multiset_commutative;
    broadcast use vstd::multiset::group_multiset_axioms;

    assert(s.subrange(lo, hi) =~= s.subrange(lo, mid) + s.subrange(mid, hi));
    assert(s.subrange(lo, hi).to_multiset() =~= s.subrange(lo, mid).to_multiset().add(
        s.subrange(mid, hi).to_multiset(),
    ));
}

/// Some position of `[lo, hi)` in `s` holds the value `x`.
pub open spec fn region_has<T>(s: Seq<T>, lo: int, hi: int, x: T) -> bool {
    exists|j: int| lo <= j < hi && s[j] == x
}

/// Every element of the region of `b` also occurs in the region of `a`, when
/// the two sequences agree outside it and hold the same multiset.
pub proof fn lemma_region_values<T>(a: Seq<T>, b: Seq<T>, lo: int, hi: int)
    requires
        0 <= lo <= hi <= a.len(),
        a.len() == b.len(),
        same_outside(a, b, lo, hi),
        a.to_multiset() == b.to_multiset(),
    ensures
        forall|k: int| lo <= k < hi ==> #[trigger] region_has(a, lo, hi, b[k]),
{
    lemma_region_multiset(a, b, lo, hi);
    lemma_region_values_of_multiset(a, b, lo, hi);
}

/// Every element of the region of `b` also occurs in the region of `a`, when
/// the two regions hold the same multiset.
pub proof fn lemma_region_values_of_multiset<T>(a: Seq<T>, b: Seq<T>, lo: int, hi: int)
    requires
        0 <= lo <= hi <= a.len(),
        hi <= b.len(),
        a.subrange(lo, hi).to_multiset() == b.subrange(lo, hi).to_multiset(),
    ensures
        forall|k: int| lo <= k < hi ==> #[trigger] region_has(a, lo, hi, b[k]),
{
    let am = a.subrange(lo, hi);
    let bm = b.subrange(lo, hi);
    am.to_multiset_ensures();
    bm.to_multiset_ensures();
    assert forall|k: int| lo <= k < hi implies #[trigger] region_has(a, lo, hi, b[k]) by {
        assert(bm[k - lo] == b[k]);
        assert(bm.contains(b[k]));
        assert(bm.to_multiset().count(b[k]) > 0);
        assert(am.to_multiset().count(b[k]) > 0);
        assert(am.contains(b[k]));
        let j0 = choose|j0: int| 0 <= j0 < am.len() && am[j0] == b[k];
        assert(0 <= j0 < am.len() && am[j0] == b[k]);
        assert(am[j0] == a[j0 + lo]);
        assert(a[j0 + lo] == b[k]);
    }
}

/// Reverse the region `l..r` in place.
pub fn reverse<T>(v: &mut Vec<T>, l: usize, r: usize)
    requires
        l <= r <= old(v)@.len(),
    ensures
        same_outside(final(v)@, old(v)@, l as int, r as int),
        forall|k: int| l <= k < r ==> final(v)@[k] == old(v)@[l + r - 1 - k],
        final(v)@.to_multiset() == old(v)@.to_multiset(),
{
    let mut lo: usize = l;
    let mut hi: usize = r;

    while hi - lo > 1
        invariant
            l <= lo <= hi <= r <= v@.len(),
            v.len() == old(v)@.len(),
            lo - l == r - hi,
            same_outside(v@, old(v)@, l as int, r as int),
            forall|k: int| l <= k < lo ==> v@[k] == old(v)@[l + r - 1 - k],
            forall|k: int| hi <= k < r ==> v@[k] == old(v)@[l + r - 1 - k],
            forall|k: int| lo <= k < hi ==> v@[k] == old(v)@[k],
            v@.to_multiset() == old(v)@.to_multiset(),
        decreases hi - lo,
    {
        hi = hi - 1;
        let ghost pre = v@;
        vec_swap(v, lo, hi);
        proof {
            lemma_swap_multiset(pre, lo as int, hi as int);
        }
        lo = lo + 1;
    }
}

/// Shift the element at `s` to the left by `cnt` elements, sliding the
/// elements it passes one position to the right.
pub fn insert_left<T>(v: &mut Vec<T>, s: usize, cnt: usize)
    requires
        cnt <= s < old(v)@.len(),
    ensures
        same_outside(final(v)@, old(v)@, s - cnt, s + 1),
        final(v)@[s - cnt] == old(v)@[s as int],
        forall|k: int| s - cnt < k <= s ==> final(v)@[k] == old(v)@[k - 1],
        final(v)@.to_multiset() == old(v)@.to_multiset(),
{
    let mut i: usize = 0;

    while i < cnt
        invariant
            i <= cnt <= s < v@.len(),
            v.len() == old(v)@.len(),
            same_outside(v@, old(v)@, s - cnt, s + 1),
            v@[s - i] == old(v)@[s as int],
            forall|k: int| s - i < k <= s ==> v@[k] == old(v)@[k - 1],
            forall|k: int| s - cnt <= k < s - i ==> v@[k] == old(v)@[k],
            v@.to_multiset() == old(v)@.to_multiset(),
        decreases cnt - i,
    {
        let ghost pre = v@;
        vec_swap(v, s - i, s - i - 1);
        proof {
            lemma_swap_multiset(pre, s - i, s - i - 1);
        }
        i = i + 1;
    }
}

/// Shift the element at `s` to the right by `cnt` elements, sliding the
/// elements it passes one position to the left.
pub fn insert_right<T>(v: &mut Vec<T>, s: usize, cnt: usize)
    requires
        s < old(v)@.len(),
        s + cnt < old(v)@.len(),
    ensures
        same_outside(final(v)@, old(v)@, s as int, s + cnt + 1),
        final(v)@[s + cnt] == old(v)@[s as int],
        forall|k: int| s <= k < s + cnt ==> final(v)@[k] == old(v)@[k + 1],
        final(v)@.to_multiset() == old(v)@.to_multiset(),
{
    let mut i: usize = 0;

    while i < cnt
        invariant
            i <= cnt,
            s + cnt < v@.len(),
            v.len() == old(v)@.len(),
            same_outside(v@, old(v)@, s as int, s + cnt + 1),
            v@[s + i] == old(v)@[s as int],
            forall|k: int| s <= k < s + i ==> v@[k] == old(v)@[k + 1],
            forall|k: int| s + i < k <= s + cnt ==> v@[k] == old(v)@[k],
            v@.to_multiset() == old(v)@.to_multiset(),
        decreases cnt - i,
    {
        let ghost pre = v@;
        vec_swap(v, s + i, s + i + 1);
        proof {
            lemma_swap_multiset(pre, s + i, s + i + 1);
        }
        i = i + 1;
    }
}

/// Exchange the non-overlapping regions `a..a + cnt` and `b..b + cnt`.
pub fn cycle_swap<T>(v: &mut Vec<T>, a: usize, b: usize, cnt: usize)
    requires
        a + cnt <= b || b + cnt <= a,
        a + cnt <= old(v)@.len(),
        b + cnt <= old(v)@.len(),
    ensures
        final(v)@.len() == old(v)@.len(),
        forall|k: int| a <= k < a + cnt ==> final(v)@[k] == old(v)@[k - a + b],
        forall|k: int| b <= k < b + cnt ==> final(v)@[k] == old(v)@[k - b + a],
        forall|k: int|
            0 <= k < old(v)@.len() && !(a <= k < a + cnt) && !(b <= k < b + cnt) ==> final(v)@[k]
                == old(v)@[k],
        final(v)@.to_multiset() == old(v)@.to_multiset(),
{
    let mut i: usize = 0;

    while i < cnt
        invariant
            i <= cnt,
            a + cnt <= b || b + cnt <= a,
            a + cnt <= v@.len(),
            b + cnt <= v@.len(),
            v.len() == old(v)@.len(),
            v@.len() == old(v)@.len(),
            forall|k: int| a <= k < a + i ==> v@[k] == old(v)@[k - a + b],
            forall|k: int| b <= k < b + i ==> v@[k] == old(v)@[k - b + a],
            forall|k: int| a + i <= k < a + cnt ==> v@[k] == old(v)@[k],
            forall|k: int| b + i <= k < b + cnt ==> v@[k] == old(v)@[k],
            forall|k: int|
                0 <= k < old(v)@.len() && !(a <= k < a + cnt) && !(b <= k < b + cnt) ==> v@[k]
                    == old(v)@[k],
            v@.to_multiset() == old(v)@.to_multiset(),
        decreases cnt - i,
    {
        let ghost pre = v@;
        vec_swap(v, a + i, b + i);
        proof {
            lemma_swap_multiset(pre, a + i, b + i);
        }
        i = i + 1;
    }
}

/// Exchange the adjacent regions `s..s + n1` and `s + n1..s + n1 + n2` in
/// place, keeping the order within each region.
///
/// Block swaps shrink the unbalanced side until one side is down to a single
/// element, which is then slid into place; no scratch proportional to either
/// region is used.
pub fn rotate<T>(v: &mut Vec<T>, s: usize, n1: usize, n2: usize)
    requires
        s + n1 + n2 <= old(v)@.len(),
    ensures
        same_outside(final(v)@, old(v)@, s as int, s + n1 + n2),
        forall|k: int| s <= k < s + n2 ==> #[trigger] final(v)@[k] == old(v)@[k + n1],
        forall|k: int| s + n2 <= k < s + n1 + n2 ==> #[trigger] final(v)@[k] == old(v)@[k - n2],
        final(v)@.to_multiset() == old(v)@.to_multiset(),
{
    let ghost tgt: Seq<T> = Seq::new(
        old(v)@.len(),
        |k: int|
            if s <= k < s + n2 {
                old(v)@[k + n1]
            } else if s + n2 <= k < s + n1 + n2 {
                old(v)@[k - n2]
            } else {
                old(v)@[k]
            },
    );

    let mut p: usize = s;
    let mut m1: usize = n1;
    let mut m2: usize = n2;

    while m1 > 1 && m2 > 1
        invariant
            s <= p,
            p + m1 + m2 <= s + n1 + n2,
            s + n1 + n2 <= v@.len(),
            v.len() == old(v)@.len(),
            tgt.len() == old(v)@.len(),
            forall|k: int|
                0 <= k < tgt.len() ==> tgt[k] == (if s <= k < s + n2 {
                    old(v)@[k + n1]
                } else if s + n2 <= k < s + n1 + n2 {
                    old(v)@[k - n2]
                } else {
                    old(v)@[k]
                }),
            same_outside(v@, old(v)@, s as int, s + n1 + n2),
            forall|k: int| s <= k < p ==> v@[k] == tgt[k],
            forall|k: int| p + m1 + m2 <= k < s + n1 + n2 ==> v@[k] == tgt[k],
            forall|k: int| p <= k < p + m2 ==> #[trigger] tgt[k] == v@[k + m1],
            forall|k: int| p + m2 <= k < p + m1 + m2 ==> #[trigger] tgt[k] == v@[k - m2],
            v@.to_multiset() == old(v)@.to_multiset(),
        decreases m1 + m2,
    {
        if m1 > m2 {
            cycle_swap(v, p + m1 - m2, p + m1, m2);
            m1 = m1 - m2;
        } else {
            cycle_swap(v, p, p + m1, m1);
            m2 = m2 - m1;
            p = p + m1;
        }
    }

    let ghost vexit = v@;

    if m1 == 1 {
        insert_right(v, p, m2);
    } else if m2 == 1 {
        insert_left(v, p + m1, m1);
    }

    proof {
        assert forall|k: int| 0 <= k < v@.len() implies #[trigger] v@[k] == tgt[k] by {
            if k < p || p + m1 + m2 <= k {
                assert(v@[k] == vexit[k]);
            } else if m1 == 1 {
                if k < p + m2 {
                    assert(v@[k] == vexit[k + 1]);
                    assert(tgt[k] == vexit[k + 1]);
                } else {
                    assert(k == p + m2);
                    assert(v@[k] == vexit[p as int]);
                    assert(tgt[k] == vexit[k - m2]);
                }
            } else if m2 == 1 {
                if k == p {
                    assert(v@[k] == vexit[p + m1]);
                    assert(tgt[k] == vexit[k + m1]);
                } else {
                    assert(v@[k] == vexit[k - 1]);
                    assert(tgt[k] == vexit[k - m2]);
                }
            } else {
                assert(m1 == 0 || m2 == 0);
                if k < p + m2 {
                    assert(tgt[k] == vexit[k + m1]);
                } else {
                    assert(tgt[k] == vexit[k - m2]);
                }
            }
        }
    }
}

/// Return the value `i` in `0..=n` such that `f` holds on `0..i` and fails
/// on `i..n`, assuming `f` decides the downward-closed predicate `p`.
pub fn lower_bound<F: Fn(usize) -> bool>(
    n: usize,
    f: F,
    Ghost(p): Ghost<spec_fn(int) -> bool>,
) -> (i: usize)
    requires
        forall|j: usize| j < n ==> #[trigger] f.requires((j,)),
        forall|j: usize, r: bool| j < n && #[trigger] f.ensures((j,), r) ==> r == p(j as int),
        forall|j1: int, j2: int| #![trigger p(j1), p(j2)] 0 <= j1 <= j2 < n && p(j2) ==> p(j1),
    ensures
        i <= n,
        forall|j: int| 0 <= j < i ==> #[trigger] p(j),
        forall|j: int| i <= j < n ==> !#[trigger] p(j),
{
    let mut i: usize = 0;
    let mut m: usize = n;

    while m > 0
        invariant
            i + m <= n,
            forall|j: usize| j < n ==> #[trigger] f.requires((j,)),
            forall|j: usize, r: bool| j < n && #[trigger] f.ensures((j,), r) ==> r == p(j as int),
            forall|j1: int, j2: int|
                #![trigger p(j1), p(j2)]
                0 <= j1 <= j2 < n && p(j2) ==> p(j1),
            forall|j: int| 0 <= j < i ==> #[trigger] p(j),
            forall|j: int| i + m <= j < n ==> !#[trigger] p(j),
        decreases m,
    {
        let h = m / 2;
        if f(i + h) {
            proof {
                assert forall|j: int| 0 <= j < i + (m - h) implies #[trigger] p(j) by {
                    if i <= j {
                        assert(p(i + h));
                    }
                }
            }
            i = i + (m - h);
        } else {
            proof {
                assert forall|j: int| i + h <= j < n implies !#[trigger] p(j) by {
                    if j < i + m && p(j) {
                        assert(p(i + h));
                    }
                }
            }
        }
        m = h;
    }

    i
}

/// Return the number of elements in the sorted region `s..s + n` which are
/// `less` than `val`.
pub fn search_left<T, C: Less<T>>(v: &Vec<T>, s: usize, n: usize, val: &T, cmp: &mut C) -> (i: usize)
    requires
        s + n <= v@.len(),
        sorted_between::<T, C>(v@, s as int, s + n),
    ensures
        i <= n,
        forall|j: int| s <= j < s + i ==> C::lt(#[trigger] v@[j], *val),
        forall|j: int| s + i <= j < s + n ==> !C::lt(#[trigger] v@[j], *val),
{
    broadcast use lemma_leq_lt_transitive;

    let mut i: usize = 0;
    let mut m: usize = n;

    while m > 0
        invariant
            s + n <= v@.len(),
            v.len() == v@.len(),
            sorted_between::<T, C>(v@, s as int, s + n),
            i + m <= n,
            forall|j: int| s <= j < s + i ==> C::lt(#[trigger] v@[j], *val),
            forall|j: int| s + i + m <= j < s + n ==> !C::lt(#[trigger] v@[j], *val),
        decreases m,
    {
        let h = m / 2;
        if cmp.less(&v[s + i + h], val) {
            proof {
                assert forall|j: int| s + i <= j < s + i + (m - h) implies C::lt(
                    #[trigger] v@[j],
                    *val,
                ) by {
                    assert(leq::<T, C>(v@[j], v@[s + i + h]));
                    lemma_leq_lt_transitive::<T, C>(v@[j], v@[s + i + h], *val);
                }
            }
            i = i + (m - h);
        } else {
            proof {
                assert forall|j: int| s + i + h <= j < s + n implies !C::lt(
                    #[trigger] v@[j],
                    *val,
                ) by {
                    assert(leq::<T, C>(v@[s + i + h], v@[j]));
                    lemma_leq_lt_transitive::<T, C>(v@[s + i + h], v@[j], *val);
                }
            }
        }
        m = h;
    }

    i
}

/// Return the number of elements in the sorted region `s..s + n` which `val`
/// is not `less` than.
pub fn search_right<T, C: Less<T>>(v: &Vec<T>, s: usize, n: usize, val: &T, cmp: &mut C) -> (i: usize)
    requires
        s + n <= v@.len(),
        sorted_between::<T, C>(v@, s as int, s + n),
    ensures
        i <= n,
        forall|j: int| s <= j < s + i ==> leq::<T, C>(#[trigger] v@[j], *val),
        forall|j: int| s + i <= j < s + n ==> C::lt(*val, #[trigger] v@[j]),
{
    broadcast use lemma_leq_transitive;

    let mut i: usize = 0;
    let mut m: usize = n;

    while m > 0
        invariant
            s + n <= v@.len(),
            v.len() == v@.len(),
            sorted_between::<T, C>(v@, s as int, s + n),
            i + m <= n,
            forall|j: int| s <= j < s + i ==> leq::<T, C>(#[trigger] v@[j], *val),
            forall|j: int| s + i + m <= j < s + n ==> C::lt(*val, #[trigger] v@[j]),
        decreases m,
    {
        let h = m / 2;
        if !cmp.less(val, &v[s + i + h]) {
            proof {
                assert forall|j: int| s + i <= j < s + i + (m - h) implies leq::<T, C>(
                    #[trigger] v@[j],
                    *val,
                ) by {
                    assert(leq::<T, C>(v@[j], v@[s + i + h]));
                    lemma_leq_transitive::<T, C>(v@[j], v@[s + i + h], *val);
                }
            }
            i = i + (m - h);
        } else {
            proof {
                assert forall|j: int| s + i + h <= j < s + n implies C::lt(
                    *val,
                    #[trigger] v@[j],
                ) by {
                    assert(leq::<T, C>(v@[s + i + h], v@[j]));
                    lemma_lt_leq_transitive::<T, C>(*val, v@[s + i + h], v@[j]);
                }
            }
        }
        m = h;
    }

    i
}

/// Return the largest count `e` such that the leftmost `e` elements of the
/// sorted region `s2..s2 + n2` are `less` than the rightmost `e` elements of
/// the sorted region `s1..s1 + n1`, pair by pair.
pub fn block_swap_length<T, C: Less<T>>(
    v: &Vec<T>,
    s1: usize,
    n1: usize,
    s2: usize,
    n2: usize,
    cmp: &mut C,
) -> (e: usize)
    requires
        s1 + n1 <= v@.len(),
        s2 + n2 <= v@.len(),
        sorted_between::<T, C>(v@, s1 as int, s1 + n1),
        sorted_between::<T, C>(v@, s2 as int, s2 + n2),
    ensures
        e <= n1 && e <= n2,
        forall|j: int| 0 <= j < e ==> C::lt(#[trigger] v@[s2 + j], v@[s1 + n1 - 1 - j]),
        forall|j: int| e <= j < usize_min(n1, n2) ==> !C::lt(#[trigger] v@[s2 + j], v@[s1 + n1 - 1 - j]),
{
    broadcast use lemma_leq_lt_transitive;
    broadcast use lemma_lt_leq_transitive;

    let mut i: usize = 0;
    let mut m: usize = if n1 < n2 { n1 } else { n2 };

    while m > 0
        invariant
            s1 + n1 <= v@.len(),
            s2 + n2 <= v@.len(),
            v.len() == v@.len(),
            sorted_between::<T, C>(v@, s1 as int, s1 + n1),
            sorted_between::<T, C>(v@, s2 as int, s2 + n2),
            i + m <= usize_min(n1, n2),
            forall|j: int| 0 <= j < i ==> C::lt(#[trigger] v@[s2 + j], v@[s1 + n1 - 1 - j]),
            forall|j: int|
                i + m <= j < usize_min(n1, n2) ==> !C::lt(#[trigger] v@[s2 + j], v@[s1 + n1 - 1 - j]),
        decreases m,
    {
        let h = m / 2;
        if cmp.less(&v[s2 + i + h], &v[s1 + n1 - 1 - (i + h)]) {
            proof {
                assert forall|j: int| i <= j < i + (m - h) implies C::lt(
                    #[trigger] v@[s2 + j],
                    v@[s1 + n1 - 1 - j],
                ) by {
                    assert(leq::<T, C>(v@[s2 + j], v@[s2 + i + h]));
                    assert(leq::<T, C>(v@[s1 + n1 - 1 - (i + h)], v@[s1 + n1 - 1 - j]));
                    lemma_leq_lt_transitive::<T, C>(v@[s2 + j], v@[s2 + i + h], v@[s1 + n1 - 1 - (i + h)]);
                    lemma_lt_leq_transitive::<T, C>(v@[s2 + j], v@[s1 + n1 - 1 - (i + h)], v@[s1 + n1 - 1 - j]);
                }
            }
            i = i + (m - h);
        } else {
            proof {
                assert forall|j: int| i + h <= j < usize_min(n1, n2) implies !C::lt(
                    #[trigger] v@[s2 + j],
                    v@[s1 + n1 - 1 - j],
                ) by {
                    assert(leq::<T, C>(v@[s2 + i + h], v@[s2 + j]));
                    assert(leq::<T, C>(v@[s1 + n1 - 1 - j], v@[s1 + n1 - 1 - (i + h)]));
                    if C::lt(v@[s2 + j], v@[s1 + n1 - 1 - j]) {
                        lemma_leq_lt_transitive::<T, C>(v@[s2 + i + h], v@[s2 + j], v@[s1 + n1 - 1 - j]);
                        lemma_lt_leq_transitive::<T, C>(v@[s2 + i + h], v@[s1 + n1 - 1 - j], v@[s1 + n1 - 1 - (i + h)]);
                    }
                }
            }
        }
        m = h;
    }

    i
}

/// The smaller of two lengths.
pub open spec fn usize_min(a: usize, b: usize) -> int {
    if a < b {
        a as int
    } else {
        b as int
    }
}

/// A moving vacancy inside a sequence.
///
/// The merge kernels repeatedly move "the next winning element" to a
/// destination slot; the element displaced from that slot travels to the slot
/// the winner came from, by way of the position this struct tracks. At every
/// step the sequence remains a permutation of its original contents.
pub struct Hole {
    /// Position of the vacancy.
    pub pos: usize,
}

impl Hole {
    /// Create a new hole at position `pos`.
    pub fn new(pos: usize) -> (h: Hole)
        ensures
            h.pos == pos,
    {
        Hole { pos }
    }

    /// Cycle one value for merging: the element at `dst` falls into the hole,
    /// the element at `src` moves to `dst`, and the hole moves to `src`.
    pub fn cycle<T>(&mut self, v: &mut Vec<T>, src: usize, dst: usize)
        requires
            old(self).pos < old(v)@.len(),
            src < old(v)@.len(),
            dst < old(v)@.len(),
            src != dst,
            src != old(self).pos,
            dst != old(self).pos,
        ensures
            final(self).pos == src,
            final(v)@.len() == old(v)@.len(),
            final(v)@[old(self).pos as int] == old(v)@[dst as int],
            final(v)@[dst as int] == old(v)@[src as int],
            final(v)@[src as int] == old(v)@[old(self).pos as int],
            forall|k: int|
                0 <= k < old(v)@.len() && k != old(self).pos && k != src && k != dst
                    ==> final(v)@[k] == old(v)@[k],
            final(v)@.to_multiset() == old(v)@.to_multiset(),
    {
        let ghost pre1 = v@;
        vec_swap(v, self.pos, dst);
        proof {
            lemma_swap_multiset(pre1, self.pos as int, dst as int);
        }
        let ghost pre2 = v@;
        vec_swap(v, dst, src);
        proof {
            lemma_swap_multiset(pre2, dst as int, src as int);
        }
        self.pos = src;
    }
}

} // verus!
