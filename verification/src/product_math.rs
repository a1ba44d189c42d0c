//! Schoolbook multiplication of limb sequences: column sums of the product
//! and the identity that the weighted column sums give the product value.
use vstd::prelude::*;
use vstd::arithmetic::mul::*;
use crate::limb_math::{W, wpow, val, lemma_wpow_add, lemma_val_take_step};

verus! {

/// Limb `i` of `s`, zero outside the sequence.
pub open spec fn at(s: Seq<u64>, i: int) -> int {
    if 0 <= i < s.len() {
        s[i] as int
    } else {
        0
    }
}

/// `sum_{lo <= i < hi} a[i] * b[k - i]`.
pub open spec fn csum(a: Seq<u64>, b: Seq<u64>, k: int, lo: int, hi: int) -> int
    decreases hi - lo,
{
    if hi <= lo {
        0
    } else {
        csum(a, b, k, lo, hi - 1) + at(a, hi - 1) * at(b, k - (hi - 1))
    }
}

/// Column `k` of the product of `a` and `b`.
pub open spec fn conv(a: Seq<u64>, b: Seq<u64>, k: int) -> int {
    csum(a, b, k, 0, k + 1)
}

/// `sum_{k < n} conv(a, b, s + k) * W^k`.
pub open spec fn wsum_from(a: Seq<u64>, b: Seq<u64>, s: int, n: nat) -> int
    decreases n,
{
    if n == 0 {
        0
    } else {
        wsum_from(a, b, s, (n - 1) as nat) + conv(a, b, s + n - 1) * wpow((n - 1) as nat)
    }
}

/// `sum_{k < n} at(b, k - m) * W^k`: `b` shifted up by `m` limbs.
pub open spec fn shifted_sum(b: Seq<u64>, m: int, n: nat) -> int
    decreases n,
{
    if n == 0 {
        0
    } else {
        shifted_sum(b, m, (n - 1) as nat) + at(b, n - 1 - m) * wpow((n - 1) as nat)
    }
}

pub proof fn lemma_csum_bounds(a: Seq<u64>, b: Seq<u64>, k: int, lo: int, hi: int)
    requires
        lo <= hi,
    ensures
        0 <= csum(a, b, k, lo, hi) <= (hi - lo) * ((W() - 1) * (W() - 1)),
    decreases hi - lo,
{
    if hi > lo {
        lemma_csum_bounds(a, b, k, lo, hi - 1);
        let x = at(a, hi - 1);
        let y = at(b, k - (hi - 1));
        assert(0 <= x * y <= (W() - 1) * (W() - 1)) by (nonlinear_arith)
            requires
                0 <= x <= W() - 1,
                0 <= y <= W() - 1,
        ;
        assert((hi - 1 - lo) * ((W() - 1) * (W() - 1)) + (W() - 1) * (W() - 1) == (hi - lo) * ((W()
            - 1) * (W() - 1))) by (nonlinear_arith);
    }
}

/// `csum(lo, hi) == csum(lo, mid) + csum(mid, hi)`.
pub proof fn lemma_csum_split(a: Seq<u64>, b: Seq<u64>, k: int, lo: int, mid: int, hi: int)
    requires
        lo <= mid <= hi,
    ensures
        csum(a, b, k, lo, hi) == csum(a, b, k, lo, mid) + csum(a, b, k, mid, hi),
    decreases hi - mid,
{
    if hi > mid {
        lemma_csum_split(a, b, k, lo, mid, hi - 1);
    }
}

/// A column sum over terms that are all zero is zero.
pub proof fn lemma_csum_zero(a: Seq<u64>, b: Seq<u64>, k: int, lo: int, hi: int)
    requires
        forall|i: int| lo <= i < hi ==> at(a, i) == 0 || at(b, k - i) == 0,
    ensures
        csum(a, b, k, lo, hi) == 0,
    decreases hi - lo,
{
    if hi > lo {
        lemma_csum_zero(a, b, k, lo, hi - 1);
        let i = hi - 1;
        if at(a, i) == 0 {
            assert(at(a, i) * at(b, k - i) == 0);
        } else {
            assert(at(a, i) * at(b, k - i) == 0);
        }
    }
}

/// The column sums of `a` against `b` with the last limb of `a` split off.
pub proof fn lemma_csum_drop_last(a: Seq<u64>, b: Seq<u64>, k: int, h: int)
    requires
        a.len() > 0,
        h >= 0,
    ensures
        csum(a, b, k, 0, h) == csum(a.drop_last(), b, k, 0, h) + (if h > a.len() - 1 {
            a.last() * at(b, k - (a.len() - 1))
        } else {
            0
        }),
    decreases h,
{
    if h > 0 {
        lemma_csum_drop_last(a, b, k, h - 1);
        let m = a.len() - 1;
        let i = h - 1;
        if i < m {
            assert(at(a, i) == at(a.drop_last(), i));
        } else if i == m {
            assert(at(a.drop_last(), i) == 0);
            assert(at(a, i) == a.last());
        } else {
            assert(at(a.drop_last(), i) == 0);
            assert(at(a, i) == 0);
        }
    }
}

pub proof fn lemma_conv_drop_last(a: Seq<u64>, b: Seq<u64>, k: int)
    requires
        a.len() > 0,
        k >= 0,
    ensures
        conv(a, b, k) == conv(a.drop_last(), b, k) + a.last() * at(b, k - (a.len() - 1)),
{
    lemma_csum_drop_last(a, b, k, k + 1);
    if !(k + 1 > a.len() - 1) {
        assert(at(b, k - (a.len() - 1)) == 0);
    }
}

/// Column sums of an empty sequence vanish.
pub proof fn lemma_wsum_empty(a: Seq<u64>, b: Seq<u64>, n: nat)
    requires
        a.len() == 0,
    ensures
        wsum_from(a, b, 0, n) == 0,
    decreases n,
{
    if n > 0 {
        lemma_wsum_empty(a, b, (n - 1) as nat);
        lemma_csum_zero(a, b, n - 1, 0, n as int);
    }
}

/// Splitting off the last limb of `a` in the weighted column sums.
pub proof fn lemma_wsum_drop_last(a: Seq<u64>, b: Seq<u64>, n: nat)
    requires
        a.len() > 0,
    ensures
        wsum_from(a, b, 0, n) == wsum_from(a.drop_last(), b, 0, n) + a.last() * shifted_sum(
            b,
            a.len() - 1,
            n,
        ),
    decreases n,
{
    if n > 0 {
        lemma_wsum_drop_last(a, b, (n - 1) as nat);
        lemma_conv_drop_last(a, b, n - 1);
        let c1 = conv(a.drop_last(), b, n - 1);
        let t = a.last() as int;
        let y = at(b, n - 1 - (a.len() - 1));
        let w = wpow((n - 1) as nat);
        assert((c1 + t * y) * w == c1 * w + t * (y * w)) by (nonlinear_arith);
        lemma_mul_is_distributive_add(t, shifted_sum(b, a.len() - 1, (n - 1) as nat), y * w);
    }
}

pub proof fn lemma_shifted_sum_low(b: Seq<u64>, m: int, n: nat)
    requires
        n <= m,
    ensures
        shifted_sum(b, m, n) == 0,
    decreases n,
{
    if n > 0 {
        lemma_shifted_sum_low(b, m, (n - 1) as nat);
        assert(at(b, n - 1 - m) == 0);
    }
}

pub proof fn lemma_shifted_sum_mid(b: Seq<u64>, m: nat, n: nat)
    requires
        m <= n <= m + b.len(),
    ensures
        shifted_sum(b, m as int, n) == wpow(m) * val(b.take(n - m)),
    decreases n,
{
    if n == m {
        lemma_shifted_sum_low(b, m as int, n);
        assert(b.take(0).len() == 0);
        assert(val(b.take(0)) == 0);
        assert(wpow(m) * 0 == 0);
    } else {
        lemma_shifted_sum_mid(b, m, (n - 1) as nat);
        let j = n - 1 - m;
        lemma_val_take_step(b, j);
        lemma_wpow_add(m, j as nat);
        assert((m + j) as nat == (n - 1) as nat);
        assert(at(b, j) == b[j]);
        assert(b.take(n - 1 - m) == b.take(j));
        lemma_mul_is_associative(b[j] as int, wpow(m), wpow(j as nat));
        lemma_mul_is_commutative(b[j] as int, wpow(m));
        lemma_mul_is_associative(wpow(m), b[j] as int, wpow(j as nat));
        lemma_mul_is_distributive_add(wpow(m), val(b.take(j)), b[j] * wpow(j as nat));
    }
}

/// `shifted_sum(b, m, n) == W^m * val(b)` once `n` covers the shifted `b`.
pub proof fn lemma_shifted_sum(b: Seq<u64>, m: nat, n: nat)
    requires
        n >= m + b.len(),
    ensures
        shifted_sum(b, m as int, n) == wpow(m) * val(b),
    decreases n,
{
    if n == m + b.len() {
        lemma_shifted_sum_mid(b, m, n);
        assert(b.take(b.len() as int) == b);
    } else {
        lemma_shifted_sum(b, m, (n - 1) as nat);
        assert(at(b, n - 1 - m) == 0);
    }
}

/// The weighted column sums of a product equal the product of the values.
pub proof fn lemma_wsum_product(a: Seq<u64>, b: Seq<u64>, n: nat)
    requires
        n >= a.len() + b.len(),
    ensures
        wsum_from(a, b, 0, n) == val(a) * val(b),
    decreases a.len(),
{
    if a.len() == 0 {
        lemma_wsum_empty(a, b, n);
    } else {
        let m = (a.len() - 1) as nat;
        lemma_wsum_product(a.drop_last(), b, n);
        lemma_wsum_drop_last(a, b, n);
        lemma_shifted_sum(b, m, n);
        lemma_mul_is_associative(a.last() as int, wpow(m), val(b));
        lemma_mul_is_distributive_add_other_way(val(b), val(a.drop_last()), a.last() * wpow(m));
    }
}

/// Splitting the weighted column sums at column `s`.
pub proof fn lemma_wsum_split(a: Seq<u64>, b: Seq<u64>, s: nat, n: nat)
    ensures
        wsum_from(a, b, 0, s + n) == wsum_from(a, b, 0, s) + wpow(s) * wsum_from(
            a,
            b,
            s as int,
            n,
        ),
    decreases n,
{
    if n > 0 {
        lemma_wsum_split(a, b, s, (n - 1) as nat);
        let c = conv(a, b, s + n - 1);
        lemma_wpow_add(s, (n - 1) as nat);
        assert((s + n - 1) as nat == (s + (n - 1)) as nat);
        lemma_mul_is_associative(c, wpow(s), wpow((n - 1) as nat));
        lemma_mul_is_commutative(c, wpow(s));
        lemma_mul_is_associative(wpow(s), c, wpow((n - 1) as nat));
        lemma_mul_is_distributive_add(
            wpow(s),
            wsum_from(a, b, s as int, (n - 1) as nat),
            c * wpow((n - 1) as nat),
        );
    }
}

/// For 48-limb factors, the high column `48 + j` is the sum over `j + 1 <= i < 48`.
pub proof fn lemma_high_column(a: Seq<u64>, b: Seq<u64>, j: int)
    requires
        a.len() == 48,
        b.len() == 48,
        0 <= j < 48,
    ensures
        conv(a, b, 48 + j) == csum(a, b, 48 + j, j + 1, 48),
{
    lemma_csum_split(a, b, 48 + j, 0, j + 1, 49 + j);
    lemma_csum_split(a, b, 48 + j, j + 1, 48, 49 + j);
    lemma_csum_zero(a, b, 48 + j, 0, j + 1);
    lemma_csum_zero(a, b, 48 + j, 48, 49 + j);
}

/// The weighted column sums of two 48-limb factors, with the upper 48
/// columns folded down by `fold` (a stand-in for `2^3072`).
pub open spec fn folded_sum(a: Seq<u64>, b: Seq<u64>, fold: int, j: nat) -> int {
    wsum_from(a, b, 0, j) + fold * wsum_from(a, b, 48, j)
}

/// The product of two 48-limb values equals the folded sum with `2^3072`
/// in place of the fold factor.
pub proof fn lemma_product_folded(a: Seq<u64>, b: Seq<u64>)
    requires
        a.len() == 48,
        b.len() == 48,
    ensures
        val(a) * val(b) == folded_sum(a, b, wpow(48), 48),
{
    lemma_wsum_product(a, b, 96);
    lemma_wsum_split(a, b, 48, 48);
}

} // verus!
