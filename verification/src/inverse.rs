//! Inversion and division modulo `2^3072 - 1103717`.
//!
//! `get_inverse` runs batches of divsteps on `(f, g) = (modulus, x)` while
//! keeping `d * x = f` and `e * x = g` modulo the modulus; when `g` reaches
//! zero, `f` is `+-gcd(modulus, x)` and `+-d` is the inverse.
use vstd::prelude::*;
use vstd::arithmetic::power2::{pow2, lemma_pow2_pos, lemma_pow2_unfold};
use vstd::arithmetic::div_mod::{lemma_fundamental_div_mod, lemma_mod_multiples_basic,
    lemma_mod_multiples_vanish, lemma_small_mod, lemma_mul_mod_noop_left,
    lemma_sub_mod_noop};
use crate::bit_lemmas::R;
use crate::limb_math::{wpow, lemma_val_bounds};
use crate::modinv::{rpow, sval, abs, de_ok, lemma_rpow_pos, lemma_sval_take_step, lemma_sval_bounds,
    lemma_sval_update, lemma_modulus_limbs, lemma_lin_bound, update_fg, update_de, Num3072Signed,
    SignedMatrix};
use crate::num3072::{Num3072, modulus, SIGNED_LIMBS, MAX_PRIME_DIFF};
use crate::divsteps::compute_divstep_matrix;

verus! {

/// `x` has an inverse modulo the modulus.
pub open spec fn is_invertible(x: int) -> bool {
    exists|y: int| #[trigger] ((x * y) % modulus()) == 1
}

/// The low limb decides a value modulo `2^62`.
pub proof fn lemma_sval_low(s: Seq<i64>, n: nat)
    requires
        1 <= n <= s.len(),
    ensures
        (sval(s.take(n as int)) - s[0]) % R() == 0,
        sval(s.take(n as int)) % 2 == s[0] % 2,
    decreases n,
{
    if n == 1 {
        lemma_sval_take_step(s, 0);
        assert(s.take(0).len() == 0);
        assert(sval(s.take(0)) == 0);
        assert(rpow(0) == 1);
    } else {
        lemma_sval_low(s, (n - 1) as nat);
        lemma_sval_take_step(s, n - 1);
        let a = sval(s.take(n - 1));
        let t = s[n - 1] as int;
        let rp = rpow((n - 2) as nat);
        assert(rpow((n - 1) as nat) == R() * rp);
        let k = (a - s[0]) / R();
        lemma_fundamental_div_mod(a - s[0], R());
        assert(sval(s.take(n as int)) - s[0] == R() * (k + t * rp)) by (nonlinear_arith)
            requires
                sval(s.take(n as int)) == a + t * (R() * rp),
                a - s[0] == R() * k + 0,
        ;
        lemma_mod_multiples_basic(k + t * rp, R());
    }
    let x = sval(s.take(n as int));
    lemma_fundamental_div_mod(x - s[0], R());
    let j = (x - s[0]) / R();
    assert(x == s[0] + 2 * (j * 0x2000_0000_0000_0000)) by (nonlinear_arith)
        requires
            x - s[0] == R() * j + 0,
    ;
    lemma_mod_multiples_vanish(j * 0x2000_0000_0000_0000, s[0] as int, 2);
}

/// With limbs below the top in `[0, 2^62)`, the top limb carries the sign.
pub proof fn lemma_sval_sign(s: Seq<i64>, n: nat)
    requires
        1 <= n <= s.len(),
        forall|k: int| 0 <= k < n - 1 ==> 0 <= #[trigger] s[k] < R(),
    ensures
        sval(s.take(n as int)) == sval(s.take(n - 1)) + s[n - 1] * rpow((n - 1) as nat),
        0 <= sval(s.take(n - 1)) < rpow((n - 1) as nat),
        (sval(s.take(n as int)) < 0) == (s[n - 1] < 0),
{
    lemma_sval_take_step(s, n - 1);
    lemma_sval_bounds(s.take(n - 1));
    lemma_rpow_pos((n - 1) as nat);
    let a = sval(s.take(n - 1));
    let t = s[n - 1] as int;
    let rp = rpow((n - 1) as nat);
    assert((a + t * rp < 0) == (t < 0)) by (nonlinear_arith)
        requires
            0 <= a < rp,
    ;
}

/// All-zero limbs give zero.
pub proof fn lemma_sval_zero(s: Seq<i64>, n: nat)
    requires
        n <= s.len(),
        forall|k: int| 0 <= k < n ==> #[trigger] s[k] == 0,
    ensures
        sval(s.take(n as int)) == 0,
    decreases n,
{
    if n > 0 {
        lemma_sval_zero(s, (n - 1) as nat);
        lemma_sval_take_step(s, n - 1);
    } else {
        assert(s.take(0).len() == 0);
    }
}

/// An odd modulus can be cancelled from a factor `2^n`.
pub proof fn lemma_cancel_pow2(z: int, m: int, n: nat)
    requires
        m > 0,
        m % 2 == 1,
        (z * pow2(n)) % m == 0,
    ensures
        z % m == 0,
    decreases n,
{
    if n > 0 {
        lemma_pow2_unfold(n);
        let w = z * pow2((n - 1) as nat);
        assert(z * pow2(n) == 2 * w) by (nonlinear_arith)
            requires
                pow2(n) == 2 * pow2((n - 1) as nat),
                w == z * pow2((n - 1) as nat),
        ;
        // 2 w = k m with m odd makes k even.
        let k = (2 * w) / m;
        lemma_fundamental_div_mod(2 * w, m);
        lemma_fundamental_div_mod(k, 2);
        lemma_fundamental_div_mod(m, 2);
        let k2 = k / 2;
        let m2 = m / 2;
        if k % 2 == 1 {
            assert(2 * w == (2 * k2 + 1) * (2 * m2 + 1)) by (nonlinear_arith)
                requires
                    2 * w == m * k + 0,
                    k == 2 * k2 + 1,
                    m == 2 * m2 + 1,
            ;
            assert(2 * w == 2 * (2 * k2 * m2 + k2 + m2) + 1) by (nonlinear_arith)
                requires
                    2 * w == (2 * k2 + 1) * (2 * m2 + 1),
            ;
            assert(false);
        }
        assert(w == m * k2) by (nonlinear_arith)
            requires
                2 * w == m * k + 0,
                k == 2 * k2 + 0,
        ;
        lemma_mod_multiples_basic(k2, m);
        vstd::arithmetic::mul::lemma_mul_is_commutative(m, k2);
        lemma_cancel_pow2(z, m, (n - 1) as nat);
    } else {
        assert(pow2(0) == 1) by {
            vstd::arithmetic::power2::lemma2_to64();
        }
        assert(z * pow2(n) == z) by (nonlinear_arith)
            requires
                pow2(n) == 1,
        ;
    }
}

/// An odd factor can be cancelled modulo `2^n`.
pub proof fn lemma_cancel_odd(q: int, f: int, n: nat)
    requires
        f % 2 == 1,
        (q * f) % (pow2(n) as int) == 0,
    ensures
        q % (pow2(n) as int) == 0,
    decreases n,
{
    lemma_pow2_pos(n);
    if n > 0 {
        lemma_pow2_unfold(n);
        let p1 = pow2((n - 1) as nat) as int;
        let k = (q * f) / (pow2(n) as int);
        lemma_fundamental_div_mod(q * f, pow2(n) as int);
        lemma_fundamental_div_mod(q, 2);
        lemma_fundamental_div_mod(f, 2);
        let q2 = q / 2;
        let f2 = f / 2;
        if q % 2 == 1 {
            assert(q * f == 2 * (2 * q2 * f2 + q2 + f2) + 1) by (nonlinear_arith)
                requires
                    q == 2 * q2 + 1,
                    f == 2 * f2 + 1,
            ;
            assert(q * f == 2 * (p1 * k)) by (nonlinear_arith)
                requires
                    q * f == pow2(n) * k + 0,
                    pow2(n) == 2 * p1,
            ;
            assert(false);
        }
        assert(q2 * f == p1 * k) by (nonlinear_arith)
            requires
                q * f == pow2(n) * k + 0,
                pow2(n) == 2 * p1,
                q == 2 * q2 + 0,
        ;
        lemma_mod_multiples_basic(k, p1);
        vstd::arithmetic::mul::lemma_mul_is_commutative(p1, k);
        lemma_cancel_odd(q2, f, (n - 1) as nat);
        let j = q2 / p1;
        lemma_fundamental_div_mod(q2, p1);
        assert(q == pow2(n) * j) by (nonlinear_arith)
            requires
                q == 2 * q2,
                q2 == p1 * j + 0,
                pow2(n) == 2 * p1,
        ;
        lemma_mod_multiples_basic(j, pow2(n) as int);
        vstd::arithmetic::mul::lemma_mul_is_commutative(pow2(n) as int, j);
    } else {
        assert(pow2(0) == 1) by {
            vstd::arithmetic::power2::lemma2_to64();
        }
    }
}

/// If `g` becomes zero while the modulus and `x` are integer combinations of
/// `f` and `g`, then `f` divides both; for an invertible `x`, `f` is `+-1`.
pub proof fn lemma_unit_gcd(m: int, x: int, f: int, a: int, c: int)
    requires
        m == modulus(),
        m == a * f,
        x == c * f,
        is_invertible(x),
    ensures
        f == 1 || f == -1,
{
    let y = choose|y: int| #[trigger] ((x * y) % modulus()) == 1;
    crate::muhash::lemma_modulus_pos();
    lemma_fundamental_div_mod(x * y, m);
    let t = (x * y) / m;
    assert(f * (c * y - t * a) == 1) by (nonlinear_arith)
        requires
            x * y == m * t + 1,
            m == a * f,
            x == c * f,
    ;
    let z = c * y - t * a;
    assert(f == 1 || f == -1) by (nonlinear_arith)
        requires
            f * z == 1,
    ;
}

/// The modulus is odd.
pub proof fn lemma_modulus_odd()
    ensures
        modulus() % 2 == 1,
        modulus() > 1,
{
    crate::modinv::lemma_modulus_limbs();
    crate::muhash::lemma_modulus_pos();
    lemma_rpow_pos(48);
    assert(rpow(49) == R() * rpow(48));
    let k = 0x2_0000_0000 * rpow(49) - 551859;
    assert(modulus() == 2 * k + 1);
    lemma_mod_multiples_vanish(k, 1, 2);
}


/// `(a + b) * c == a * c + b * c`.
proof fn lemma_distr(a: int, b: int, c: int)
    ensures
        (a + b) * c == a * c + b * c,
        c * (a + b) == c * a + c * b,
{
    vstd::arithmetic::mul::lemma_mul_is_distributive_add_other_way(c, a, b);
    vstd::arithmetic::mul::lemma_mul_is_distributive_add(c, a, b);
}

/// `(n * x - m) R = u (d x - f) + v (e x - g)` modulo the modulus when
/// `n R = u d + v e` and `m R = u f + v g`: the relation `d x = f` passes
/// through a step, and `R = 2^62` cancels.
proof fn lemma_relation_step(x: int, ff: int, gg: int, dd: int, ee: int, u: int, v: int, nf: int, nd: int)
    requires
        (dd * x - ff) % modulus() == 0,
        (ee * x - gg) % modulus() == 0,
        nf * R() == u * ff + v * gg,
        (nd * R() - (u * dd + v * ee)) % modulus() == 0,
    ensures
        (nd * x - nf) % modulus() == 0,
{
    let m = modulus();
    lemma_modulus_odd();
    lemma_fundamental_div_mod(dd * x - ff, m);
    lemma_fundamental_div_mod(ee * x - gg, m);
    lemma_fundamental_div_mod(nd * R() - (u * dd + v * ee), m);
    let s1 = (nd * R() - (u * dd + v * ee)) / m;
    let s2 = (dd * x - ff) / m;
    let s3 = (ee * x - gg) / m;
    let dx = dd * x;
    let ex = ee * x;
    // nd * R = m * s1 + u * dd + v * ee
    let a = nd * R();
    assert(a == m * s1 + u * dd + v * ee);
    lemma_distr(m * s1 + u * dd, v * ee, x);
    lemma_distr(m * s1, u * dd, x);
    vstd::arithmetic::mul::lemma_mul_is_associative(m, s1, x);
    vstd::arithmetic::mul::lemma_mul_is_associative(u, dd, x);
    vstd::arithmetic::mul::lemma_mul_is_associative(v, ee, x);
    // a * x == m * (s1 * x) + u * dx + v * ex
    assert(a * x == m * (s1 * x) + u * dx + v * ex);
    // dx = ff + m * s2, ex = gg + m * s3
    lemma_distr(ff, m * s2, u);
    lemma_distr(gg, m * s3, v);
    assert(u * dx == u * ff + u * (m * s2));
    assert(v * ex == v * gg + v * (m * s3));
    vstd::arithmetic::mul::lemma_mul_is_associative(u, m, s2);
    vstd::arithmetic::mul::lemma_mul_is_associative(v, m, s3);
    vstd::arithmetic::mul::lemma_mul_is_commutative(u, m);
    vstd::arithmetic::mul::lemma_mul_is_commutative(v, m);
    vstd::arithmetic::mul::lemma_mul_is_associative(m, u, s2);
    vstd::arithmetic::mul::lemma_mul_is_associative(m, v, s3);
    // (nd x - nf) R = a x - nf R
    assert((nd * x - nf) * R() == a * x - nf * R()) by (nonlinear_arith)
        requires
            a == nd * R(),
    ;
    let w = s1 * x + u * s2 + v * s3;
    lemma_distr(s1 * x + u * s2, v * s3, m);
    lemma_distr(s1 * x, u * s2, m);
    assert((nd * x - nf) * R() == m * w);
    lemma_mod_multiples_basic(w, m);
    vstd::arithmetic::mul::lemma_mul_is_commutative(m, w);
    vstd::arithmetic::power2::lemma2_to64_rest();
    lemma_cancel_pow2(nd * x - nf, m, 62);
}

/// `a (r f - v g) + b (u g - q f) = (a r - b q) f + (b u - a v) g`.
proof fn lemma_adjugate_comb(a: int, b: int, r: int, v: int, u: int, q: int, nf: int, ng: int)
    ensures
        a * (r * nf - v * ng) + b * (u * ng - q * nf) == (a * r - b * q) * nf + (b * u - a * v) * ng,
{
    assert(a * (r * nf - v * ng) == (a * r) * nf - (a * v) * ng) by (nonlinear_arith);
    assert(b * (u * ng - q * nf) == (b * u) * ng - (b * q) * nf) by (nonlinear_arith);
    assert((a * r - b * q) * nf == (a * r) * nf - (b * q) * nf) by (nonlinear_arith);
    assert((b * u - a * v) * ng == (b * u) * ng - (a * v) * ng) by (nonlinear_arith);
}

/// What one batch with matrix `[u v; q r]` (determinant `2^62`) does to the
/// invariants of the inversion: the relations with `x` stay, the modulus and
/// `x` stay integer combinations of `f` and `g`, `f` stays odd and the
/// values stay within `bound`.
pub proof fn lemma_batch_step(
    x: int,
    ff: int,
    gg: int,
    dd: int,
    ee: int,
    a: int,
    b: int,
    c: int,
    k: int,
    u: int,
    v: int,
    q: int,
    r: int,
    f0: int,
    g0: int,
    nf: int,
    ng: int,
    nd: int,
    ne: int,
    bound: int,
)
    requires
        (dd * x - ff) % modulus() == 0,
        (ee * x - gg) % modulus() == 0,
        modulus() == a * ff + b * gg,
        x == c * ff + k * gg,
        nf * R() == u * ff + v * gg,
        ng * R() == q * ff + r * gg,
        (nd * R() - (u * dd + v * ee)) % modulus() == 0,
        (ne * R() - (q * dd + r * ee)) % modulus() == 0,
        u * r - v * q == R(),
        (ff - f0) % R() == 0,
        (gg - g0) % R() == 0,
        (u * f0 + v * g0) % R() == 0,
        ((u * f0 + v * g0) / R()) % 2 == 1,
        u % 2 == 0,
        v % 2 == 0,
        crate::modinv::abs(u) + crate::modinv::abs(v) <= R(),
        crate::modinv::abs(q) + crate::modinv::abs(r) <= R(),
        crate::modinv::abs(ff) <= bound,
        crate::modinv::abs(gg) <= bound,
    ensures
        (nd * x - nf) % modulus() == 0,
        (ne * x - ng) % modulus() == 0,
        modulus() == (a * r - b * q) * nf + (b * u - a * v) * ng,
        x == (c * r - k * q) * nf + (k * u - c * v) * ng,
        nf % 2 == 1,
        crate::modinv::abs(nf) <= bound,
        crate::modinv::abs(ng) <= bound,
{
    lemma_relation_step(x, ff, gg, dd, ee, u, v, nf, nd);
    lemma_relation_step(x, ff, gg, dd, ee, q, r, ng, ne);
    // f and g in terms of the new values (the matrix times its adjugate is 2^62).
    assert(r * (u * ff + v * gg) - v * (q * ff + r * gg) == (u * r - v * q) * ff)
        by (nonlinear_arith);
    assert(u * (q * ff + r * gg) - q * (u * ff + v * gg) == (u * r - v * q) * gg)
        by (nonlinear_arith);
    assert(r * (nf * R()) - v * (ng * R()) == (r * nf - v * ng) * R()) by (nonlinear_arith);
    assert(u * (ng * R()) - q * (nf * R()) == (u * ng - q * nf) * R()) by (nonlinear_arith);
    assert(r * (nf * R()) == r * (u * ff + v * gg));
    assert(v * (ng * R()) == v * (q * ff + r * gg));
    assert(u * (ng * R()) == u * (q * ff + r * gg));
    assert(q * (nf * R()) == q * (u * ff + v * gg));
    assert(R() * ff == (u * r - v * q) * ff);
    assert(R() * gg == (u * r - v * q) * gg);
    assert(ff == r * nf - v * ng);
    assert(gg == u * ng - q * nf);
    assert(a * ff == a * (r * nf - v * ng));
    assert(b * gg == b * (u * ng - q * nf));
    assert(c * ff == c * (r * nf - v * ng));
    assert(k * gg == k * (u * ng - q * nf));
    lemma_adjugate_comb(a, b, r, v, u, q, nf, ng);
    lemma_adjugate_comb(c, k, r, v, u, q, nf, ng);
    // parity of the new f
    lemma_fundamental_div_mod(ff - f0, R());
    lemma_fundamental_div_mod(gg - g0, R());
    lemma_fundamental_div_mod(u * f0 + v * g0, R());
    lemma_fundamental_div_mod(u, 2);
    lemma_fundamental_div_mod(v, 2);
    let aa = (ff - f0) / R();
    let bb = (gg - g0) / R();
    let cc = (u * f0 + v * g0) / R();
    let u2 = u / 2;
    let v2 = v / 2;
    assert(ff == f0 + R() * aa);
    assert(gg == g0 + R() * bb);
    assert(u * ff == u * (f0 + R() * aa));
    assert(v * gg == v * (g0 + R() * bb));
    assert(u * (f0 + R() * aa) + v * (g0 + R() * bb) == (u * f0 + v * g0) + R() * (u * aa + v * bb))
        by (nonlinear_arith);
    assert(nf * R() == (cc + (u * aa + v * bb)) * R());
    assert(nf == cc + (u * aa + v * bb));
    assert(u * aa == (2 * u2) * aa);
    assert(v * bb == (2 * v2) * bb);
    assert((2 * u2) * aa + (2 * v2) * bb == 2 * (u2 * aa + v2 * bb)) by (nonlinear_arith);
    lemma_mod_multiples_vanish(u2 * aa + v2 * bb, cc, 2);
    // bounds
    crate::modinv::lemma_lin_bound(u, v, ff, gg, bound);
    crate::modinv::lemma_lin_bound(q, r, ff, gg, bound);
}

/// When `g` is zero (and `x` is zero, so `d` is a multiple of the modulus),
/// a batch keeps `g` zero and `d` a multiple of the modulus.
pub proof fn lemma_batch_zero(
    ff: int,
    gg: int,
    dd: int,
    ee: int,
    u: int,
    v: int,
    q: int,
    r: int,
    f0: int,
    g0: int,
    ng: int,
    nd: int,
)
    requires
        gg == 0,
        dd % modulus() == 0,
        f0 % 2 == 1,
        g0 % R() == 0,
        (u * f0 + v * g0) % R() == 0,
        (q * f0 + r * g0) % R() == 0,
        u * r - v * q == R(),
        crate::modinv::abs(u) + crate::modinv::abs(v) <= R(),
        crate::modinv::abs(q) + crate::modinv::abs(r) <= R(),
        v % 2 == 0,
        ng * R() == q * ff + r * gg,
        (nd * R() - (u * dd + v * ee)) % modulus() == 0,
    ensures
        ng == 0,
        nd % modulus() == 0,
{
    vstd::arithmetic::power2::lemma2_to64_rest();
    lemma_fundamental_div_mod(g0, R());
    let j = g0 / R();
    assert(g0 == R() * j);
    assert(r * g0 == R() * (r * j)) by (nonlinear_arith)
        requires
            g0 == R() * j,
    ;
    assert(v * g0 == R() * (v * j)) by (nonlinear_arith)
        requires
            g0 == R() * j,
    ;
    lemma_mod_multiples_vanish(r * j, q * f0, R());
    lemma_mod_multiples_vanish(v * j, u * f0, R());
    lemma_cancel_odd(q, f0, 62);
    lemma_cancel_odd(u, f0, 62);
    lemma_fundamental_div_mod(q, R());
    lemma_fundamental_div_mod(u, R());
    let tq = q / R();
    let tu = u / R();
    assert(q == R() * tq);
    assert(u == R() * tu);
    assert(-1 <= tq <= 1 && -1 <= tu <= 1);
    if tq != 0 {
        assert(r == 0);
        assert(u * r == 0) by (nonlinear_arith)
            requires
                r == 0,
        ;
        assert(v * q == -R());
        if tq == 1 {
            assert(v * q == v * R());
            assert(v == -1);
        } else {
            assert(v * q == v * (-R()));
            assert(v == 1);
        }
        assert(false);
    }
    assert(q == 0);
    assert(v * q == 0) by (nonlinear_arith)
        requires
            q == 0,
    ;
    assert(u * r == R());
    if tu == 0 {
        assert(u == 0);
        assert(u * r == 0) by (nonlinear_arith)
            requires
                u == 0,
        ;
        assert(false);
    }
    assert(v == 0);
    assert(q * ff == 0) by (nonlinear_arith)
        requires
            q == 0,
    ;
    assert(r * gg == 0) by (nonlinear_arith)
        requires
            gg == 0,
    ;
    assert(ng == 0);
    let m = modulus();
    lemma_modulus_odd();
    lemma_fundamental_div_mod(dd, m);
    lemma_fundamental_div_mod(nd * R() - (u * dd + v * ee), m);
    let t1 = dd / m;
    let t2 = (nd * R() - (u * dd + v * ee)) / m;
    assert(dd == m * t1);
    assert(v * ee == 0) by (nonlinear_arith)
        requires
            v == 0,
    ;
    assert(u * dd == u * (m * t1));
    assert(u * (m * t1) == m * (u * t1)) by (nonlinear_arith);
    lemma_distr(t2, u * t1, m);
    assert(nd * R() == m * (t2 + u * t1));
    lemma_mod_multiples_basic(t2 + u * t1, m);
    vstd::arithmetic::mul::lemma_mul_is_commutative(m, t2 + u * t1);
    assert(pow2(62) == R());
    assert(nd * pow2(62) == nd * R());
    lemma_cancel_pow2(nd, m, 62);
}


/// `(a | b) == 0` exactly when both are zero.
proof fn lemma_or_zero(a: i64, b: i64)
    ensures
        ((a | b) == 0) == (a == 0 && b == 0),
{
    assert(((a | b) == 0) == (a == 0 && b == 0)) by (bit_vector);
}

/// With limbs below the top in `[0, 2^62)`, a zero value has all limbs zero.
proof fn lemma_sval_zero_canonical(s: Seq<i64>, n: nat)
    requires
        1 <= n <= s.len(),
        forall|k: int| 0 <= k < n - 1 ==> 0 <= #[trigger] s[k] < R(),
        sval(s.take(n as int)) == 0,
    ensures
        forall|k: int| 0 <= k < n ==> #[trigger] s[k] == 0,
    decreases n,
{
    lemma_sval_sign(s, n);
    let a = sval(s.take(n - 1));
    let t = s[n - 1] as int;
    let rp = rpow((n - 1) as nat);
    assert(t == 0) by (nonlinear_arith)
        requires
            a + t * rp == 0,
            0 <= a < rp,
    ;
    if n > 1 {
        assert(a == 0);
        lemma_sval_zero_canonical(s, (n - 1) as nat);
    }
}

/// Whether the low `len` limbs are all zero.
fn is_zero_prefix(s: &Num3072Signed, len: usize) -> (z: bool)
    requires
        1 <= len <= 50,
    ensures
        z == (forall|k: int| 0 <= k < len ==> #[trigger] s.limbs[k] == 0),
{
    let mut cond: i64 = 0;
    for j in 1..len
        invariant
            1 <= len <= 50,
            (cond == 0) == (forall|k: int| 1 <= k < j ==> #[trigger] s.limbs[k] == 0),
    {
        proof {
            lemma_or_zero(cond, s.limbs[j as int]);
        }
        cond |= s.limbs[j];
    }
    s.limbs[0] == 0 && cond == 0
}

/// The modulus in signed limbs: `-1103717` in limb 0 and `2^34` in limb 49.
fn signed_modulus() -> (f: Num3072Signed)
    ensures
        sval(f.limbs@) == modulus(),
        f.limbs[0] == -1103717,
{
    let mut f = Num3072Signed::zero();
    let ghost z = f.limbs@;
    f.limbs[0] = -(MAX_PRIME_DIFF as i64);
    let ghost z1 = f.limbs@;
    proof {
        assert((1i64 << 34u64) == 0x4_0000_0000i64) by (bit_vector);
    }
    f.limbs[49] = 1i64 << 34u64;
    proof {
        lemma_sval_zero(z, 50);
        assert(z.take(50) == z);
        assert(z1 == z.update(0, -1103717i64));
        assert(f.limbs@ == z1.update(49, 0x4_0000_0000i64));
        lemma_sval_update(z, 0, -1103717i64);
        lemma_sval_update(z1, 49, 0x4_0000_0000i64);
        lemma_modulus_limbs();
        assert(rpow(0) == 1);
    }
    f
}

/// The number 1 in signed limbs.
fn signed_one() -> (e: Num3072Signed)
    ensures
        sval(e.limbs@) == 1,
        de_ok(e.limbs@),
{
    let mut e = Num3072Signed::zero();
    let ghost z = e.limbs@;
    e.limbs[0] = 1;
    proof {
        lemma_sval_zero(z, 50);
        assert(z.take(50) == z);
        assert(e.limbs@ == z.update(0, 1i64));
        lemma_sval_update(z, 0, 1i64);
        assert(rpow(0) == 1);
        crate::muhash::lemma_modulus_pos();
        lemma_modulus_odd();
    }
    e
}

/// One step of the binary gcd on `(f, g)`, `f` odd and positive, `g`
/// positive: `g = g / 2` (case 0), `g = (g - f) / 2` (case 1, `g >= f`) or
/// `(f, g) = (g, (f - g) / 2)` (case 2, `g < f`). The modulus and `x` stay
/// integer combinations of `f` and `g`, and `f + g` decreases.
proof fn lemma_binary_step(case: int, x: int, ff: int, gg: int, a: int, b: int, c: int, k: int, nf: int, ng: int)
    -> (res: (int, int, int, int))
    requires
        0 <= case <= 2,
        modulus() == a * ff + b * gg,
        x == c * ff + k * gg,
        ff >= 1,
        ff % 2 == 1,
        gg >= 1,
        case == 0 ==> nf == ff && gg == 2 * ng,
        case == 1 ==> nf == ff && gg == ff + 2 * ng && ng >= 0,
        case == 2 ==> nf == gg && ff == gg + 2 * ng && gg % 2 == 1 && ng > 0,
    ensures
        modulus() == res.0 * nf + res.1 * ng,
        x == res.2 * nf + res.3 * ng,
        nf >= 1,
        nf % 2 == 1,
        ng >= 0,
        nf + ng < ff + gg,
{
    if case == 0 {
        assert(b * gg == (2 * b) * ng) by (nonlinear_arith)
            requires
                gg == 2 * ng,
        ;
        assert(k * gg == (2 * k) * ng) by (nonlinear_arith)
            requires
                gg == 2 * ng,
        ;
        (a, 2 * b, c, 2 * k)
    } else if case == 1 {
        lemma_distr(ff, 2 * ng, b);
        lemma_distr(ff, 2 * ng, k);
        lemma_distr(a, b, ff);
        lemma_distr(c, k, ff);
        vstd::arithmetic::mul::lemma_mul_is_associative(b, 2, ng);
        vstd::arithmetic::mul::lemma_mul_is_associative(k, 2, ng);
        vstd::arithmetic::mul::lemma_mul_is_commutative(b, 2);
        vstd::arithmetic::mul::lemma_mul_is_commutative(k, 2);
        (a + b, 2 * b, c + k, 2 * k)
    } else {
        lemma_distr(gg, 2 * ng, a);
        lemma_distr(gg, 2 * ng, c);
        lemma_distr(a, b, gg);
        lemma_distr(c, k, gg);
        vstd::arithmetic::mul::lemma_mul_is_associative(a, 2, ng);
        vstd::arithmetic::mul::lemma_mul_is_associative(c, 2, ng);
        vstd::arithmetic::mul::lemma_mul_is_commutative(a, 2);
        vstd::arithmetic::mul::lemma_mul_is_commutative(c, 2);
        (a + b, 2 * a, c + k, 2 * c)
    }
}


/// The three matrices of the binary gcd, scaled by `2^62`: each is exact on
/// the low limbs and has rows of absolute sum `2^62`; applied to `(f, g)`
/// they give the values named in `lemma_binary_step`.
proof fn lemma_binary_matrix(case: int, u: int, v: int, q: int, r: int, f0: int, g0: int)
    requires
        0 <= case <= 2,
        f0 % 2 == 1,
        case == 0 ==> u == 0x4000_0000_0000_0000 && v == 0 && q == 0 && r == 0x2000_0000_0000_0000
            && g0 % 2 == 0,
        case == 1 ==> u == 0x4000_0000_0000_0000 && v == 0 && q == -0x2000_0000_0000_0000 && r
            == 0x2000_0000_0000_0000 && g0 % 2 == 1,
        case == 2 ==> u == 0 && v == 0x4000_0000_0000_0000 && q == 0x2000_0000_0000_0000 && r
            == -0x2000_0000_0000_0000 && g0 % 2 == 1,
    ensures
        (u * f0 + v * g0) % R() == 0,
        (q * f0 + r * g0) % R() == 0,
        abs(u) + abs(v) <= R(),
        abs(q) + abs(r) <= R(),
{
    lemma_fundamental_div_mod(f0, 2);
    lemma_fundamental_div_mod(g0, 2);
    let f2 = f0 / 2;
    let g2 = g0 / 2;
    if case == 0 {
        assert(u * f0 + v * g0 == R() * f0) by (nonlinear_arith)
            requires
                u == 0x4000_0000_0000_0000,
                v == 0,
        ;
        assert(q * f0 + r * g0 == R() * g2) by (nonlinear_arith)
            requires
                q == 0,
                r == 0x2000_0000_0000_0000,
                g0 == 2 * g2 + 0,
        ;
        lemma_mod_multiples_basic(f0, R());
        lemma_mod_multiples_basic(g2, R());
    } else if case == 1 {
        assert(u * f0 + v * g0 == R() * f0) by (nonlinear_arith)
            requires
                u == 0x4000_0000_0000_0000,
                v == 0,
        ;
        assert(q * f0 + r * g0 == R() * (g2 - f2)) by (nonlinear_arith)
            requires
                q == -0x2000_0000_0000_0000,
                r == 0x2000_0000_0000_0000,
                g0 == 2 * g2 + 1,
                f0 == 2 * f2 + 1,
        ;
        lemma_mod_multiples_basic(f0, R());
        lemma_mod_multiples_basic(g2 - f2, R());
    } else {
        assert(u * f0 + v * g0 == R() * g0) by (nonlinear_arith)
            requires
                u == 0,
                v == 0x4000_0000_0000_0000,
        ;
        assert(q * f0 + r * g0 == R() * (f2 - g2)) by (nonlinear_arith)
            requires
                q == 0x2000_0000_0000_0000,
                r == -0x2000_0000_0000_0000,
                g0 == 2 * g2 + 1,
                f0 == 2 * f2 + 1,
        ;
        lemma_mod_multiples_basic(g0, R());
        lemma_mod_multiples_basic(f2 - g2, R());
    }
    vstd::arithmetic::mul::lemma_mul_is_commutative(f0, R());
    vstd::arithmetic::mul::lemma_mul_is_commutative(g0, R());
    vstd::arithmetic::mul::lemma_mul_is_commutative(g2, R());
    vstd::arithmetic::mul::lemma_mul_is_commutative(g2 - f2, R());
    vstd::arithmetic::mul::lemma_mul_is_commutative(f2 - g2, R());
}

/// The values that the three binary-gcd matrices give.
proof fn lemma_binary_values(
    case: int,
    u: int,
    v: int,
    q: int,
    r: int,
    ff: int,
    gg: int,
    nf: int,
    ng: int,
)
    requires
        0 <= case <= 2,
        case == 0 ==> u == 0x4000_0000_0000_0000 && v == 0 && q == 0 && r == 0x2000_0000_0000_0000,
        case == 1 ==> u == 0x4000_0000_0000_0000 && v == 0 && q == -0x2000_0000_0000_0000 && r
            == 0x2000_0000_0000_0000,
        case == 2 ==> u == 0 && v == 0x4000_0000_0000_0000 && q == 0x2000_0000_0000_0000 && r
            == -0x2000_0000_0000_0000,
        nf * R() == u * ff + v * gg,
        ng * R() == q * ff + r * gg,
    ensures
        case == 0 ==> nf == ff && gg == 2 * ng,
        case == 1 ==> nf == ff && gg == ff + 2 * ng,
        case == 2 ==> nf == gg && ff == gg + 2 * ng,
{
    if case == 0 {
        assert(nf * R() == ff * R()) by (nonlinear_arith)
            requires
                nf * R() == u * ff + v * gg,
                u == 0x4000_0000_0000_0000,
                v == 0,
        ;
        assert(ng * R() == gg * 0x2000_0000_0000_0000) by (nonlinear_arith)
            requires
                ng * R() == q * ff + r * gg,
                q == 0,
                r == 0x2000_0000_0000_0000,
        ;
    } else if case == 1 {
        assert(nf * R() == ff * R()) by (nonlinear_arith)
            requires
                nf * R() == u * ff + v * gg,
                u == 0x4000_0000_0000_0000,
                v == 0,
        ;
        assert(ng * R() == (gg - ff) * 0x2000_0000_0000_0000) by (nonlinear_arith)
            requires
                ng * R() == q * ff + r * gg,
                q == -0x2000_0000_0000_0000,
                r == 0x2000_0000_0000_0000,
        ;
    } else {
        assert(nf * R() == gg * R()) by (nonlinear_arith)
            requires
                nf * R() == u * ff + v * gg,
                u == 0,
                v == 0x4000_0000_0000_0000,
        ;
        assert(ng * R() == (ff - gg) * 0x2000_0000_0000_0000) by (nonlinear_arith)
            requires
                ng * R() == q * ff + r * gg,
                q == 0x2000_0000_0000_0000,
                r == -0x2000_0000_0000_0000,
        ;
    }
}

/// From `d x = f` modulo the modulus and `s = +-d` (sign `negate`) to the
/// inverse: `s x = 1` when `f` is `+-1` with the same sign; `s = 0` when `d`
/// is a multiple of the modulus.
proof fn lemma_finish(s: int, dd: int, x: int, ff: int, negate: bool)
    requires
        0 <= s < modulus(),
        s % modulus() == (if negate { -dd } else { dd }) % modulus(),
        (dd * x - ff) % modulus() == 0,
    ensures
        (ff == 1 && !negate) || (ff == -1 && negate) ==> (s * x) % modulus() == 1,
        dd % modulus() == 0 ==> s == 0,
{
    let m = modulus();
    lemma_modulus_odd();
    let sd = if negate { -dd } else { dd };
    vstd::arithmetic::div_mod::lemma_mod_equivalence(s, sd, m);
    lemma_fundamental_div_mod(s - sd, m);
    lemma_fundamental_div_mod(dd * x - ff, m);
    let w = (s - sd) / m;
    let t = (dd * x - ff) / m;
    if (ff == 1 && !negate) || (ff == -1 && negate) {
        let sg = if negate { -1int } else { 1int };
        if negate {
            assert(sg * dd == -dd) by (nonlinear_arith)
                requires
                    sg == -1,
            ;
        } else {
            assert(sg * dd == dd) by (nonlinear_arith)
                requires
                    sg == 1,
            ;
        }
        assert(sd == sg * dd);
        assert(s == sg * dd + m * w);
        lemma_distr(sg * dd, m * w, x);
        vstd::arithmetic::mul::lemma_mul_is_associative(sg, dd, x);
        vstd::arithmetic::mul::lemma_mul_is_associative(m, w, x);
        assert(dd * x == ff + m * t);
        lemma_distr(ff, m * t, sg);
        vstd::arithmetic::mul::lemma_mul_is_associative(sg, m, t);
        vstd::arithmetic::mul::lemma_mul_is_commutative(sg, m);
        vstd::arithmetic::mul::lemma_mul_is_associative(m, sg, t);
        assert(sg * ff == 1);
        lemma_distr(sg * t, w * x, m);
        assert(s * x == 1 + m * (sg * t + w * x));
        lemma_mod_multiples_vanish(sg * t + w * x, 1, m);
        lemma_small_mod(1, m as nat);
    }
    if dd % m == 0 {
        vstd::arithmetic::div_mod::lemma_mod_equivalence(dd, 0, m);
        if negate {
            lemma_sub_mod_noop(0, dd, m);
        }
        lemma_small_mod(s as nat, m as nat);
    }
}

/// The inverse by the binary extended gcd, one step at a time on `(f, g)`
/// starting from `(modulus, x)`. Each step lowers `f + g`, which bounds the
/// number of steps; `get_inverse` falls back on it when its batches of
/// divsteps have not finished within their limit.
fn binary_inverse(x: &Num3072) -> (out: Num3072)
    ensures
        out.value() < modulus(),
        is_invertible(x.value()) ==> (out.value() * x.value()) % modulus() == 1,
        x.value() == 0 ==> out.value() == 0,
{
    let ghost xv = x.value();
    let mut d = Num3072Signed::zero();
    let mut e = signed_one();
    let mut f = signed_modulus();
    let mut g = Num3072Signed::zero();
    g.load_from_num3072(x);
    let ghost mut a: int = 1;
    let ghost mut b: int = 0;
    let ghost mut c: int = 0;
    let ghost mut k: int = 1;
    proof {
        lemma_val_bounds(x.limbs@);
        lemma_modulus_limbs();
        lemma_modulus_odd();
        lemma_sval_zero(d.limbs@, 50);
        assert(d.limbs@.take(50) == d.limbs@);
        assert(b * sval(g.limbs@) == 0) by (nonlinear_arith)
            requires
                b == 0,
        ;
        assert(c * sval(f.limbs@) == 0) by (nonlinear_arith)
            requires
                c == 0,
        ;
        assert(0 * xv == 0);
        assert(sval(e.limbs@) * xv == xv);
        vstd::arithmetic::div_mod::lemma_mod_self_0(modulus());
        assert((0 - modulus()) % modulus() == 0) by {
            lemma_mod_multiples_vanish(-1, 0, modulus());
        }
    }
    loop
        invariant
            xv == x.value(),
            0 <= xv < wpow(48),
            wpow(48) == 0x4_0000_0000 * rpow(49),
            modulus() == wpow(48) - 1103717,
            sval(f.limbs@) >= 1,
            sval(f.limbs@) % 2 == 1,
            sval(g.limbs@) >= 0,
            sval(f.limbs@) + sval(g.limbs@) <= modulus() + xv,
            forall|j: int| 0 <= j < 49 ==> 0 <= #[trigger] g.limbs[j] < R(),
            de_ok(d.limbs@),
            de_ok(e.limbs@),
            (sval(d.limbs@) * xv - sval(f.limbs@)) % modulus() == 0,
            (sval(e.limbs@) * xv - sval(g.limbs@)) % modulus() == 0,
            modulus() == a * sval(f.limbs@) + b * sval(g.limbs@),
            xv == c * sval(f.limbs@) + k * sval(g.limbs@),
            xv == 0 ==> sval(g.limbs@) == 0 && sval(d.limbs@) == 0,
        ensures
            sval(g.limbs@) == 0,
            sval(f.limbs@) >= 1,
            de_ok(d.limbs@),
            (sval(d.limbs@) * xv - sval(f.limbs@)) % modulus() == 0,
            modulus() == a * sval(f.limbs@) + b * sval(g.limbs@),
            xv == c * sval(f.limbs@) + k * sval(g.limbs@),
            xv == 0 ==> sval(d.limbs@) == 0,
        decreases sval(f.limbs@) + sval(g.limbs@),
    {
        let ghost ff = sval(f.limbs@);
        let ghost gg = sval(g.limbs@);
        let ghost dd = sval(d.limbs@);
        let ghost ee = sval(e.limbs@);
        proof {
            assert(g.limbs@.take(50) == g.limbs@);
            assert(f.limbs@.take(50) == f.limbs@);
        }
        if is_zero_prefix(&g, SIGNED_LIMBS) {
            proof {
                lemma_sval_zero(g.limbs@, 50);
            }
            break;
        }
        proof {
            if gg == 0 {
                lemma_sval_zero_canonical(g.limbs@, 50);
                assert(false);
            }
            lemma_sval_low(f.limbs@, 50);
            lemma_sval_low(g.limbs@, 50);
            lemma_rpow_pos(49);
            assert(rpow(50) == R() * rpow(49));
            assert((50 - 1) as nat == 49);
            lemma_lin_bound(0x4000_0000_0000_0000, 0, ff, gg, rpow(50));
            lemma_lin_bound(0, 0x4000_0000_0000_0000, ff, gg, rpow(50));
            lemma_lin_bound(0, 0x2000_0000_0000_0000, ff, gg, rpow(50));
            lemma_lin_bound(-0x2000_0000_0000_0000, 0x2000_0000_0000_0000, ff, gg, rpow(50));
            lemma_lin_bound(0x2000_0000_0000_0000, -0x2000_0000_0000_0000, ff, gg, rpow(50));
        }
        let ghost mut case: int = 0;
        let t = if g.limbs[0] % 2 == 0 {
            SignedMatrix { u: 0x4000_0000_0000_0000, v: 0, q: 0, r: 0x2000_0000_0000_0000 }
        } else {
            let s = SignedMatrix {
                u: 0x4000_0000_0000_0000,
                v: 0,
                q: -0x2000_0000_0000_0000,
                r: 0x2000_0000_0000_0000,
            };
            let mut fc = Num3072Signed { limbs: f.limbs };
            let mut hc = Num3072Signed { limbs: g.limbs };
            proof {
                assert(fc.limbs@ == f.limbs@);
                assert(hc.limbs@ == g.limbs@);
                lemma_binary_matrix(1, s.u as int, s.v as int, s.q as int, s.r as int,
                    f.limbs[0] as int, g.limbs[0] as int);
            }
            update_fg(&mut fc, &mut hc, &s, SIGNED_LIMBS);
            proof {
                assert(hc.limbs@.take(50) == hc.limbs@);
                assert(fc.limbs@.take(50) == fc.limbs@);
                lemma_sval_sign(hc.limbs@, 50);
                lemma_binary_values(1, s.u as int, s.v as int, s.q as int, s.r as int, ff, gg,
                    sval(fc.limbs@), sval(hc.limbs@));
            }
            if hc.limbs[49] >= 0 {
                proof {
                    case = 1;
                }
                s
            } else {
                proof {
                    case = 2;
                }
                SignedMatrix {
                    u: 0,
                    v: 0x4000_0000_0000_0000,
                    q: 0x2000_0000_0000_0000,
                    r: -0x2000_0000_0000_0000,
                }
            }
        };
        let ghost hh = if case == 0 { 0 } else { (gg - ff) / 2 };
        proof {
            lemma_binary_matrix(case, t.u as int, t.v as int, t.q as int, t.r as int,
                f.limbs[0] as int, g.limbs[0] as int);
            assert(case != 0 ==> g.limbs[0] % 2 == 1);
            assert(case == 1 ==> hh >= 0);
            assert(case == 2 ==> hh < 0);
        }
        update_fg(&mut f, &mut g, &t, SIGNED_LIMBS);
        update_de(&mut d, &mut e, &t);
        proof {
            assert(g.limbs@.take(50) == g.limbs@);
            assert(f.limbs@.take(50) == f.limbs@);
            let nf = sval(f.limbs@);
            let ng = sval(g.limbs@);
            lemma_binary_values(case, t.u as int, t.v as int, t.q as int, t.r as int, ff, gg, nf,
                ng);
            lemma_relation_step(xv, ff, gg, dd, ee, t.u as int, t.v as int, nf, sval(d.limbs@));
            lemma_relation_step(xv, ff, gg, dd, ee, t.q as int, t.r as int, ng, sval(e.limbs@));
            let res = lemma_binary_step(case, xv, ff, gg, a, b, c, k, nf, ng);
            a = res.0;
            b = res.1;
            c = res.2;
            k = res.3;
        }
    }
    proof {
        let ff = sval(f.limbs@);
        assert(b * sval(g.limbs@) == 0) by (nonlinear_arith)
            requires
                sval(g.limbs@) == 0,
        ;
        assert(k * sval(g.limbs@) == 0) by (nonlinear_arith)
            requires
                sval(g.limbs@) == 0,
        ;
        if is_invertible(xv) {
            lemma_unit_gcd(modulus(), xv, ff, a, c);
        }
    }
    let ghost dd = sval(d.limbs@);
    d.normalize(false);
    proof {
        lemma_finish(sval(d.limbs@), dd, xv, sval(f.limbs@), false);
        vstd::arithmetic::div_mod::lemma_small_mod(0, modulus() as nat);
    }
    d.to_num3072()
}


/// The test for dropping the top limbs: `len >= 2` and both top limbs are
/// `0` or `-1`.
proof fn lemma_shrink_test(lm2: i64, a: i64, b: i64)
    requires
        -1 <= lm2 <= 48,
    ensures
        (((lm2 >> 63i64) | (a ^ (a >> 63i64)) | (b ^ (b >> 63i64))) == 0) ==> (lm2 >= 0 && (a == 0
            || a == -1) && (b == 0 || b == -1)),
{
    assert((((lm2 >> 63i64) | (a ^ (a >> 63i64)) | (b ^ (b >> 63i64))) == 0) ==> (lm2 >= 0 && (a
        == 0 || a == -1) && (b == 0 || b == -1))) by (bit_vector)
        requires
            -1 <= lm2 <= 48,
    ;
}

/// Folding a top limb of `0` or `-1` into the limb below it.
proof fn lemma_fold_limb(x: i64, t: i64)
    requires
        0 <= x < 0x4000_0000_0000_0000,
        t == 0 || t == -1,
    ensures
        (x | (((t as u64) << 62u64) as i64)) == x + t * 0x4000_0000_0000_0000,
{
    assert((x | (((t as u64) << 62u64) as i64)) == x + t * 0x4000_0000_0000_0000i64) by (bit_vector)
        requires
            0 <= x < 0x4000_0000_0000_0000i64,
            t == 0 || t == -1,
    ;
}

/// Folding the top limb (`0` or `-1`) of `n` limbs into limb `n - 2` keeps
/// the value; such a value is at most `2^(62 (n - 1))` in size.
proof fn lemma_fold(s: Seq<i64>, n: nat, x: i64)
    requires
        2 <= n <= s.len(),
        forall|k: int| 0 <= k < n - 1 ==> 0 <= #[trigger] s[k] < R(),
        s[n - 1] == 0 || s[n - 1] == -1,
        x == s[n - 2] + s[n - 1] * R(),
    ensures
        sval(s.update(n - 2, x).take(n - 1)) == sval(s.take(n as int)),
        abs(sval(s.take(n as int))) <= rpow((n - 1) as nat),
{
    assert(s.update(n - 2, x).take(n - 1) == s.take(n - 1).update(n - 2, x));
    lemma_sval_update(s.take(n - 1), n - 2, x);
    lemma_sval_sign(s, n);
    assert(rpow((n - 1) as nat) == R() * rpow((n - 2) as nat));
    let t = s[n - 1] as int;
    let rp = rpow((n - 2) as nat);
    assert((x - s[n - 2]) * rp == t * (R() * rp)) by (nonlinear_arith)
        requires
            x - s[n - 2] == t * R(),
    ;
}

/// The number of batches of divsteps after which `get_inverse` turns to the
/// binary gcd. Bernstein and Yang's analysis bounds 3072-bit inputs by 143
/// batches; that bound is not proved here, so the loop is capped and the
/// binary gcd, whose termination is proved, gives the same inverse.
pub const DIVSTEP_BATCH_LIMIT: usize = 256;

impl Num3072 {
    /// The inverse modulo the modulus (zero for zero). Batches of divsteps
    /// run on `(f, g) = (modulus, self)`; when `g` becomes zero, `f` is
    /// `+-gcd`, and `d` with the sign of `f` is the inverse.
    pub fn get_inverse(&self) -> (r: Num3072)
        ensures
            r.value() < modulus(),
            is_invertible(self.value()) ==> (r.value() * self.value()) % modulus() == 1,
            self.value() == 0 ==> r.value() == 0,
    {
        let ghost xv = self.value();
        let mut d = Num3072Signed::zero();
        let mut e = signed_one();
        let mut f = signed_modulus();
        let mut g = Num3072Signed::zero();
        g.load_from_num3072(self);
        let mut len = SIGNED_LIMBS;
        let mut eta: i32 = -1;
        let mut batches: usize = 0;
        let ghost mut a: int = 1;
        let ghost mut b: int = 0;
        let ghost mut c: int = 0;
        let ghost mut k: int = 1;
        proof {
            lemma_val_bounds(self.limbs@);
            lemma_modulus_limbs();
            lemma_modulus_odd();
            lemma_rpow_pos(49);
            assert(rpow(50) == R() * rpow(49));
            lemma_sval_zero(d.limbs@, 50);
            assert(d.limbs@.take(50) == d.limbs@);
            assert(f.limbs@.take(50) == f.limbs@);
            assert(g.limbs@.take(50) == g.limbs@);
            assert(b * sval(g.limbs@) == 0) by (nonlinear_arith)
                requires
                    b == 0,
            ;
            assert(c * sval(f.limbs@) == 0) by (nonlinear_arith)
                requires
                    c == 0,
            ;
            assert(sval(e.limbs@) * xv == xv);
            vstd::arithmetic::div_mod::lemma_mod_self_0(modulus());
            lemma_mod_multiples_vanish(-1, 0, modulus());
            lemma_small_mod(0, modulus() as nat);
        }
        loop
            invariant_except_break
                1 <= len <= 50,
                batches <= DIVSTEP_BATCH_LIMIT,
                abs(eta as int) <= 1 + 62 * batches,
                xv == self.value(),
                0 <= xv < wpow(48),
                abs(sval(f.limbs@.take(len as int))) <= rpow(len as nat),
                abs(sval(g.limbs@.take(len as int))) <= rpow(len as nat),
                sval(f.limbs@.take(len as int)) % 2 == 1,
                de_ok(d.limbs@),
                de_ok(e.limbs@),
                (sval(d.limbs@) * xv - sval(f.limbs@.take(len as int))) % modulus() == 0,
                (sval(e.limbs@) * xv - sval(g.limbs@.take(len as int))) % modulus() == 0,
                modulus() == a * sval(f.limbs@.take(len as int)) + b * sval(g.limbs@.take(len as int)),
                xv == c * sval(f.limbs@.take(len as int)) + k * sval(g.limbs@.take(len as int)),
                xv == 0 ==> sval(g.limbs@.take(len as int)) == 0 && sval(d.limbs@) % modulus() == 0,
            ensures
                1 <= len <= 50,
                xv == self.value(),
                sval(g.limbs@.take(len as int)) == 0,
                forall|j: int| 0 <= j < len - 1 ==> 0 <= #[trigger] f.limbs[j] < R(),
                de_ok(d.limbs@),
                (sval(d.limbs@) * xv - sval(f.limbs@.take(len as int))) % modulus() == 0,
                modulus() == a * sval(f.limbs@.take(len as int)) + b * sval(g.limbs@.take(len as int)),
                xv == c * sval(f.limbs@.take(len as int)) + k * sval(g.limbs@.take(len as int)),
                xv == 0 ==> sval(d.limbs@) % modulus() == 0,
            decreases DIVSTEP_BATCH_LIMIT - batches,
        {
            if batches == DIVSTEP_BATCH_LIMIT {
                return binary_inverse(self);
            }
            batches += 1;
            let ghost ff = sval(f.limbs@.take(len as int));
            let ghost gg = sval(g.limbs@.take(len as int));
            let ghost dd = sval(d.limbs@);
            let ghost ee = sval(e.limbs@);
            let ghost f0 = f.limbs[0] as int;
            let ghost g0 = g.limbs[0] as int;
            proof {
                lemma_sval_low(f.limbs@, len as nat);
                lemma_sval_low(g.limbs@, len as nat);
            }
            let t = compute_divstep_matrix(eta, f.limbs[0], g.limbs[0]);
            eta = t.0;
            let m = t.1;
            proof {
                lemma_lin_bound(m.u as int, m.v as int, ff, gg, rpow(len as nat));
                lemma_lin_bound(m.q as int, m.r as int, ff, gg, rpow(len as nat));
                lemma_rpow_pos((len - 1) as nat);
            }
            update_fg(&mut f, &mut g, &m, len);
            update_de(&mut d, &mut e, &m);
            proof {
                let nf = sval(f.limbs@.take(len as int));
                let ng = sval(g.limbs@.take(len as int));
                lemma_batch_step(xv, ff, gg, dd, ee, a, b, c, k, m.u as int, m.v as int,
                    m.q as int, m.r as int, f0, g0, nf, ng, sval(d.limbs@), sval(e.limbs@),
                    rpow(len as nat));
                if xv == 0 {
                    vstd::arithmetic::div_mod::lemma_mod_equivalence(0, g0, R());
                    lemma_batch_zero(ff, gg, dd, ee, m.u as int, m.v as int, m.q as int,
                        m.r as int, f0, g0, ng, sval(d.limbs@));
                }
                let na = a * m.r - b * m.q;
                let nb = b * m.u - a * m.v;
                let nc = c * m.r - k * m.q;
                let nk = k * m.u - c * m.v;
                a = na;
                b = nb;
                c = nc;
                k = nk;
            }
            if is_zero_prefix(&g, len) {
                proof {
                    lemma_sval_zero(g.limbs@, len as nat);
                }
                break;
            }
            let fn_limb = f.limbs[len - 1];
            let gn_limb = g.limbs[len - 1];
            let lm2 = len as i64 - 2;
            let cond = (lm2 >> 63i64) | (fn_limb ^ (fn_limb >> 63i64)) | (gn_limb ^ (gn_limb
                >> 63i64));
            proof {
                lemma_shrink_test(lm2, fn_limb, gn_limb);
            }
            if cond == 0 {
                let ghost of = f.limbs@;
                let ghost og = g.limbs@;
                proof {
                    lemma_fold_limb(f.limbs[len - 2], fn_limb);
                    lemma_fold_limb(g.limbs[len - 2], gn_limb);
                }
                f.limbs[len - 2] = f.limbs[len - 2] | ((f.limbs[len - 1] as u64) << 62u64) as i64;
                g.limbs[len - 2] = g.limbs[len - 2] | ((g.limbs[len - 1] as u64) << 62u64) as i64;
                proof {
                    lemma_fold(of, len as nat, f.limbs[len - 2]);
                    lemma_fold(og, len as nat, g.limbs[len - 2]);
                    assert(f.limbs@ == of.update(len - 2, f.limbs[len - 2]));
                    assert(g.limbs@ == og.update(len - 2, g.limbs[len - 2]));
                }
                len -= 1;
            }
        }
        let ghost ff = sval(f.limbs@.take(len as int));
        proof {
            assert(b * sval(g.limbs@.take(len as int)) == 0) by (nonlinear_arith)
                requires
                    sval(g.limbs@.take(len as int)) == 0,
            ;
            assert(k * sval(g.limbs@.take(len as int)) == 0) by (nonlinear_arith)
                requires
                    sval(g.limbs@.take(len as int)) == 0,
            ;
            if is_invertible(xv) {
                lemma_unit_gcd(modulus(), xv, ff, a, c);
            }
            crate::bit_lemmas::lemma_i64_sign(f.limbs[len - 1]);
            lemma_sval_sign(f.limbs@, len as nat);
        }
        let negate = (f.limbs[len - 1] >> 63i64) != 0;
        let ghost dd = sval(d.limbs@);
        d.normalize(negate);
        proof {
            lemma_finish(sval(d.limbs@), dd, xv, ff, negate);
        }
        d.to_num3072()
    }
}


/// Residues that agree give the same invertibility.
pub proof fn lemma_invertible_residue(a: int, b: int)
    requires
        a % modulus() == b % modulus(),
        is_invertible(a),
    ensures
        is_invertible(b),
{
    let m = modulus();
    crate::muhash::lemma_modulus_pos();
    let y = choose|y: int| #[trigger] ((a * y) % modulus()) == 1;
    lemma_mul_mod_noop_left(a, y, m);
    lemma_mul_mod_noop_left(b, y, m);
    assert(((b * y) % modulus()) == 1);
}

/// What `divide` computes: `fin = s * inv` with `s = old`, `inv * b = 1` and
/// `b = a` modulo the modulus gives `fin * a = old`.
proof fn lemma_divide_result(o: int, s: int, a: int, b: int, inv: int, fin: int)
    requires
        s % modulus() == o % modulus(),
        b % modulus() == a % modulus(),
        (inv * b) % modulus() == 1,
        fin % modulus() == (s * inv) % modulus(),
    ensures
        (fin * a) % modulus() == o % modulus(),
{
    let m = modulus();
    crate::muhash::lemma_modulus_pos();
    lemma_mul_mod_noop_left(fin, a, m);
    lemma_mul_mod_noop_left(s * inv, a, m);
    vstd::arithmetic::mul::lemma_mul_is_associative(s, inv, a);
    vstd::arithmetic::div_mod::lemma_mul_mod_noop_right(inv, a, m);
    vstd::arithmetic::div_mod::lemma_mul_mod_noop_right(inv, b, m);
    assert((inv * a) % m == 1);
    vstd::arithmetic::div_mod::lemma_mul_mod_noop_right(s, inv * a, m);
    lemma_small_mod(1, m as nat);
    assert(s * 1 == s);
}

impl Num3072 {
    /// `self = self / a` modulo the modulus, brought below the modulus; a
    /// divisor that is a multiple of the modulus gives zero.
    pub fn divide(&mut self, a: &Num3072)
        ensures
            final(self).value() < modulus(),
            is_invertible(a.value()) ==> (final(self).value() * a.value()) % modulus() == old(
                self,
            ).value() % modulus(),
            a.value() % modulus() == 0 ==> final(self).value() == 0,
    {
        let ghost o = self.value();
        proof {
            lemma_val_bounds(self.limbs@);
            lemma_val_bounds(a.limbs@);
            crate::muhash::lemma_modulus_pos();
            lemma_mod_multiples_vanish(-1, o, modulus());
            lemma_mod_multiples_vanish(-1, a.value(), modulus());
        }
        if self.is_overflow() {
            self.full_reduce();
        }
        let ghost sv = self.value();
        let ghost bv: int;
        let inv = if a.is_overflow() {
            let mut b = Num3072 { limbs: a.limbs };
            b.full_reduce();
            proof {
                bv = b.value();
                lemma_small_mod(bv as nat, modulus() as nat);
                if is_invertible(a.value()) {
                    lemma_invertible_residue(a.value(), bv);
                }
            }
            b.get_inverse()
        } else {
            proof {
                bv = a.value();
            }
            a.get_inverse()
        };
        proof {
            lemma_small_mod(bv as nat, modulus() as nat);
        }
        self.multiply(&inv);
        proof {
            lemma_val_bounds(self.limbs@);
        }
        let ghost mv = self.value();
        if self.is_overflow() {
            self.full_reduce();
        }
        proof {
            lemma_mod_multiples_vanish(-1, mv, modulus());
            vstd::arithmetic::div_mod::lemma_mod_twice(sv * inv.value(), modulus());
            if is_invertible(a.value()) {
                lemma_divide_result(o, sv, a.value(), bv, inv.value(), self.value());
            }
            if a.value() % modulus() == 0 {
                assert(inv.value() == 0);
                assert(sv * 0 == 0);
                lemma_small_mod(0, modulus() as nat);
                lemma_small_mod(self.value() as nat, modulus() as nat);
            }
        }
    }
}

} // verus!
