//! Batches of 62 divsteps computed on the low 64 bits of `f` and `g`.
//!
//! A batch yields the transition matrix `[u v; q r]` that `update_fg` and
//! `update_de` then apply to the full numbers; the matrix is exact because a
//! divstep only looks at the low bits of `f` and `g`.
use vstd::prelude::*;
use vstd::arithmetic::power2::{pow2, lemma_pow2_pos, lemma_pow2_adds, lemma2_to64,
    lemma2_to64_rest, lemma_pow2_strictly_increases};
use vstd::arithmetic::div_mod::{lemma_add_mod_noop, lemma_mul_mod_noop_left, lemma_mod_twice,
    lemma_fundamental_div_mod, lemma_fundamental_div_mod_converse, lemma_sub_mod_noop,
    lemma_small_mod, lemma_mod_multiples_vanish, lemma_mod_multiples_basic, lemma_mod_mod};
use vstd::bits::{lemma_u64_shr_is_div, lemma_u64_shl_is_mul, lemma_u64_low_bits_mask_is_mod,
    low_bits_mask};
use vstd::std_specs::bits::{u64_trailing_zeros, axiom_u64_trailing_zeros};
use crate::bit_lemmas::{R, lemma_u128_shl};
use crate::limb_math::W;
use crate::modinv::{SignedMatrix, abs};
use crate::num3072::{LIMB_SIZE, SIGNED_LIMB_SIZE};

verus! {

/// `2^n` as an integer.
pub open spec fn p2(n: nat) -> int {
    pow2(n) as int
}

/// Equality modulo `2^64`.
pub open spec fn eqw(a: int, b: int) -> bool {
    a % W() == b % W()
}

proof fn lemma_eqw_add(a: int, b: int, c: int, d: int)
    requires
        eqw(a, b),
        eqw(c, d),
    ensures
        eqw(a + c, b + d),
{
    lemma_add_mod_noop(a, c, W());
    lemma_add_mod_noop(b, d, W());
}

proof fn lemma_eqw_mul(a: int, b: int, k: int)
    requires
        eqw(a, b),
    ensures
        eqw(a * k, b * k),
{
    lemma_mul_mod_noop_left(a, k, W());
    lemma_mul_mod_noop_left(b, k, W());
}

proof fn lemma_eqw_neg(a: int, b: int)
    requires
        eqw(a, b),
    ensures
        eqw(-a, -b),
{
    lemma_sub_mod_noop(0, a, W());
    lemma_sub_mod_noop(0, b, W());
}

proof fn lemma_eqw_mod(a: int)
    ensures
        eqw(a % W(), a),
{
    lemma_mod_twice(a, W());
}

/// An `i64` seen as a `u64` is its value modulo `2^64`.
pub(crate) proof fn lemma_i64_to_u64(x: i64)
    ensures
        (x as u64) as int == (x as int) % W(),
{
    assert(x < 0 ==> (x as u64) as i128 == (x as i128) + 0x1_0000_0000_0000_0000i128)
        by (bit_vector);
    if x >= 0 {
        lemma_small_mod(x as nat, W() as nat);
    } else {
        lemma_fundamental_div_mod_converse(x as int, W(), -1, x + W());
    }
}

/// A `u64` holding `v` modulo `2^64`, with `v` in the range of `i64`, is `v` as an `i64`.
proof fn lemma_u64_to_i64(x: u64, v: int)
    requires
        x as int == v % W(),
        -0x8000_0000_0000_0000 <= v < 0x8000_0000_0000_0000,
    ensures
        (x as i64) as int == v,
{
    assert(x >= 0x8000_0000_0000_0000u64 ==> (x as i64) as i128 == (x as i128)
        - 0x1_0000_0000_0000_0000i128) by (bit_vector);
    if v >= 0 {
        lemma_small_mod(v as nat, W() as nat);
    } else {
        lemma_fundamental_div_mod_converse(v, W(), -1, v + W());
    }
}

/// A left shift of a `u64` multiplies by a power of two modulo `2^64`.
proof fn lemma_u64_shl_wrap(x: u64, z: u64)
    requires
        z < 64,
    ensures
        (x << z) as int == (x * pow2(z as nat)) % W(),
{
    assert((x << z) as u128 == ((x as u128) << z) % 0x1_0000_0000_0000_0000u128) by (bit_vector)
        requires
            z < 64,
    ;
    lemma_pow2_pos(z as nat);
    lemma2_to64_rest();
    if z < 63 {
        lemma_pow2_strictly_increases(z as nat, 63);
    }
    assert((x as u128) * pow2(z as nat) <= u128::MAX) by (nonlinear_arith)
        requires
            x < 0x1_0000_0000_0000_0000int,
            0 < pow2(z as nat) <= 0x8000_0000_0000_0000int,
    ;
    lemma_u128_shl(x as u128, z as u32);
    assert(((x as u128) << z) == ((x as u128) << (z as u32))) by (bit_vector)
        requires
            z < 64,
    ;
}

/// `u64::MAX << i` as a sentinel above bit `i`: the trailing zeros of
/// `g | sentinel` stop at `i`, and below that they are the trailing zeros of `g`.
proof fn lemma_sentinel_ctz(g: u64, i: u64, c: u64)
    by (bit_vector)
    requires
        1 <= i <= 62,
        c <= 64,
        c == 64 ==> (g | (0xffff_ffff_ffff_ffffu64 << i)) == 0,
        c < 64 ==> ((g | (0xffff_ffff_ffff_ffffu64 << i)) >> c) & 1 == 1,
        (g | (0xffff_ffff_ffff_ffffu64 << i)) << ((64 - c) as u64) == 0,
    ensures
        c <= i,
        (g >> c) << c == g,
        c < i ==> (g >> c) & 1 == 1,
{
}

/// The trailing zeros `c` of `g | (u64::MAX << i)`: at most `i`, at least the
/// known zero bits `l` of `g`; `g` is `g >> c` times `2^c`, and `g >> c` is odd below `i`.
proof fn lemma_zero_count(g: u64, i: u64, c: u32, l: nat)
    requires
        1 <= i <= 62,
        c == u64_trailing_zeros(g | (0xffff_ffff_ffff_ffffu64 << i)),
        l <= i,
        g as int % p2(l) == 0,
    ensures
        l <= c <= i,
        (g >> (c as u64)) as int == g as int / p2(c as nat),
        g as int == (g >> (c as u64)) as int * p2(c as nat),
        c < i ==> (g >> (c as u64)) as int % 2 == 1,
{
    let vv = g | (0xffff_ffff_ffff_ffffu64 << i);
    axiom_u64_trailing_zeros(vv);
    let cc = c as u64;
    assert((64 - cc) as u64 == 64u64 - cc);
    lemma_sentinel_ctz(g, i, cc);
    let p = p2(cc as nat);
    lemma_pow2_pos(cc as nat);
    lemma_u64_shr_is_div(g, cc);
    let h = g >> cc;
    lemma_fundamental_div_mod(g as int, p);
    assert(h * p <= g) by (nonlinear_arith)
        requires
            g == p * (g as int / p) + g as int % p,
            g as int % p >= 0,
            h == g as int / p,
    ;
    lemma_u64_shl_is_mul(h, cc);
    lemma2_to64();
    lemma_u64_low_bits_mask_is_mod(h, 1);
    assert(low_bits_mask(1) == 1);
    if cc < i {
        assert(h & 1 == 1);
    }
    if c < l {
        lemma_pow2_adds(cc as nat, (l - cc) as nat);
        let k = g as int / p2(l);
        lemma_pow2_pos(l);
        lemma_fundamental_div_mod(g as int, p2(l));
        vstd::arithmetic::power2::lemma_pow2_unfold((l - cc) as nat);
        let e = p2((l - cc - 1) as nat);
        assert(g as int == p * (2 * e * k)) by (nonlinear_arith)
            requires
                g as int == p2(l) * k + g as int % p2(l),
                g as int % p2(l) == 0,
                p2(l) == p * p2((l - cc) as nat),
                p2((l - cc) as nat) == 2 * e,
        ;
        vstd::arithmetic::div_mod::lemma_div_multiples_vanish(2 * e * k, p);
        lemma_mod_multiples_basic(e * k, 2);
        assert(2 * e * k == (e * k) * 2) by (nonlinear_arith);
        assert(false);
    }
}

/// `(u64::MAX >> (64 - limit)) & 255` is the mask of the low `min(limit, 8)` bits.
proof fn lemma_limit_mask(limit: u64)
    requires
        1 <= limit <= 62,
    ensures
        ((0xffff_ffff_ffff_ffffu64 >> ((64 - limit) as u64)) & 255u64) as int == p2(
            (if limit < 8 { limit } else { 8 }) as nat,
        ) - 1,
{
    let s = (64 - limit) as u64;
    lemma_u64_shr_is_div(0xffff_ffff_ffff_ffffu64, s);
    lemma_pow2_adds(s as nat, limit as nat);
    lemma2_to64();
    lemma2_to64_rest();
    lemma_pow2_pos(s as nat);
    lemma_pow2_pos(limit as nat);
    let ps = p2(s as nat);
    let pl = p2(limit as nat);
    assert(0xffff_ffff_ffff_ffffint == ps * (pl - 1) + (ps - 1)) by (nonlinear_arith)
        requires
            ps * pl == 0x1_0000_0000_0000_0000int,
    ;
    lemma_fundamental_div_mod_converse(0xffff_ffff_ffff_ffffint, ps, pl - 1, ps - 1);
    let x = 0xffff_ffff_ffff_ffffu64 >> s;
    assert(x == pl - 1);
    lemma_u64_low_bits_mask_is_mod(x, 8);
    assert(low_bits_mask(8) == 255);
    if limit >= 8 {
        lemma_pow2_adds(8, (limit - 8) as nat);
        let k = p2((limit - 8) as nat);
        lemma_pow2_pos((limit - 8) as nat);
        lemma_fundamental_div_mod_converse(pl - 1, 256, k - 1, 255);
    } else {
        if limit < 7 {
            lemma_pow2_strictly_increases(limit as nat, 7);
        }
        lemma_small_mod((pl - 1) as nat, 256);
    }
}

/// `(f >> 1) & 127` names the row of the table for the odd `f`: `f` is
/// `2 * row + 1` modulo 256.
proof fn lemma_table_row(f: u64)
    requires
        f % 2 == 1,
    ensures
        ((f >> 1u64) & 127u64) < 128,
        f as int % 256 == 2 * ((f >> 1u64) & 127u64) + 1,
{
    lemma2_to64();
    lemma_u64_shr_is_div(f, 1);
    let h = f >> 1u64;
    lemma_u64_low_bits_mask_is_mod(h, 7);
    assert(low_bits_mask(7) == 127);
    let k = h / 128;
    let row = h % 128;
    lemma_fundamental_div_mod(h as int, 128);
    lemma_fundamental_div_mod(f as int, 2);
    assert(f as int == 256 * k + (2 * row + 1));
    lemma_mod_multiples_vanish(k as int, 2 * row + 1, 256);
    lemma_small_mod((2 * row + 1) as nat, 256);
}

/// Adding `f * w` to `g`, with `w = g * NEGINV256[row] mod 2^n` and `n <= 8`,
/// clears the low `n` bits of `g` modulo `2^64`.
proof fn lemma_cancel_low(f: int, g: int, t: int, w: int, gn: int, n: nat)
    requires
        1 <= n <= 8,
        (f * t) % 256 == 255,
        w == ((g * t) % W()) % p2(n),
        gn == (g + f * w) % W(),
    ensures
        gn % p2(n) == 0,
{
    let p = p2(n);
    lemma_pow2_pos(n);
    lemma2_to64();
    lemma2_to64_rest();
    lemma_pow2_adds(n, (8 - n) as nat);
    lemma_pow2_adds(n, (64 - n) as nat);
    let c = p2((8 - n) as nat);
    let d = p2((64 - n) as nat);
    lemma_pow2_pos((64 - n) as nat);
    lemma_mod_mod(g * t, p, d);
    lemma_mod_mod(g + f * w, p, d);
    let a = (f * t) / 256;
    let b = (g * t) / p;
    lemma_fundamental_div_mod(f * t, 256);
    lemma_fundamental_div_mod(g * t, p);
    assert(g + f * w == p * (c * (a + 1) * g - f * b)) by (nonlinear_arith)
        requires
            f * t == 256 * a + 255,
            g * t == p * b + w,
            256 == p * c,
    ;
    lemma_mod_multiples_basic(c * (a + 1) * g - f * b, p);
    vstd::arithmetic::mul::lemma_mul_is_commutative(p, c * (a + 1) * g - f * b);
}

/// `q + u * w` with wrapping operations tracks `qq + uu * w` modulo `2^64`.
proof fn lemma_wrap_mul_add(q: u64, u: u64, w: u64, qq: int, uu: int)
    requires
        q as int == qq % W(),
        u as int == uu % W(),
    ensures
        q.wrapping_add(u.wrapping_mul(w)) as int == (qq + uu * w) % W(),
{
    let t = u.wrapping_mul(w);
    lemma_mul_mod_noop_left(uu, w as int, W());
    assert(t as int == (uu * w) % W());
    lemma_add_mod_noop(qq, uu * w, W());
    lemma_mod_twice(qq, W());
    lemma_mod_twice(uu * w, W());
    let s = q as int + t as int;
    if s >= W() {
        lemma_fundamental_div_mod_converse(s, W(), 1, s - W());
    } else {
        lemma_small_mod(s as nat, W() as nat);
    }
}

/// `0 - x` with a wrapping subtraction tracks `-xx` modulo `2^64`.
proof fn lemma_wrap_neg(x: u64, xx: int)
    requires
        x as int == xx % W(),
    ensures
        0u64.wrapping_sub(x) as int == (-xx) % W(),
{
    lemma_sub_mod_noop(0, xx, W());
    if x > 0 {
        lemma_fundamental_div_mod_converse(-(x as int), W(), -1, W() - x);
    }
}

/// The effect of dividing `g` by `2^z` and multiplying `u`, `v` by `2^z` on the
/// invariants of a batch (`e` divsteps done so far).
proof fn lemma_shift_step(
    uu: int,
    vv: int,
    qq: int,
    rr: int,
    f0: int,
    g0: int,
    f: int,
    g: int,
    gn: int,
    e: nat,
    z: nat,
    l: nat,
)
    requires
        l <= z,
        g == gn * p2(z),
        eqw(uu * f0 + vv * g0, f * p2(e)),
        eqw(qq * f0 + rr * g0, g * p2(e)),
        uu * rr - vv * qq == p2(e),
        abs(uu) + abs(vv) <= p2(e),
        abs(qq) + abs(rr) <= p2(e + l),
    ensures
        eqw((uu * p2(z)) * f0 + (vv * p2(z)) * g0, f * p2(e + z)),
        eqw(qq * f0 + rr * g0, gn * p2(e + z)),
        (uu * p2(z)) * rr - (vv * p2(z)) * qq == p2(e + z),
        abs(uu * p2(z)) + abs(vv * p2(z)) <= p2(e + z),
        abs(qq) + abs(rr) <= p2(e + z),
{
    let pz = p2(z);
    let pe = p2(e);
    lemma_pow2_adds(e, z);
    lemma_pow2_pos(z);
    lemma_pow2_pos(e);
    lemma_eqw_mul(uu * f0 + vv * g0, f * pe, pz);
    assert((uu * f0 + vv * g0) * pz == (uu * pz) * f0 + (vv * pz) * g0) by (nonlinear_arith);
    assert((f * pe) * pz == f * (pe * pz)) by (nonlinear_arith);
    assert(g * pe == gn * (pe * pz)) by (nonlinear_arith)
        requires
            g == gn * pz,
    ;
    assert((uu * pz) * rr - (vv * pz) * qq == (uu * rr - vv * qq) * pz) by (nonlinear_arith);
    assert(abs(uu * pz) + abs(vv * pz) <= pe * pz) by (nonlinear_arith)
        requires
            abs(uu) + abs(vv) <= pe,
            pz > 0,
    ;
    if l < z {
        lemma_pow2_strictly_increases(e + l, e + z);
    }
}

/// The effect of `g += f * w`, `q += u * w`, `r += v * w` with `0 <= w < 2^n`.
proof fn lemma_add_step(
    uu: int,
    vv: int,
    qq: int,
    rr: int,
    f0: int,
    g0: int,
    f: int,
    g: int,
    gn: int,
    w: int,
    e: nat,
    n: nat,
)
    requires
        0 <= w < p2(n),
        eqw(uu * f0 + vv * g0, f * p2(e)),
        eqw(qq * f0 + rr * g0, g * p2(e)),
        eqw(gn, g + f * w),
        uu * rr - vv * qq == p2(e),
        abs(uu) + abs(vv) <= p2(e),
        abs(qq) + abs(rr) <= p2(e),
    ensures
        eqw((qq + uu * w) * f0 + (rr + vv * w) * g0, gn * p2(e)),
        uu * (rr + vv * w) - vv * (qq + uu * w) == p2(e),
        abs(qq + uu * w) + abs(rr + vv * w) <= p2(e + n),
{
    let pe = p2(e);
    let pn = p2(n);
    lemma_pow2_adds(e, n);
    lemma_eqw_mul(uu * f0 + vv * g0, f * pe, w);
    lemma_eqw_add(qq * f0 + rr * g0, g * pe, (uu * f0 + vv * g0) * w, (f * pe) * w);
    lemma_eqw_mul(gn, g + f * w, pe);
    assert((qq + uu * w) * f0 + (rr + vv * w) * g0 == (qq * f0 + rr * g0) + (uu * f0 + vv * g0) * w)
        by (nonlinear_arith);
    assert(g * pe + (f * pe) * w == (g + f * w) * pe) by (nonlinear_arith);
    assert(uu * (rr + vv * w) - vv * (qq + uu * w) == uu * rr - vv * qq) by (nonlinear_arith);
    assert(abs(qq + uu * w) + abs(rr + vv * w) <= pe * pn) by (nonlinear_arith)
        requires
            0 <= w < pn,
            abs(uu) + abs(vv) <= pe,
            abs(qq) + abs(rr) <= pe,
    ;
}

/// `x * 2^z` is even for `z >= 1`.
proof fn lemma_even_shift(x: int, z: nat)
    requires
        z >= 1,
    ensures
        (x * p2(z)) % 2 == 0,
{
    vstd::arithmetic::power2::lemma_pow2_unfold(z);
    assert(x * p2(z) == (x * p2((z - 1) as nat)) * 2) by (nonlinear_arith)
        requires
            p2(z) == 2 * p2((z - 1) as nat),
    ;
    lemma_mod_multiples_basic(x * p2((z - 1) as nat), 2);
}

/// A value equal to `f * 2^62` modulo `2^64` is a multiple of `2^62` whose
/// quotient has the parity of `f`.
proof fn lemma_low62(a: int, f: int)
    requires
        eqw(a, f * R()),
    ensures
        a % R() == 0,
        (a / R()) % 2 == f % 2,
{
    let k = a / W();
    let j = (f * R()) / W();
    lemma_fundamental_div_mod(a, W());
    lemma_fundamental_div_mod(f * R(), W());
    let x = f + 4 * (k - j);
    assert(a == R() * x);
    lemma_mod_multiples_basic(x, R());
    vstd::arithmetic::div_mod::lemma_div_multiples_vanish(x, R());
    lemma_mod_multiples_vanish(2 * (k - j), f, 2);
}

/// `NEGINV256[k]`: the negated inverse of `2 k + 1` modulo 256.
fn neginv256(k: u64) -> (r: u8)
    requires
        k < 128,
    ensures
        ((2 * k + 1) * r) % 256 == 255,
{
    match k {
        0 => 0xFF, 1 => 0x55, 2 => 0x33, 3 => 0x49, 4 => 0xC7, 5 => 0x5D,
        6 => 0x3B, 7 => 0x11, 8 => 0x0F, 9 => 0xE5, 10 => 0xC3, 11 => 0x59,
        12 => 0xD7, 13 => 0xED, 14 => 0xCB, 15 => 0x21, 16 => 0x1F, 17 => 0x75,
        18 => 0x53, 19 => 0x69, 20 => 0xE7, 21 => 0x7D, 22 => 0x5B, 23 => 0x31,
        24 => 0x2F, 25 => 0x05, 26 => 0xE3, 27 => 0x79, 28 => 0xF7, 29 => 0x0D,
        30 => 0xEB, 31 => 0x41, 32 => 0x3F, 33 => 0x95, 34 => 0x73, 35 => 0x89,
        36 => 0x07, 37 => 0x9D, 38 => 0x7B, 39 => 0x51, 40 => 0x4F, 41 => 0x25,
        42 => 0x03, 43 => 0x99, 44 => 0x17, 45 => 0x2D, 46 => 0x0B, 47 => 0x61,
        48 => 0x5F, 49 => 0xB5, 50 => 0x93, 51 => 0xA9, 52 => 0x27, 53 => 0xBD,
        54 => 0x9B, 55 => 0x71, 56 => 0x6F, 57 => 0x45, 58 => 0x23, 59 => 0xB9,
        60 => 0x37, 61 => 0x4D, 62 => 0x2B, 63 => 0x81, 64 => 0x7F, 65 => 0xD5,
        66 => 0xB3, 67 => 0xC9, 68 => 0x47, 69 => 0xDD, 70 => 0xBB, 71 => 0x91,
        72 => 0x8F, 73 => 0x65, 74 => 0x43, 75 => 0xD9, 76 => 0x57, 77 => 0x6D,
        78 => 0x4B, 79 => 0xA1, 80 => 0x9F, 81 => 0xF5, 82 => 0xD3, 83 => 0xE9,
        84 => 0x67, 85 => 0xFD, 86 => 0xDB, 87 => 0xB1, 88 => 0xAF, 89 => 0x85,
        90 => 0x63, 91 => 0xF9, 92 => 0x77, 93 => 0x8D, 94 => 0x6B, 95 => 0xC1,
        96 => 0xBF, 97 => 0x15, 98 => 0xF3, 99 => 0x09, 100 => 0x87, 101 => 0x1D,
        102 => 0xFB, 103 => 0xD1, 104 => 0xCF, 105 => 0xA5, 106 => 0x83, 107 => 0x19,
        108 => 0x97, 109 => 0xAD, 110 => 0x8B, 111 => 0xE1, 112 => 0xDF, 113 => 0x35,
        114 => 0x13, 115 => 0x29, 116 => 0xA7, 117 => 0x3D, 118 => 0x1B, 119 => 0xF1,
        120 => 0xEF, 121 => 0xC5, 122 => 0xA3, 123 => 0x39, 124 => 0xB7, 125 => 0xCD,
        126 => 0xAB, _ => 0x01,
    }
}

/// `(eta, f, g, u, v, q, r)`: the divstep variable `eta`, the current `f`
/// and `g`, and the matrix `[u v; q r]` that takes the starting `(f0, g0)`
/// to `2^k (f, g)` after `k` divsteps.
pub type DivstepState = (int, int, int, int, int, int, int);

/// One divstep (with `eta = -delta`): if `eta < 0` and `g` is odd,
/// `(eta, f, g) = (-eta - 1, g, (g - f) / 2)`; else if `g` is odd,
/// `(eta - 1, f, (g + f) / 2)`; else `(eta - 1, f, g / 2)`. The matrix
/// follows, scaled by 2.
pub open spec fn divstep(s: DivstepState) -> DivstepState {
    if s.0 < 0 && s.2 % 2 == 1 {
        (-s.0 - 1, s.2, (s.2 - s.1) / 2, 2 * s.5, 2 * s.6, s.5 - s.3, s.6 - s.4)
    } else if s.2 % 2 == 1 {
        (s.0 - 1, s.1, (s.2 + s.1) / 2, 2 * s.3, 2 * s.4, s.5 + s.3, s.6 + s.4)
    } else {
        (s.0 - 1, s.1, s.2 / 2, 2 * s.3, 2 * s.4, s.5, s.6)
    }
}

/// `n` divsteps.
pub open spec fn divsteps(s: DivstepState, n: nat) -> DivstepState
    decreases n,
{
    if n == 0 {
        s
    } else {
        divsteps(divstep(s), (n - 1) as nat)
    }
}

/// A batch: 62 divsteps from `(eta, f, g)` with the identity matrix.
pub open spec fn divstep_batch(eta: int, f: int, g: int) -> DivstepState {
    divsteps((eta, f, g, 1, 0, 0, 1), 62)
}

/// The matrix of `s` takes `(f0, g0)` to `2^k (f, g)`, and `f` is odd.
spec fn divstep_rel(s: DivstepState, f0: int, g0: int, k: nat) -> bool {
    &&& s.3 * f0 + s.4 * g0 == s.1 * p2(k)
    &&& s.5 * f0 + s.6 * g0 == s.2 * p2(k)
    &&& s.1 % 2 == 1
}

proof fn lemma_divsteps_split(s: DivstepState, a: nat, b: nat)
    ensures
        divsteps(s, a + b) == divsteps(divsteps(s, a), b),
    decreases a,
{
    if a > 0 {
        lemma_divsteps_split(divstep(s), (a - 1) as nat, b);
        assert((a + b - 1) as nat == ((a - 1) as nat + b) as nat);
    }
}

proof fn lemma_divstep_rel(s: DivstepState, f0: int, g0: int, k: nat)
    requires
        divstep_rel(s, f0, g0, k),
    ensures
        divstep_rel(divstep(s), f0, g0, k + 1),
{
    vstd::arithmetic::power2::lemma_pow2_unfold(k + 1);
    let p = p2(k);
    assert(p2(k + 1) == 2 * p);
    let (eta, f, g, u, v, q, r) = s;
    lemma_fundamental_div_mod(f, 2);
    lemma_fundamental_div_mod(g, 2);
    let t = divstep(s);
    if eta < 0 && g % 2 == 1 {
        assert((2 * q) * f0 + (2 * r) * g0 == 2 * (q * f0 + r * g0)) by (nonlinear_arith);
        assert((q - u) * f0 + (r - v) * g0 == (q * f0 + r * g0) - (u * f0 + v * g0))
            by (nonlinear_arith);
        assert(g * (2 * p) == 2 * (g * p)) by (nonlinear_arith);
        assert((g - f) * p == ((g - f) / 2) * (2 * p)) by (nonlinear_arith)
            requires
                g == 2 * (g / 2) + 1,
                f == 2 * (f / 2) + 1,
        ;
        assert(g * p - f * p == (g - f) * p) by (nonlinear_arith);
    } else if g % 2 == 1 {
        assert((2 * u) * f0 + (2 * v) * g0 == 2 * (u * f0 + v * g0)) by (nonlinear_arith);
        assert((q + u) * f0 + (r + v) * g0 == (q * f0 + r * g0) + (u * f0 + v * g0))
            by (nonlinear_arith);
        assert(f * (2 * p) == 2 * (f * p)) by (nonlinear_arith);
        assert((g + f) * p == ((g + f) / 2) * (2 * p)) by (nonlinear_arith)
            requires
                g == 2 * (g / 2) + 1,
                f == 2 * (f / 2) + 1,
        ;
        assert(g * p + f * p == (g + f) * p) by (nonlinear_arith);
    } else {
        assert((2 * u) * f0 + (2 * v) * g0 == 2 * (u * f0 + v * g0)) by (nonlinear_arith);
        assert(f * (2 * p) == 2 * (f * p)) by (nonlinear_arith);
        assert(g * p == (g / 2) * (2 * p)) by (nonlinear_arith)
            requires
                g == 2 * (g / 2) + 0,
        ;
    }
}

proof fn lemma_divsteps_rel(s: DivstepState, f0: int, g0: int, k: nat, n: nat)
    requires
        divstep_rel(s, f0, g0, k),
    ensures
        divstep_rel(divsteps(s, n), f0, g0, k + n),
    decreases n,
{
    if n > 0 {
        lemma_divstep_rel(s, f0, g0, k);
        lemma_divsteps_rel(divstep(s), f0, g0, k + 1, (n - 1) as nat);
        assert(k + 1 + (n - 1) as nat == k + n);
    }
}

/// `z` divsteps on a `g` with `z` zero low bits only halve `g`.
proof fn lemma_divsteps_even(s: DivstepState, z: nat)
    requires
        s.2 % p2(z) == 0,
    ensures
        divsteps(s, z) == (s.0 - z, s.1, s.2 / p2(z), s.3 * p2(z), s.4 * p2(z), s.5, s.6),
    decreases z,
{
    vstd::arithmetic::power2::lemma2_to64();
    if z > 0 {
        vstd::arithmetic::power2::lemma_pow2_unfold(z);
        let pz1 = p2((z - 1) as nat);
        lemma_pow2_pos((z - 1) as nat);
        lemma_fundamental_div_mod(s.2, p2(z));
        let k = s.2 / p2(z);
        assert(s.2 == 2 * (pz1 * k)) by (nonlinear_arith)
            requires
                s.2 == p2(z) * k + 0,
                p2(z) == 2 * pz1,
        ;
        lemma_mod_multiples_basic(pz1 * k, 2);
        assert(s.2 % 2 == 0);
        let t = divstep(s);
        assert(t.2 == pz1 * k);
        lemma_mod_multiples_basic(k, pz1);
        vstd::arithmetic::mul::lemma_mul_is_commutative(k, pz1);
        lemma_divsteps_even(t, (z - 1) as nat);
        vstd::arithmetic::div_mod::lemma_div_multiples_vanish(k, pz1);
        vstd::arithmetic::div_mod::lemma_div_multiples_vanish(k, p2(z));
        vstd::arithmetic::mul::lemma_mul_is_commutative(k, p2(z));
        assert((2 * s.3) * pz1 == s.3 * p2(z)) by (nonlinear_arith)
            requires
                p2(z) == 2 * pz1,
        ;
        assert((2 * s.4) * pz1 == s.4 * p2(z)) by (nonlinear_arith)
            requires
                p2(z) == 2 * pz1,
        ;
    } else {
        vstd::arithmetic::div_mod::lemma_div_basics(s.2);
        assert(s.3 * 1 == s.3);
        assert(s.4 * 1 == s.4);
    }
}

/// `n` divsteps without a swap (`eta >= n - 1`) add `w f` to `g` and halve
/// `n` times, where `0 <= w < 2^n` makes `g + w f` a multiple of `2^n`.
proof fn lemma_divsteps_add(s: DivstepState, n: nat, w: int)
    requires
        s.0 >= n - 1,
        s.1 % 2 == 1,
        0 <= w < p2(n),
        (s.2 + w * s.1) % p2(n) == 0,
    ensures
        divsteps(s, n) == (s.0 - n, s.1, (s.2 + w * s.1) / p2(n), s.3 * p2(n), s.4 * p2(n), s.5 + w
            * s.3, s.6 + w * s.4),
    decreases n,
{
    vstd::arithmetic::power2::lemma2_to64();
    let (eta, f, g, u, v, q, r) = s;
    if n == 0 {
        assert(p2(0) == 1);
        assert(w == 0);
        assert(w * f == 0 && w * u == 0 && w * v == 0) by (nonlinear_arith)
            requires
                w == 0,
        ;
        assert(u * 1 == u && v * 1 == v);
        vstd::arithmetic::div_mod::lemma_div_basics(g + w * f);
        assert(g + w * f == g);
        assert(divsteps(s, 0) == s);
    } else {
        vstd::arithmetic::power2::lemma_pow2_unfold(n);
        let p1 = p2((n - 1) as nat);
        lemma_pow2_pos((n - 1) as nat);
        lemma_fundamental_div_mod(g + w * f, p2(n));
        let k = (g + w * f) / p2(n);
        lemma_fundamental_div_mod(g, 2);
        lemma_fundamental_div_mod(w, 2);
        lemma_fundamental_div_mod(f, 2);
        let w1 = w / 2;
        assert(g + w * f == 2 * (p1 * k)) by (nonlinear_arith)
            requires
                g + w * f == p2(n) * k + 0,
                p2(n) == 2 * p1,
        ;
        // g and w have the same parity, f being odd.
        assert(w * f == 2 * (2 * (w / 2) * (f / 2) + w / 2 + (w % 2) * (f / 2)) + w % 2)
            by (nonlinear_arith)
            requires
                w == 2 * (w / 2) + w % 2,
                f == 2 * (f / 2) + 1,
        ;
        let xx = g / 2 + 2 * (w / 2) * (f / 2) + w / 2 + (w % 2) * (f / 2);
        if (g % 2 == 1) != (w % 2 == 1) {
            assert(g + w * f == 2 * xx + 1);
            lemma_mod_multiples_vanish(xx, 1, 2);
            lemma_mod_multiples_vanish(p1 * k, 0, 2);
            assert(false);
        }
        let t = divstep(s);
        assert(t.0 == eta - 1 && t.1 == f);
        assert(0 <= w1 < p1);
        if g % 2 == 1 {
            assert(t.2 + w1 * f == p1 * k) by (nonlinear_arith)
                requires
                    t.2 == (g + f) / 2,
                    g + f == 2 * ((g + f) / 2) + 0,
                    g + w * f == 2 * (p1 * k),
                    w == 2 * w1 + 1,
            ;
            assert((g + f) % 2 == 0) by (nonlinear_arith)
                requires
                    g == 2 * (g / 2) + 1,
                    f == 2 * (f / 2) + 1,
            ;
            lemma_fundamental_div_mod(g + f, 2);
            assert(t.5 + w1 * t.3 == q + w * u) by (nonlinear_arith)
                requires
                    t.5 == q + u,
                    t.3 == 2 * u,
                    w == 2 * w1 + 1,
            ;
            assert(t.6 + w1 * t.4 == r + w * v) by (nonlinear_arith)
                requires
                    t.6 == r + v,
                    t.4 == 2 * v,
                    w == 2 * w1 + 1,
            ;
        } else {
            assert(t.2 + w1 * f == p1 * k) by (nonlinear_arith)
                requires
                    t.2 == g / 2,
                    g == 2 * (g / 2) + 0,
                    g + w * f == 2 * (p1 * k),
                    w == 2 * w1 + 0,
            ;
            assert(t.5 + w1 * t.3 == q + w * u) by (nonlinear_arith)
                requires
                    t.5 == q,
                    t.3 == 2 * u,
                    w == 2 * w1 + 0,
            ;
            assert(t.6 + w1 * t.4 == r + w * v) by (nonlinear_arith)
                requires
                    t.6 == r,
                    t.4 == 2 * v,
                    w == 2 * w1 + 0,
            ;
        }
        lemma_mod_multiples_basic(k, p1);
        vstd::arithmetic::mul::lemma_mul_is_commutative(k, p1);
        lemma_divsteps_add(t, (n - 1) as nat, w1);
        vstd::arithmetic::div_mod::lemma_div_multiples_vanish(k, p1);
        vstd::arithmetic::div_mod::lemma_div_multiples_vanish(k, p2(n));
        vstd::arithmetic::mul::lemma_mul_is_commutative(k, p2(n));
        assert((2 * u) * p1 == u * p2(n)) by (nonlinear_arith)
            requires
                p2(n) == 2 * p1,
        ;
        assert((2 * v) * p1 == v * p2(n)) by (nonlinear_arith)
            requires
                p2(n) == 2 * p1,
        ;
    }
}

/// A swapping divstep from `s` equals the plain divstep from the swapped
/// state `(-eta, g, -f, q, r, -u, -v)`.
proof fn lemma_divstep_swap(s: DivstepState)
    requires
        s.0 < 0,
        s.1 % 2 == 1,
        s.2 % 2 == 1,
    ensures
        divstep(s) == divstep((-s.0, s.2, -s.1, s.5, s.6, -s.3, -s.4)),
{
    lemma_fundamental_div_mod(s.1, 2);
    lemma_fundamental_div_mod(-s.1, 2);
}

/// Equal modulo `2^64` after scaling by `2^k` means equal modulo `2^n`
/// for `n <= 64 - k`.
proof fn lemma_eqw_unscale(a: int, b: int, k: nat, n: nat)
    requires
        eqw(a * p2(k), b * p2(k)),
        k + n <= 64,
    ensures
        (a - b) % p2(n) == 0,
{
    lemma2_to64_rest();
    lemma_pow2_adds(k, (64 - k) as nat);
    lemma_pow2_adds(n, (64 - k - n) as nat);
    lemma_pow2_pos(k);
    lemma_pow2_pos(n);
    let m = (64 - k - n) as nat;
    lemma_pow2_pos(m);
    vstd::arithmetic::div_mod::lemma_mod_equivalence(a * p2(k), b * p2(k), W());
    lemma_fundamental_div_mod(a * p2(k) - b * p2(k), W());
    let t = (a * p2(k) - b * p2(k)) / W();
    assert((a - b) * p2(k) == (p2(n) * (p2(m) * t)) * p2(k)) by (nonlinear_arith)
        requires
            a * p2(k) - b * p2(k) == W() * t + 0,
            W() == p2(k) * p2((64 - k) as nat),
            p2((64 - k) as nat) == p2(n) * p2(m),
    ;
    assert(a - b == p2(n) * (p2(m) * t)) by (nonlinear_arith)
        requires
            (a - b) * p2(k) == (p2(n) * (p2(m) * t)) * p2(k),
            p2(k) > 0,
    ;
    lemma_mod_multiples_basic(p2(m) * t, p2(n));
    vstd::arithmetic::mul::lemma_mul_is_commutative(p2(n), p2(m) * t);
}

/// The state of a batch after `e` divsteps: `u`, `v`, `q`, `r` hold the
/// matrix entries `uu`, `vv`, `qq`, `rr` modulo `2^64`; `f` (odd) and `g`
/// (with `l` known zero bits) are the low bits of the transformed inputs.
#[verifier::opaque]
spec fn batch_state(
    uu: int,
    vv: int,
    qq: int,
    rr: int,
    f0: int,
    g0: int,
    u: u64,
    v: u64,
    q: u64,
    r: u64,
    f: u64,
    g: u64,
    e: nat,
    l: nat,
) -> bool {
    &&& f % 2 == 1
    &&& g as int % p2(l) == 0
    &&& u as int == uu % W()
    &&& v as int == vv % W()
    &&& q as int == qq % W()
    &&& r as int == rr % W()
    &&& eqw(uu * f0 + vv * g0, f * p2(e))
    &&& eqw(qq * f0 + rr * g0, g * p2(e))
    &&& uu * rr - vv * qq == p2(e)
    &&& abs(uu) + abs(vv) <= p2(e)
    &&& abs(qq) + abs(rr) <= p2(e + l)
}

proof fn lemma_state_bits(
    uu: int,
    vv: int,
    qq: int,
    rr: int,
    f0: int,
    g0: int,
    u: u64,
    v: u64,
    q: u64,
    r: u64,
    f: u64,
    g: u64,
    e: nat,
    l: nat,
)
    requires
        batch_state(uu, vv, qq, rr, f0, g0, u, v, q, r, f, g, e, l),
    ensures
        f % 2 == 1,
        g as int % p2(l) == 0,
{
    reveal(batch_state);
}

proof fn lemma_start_block(f: i64, g: i64)
    ensures
        batch_state(1, 0, 0, 1, f as int, g as int, 1, 0, 0, 1, f as u64, g as u64, 0, 0)
            <== f % 2 == 1,
{
    reveal(batch_state);
    lemma_i64_to_u64(f);
    lemma_i64_to_u64(g);
    lemma2_to64();
    lemma_eqw_mod(f as int);
    lemma_eqw_mod(g as int);
    lemma_small_mod(1, W() as nat);
    lemma_small_mod(0, W() as nat);
    lemma_mod_mod(f as int, 2, 0x8000_0000_0000_0000);
}

/// Dropping `z` known zero bits of `g`: `g /= 2^z`, `u *= 2^z`, `v *= 2^z`.
proof fn lemma_shift_block(
    uu: int,
    vv: int,
    qq: int,
    rr: int,
    f0: int,
    g0: int,
    u: u64,
    v: u64,
    q: u64,
    r: u64,
    f: u64,
    g: u64,
    e: nat,
    l: nat,
    z: nat,
    un: u64,
    vn: u64,
    gn: u64,
)
    requires
        batch_state(uu, vv, qq, rr, f0, g0, u, v, q, r, f, g, e, l),
        l <= z,
        g as int == gn as int * p2(z),
        un as int == (u * p2(z)) % W(),
        vn as int == (v * p2(z)) % W(),
    ensures
        batch_state(uu * p2(z), vv * p2(z), qq, rr, f0, g0, un, vn, q, r, f, gn, e + z, 0),
        z >= 1 ==> (uu * p2(z)) % 2 == 0 && (vv * p2(z)) % 2 == 0,
{
    reveal(batch_state);
    lemma_mul_mod_noop_left(uu, p2(z), W());
    lemma_mul_mod_noop_left(vv, p2(z), W());
    lemma_mul_mod_noop_left(u as int, p2(z), W());
    lemma_mul_mod_noop_left(v as int, p2(z), W());
    lemma_mod_twice(uu, W());
    lemma_mod_twice(vv, W());
    lemma_shift_step(uu, vv, qq, rr, f0, g0, f as int, g as int, gn as int, e, z, l);
    lemma2_to64();
    if z >= 1 {
        lemma_even_shift(uu, z);
        lemma_even_shift(vv, z);
    }
}

/// `(f, g, u, v, q, r) = (g, -f, q, r, -u, -v)` when `eta` is negative.
proof fn lemma_swap_block(
    uu: int,
    vv: int,
    qq: int,
    rr: int,
    f0: int,
    g0: int,
    u: u64,
    v: u64,
    q: u64,
    r: u64,
    f: u64,
    g: u64,
    e: nat,
)
    requires
        batch_state(uu, vv, qq, rr, f0, g0, u, v, q, r, f, g, e, 0),
        g % 2 == 1,
    ensures
        batch_state(qq, rr, -uu, -vv, f0, g0, q, r, 0u64.wrapping_sub(u), 0u64.wrapping_sub(v), g,
            0u64.wrapping_sub(f), e, 0),
{
    reveal(batch_state);
    let pe = p2(e);
    lemma_wrap_neg(f, f as int);
    lemma_wrap_neg(u, uu);
    lemma_wrap_neg(v, vv);
    lemma_eqw_neg(uu * f0 + vv * g0, f * pe);
    lemma_eqw_mod(-(f as int));
    lemma_eqw_mul((-(f as int)) % W(), -(f as int), pe);
    assert(-(uu * f0 + vv * g0) == (-uu) * f0 + (-vv) * g0) by (nonlinear_arith);
    assert(-(f * pe) == (-(f as int)) * pe) by (nonlinear_arith);
    assert(qq * (-vv) - rr * (-uu) == uu * rr - vv * qq) by (nonlinear_arith);
    lemma2_to64();
}

/// `g += f * w`, `q += u * w`, `r += v * w` with `w` from the table: the low
/// `min(limit, 8)` bits of `g` become zero.
proof fn lemma_add_block(
    uu: int,
    vv: int,
    qq: int,
    rr: int,
    f0: int,
    g0: int,
    u: u64,
    v: u64,
    q: u64,
    r: u64,
    f: u64,
    g: u64,
    e: nat,
    limit: u64,
    t: u8,
    m: u64,
    w: u64,
)
    requires
        batch_state(uu, vv, qq, rr, f0, g0, u, v, q, r, f, g, e, 0),
        1 <= limit <= 62,
        m == (0xffff_ffff_ffff_ffffu64 >> ((64 - limit) as u64)) & 255u64,
        ((2 * ((f >> 1u64) & 127u64) + 1) * t) % 256 == 255,
        w == g.wrapping_mul(t as u64) & m,
    ensures
        w < p2((if limit < 8 { limit } else { 8 }) as nat),
        g.wrapping_add(f.wrapping_mul(w)) as int == (g + f * w) % W(),
        batch_state(uu, vv, qq + uu * w, rr + vv * w, f0, g0, u, v,
            q.wrapping_add(u.wrapping_mul(w)), r.wrapping_add(v.wrapping_mul(w)), f,
            g.wrapping_add(f.wrapping_mul(w)), e, (if limit < 8 { limit } else { 8 }) as nat),
{
    reveal(batch_state);
    let n8: nat = (if limit < 8 { limit } else { 8 }) as nat;
    let y = g.wrapping_mul(t as u64);
    lemma_limit_mask(limit);
    lemma_table_row(f);
    lemma_u64_low_bits_mask_is_mod(y, n8);
    lemma_pow2_pos(n8);
    lemma2_to64();
    if n8 < 8 {
        lemma_pow2_strictly_increases(n8, 8);
    }
    assert(m as int == low_bits_mask(n8));
    assert(w as int == y as int % p2(n8));
    vstd::arithmetic::div_mod::lemma_mod_bound(y as int, p2(n8));
    lemma_mul_mod_noop_left(f as int, t as int, 256);
    lemma_small_mod(g as nat, W() as nat);
    lemma_small_mod(f as nat, W() as nat);
    lemma_wrap_mul_add(g, f, w, g as int, f as int);
    lemma_wrap_mul_add(q, u, w, qq, uu);
    lemma_wrap_mul_add(r, v, w, rr, vv);
    let gn = g.wrapping_add(f.wrapping_mul(w));
    lemma_cancel_low(f as int, g as int, t as int, w as int, gn as int, n8);
    lemma_eqw_mod(g + f * w);
    lemma_add_step(uu, vv, qq, rr, f0, g0, f as int, g as int, gn as int, w as int, e, n8);
}

proof fn lemma_state_eqw(
    uu: int,
    vv: int,
    qq: int,
    rr: int,
    f0: int,
    g0: int,
    u: u64,
    v: u64,
    q: u64,
    r: u64,
    f: u64,
    g: u64,
    e: nat,
    l: nat,
)
    requires
        batch_state(uu, vv, qq, rr, f0, g0, u, v, q, r, f, g, e, l),
    ensures
        eqw(uu * f0 + vv * g0, f * p2(e)),
        eqw(qq * f0 + rr * g0, g * p2(e)),
{
    reveal(batch_state);
}

/// Dropping `z` zero bits of `g` in the batch is `z - l` more divsteps of the
/// specification (`l` of them were pending).
proof fn lemma_track_shift(
    init: DivstepState,
    uu: int,
    vv: int,
    qq: int,
    rr: int,
    og: int,
    gn: int,
    eta: int,
    k: nat,
    l: nat,
    z: nat,
)
    requires
        divstep_rel(init, init.1, init.2, 0),
        init.3 == 1 && init.4 == 0 && init.5 == 0 && init.6 == 1,
        divsteps(init, k + l).0 == eta - l,
        divsteps(init, k + l).3 == uu * p2(l),
        divsteps(init, k + l).4 == vv * p2(l),
        divsteps(init, k + l).5 == qq,
        divsteps(init, k + l).6 == rr,
        eqw(qq * init.1 + rr * init.2, og * p2(k)),
        og == gn * p2(z),
        l <= z,
        k + z <= 62,
    ensures
        divsteps(init, k + z).0 == eta - z,
        divsteps(init, k + z).3 == uu * p2(z),
        divsteps(init, k + z).4 == vv * p2(z),
        divsteps(init, k + z).5 == qq,
        divsteps(init, k + z).6 == rr,
{
    let f0 = init.1;
    let g0 = init.2;
    let sp = divsteps(init, k + l);
    lemma_divsteps_rel(init, f0, g0, 0, k + l);
    assert(0 + (k + l) == k + l);
    lemma_pow2_adds(k, l);
    lemma_pow2_adds(l, (z - l) as nat);
    lemma_pow2_pos(l);
    lemma_pow2_pos((z - l) as nat);
    assert(qq * f0 + rr * g0 == (sp.2 * p2(l)) * p2(k)) by (nonlinear_arith)
        requires
            qq * f0 + rr * g0 == sp.2 * p2(k + l),
            p2(k + l) == p2(k) * p2(l),
    ;
    lemma_eqw_unscale(sp.2 * p2(l), og, k, z);
    lemma_pow2_pos(z);
    lemma_fundamental_div_mod(sp.2 * p2(l) - og, p2(z));
    let a = (sp.2 * p2(l) - og) / p2(z);
    assert(sp.2 * p2(l) == p2(l) * (p2((z - l) as nat) * (a + gn))) by (nonlinear_arith)
        requires
            sp.2 * p2(l) - og == p2(z) * a + 0,
            og == gn * p2(z),
            p2(z) == p2(l) * p2((z - l) as nat),
    ;
    assert(sp.2 == p2((z - l) as nat) * (a + gn)) by (nonlinear_arith)
        requires
            sp.2 * p2(l) == p2(l) * (p2((z - l) as nat) * (a + gn)),
            p2(l) > 0,
    ;
    lemma_mod_multiples_basic(a + gn, p2((z - l) as nat));
    vstd::arithmetic::mul::lemma_mul_is_commutative(p2((z - l) as nat), a + gn);
    lemma_divsteps_even(sp, (z - l) as nat);
    lemma_divsteps_split(init, k + l, (z - l) as nat);
    assert(k + l + (z - l) as nat == k + z);
    assert((uu * p2(l)) * p2((z - l) as nat) == uu * p2(z)) by (nonlinear_arith)
        requires
            p2(z) == p2(l) * p2((z - l) as nat),
    ;
    assert((vv * p2(l)) * p2((z - l) as nat) == vv * p2(z)) by (nonlinear_arith)
        requires
            p2(z) == p2(l) * p2((z - l) as nat),
    ;
}

/// The (possibly swapping) step followed by `g += w f` with `n` cleared low
/// bits is `n` divsteps of the specification.
proof fn lemma_track_add(
    init: DivstepState,
    k: nat,
    eta_b: int,
    uu_b: int,
    vv_b: int,
    qq_b: int,
    rr_b: int,
    swapped: bool,
    eta_a: int,
    uu_a: int,
    vv_a: int,
    qq_a: int,
    rr_a: int,
    f_a: int,
    g_a: int,
    n: nat,
    w: int,
    g_new: int,
)
    requires
        divstep_rel(init, init.1, init.2, 0),
        init.3 == 1 && init.4 == 0 && init.5 == 0 && init.6 == 1,
        divsteps(init, k).0 == eta_b,
        divsteps(init, k).3 == uu_b,
        divsteps(init, k).4 == vv_b,
        divsteps(init, k).5 == qq_b,
        divsteps(init, k).6 == rr_b,
        swapped ==> eta_b < 0 && eta_a == -eta_b && uu_a == qq_b && vv_a == rr_b && qq_a == -uu_b
            && rr_a == -vv_b,
        !swapped ==> eta_a == eta_b && uu_a == uu_b && vv_a == vv_b && qq_a == qq_b && rr_a == rr_b,
        eqw(uu_a * init.1 + vv_a * init.2, f_a * p2(k)),
        eqw(qq_a * init.1 + rr_a * init.2, g_a * p2(k)),
        f_a % 2 == 1,
        1 <= n <= 8,
        k + n <= 62,
        eta_a >= n - 1,
        0 <= w < p2(n),
        g_new == (g_a + f_a * w) % W(),
        g_new % p2(n) == 0,
    ensures
        divsteps(init, k + n).0 == eta_a - n,
        divsteps(init, k + n).3 == uu_a * p2(n),
        divsteps(init, k + n).4 == vv_a * p2(n),
        divsteps(init, k + n).5 == qq_a + uu_a * w,
        divsteps(init, k + n).6 == rr_a + vv_a * w,
{
    let f0 = init.1;
    let g0 = init.2;
    let sp = divsteps(init, k);
    lemma_divsteps_rel(init, f0, g0, 0, k);
    assert(0 + k == k);
    let vs: DivstepState = if swapped {
        (-sp.0, sp.2, -sp.1, sp.5, sp.6, -sp.3, -sp.4)
    } else {
        sp
    };
    assert(uu_a * f0 + vv_a * g0 == vs.1 * p2(k)) by {
        if swapped {
            assert(-(qq_b * f0 + rr_b * g0) == (-qq_b) * f0 + (-rr_b) * g0) by (nonlinear_arith);
        }
    }
    assert(qq_a * f0 + rr_a * g0 == vs.2 * p2(k)) by {
        if swapped {
            assert((-uu_b) * f0 + (-vv_b) * g0 == -(uu_b * f0 + vv_b * g0)) by (nonlinear_arith);
            assert(-(sp.1 * p2(k)) == (-sp.1) * p2(k)) by (nonlinear_arith);
        }
    }
    lemma_eqw_unscale(vs.1, f_a, k, n);
    lemma_eqw_unscale(vs.2, g_a, k, n);
    lemma_eqw_unscale(vs.1, f_a, k, 1);
    vstd::arithmetic::power2::lemma2_to64();
    lemma_pow2_pos(n);
    lemma_pow2_adds(n, (64 - n) as nat);
    lemma2_to64_rest();
    let p = p2(n);
    // vs.1 is odd like f_a.
    lemma_fundamental_div_mod(vs.1 - f_a, 2);
    lemma_fundamental_div_mod(f_a, 2);
    lemma_fundamental_div_mod(vs.1, 2);
    assert(vs.1 % 2 == 1) by {
        let c = (vs.1 - f_a) / 2;
        let d = f_a / 2;
        assert(vs.1 == 2 * (c + d) + 1);
        lemma_mod_multiples_vanish(c + d, 1, 2);
    }
    // vs.2 + w vs.1 is a multiple of 2^n.
    lemma_fundamental_div_mod(vs.1 - f_a, p);
    lemma_fundamental_div_mod(vs.2 - g_a, p);
    lemma_fundamental_div_mod(g_a + f_a * w, W());
    lemma_fundamental_div_mod(g_new, p);
    let a1 = (vs.2 - g_a) / p;
    let a2 = (vs.1 - f_a) / p;
    let a3 = (g_a + f_a * w) / W();
    let a4 = g_new / p;
    let pw = p2((64 - n) as nat);
    assert(vs.2 + w * vs.1 == p * (a1 + w * a2 + pw * a3 + a4)) by (nonlinear_arith)
        requires
            vs.2 - g_a == p * a1 + 0,
            vs.1 - f_a == p * a2 + 0,
            g_a + f_a * w == W() * a3 + g_new,
            g_new == p * a4 + 0,
            W() == p * pw,
    ;
    lemma_mod_multiples_basic(a1 + w * a2 + pw * a3 + a4, p);
    vstd::arithmetic::mul::lemma_mul_is_commutative(p, a1 + w * a2 + pw * a3 + a4);
    lemma_divsteps_add(vs, n, w);
    if swapped {
        assert(sp.1 % 2 == 1);
        lemma_divstep_swap(sp);
        assert(divsteps(sp, n) == divsteps(divstep(sp), (n - 1) as nat));
        assert(divsteps(vs, n) == divsteps(divstep(vs), (n - 1) as nat));
    }
    lemma_divsteps_split(init, k, n);
    vstd::arithmetic::mul::lemma_mul_is_commutative(w, uu_a);
    vstd::arithmetic::mul::lemma_mul_is_commutative(w, vv_a);
}

/// One batch of 62 divsteps on the low bits of `f` (odd) and `g`, starting
/// from `eta`: returns exactly the `eta` and matrix of `divstep_batch`, done
/// several steps at a time (runs of zero bits, and up to 8 bits of `g`
/// cleared by a table of inverses). The matrix `t` has
/// `t * [f; g] = 2^62 * [f'; g']`, `f'` odd, determinant `2^62` and rows of
/// absolute sum at most `2^62`.
#[verifier::rlimit(30)]
pub(crate) fn compute_divstep_matrix(eta: i32, f: i64, g: i64) -> (res: (i32, SignedMatrix))
    requires
        f % 2 == 1,
        -0x7fff_ffc0 <= eta <= 0x7fff_ffc0,
    ensures
        (res.1.u * f + res.1.v * g) % R() == 0,
        ((res.1.u * f + res.1.v * g) / R()) % 2 == 1,
        (res.1.q * f + res.1.r * g) % R() == 0,
        res.1.u * res.1.r - res.1.v * res.1.q == R(),
        abs(res.1.u as int) + abs(res.1.v as int) <= R(),
        abs(res.1.q as int) + abs(res.1.r as int) <= R(),
        res.1.u % 2 == 0,
        res.1.v % 2 == 0,
        abs(res.0 as int) <= abs(eta as int) + 62,
        res.0 == divstep_batch(eta as int, f as int, g as int).0,
        res.1.u == divstep_batch(eta as int, f as int, g as int).3,
        res.1.v == divstep_batch(eta as int, f as int, g as int).4,
        res.1.q == divstep_batch(eta as int, f as int, g as int).5,
        res.1.r == divstep_batch(eta as int, f as int, g as int).6,
{
    let ghost f0 = f as int;
    let ghost g0 = g as int;
    let ghost eta0 = eta as int;
    let ghost init: DivstepState = (eta0, f0, g0, 1int, 0int, 0int, 1int);
    proof {
        lemma_start_block(f, g);
        lemma2_to64();
        assert(p2(0) == 1);
        assert(divstep_rel(init, f0, g0, 0));
        assert(divsteps(init, 0) == init);
    }
    let mut u: u64 = 1;
    let mut v: u64 = 0;
    let mut q: u64 = 0;
    let mut r: u64 = 1;
    let mut f = f as u64;
    let mut g = g as u64;
    let mut eta = eta;
    let mut i = SIGNED_LIMB_SIZE as i32;
    let ghost mut uu: int = 1;
    let ghost mut vv: int = 0;
    let ghost mut qq: int = 0;
    let ghost mut rr: int = 1;
    let ghost mut l: nat = 0;
    loop
        invariant_except_break
            1 <= i <= 62,
            l <= i,
            l <= 8,
            -0x7fff_ffc0 <= eta0 <= 0x7fff_ffc0,
            abs(eta as int) <= abs(eta0) + 62 - i,
            batch_state(uu, vv, qq, rr, f0, g0, u, v, q, r, f, g, (62 - i) as nat, l),
            init == (eta0, f0, g0, 1int, 0int, 0int, 1int),
            divstep_rel(init, f0, g0, 0),
            divsteps(init, (62 - i + l) as nat).0 == eta - l,
            divsteps(init, (62 - i + l) as nat).3 == uu * p2(l),
            divsteps(init, (62 - i + l) as nat).4 == vv * p2(l),
            divsteps(init, (62 - i + l) as nat).5 == qq,
            divsteps(init, (62 - i + l) as nat).6 == rr,
        ensures
            batch_state(uu, vv, qq, rr, f0, g0, u, v, q, r, f, g, 62, 0),
            divsteps(init, 62).0 == eta,
            divsteps(init, 62).3 == uu,
            divsteps(init, 62).4 == vv,
            divsteps(init, 62).5 == qq,
            divsteps(init, 62).6 == rr,
            uu % 2 == 0,
            vv % 2 == 0,
            abs(eta as int) <= abs(eta0) + 62,
        decreases 2 * i + (if l == 0 { 1int } else { 0int }),
    {
        let c = countr_zero(g | (u64::MAX << (i as u64)));
        proof {
            lemma_state_bits(uu, vv, qq, rr, f0, g0, u, v, q, r, f, g, (62 - i) as nat, l);
            lemma_state_eqw(uu, vv, qq, rr, f0, g0, u, v, q, r, f, g, (62 - i) as nat, l);
            lemma_zero_count(g, i as u64, c, l);
        }
        let zeros = (if c < i as u32 { c } else { i as u32 }) as i32;
        let ghost oeta = eta as int;
        let ghost og = g;
        let ghost ou = u;
        let ghost ov = v;
        let ghost oi = i;
        if zeros > 0 {
            g = g >> (zeros as u64);
            u = u << (zeros as u64);
            v = v << (zeros as u64);
            eta -= zeros;
            i -= zeros;
            proof {
                lemma_u64_shl_wrap(ou, zeros as u64);
                lemma_u64_shl_wrap(ov, zeros as u64);
                assert((zeros as u64) as nat == zeros as nat);
                assert(zeros as u64 == c as u64);
                assert(u as int == (ou * p2(zeros as nat)) % W());
                assert(v as int == (ov * p2(zeros as nat)) % W());
                assert(g == og >> (c as u64));
            }
        } else {
            proof {
                lemma2_to64();
                lemma_small_mod(ou as nat, W() as nat);
                lemma_small_mod(ov as nat, W() as nat);
                assert(c == 0);
                assert(c as nat == 0 && zeros as nat == 0);
                assert(p2(c as nat) == 1 && p2(zeros as nat) == 1);
                assert(og as int / 1 == og);
                assert(g == og >> (c as u64));
                assert(ou * p2(zeros as nat) == ou && ov * p2(zeros as nat) == ov)
                    by (nonlinear_arith)
                    requires
                        p2(zeros as nat) == 1,
                ;
                assert(u as int == (ou * p2(zeros as nat)) % W());
                assert(v as int == (ov * p2(zeros as nat)) % W());
            }
        }
        proof {
            let z = zeros as nat;
            lemma_shift_block(uu, vv, qq, rr, f0, g0, ou, ov, q, r, f, og, (62 - oi) as nat, l, z,
                u, v, g);
            assert((62 - oi) as nat + z == (62 - i) as nat);
            lemma2_to64();
            assert(i > 0 ==> g % 2 == 1);
            assert(og as int == g as int * p2(z));
            lemma_track_shift(init, uu, vv, qq, rr, og as int, g as int, oeta, (62 - oi) as nat, l, z);
            assert(((62 - oi) as nat + z) as nat == (62 - i + 0) as nat);
            assert(p2(0) == 1);
            uu = uu * p2(z);
            vv = vv * p2(z);
            l = 0;
        }
        if i == 0 {
            break;
        }
        let ghost eta_b = eta as int;
        let ghost uu_b = uu;
        let ghost vv_b = vv;
        let ghost qq_b = qq;
        let ghost rr_b = rr;
        let ghost swapped = eta < 0;
        if eta < 0 {
            eta = -eta;
            proof {
                lemma_swap_block(uu, vv, qq, rr, f0, g0, u, v, q, r, f, g, (62 - i) as nat);
                let nu = qq;
                let nv = rr;
                let nq = -uu;
                let nr = -vv;
                uu = nu;
                vv = nv;
                qq = nq;
                rr = nr;
            }
            let tf = f;
            f = g;
            g = 0u64.wrapping_sub(tf);
            let tu = u;
            u = q;
            q = 0u64.wrapping_sub(tu);
            let tv = v;
            v = r;
            r = 0u64.wrapping_sub(tv);
        }
        let limit = if eta + 1 < i { eta + 1 } else { i };
        let m = (u64::MAX >> ((LIMB_SIZE as i32 - limit) as u64)) & 255;
        let row = (f >> 1) & 127;
        proof {
            lemma_state_bits(uu, vv, qq, rr, f0, g0, u, v, q, r, f, g, (62 - i) as nat, 0);
            lemma_table_row(f);
        }
        let t = neginv256(row);
        let w = g.wrapping_mul(t as u64) & m;
        proof {
            lemma_add_block(uu, vv, qq, rr, f0, g0, u, v, q, r, f, g, (62 - i) as nat,
                limit as u64, t, m, w);
            lemma_state_eqw(uu, vv, qq, rr, f0, g0, u, v, q, r, f, g, (62 - i) as nat, 0);
        }
        let ghost f_a = f as int;
        let ghost g_a = g as int;
        g = g.wrapping_add(f.wrapping_mul(w));
        q = q.wrapping_add(u.wrapping_mul(w));
        r = r.wrapping_add(v.wrapping_mul(w));
        proof {
            let n8: nat = (if limit < 8 { limit } else { 8 }) as nat;
            lemma_state_bits(uu, vv, qq + uu * w, rr + vv * w, f0, g0, u, v, q, r, f, g,
                (62 - i) as nat, n8);
            assert((62 - i) as nat + 0 == (62 - i) as nat);
            lemma_track_add(init, (62 - i) as nat, eta_b, uu_b, vv_b, qq_b, rr_b, swapped,
                eta as int, uu, vv, qq, rr, f_a, g_a, n8, w as int, g as int);
            assert(((62 - i) as nat + n8) as nat == (62 - i + n8) as nat);
            qq = qq + uu * w;
            rr = rr + vv * w;
            l = n8;
        }
    }
    proof {
        reveal(batch_state);
        lemma2_to64_rest();
        lemma_low62(uu * f0 + vv * g0, f as int);
        lemma_low62(qq * f0 + rr * g0, g as int);
        lemma_u64_to_i64(u, uu);
        lemma_u64_to_i64(v, vv);
        lemma_u64_to_i64(q, qq);
        lemma_u64_to_i64(r, rr);
    }
    (eta, SignedMatrix { u: u as i64, v: v as i64, q: q as i64, r: r as i64 })
}

/// The number of trailing zero bits of `v`, 64 for zero.
fn countr_zero(v: u64) -> (r: u32)
    ensures
        r == u64_trailing_zeros(v),
{
    proof {
        axiom_u64_trailing_zeros(v);
    }
    if v == 0 {
        64
    } else {
        v.trailing_zeros()
    }
}

} // verus!
