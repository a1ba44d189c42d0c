//! Modular inversion modulo `2^3072 - 1103717` by batches of divsteps
//! (Bernstein-Yang, in the variable-time form with `eta`), on numbers held
//! in 50 signed limbs of 62 bits.
use vstd::prelude::*;
use vstd::arithmetic::power2::{pow2, lemma_pow2_adds, lemma_pow2_pos, lemma2_to64, lemma2_to64_rest};
use vstd::arithmetic::mul::{lemma_mul_is_associative, lemma_mul_is_commutative,
    lemma_mul_is_distributive_add, lemma_mul_strictly_positive};
use crate::bit_lemmas::{R, lemma_i128_split62, lemma_i64_split62, lemma_i128_to_i64,
    lemma_i128_shl, lemma_u128_shl, lemma_i64_sign, lemma_i64_and_mask, lemma_i64_cond_negate};
use crate::limb_math::{W, wpow, val, lemma_val_take_step, lemma_val_bounds, lemma_wpow_pos};
use crate::num3072::{Num3072, LIMBS, SIGNED_LIMBS, MAX_PRIME_DIFF, modulus};

verus! {

/// `(2^62)^n`.
pub open spec fn rpow(n: nat) -> int
    decreases n,
{
    if n == 0 {
        1
    } else {
        R() * rpow((n - 1) as nat)
    }
}

/// The value of signed 62-bit limbs: `sum s[i] * 2^(62 i)`.
pub open spec fn sval(s: Seq<i64>) -> int
    decreases s.len(),
{
    if s.len() == 0 {
        0
    } else {
        sval(s.drop_last()) + s.last() * rpow((s.len() - 1) as nat)
    }
}

pub proof fn lemma_rpow_pow2(n: nat)
    ensures
        rpow(n) == pow2(62 * n),
    decreases n,
{
    if n == 0 {
        lemma2_to64();
    } else {
        lemma_rpow_pow2((n - 1) as nat);
        lemma_pow2_adds(62, 62 * (n - 1) as nat);
        lemma2_to64_rest();
        assert(62 + 62 * (n - 1) as nat == 62 * n);
    }
}

pub proof fn lemma_wpow_pow2(n: nat)
    ensures
        wpow(n) == pow2(64 * n),
    decreases n,
{
    if n == 0 {
        lemma2_to64();
    } else {
        lemma_wpow_pow2((n - 1) as nat);
        lemma_pow2_adds(64, 64 * (n - 1) as nat);
        lemma2_to64_rest();
        assert(64 + 64 * (n - 1) as nat == 64 * n);
    }
}

pub proof fn lemma_sval_take_step(s: Seq<i64>, j: int)
    requires
        0 <= j < s.len(),
    ensures
        sval(s.take(j + 1)) == sval(s.take(j)) + s[j] * rpow(j as nat),
{
    assert(s.take(j + 1).drop_last() == s.take(j));
}

/// Limbs in `[0, 2^62)` give a value in `[0, 2^(62 n))`.
pub proof fn lemma_sval_bounds(s: Seq<i64>)
    requires
        forall|i: int| 0 <= i < s.len() ==> 0 <= #[trigger] s[i] < R(),
    ensures
        0 <= sval(s) < rpow(s.len()),
    decreases s.len(),
{
    if s.len() > 0 {
        let n = (s.len() - 1) as nat;
        lemma_sval_bounds(s.drop_last());
        lemma_rpow_pos(n);
        assert(0 <= s.last() * rpow(n) <= (R() - 1) * rpow(n)) by (nonlinear_arith)
            requires
                0 <= s.last() < R(),
                rpow(n) > 0,
        ;
        assert(rpow(s.len()) == R() * rpow(n));
        assert((R() - 1) * rpow(n) + rpow(n) == R() * rpow(n)) by (nonlinear_arith);
    }
}

pub proof fn lemma_rpow_pos(n: nat)
    ensures
        rpow(n) > 0,
    decreases n,
{
    if n > 0 {
        lemma_rpow_pos((n - 1) as nat);
        lemma_mul_strictly_positive(R(), rpow((n - 1) as nat));
    }
}

/// A number in signed 62-bit limbs.
pub(crate) struct Num3072Signed {
    pub limbs: [i64; SIGNED_LIMBS],
}

impl Num3072Signed {
    pub(crate) fn zero() -> (r: Self)
        ensures
            forall|i: int| 0 <= i < 50 ==> r.limbs[i] == 0,
    {
        Num3072Signed { limbs: [0i64; SIGNED_LIMBS] }
    }

    /// Spread the 48 unsigned limbs of `in_val` over 62-bit limbs.
    pub(crate) fn load_from_num3072(&mut self, in_val: &Num3072)
        ensures
            sval(final(self).limbs@) == in_val.value(),
            forall|k: int| 0 <= k < 49 ==> 0 <= #[trigger] final(self).limbs[k] < R(),
            0 <= final(self).limbs[49] < 0x4_0000_0000int,
    {
        let mut c: i128 = 0;
        let mut b: u32 = 0;
        let mut outpos: usize = 0;
        proof {
            assert(self.limbs@.take(0).len() == 0);
            assert(in_val.limbs@.take(0).len() == 0);
            assert(sval(self.limbs@.take(0)) == 0);
            assert(val(in_val.limbs@.take(0)) == 0);
            assert(rpow(0) == 1);
            lemma2_to64();
        }
        for i in 0..LIMBS
            invariant
                0 <= b < 62,
                62 * outpos + b == 64 * i,
                0 <= c < pow2(b as nat),
                forall|k: int| 0 <= k < outpos ==> 0 <= #[trigger] self.limbs[k] < R(),
                sval(self.limbs@.take(outpos as int)) + c * rpow(outpos as nat) == val(
                    in_val.limbs@.take(i as int),
                ),
        {
            let x = in_val.limbs[i];
            proof {
                lemma_pow2_pos(b as nat);
                lemma_pow2_adds(b as nat, 64);
                lemma2_to64_rest();
                lemma_pow2_strictly_increases_le(b as nat + 64, 126);
                assert(pow2(64) == W());
                assert(pow2(126) == 0x4000_0000_0000_0000_0000_0000_0000_0000) by {
                    lemma_pow2_adds(64, 62);
                }
                assert(x * pow2(b as nat) <= pow2(b as nat + 64) - pow2(b as nat)) by (nonlinear_arith)
                    requires
                        0 <= x < W(),
                        pow2(b as nat + 64) == pow2(b as nat) * W(),
                        pow2(b as nat) > 0,
                ;
                lemma_i128_shl(x as i128, b);
                lemma_sval_take_step(self.limbs@, outpos as int);
                lemma_val_take_step(in_val.limbs@, i as int);
                lemma_rpow_pow2(outpos as nat);
                lemma_wpow_pow2(i as nat);
                lemma_pow2_adds(b as nat, 62 * outpos as nat);
                assert(b as nat + 62 * outpos as nat == 64 * i as nat);
                assert(x * pow2(b as nat) * rpow(outpos as nat) == x * wpow(i as nat)) by {
                    lemma_mul_is_associative(x as int, pow2(b as nat) as int, rpow(outpos as nat));
                }
                lemma_mul_is_distributive_add(rpow(outpos as nat), c as int, x * pow2(b as nat));
                lemma_mul_is_commutative(rpow(outpos as nat), c as int + x * pow2(b as nat));
                lemma_mul_is_commutative(rpow(outpos as nat), c as int);
                lemma_mul_is_commutative(rpow(outpos as nat), x * pow2(b as nat));
            }
            c += (x as i128) << b;
            b += 64;
            while b >= 62
                invariant
                    b < 126,
                    62 * outpos + b == 64 * (i + 1),
                    i < 48,
                    0 <= c < pow2(b as nat),
                    forall|k: int| 0 <= k < outpos ==> 0 <= #[trigger] self.limbs[k] < R(),
                    sval(self.limbs@.take(outpos as int)) + c * rpow(outpos as nat) == val(
                        in_val.limbs@.take(i + 1),
                    ),
                decreases b,
            {
                let ghost before = self.limbs@;
                proof {
                    lemma_i128_split62(c);
                    lemma_pow2_adds((b - 62) as nat, 62);
                    lemma2_to64_rest();
                    lemma_pow2_pos((b - 62) as nat);
                    lemma_mul_is_commutative(R(), pow2((b - 62) as nat) as int);
                    vstd::arithmetic::div_mod::lemma_multiply_divide_lt(
                        c as int,
                        R(),
                        pow2((b - 62) as nat) as int,
                    );
                }
                self.limbs[outpos] = (c & (0x3fff_ffff_ffff_ffffi128)) as i64;
                proof {
                    assert(self.limbs@.take(outpos as int) == before.take(outpos as int));
                    lemma_sval_take_step(self.limbs@, outpos as int);
                    assert(rpow((outpos + 1) as nat) == R() * rpow(outpos as nat));
                    let lo = (c & 0x3fff_ffff_ffff_ffffi128) as int;
                    let hi = (c >> 62i128) as int;
                    assert(c * rpow(outpos as nat) == lo * rpow(outpos as nat) + hi * rpow(
                        (outpos + 1) as nat,
                    )) by (nonlinear_arith)
                        requires
                            hi * R() + lo == c,
                            rpow((outpos + 1) as nat) == R() * rpow(outpos as nat),
                    ;
                }
                c >>= 62;
                b -= 62;
                outpos += 1;
            }
        }
        proof {
            assert(outpos == 49);
            assert(b == 34);
            assert(pow2(34) == 0x4_0000_0000) by {
                lemma2_to64_rest();
            }
            lemma_i128_to_i64(c);
        }
        let ghost before = self.limbs@;
        self.limbs[SIGNED_LIMBS - 1] = c as i64;
        proof {
            assert(self.limbs@.take(49) == before.take(49));
            lemma_sval_take_step(self.limbs@, 49);
            assert(pow2(34) == 0x4_0000_0000) by {
                lemma2_to64_rest();
            }
            assert(in_val.limbs@.take(48) == in_val.limbs@);
            assert(self.limbs@.take(50).drop_last() == self.limbs@.take(49));
            assert(self.limbs@.take(50) == self.limbs@);
        }
    }
}

proof fn lemma_pow2_strictly_increases_le(a: nat, b: nat)
    requires
        a <= b,
    ensures
        pow2(a) <= pow2(b),
{
    if a < b {
        vstd::arithmetic::power2::lemma_pow2_strictly_increases(a, b);
    }
}

impl Num3072Signed {
    /// Gather 62-bit limbs (the low 49 in `[0, 2^62)`, the top one below
    /// `2^34`) back into 48 unsigned limbs.
    pub(crate) fn to_num3072(&self) -> (out: Num3072)
        requires
            forall|k: int| 0 <= k < 49 ==> 0 <= #[trigger] self.limbs[k] < R(),
            0 <= self.limbs[49] < 0x4_0000_0000int,
        ensures
            out.value() == sval(self.limbs@),
    {
        let mut out = Num3072 { limbs: [0; LIMBS] };
        let mut c: u128 = 0;
        let mut b: u32 = 0;
        let mut outpos: usize = 0;
        proof {
            assert(out.limbs@.take(0).len() == 0);
            assert(self.limbs@.take(0).len() == 0);
            assert(val(out.limbs@.take(0)) == 0);
            assert(sval(self.limbs@.take(0)) == 0);
            lemma2_to64();
        }
        for i in 0..SIGNED_LIMBS
            invariant
                0 <= b < 64,
                64 * outpos + b == 62 * i,
                0 <= c < pow2(b as nat),
                forall|k: int| 0 <= k < 49 ==> 0 <= #[trigger] self.limbs[k] < R(),
                0 <= self.limbs[49] < 0x4_0000_0000int,
                val(out.limbs@.take(outpos as int)) + c * wpow(outpos as nat) == sval(
                    self.limbs@.take(i as int),
                ),
        {
            let x = self.limbs[i] as u64;
            proof {
                assert(x == self.limbs[i as int]);
                assert(0 <= x < R());
                lemma_pow2_pos(b as nat);
                lemma_pow2_adds(b as nat, 62);
                lemma2_to64_rest();
                assert(pow2(62) == R());
                lemma_pow2_strictly_increases_le(b as nat + 62, 128);
                assert(pow2(128) == 0x1_0000_0000_0000_0000_0000_0000_0000_0000) by {
                    lemma_pow2_adds(64, 64);
                }
                assert(x * pow2(b as nat) <= pow2(b as nat + 62) - pow2(b as nat)) by (nonlinear_arith)
                    requires
                        0 <= x < R(),
                        pow2(b as nat + 62) == pow2(b as nat) * R(),
                        pow2(b as nat) > 0,
                ;
                lemma_u128_shl(x as u128, b);
                lemma_sval_take_step(self.limbs@, i as int);
                lemma_rpow_pow2(i as nat);
                lemma_wpow_pow2(outpos as nat);
                lemma_pow2_adds(b as nat, 64 * outpos as nat);
                assert(x * pow2(b as nat) * wpow(outpos as nat) == x * rpow(i as nat)) by {
                    lemma_mul_is_associative(x as int, pow2(b as nat) as int, wpow(outpos as nat));
                }
                lemma_mul_is_distributive_add(wpow(outpos as nat), c as int, x * pow2(b as nat));
                lemma_mul_is_commutative(wpow(outpos as nat), c as int + x * pow2(b as nat));
                lemma_mul_is_commutative(wpow(outpos as nat), c as int);
                lemma_mul_is_commutative(wpow(outpos as nat), x * pow2(b as nat));
            }
            c += (x as u128) << b;
            b += 62;
            if b >= 64 {
                let ghost before = out.limbs@;
                proof {
                    crate::num3072::lemma_u128_split(c);
                    assert((c >> 64u128) == c / 0x1_0000_0000_0000_0000u128) by (bit_vector);
                    lemma_pow2_adds((b - 64) as nat, 64);
                    lemma_pow2_pos((b - 64) as nat);
                    lemma_mul_is_commutative(W(), pow2((b - 64) as nat) as int);
                    vstd::arithmetic::div_mod::lemma_multiply_divide_lt(
                        c as int,
                        W(),
                        pow2((b - 64) as nat) as int,
                    );
                    assert(64 * outpos + 64 <= 62 * 50);
                }
                out.limbs[outpos] = (c & 0xffff_ffff_ffff_ffff) as u64;
                proof {
                    assert(out.limbs@.take(outpos as int) == before.take(outpos as int));
                    lemma_val_take_step(out.limbs@, outpos as int);
                    assert(wpow((outpos + 1) as nat) == W() * wpow(outpos as nat));
                    let lo = (c & 0xffff_ffff_ffff_ffffu128) as u64 as int;
                    let hi = (c >> 64u128) as int;
                    assert(c * wpow(outpos as nat) == lo * wpow(outpos as nat) + hi * wpow(
                        (outpos + 1) as nat,
                    )) by (nonlinear_arith)
                        requires
                            lo + hi * W() == c,
                            wpow((outpos + 1) as nat) == W() * wpow(outpos as nat),
                    ;
                }
                c >>= 64;
                b -= 64;
                outpos += 1;
            }
        }
        proof {
            assert(outpos == 48);
            assert(self.limbs@.take(50) == self.limbs@);
            assert(out.limbs@.take(48) == out.limbs@);
            // The value is below 2^3072, so nothing is left over.
            lemma_sval_take_step(self.limbs@, 49);
            lemma_sval_bounds(self.limbs@.take(49));
            lemma_rpow_pos(49);
            lemma_rpow_pow2(49);
            lemma_wpow_pow2(48);
            lemma_pow2_adds(62 * 49, 34);
            lemma2_to64_rest();
            assert(wpow(48) == rpow(49) * 0x4_0000_0000);
            assert(sval(self.limbs@) == sval(self.limbs@.take(49)) + self.limbs[49] * rpow(49));
            assert(self.limbs[49] * rpow(49) <= (0x4_0000_0000 - 1) * rpow(49)) by (nonlinear_arith)
                requires
                    self.limbs[49] <= 0x4_0000_0000 - 1,
                    rpow(49) > 0,
            ;
            assert(sval(self.limbs@) < wpow(48)) by (nonlinear_arith)
                requires
                    sval(self.limbs@) == sval(self.limbs@.take(49)) + self.limbs[49] * rpow(49),
                    sval(self.limbs@.take(49)) < rpow(49),
                    self.limbs[49] * rpow(49) <= (0x4_0000_0000 - 1) * rpow(49),
                    wpow(48) == rpow(49) * 0x4_0000_0000,
            ;
            lemma_val_bounds(out.limbs@);
            lemma_wpow_pos(48);
            assert(c == 0) by (nonlinear_arith)
                requires
                    val(out.limbs@) + c * wpow(48) == sval(self.limbs@),
                    val(out.limbs@) >= 0,
                    sval(self.limbs@) < wpow(48),
                    c >= 0,
                    wpow(48) > 0,
            ;
        }
        out
    }
}

/// The transition matrix of a batch of divsteps.
#[derive(Clone, Copy)]
pub(crate) struct SignedMatrix {
    pub u: i64,
    pub v: i64,
    pub q: i64,
    pub r: i64,
}

pub open spec fn abs(x: int) -> int {
    if x < 0 {
        -x
    } else {
        x
    }
}

pub proof fn lemma_lin_bound(u: int, v: int, a: int, b: int, ba: int)
    requires
        abs(u) + abs(v) <= R(),
        abs(a) <= ba,
        abs(b) <= ba,
    ensures
        abs(u * a + v * b) <= R() * ba,
{
    assert(abs(u * a) <= abs(u) * ba) by (nonlinear_arith)
        requires
            abs(a) <= ba,
    ;
    assert(abs(v * b) <= abs(v) * ba) by (nonlinear_arith)
        requires
            abs(b) <= ba,
    ;
    assert((abs(u) + abs(v)) * ba <= R() * ba) by (nonlinear_arith)
        requires
            abs(u) + abs(v) <= R(),
            0 <= ba,
    ;
    assert(abs(u) * ba + abs(v) * ba == (abs(u) + abs(v)) * ba) by (nonlinear_arith);
}

/// One limb of `(u * f + v * g) / 2^62`: the carry takes the next limbs and
/// hands out its low 62 bits.
proof fn lemma_fg_step(
    s_prev: int,
    s_next: int,
    c: int,
    c_add: int,
    lo: int,
    c_next: int,
    rp: int,
    total: int,
    term: int,
)
    requires
        (s_prev + c * rp) * R() == total,
        c_add == c + term,
        c_add == c_next * R() + lo,
        s_next == s_prev + lo * rp,
    ensures
        (s_next + c_next * (R() * rp)) * R() == total + term * (R() * rp),
{
    assert((s_next + c_next * (R() * rp)) * R() == (s_prev + c_add * rp) * R()) by (nonlinear_arith)
        requires
            c_add == c_next * R() + lo,
            s_next == s_prev + lo * rp,
    ;
    assert((s_prev + c_add * rp) * R() == (s_prev + c * rp) * R() + term * (R() * rp))
        by (nonlinear_arith)
        requires
            c_add == c + term,
    ;
}

/// `(f, g) = (u * f + v * g, q * f + r * g) / 2^62` on the low `len` limbs.
pub(crate) fn update_fg(f: &mut Num3072Signed, g: &mut Num3072Signed, t: &SignedMatrix, len: usize)
    requires
        1 <= len <= 50,
        abs(t.u as int) + abs(t.v as int) <= R(),
        abs(t.q as int) + abs(t.r as int) <= R(),
        (t.u * old(f).limbs[0] + t.v * old(g).limbs[0]) % R() == 0,
        (t.q * old(f).limbs[0] + t.r * old(g).limbs[0]) % R() == 0,
        abs(t.u * sval(old(f).limbs@.take(len as int)) + t.v * sval(old(g).limbs@.take(len as int)))
            <= R() * (rpow(len as nat) + rpow((len - 1) as nat)),
        abs(t.q * sval(old(f).limbs@.take(len as int)) + t.r * sval(old(g).limbs@.take(len as int)))
            <= R() * (rpow(len as nat) + rpow((len - 1) as nat)),
    ensures
        sval(final(f).limbs@.take(len as int)) * R() == t.u * sval(old(f).limbs@.take(len as int))
            + t.v * sval(old(g).limbs@.take(len as int)),
        sval(final(g).limbs@.take(len as int)) * R() == t.q * sval(old(f).limbs@.take(len as int))
            + t.r * sval(old(g).limbs@.take(len as int)),
        forall|k: int| 0 <= k < len - 1 ==> 0 <= #[trigger] final(f).limbs[k] < R(),
        forall|k: int| 0 <= k < len - 1 ==> 0 <= #[trigger] final(g).limbs[k] < R(),
        forall|k: int| len <= k < 50 ==> #[trigger] final(f).limbs[k] == old(f).limbs[k],
        forall|k: int| len <= k < 50 ==> #[trigger] final(g).limbs[k] == old(g).limbs[k],
{
    let ghost of = f.limbs@;
    let ghost og = g.limbs@;
    let u = t.u;
    let v = t.v;
    let q = t.q;
    let r = t.r;
    proof {
        lemma_lin_bound(u as int, v as int, f.limbs[0] as int, g.limbs[0] as int, 0x8000_0000_0000_0000);
        lemma_lin_bound(q as int, r as int, f.limbs[0] as int, g.limbs[0] as int, 0x8000_0000_0000_0000);
        assert(abs(u * f.limbs[0]) <= R() * 0x8000_0000_0000_0000) by (nonlinear_arith)
            requires abs(u as int) <= R(), abs(f.limbs[0] as int) <= 0x8000_0000_0000_0000;
        assert(abs(v * g.limbs[0]) <= R() * 0x8000_0000_0000_0000) by (nonlinear_arith)
            requires abs(v as int) <= R(), abs(g.limbs[0] as int) <= 0x8000_0000_0000_0000;
        assert(abs(q * f.limbs[0]) <= R() * 0x8000_0000_0000_0000) by (nonlinear_arith)
            requires abs(q as int) <= R(), abs(f.limbs[0] as int) <= 0x8000_0000_0000_0000;
        assert(abs(r * g.limbs[0]) <= R() * 0x8000_0000_0000_0000) by (nonlinear_arith)
            requires abs(r as int) <= R(), abs(g.limbs[0] as int) <= 0x8000_0000_0000_0000;
    }
    let mut cf = (u as i128) * (f.limbs[0] as i128) + (v as i128) * (g.limbs[0] as i128);
    let mut cg = (q as i128) * (f.limbs[0] as i128) + (r as i128) * (g.limbs[0] as i128);
    proof {
        lemma_i128_split62(cf);
        lemma_i128_split62(cg);
        assert(rpow(0) == 1);
        assert(of.take(1).drop_last().len() == 0);
        assert(og.take(1).drop_last().len() == 0);
        assert(sval(of.take(1).drop_last()) == 0);
        assert(sval(og.take(1).drop_last()) == 0);
        assert(of.take(1).last() == of[0]);
        assert(og.take(1).last() == og[0]);
        assert(sval(of.take(1)) == of[0]);
        assert(sval(og.take(1)) == og[0]);
        assert(sval(f.limbs@.take(0)) == 0);
        assert(sval(g.limbs@.take(0)) == 0);
    }
    cf >>= 62;
    cg >>= 62;
    for i in 1..len
        invariant
            1 <= len <= 50,
            of.len() == 50,
            og.len() == 50,
            forall|k: int| i <= k < 50 ==> f.limbs[k] == of[k],
            forall|k: int| i <= k < 50 ==> g.limbs[k] == og[k],
            forall|k: int| 0 <= k < i - 1 ==> 0 <= #[trigger] f.limbs[k] < R(),
            forall|k: int| 0 <= k < i - 1 ==> 0 <= #[trigger] g.limbs[k] < R(),
            abs(u as int) + abs(v as int) <= R(),
            abs(q as int) + abs(r as int) <= R(),
            abs(cf as int) <= 0x4_0000_0000_0000_0000,
            abs(cg as int) <= 0x4_0000_0000_0000_0000,
            (sval(f.limbs@.take(i - 1)) + cf * rpow((i - 1) as nat)) * R() == u * sval(
                of.take(i as int),
            ) + v * sval(og.take(i as int)),
            (sval(g.limbs@.take(i - 1)) + cg * rpow((i - 1) as nat)) * R() == q * sval(
                of.take(i as int),
            ) + r * sval(og.take(i as int)),
    {
        let fi = f.limbs[i];
        let gi = g.limbs[i];
        proof {
            lemma_lin_bound(u as int, v as int, fi as int, gi as int, 0x8000_0000_0000_0000);
            lemma_lin_bound(q as int, r as int, fi as int, gi as int, 0x8000_0000_0000_0000);
            assert(abs(u * fi) <= R() * 0x8000_0000_0000_0000) by (nonlinear_arith)
                requires abs(u as int) <= R(), abs(fi as int) <= 0x8000_0000_0000_0000;
            assert(abs(v * gi) <= R() * 0x8000_0000_0000_0000) by (nonlinear_arith)
                requires abs(v as int) <= R(), abs(gi as int) <= 0x8000_0000_0000_0000;
            assert(abs(q * fi) <= R() * 0x8000_0000_0000_0000) by (nonlinear_arith)
                requires abs(q as int) <= R(), abs(fi as int) <= 0x8000_0000_0000_0000;
            assert(abs(r * gi) <= R() * 0x8000_0000_0000_0000) by (nonlinear_arith)
                requires abs(r as int) <= R(), abs(gi as int) <= 0x8000_0000_0000_0000;
        }
        let ghost cf0 = cf;
        let ghost cg0 = cg;
        let ghost fb = f.limbs@;
        let ghost gb = g.limbs@;
        cf += (u as i128) * (fi as i128) + (v as i128) * (gi as i128);
        cg += (q as i128) * (fi as i128) + (r as i128) * (gi as i128);
        proof {
            lemma_i128_to_i64(cf);
            lemma_i128_to_i64(cg);
            lemma_i64_split62(cf as i64);
            lemma_i64_split62(cg as i64);
            lemma_i128_split62(cf);
            lemma_i128_split62(cg);
            // (cf as i64) and cf agree modulo 2^62.
            lemma_mod_2_64_to_62(cf as int, (cf as i64) as int);
            lemma_mod_2_64_to_62(cg as int, (cg as i64) as int);
        }
        f.limbs[i - 1] = (cf as i64) & 0x3fff_ffff_ffff_ffff;
        g.limbs[i - 1] = (cg as i64) & 0x3fff_ffff_ffff_ffff;
        proof {
            assert(f.limbs@.take(i - 1) == fb.take(i - 1));
            assert(g.limbs@.take(i - 1) == gb.take(i - 1));
            lemma_sval_take_step(f.limbs@, i - 1);
            lemma_sval_take_step(g.limbs@, i - 1);
            lemma_sval_take_step(of, i as int);
            lemma_sval_take_step(og, i as int);
            assert(rpow(i as nat) == R() * rpow((i - 1) as nat));
            lemma_fg_step(
                sval(fb.take(i - 1)),
                sval(f.limbs@.take(i as int)),
                cf0 as int,
                cf as int,
                f.limbs[i - 1] as int,
                (cf >> 62i128) as int,
                rpow((i - 1) as nat),
                u * sval(of.take(i as int)) + v * sval(og.take(i as int)),
                u * fi + v * gi,
            );
            lemma_fg_step(
                sval(gb.take(i - 1)),
                sval(g.limbs@.take(i as int)),
                cg0 as int,
                cg as int,
                g.limbs[i - 1] as int,
                (cg >> 62i128) as int,
                rpow((i - 1) as nat),
                q * sval(of.take(i as int)) + r * sval(og.take(i as int)),
                q * fi + r * gi,
            );
            assert((u * fi + v * gi) * (R() * rpow((i - 1) as nat)) == u * (fi * rpow(i as nat)) + v
                * (gi * rpow(i as nat))) by (nonlinear_arith)
                requires
                    rpow(i as nat) == R() * rpow((i - 1) as nat),
            ;
            assert((q * fi + r * gi) * (R() * rpow((i - 1) as nat)) == q * (fi * rpow(i as nat)) + r
                * (gi * rpow(i as nat))) by (nonlinear_arith)
                requires
                    rpow(i as nat) == R() * rpow((i - 1) as nat),
            ;
            assert(u * sval(of.take(i + 1)) == u * sval(of.take(i as int)) + u * (fi * rpow(i as nat)))
                by (nonlinear_arith)
                requires
                    sval(of.take(i + 1)) == sval(of.take(i as int)) + fi * rpow(i as nat),
            ;
            assert(v * sval(og.take(i + 1)) == v * sval(og.take(i as int)) + v * (gi * rpow(i as nat)))
                by (nonlinear_arith)
                requires
                    sval(og.take(i + 1)) == sval(og.take(i as int)) + gi * rpow(i as nat),
            ;
            assert(q * sval(of.take(i + 1)) == q * sval(of.take(i as int)) + q * (fi * rpow(i as nat)))
                by (nonlinear_arith)
                requires
                    sval(of.take(i + 1)) == sval(of.take(i as int)) + fi * rpow(i as nat),
            ;
            assert(r * sval(og.take(i + 1)) == r * sval(og.take(i as int)) + r * (gi * rpow(i as nat)))
                by (nonlinear_arith)
                requires
                    sval(og.take(i + 1)) == sval(og.take(i as int)) + gi * rpow(i as nat),
            ;
        }
        cf >>= 62;
        cg >>= 62;
    }
    proof {
        // The top carries fit in a limb because the results are bounded.
        let n = (len - 1) as nat;
        lemma_rpow_pos(n);
        lemma_sval_bounds(f.limbs@.take(len - 1));
        lemma_sval_bounds(g.limbs@.take(len - 1));
        assert(rpow(len as nat) == R() * rpow(n));
        lemma_top_carry(sval(f.limbs@.take(len - 1)), cf as int, rpow(n), u * sval(of.take(len as int)) + v * sval(og.take(len as int)));
        lemma_top_carry(sval(g.limbs@.take(len - 1)), cg as int, rpow(n), q * sval(of.take(len as int)) + r * sval(og.take(len as int)));
        lemma_i128_to_i64(cf);
        lemma_i128_to_i64(cg);
    }
    let ghost fb = f.limbs@;
    let ghost gb = g.limbs@;
    f.limbs[len - 1] = cf as i64;
    g.limbs[len - 1] = cg as i64;
    proof {
        assert(f.limbs@.take(len - 1) == fb.take(len - 1));
        assert(g.limbs@.take(len - 1) == gb.take(len - 1));
        lemma_sval_take_step(f.limbs@, len - 1);
        lemma_sval_take_step(g.limbs@, len - 1);
    }
}

/// Agreement modulo `2^64` gives agreement modulo `2^62`.
proof fn lemma_mod_2_64_to_62(a: int, b: int)
    requires
        (a - b) % 0x1_0000_0000_0000_0000int == 0,
    ensures
        a % R() == b % R(),
{
    let k = (a - b) / 0x1_0000_0000_0000_0000int;
    vstd::arithmetic::div_mod::lemma_fundamental_div_mod(a - b, 0x1_0000_0000_0000_0000int);
    assert(a == b + (4 * k) * R());
    vstd::arithmetic::div_mod::lemma_mod_multiples_vanish(4 * k, b, R());
    lemma_mul_is_commutative(4 * k, R());
}

/// With the lower limbs in `[0, rp)` and a bounded total, the top carry is at most `2^62 + 1`.
proof fn lemma_top_carry(s: int, c: int, rp: int, total: int)
    requires
        0 <= s < rp,
        (s + c * rp) * R() == total,
        abs(total) <= R() * (R() * rp + rp),
    ensures
        abs(c) <= R() + 2,
{
    assert(abs(s + c * rp) <= R() * rp + rp) by (nonlinear_arith)
        requires
            (s + c * rp) * R() == total,
            abs(total) <= R() * (R() * rp + rp),
    ;
    assert(abs(c) <= R() + 2) by (nonlinear_arith)
        requires
            abs(s + c * rp) <= R() * rp + rp,
            0 <= s < rp,
    ;
}

/// `modulus() == 2^34 * 2^(62*49) - 1103717`: its signed limbs are
/// `-1103717` at position 0 and `2^34` at position 49.
pub proof fn lemma_modulus_limbs()
    ensures
        modulus() == 0x4_0000_0000 * rpow(49) - 1103717,
        wpow(48) == 0x4_0000_0000 * rpow(49),
{
    lemma_rpow_pow2(49);
    lemma_wpow_pow2(48);
    lemma_pow2_adds(34, 62 * 49);
    lemma2_to64_rest();
}

/// A well-formed signed number for the `d`, `e` side of the inversion:
/// limbs 0..48 in `[0, 2^62)` and value in `(-2 * modulus, modulus)`.
pub open spec fn de_ok(s: Seq<i64>) -> bool {
    &&& s.len() == 50
    &&& forall|k: int| 0 <= k < 49 ==> 0 <= #[trigger] s[k] < R()
    &&& -2 * modulus() < sval(s) < modulus()
}

/// The top limb of a well-formed `d`/`e` carries the sign and is small.
proof fn lemma_de_top(s: Seq<i64>)
    requires
        de_ok(s),
    ensures
        sval(s) == sval(s.take(49)) + s[49] * rpow(49),
        0 <= sval(s.take(49)) < rpow(49),
        (s[49] < 0) == (sval(s) < 0),
        abs(s[49] as int) <= 0x10_0000_0000,
{
    assert(s.take(50) == s);
    lemma_sval_take_step(s, 49);
    lemma_sval_bounds(s.take(49));
    lemma_modulus_limbs();
    lemma_rpow_pos(49);
    let a = sval(s.take(49));
    let t = s[49] as int;
    let rp = rpow(49);
    assert((t < 0) == (a + t * rp < 0)) by (nonlinear_arith)
        requires
            0 <= a < rp,
    ;
    assert(abs(t) <= 0x10_0000_0000) by (nonlinear_arith)
        requires
            0 <= a < rp,
            -2 * (0x4_0000_0000 * rp - 1103717) < a + t * rp < 0x4_0000_0000 * rp - 1103717,
            rp > 0,
    ;
}

/// The Montgomery-style correction: with `md` lowered by `(MI * cd + md) mod 2^62`
/// the low limb `cd - 1103717 * md` becomes divisible by `2^62`.
proof fn lemma_md_correction(cd: int, md: int, x: int)
    requires
        x == (0x70a1421da087d93 * cd + md) % R(),
    ensures
        (cd - 1103717 * (md - x)) % R() == 0,
{
    let m = R();
    let k = (0x70a1421da087d93 * cd + md) / m;
    vstd::arithmetic::div_mod::lemma_fundamental_div_mod(0x70a1421da087d93 * cd + md, m);
    // 1103717 * MI + 1 is a multiple of 2^62.
    assert(1103717 * 0x70a1421da087d93int + 1 == 121398 * 0x4000_0000_0000_0000int);
    assert(cd - 1103717 * (md - x) == m * (121398 * cd - 1103717 * k)) by (nonlinear_arith)
        requires
            0x70a1421da087d93 * cd + md == m * k + x,
            1103717 * 0x70a1421da087d93 + 1 == 121398 * m,
    ;
    vstd::arithmetic::div_mod::lemma_mod_multiples_basic(121398 * cd - 1103717 * k, m);
    lemma_mul_is_commutative(m, 121398 * cd - 1103717 * k);
}

/// The range of `(u * d + v * e + modulus * md) / 2^62` for the chosen `md`.
proof fn lemma_de_range(dv: int, ev: int, u: int, v: int, x: int, out: int)
    requires
        -2 * modulus() < dv < modulus(),
        -2 * modulus() < ev < modulus(),
        abs(u) + abs(v) <= R(),
        0 <= x < R(),
        out * R() == u * dv + v * ev + modulus() * ((if dv < 0 { u } else { 0 }) + (if ev < 0 { v } else { 0 }) - x),
    ensures
        -2 * modulus() < out < modulus(),
{
    let m = modulus();
    crate::muhash::lemma_modulus_pos();
    let da = if dv < 0 { dv + m } else { dv };
    let ea = if ev < 0 { ev + m } else { ev };
    assert(u * dv + v * ev + m * ((if dv < 0 { u } else { 0 }) + (if ev < 0 { v } else { 0 })) == u * da + v * ea)
        by (nonlinear_arith)
        requires
            da == (if dv < 0 { dv + m } else { dv }),
            ea == (if ev < 0 { ev + m } else { ev }),
    ;
    lemma_lin_bound(u, v, da, ea, m - 1);
    assert(out * R() == u * da + v * ea - m * x) by (nonlinear_arith)
        requires
            out * R() == u * dv + v * ev + m * ((if dv < 0 { u } else { 0 }) + (if ev < 0 { v } else { 0 }) - x),
            u * dv + v * ev + m * ((if dv < 0 { u } else { 0 }) + (if ev < 0 { v } else { 0 })) == u * da + v * ea,
    ;
    assert(-2 * m < out < m) by (nonlinear_arith)
        requires
            out * R() == u * da + v * ea - m * x,
            abs(u * da + v * ea) <= R() * (m - 1),
            0 <= x < R(),
            m > 1,
            R() > 0,
    ;
}

pub const MODULUS_INVERSE: u64 = 0x70a1421da087d93;

/// The multiple of the modulus that `update_de` adds to `u * d + v * e` so
/// that the sum divides by `2^62`: `u` if `d` is negative, plus `v` if `e` is
/// negative, lowered into place by the low limbs `d0`, `e0`.
pub open spec fn de_shift(u: int, v: int, dv: int, ev: int, d0: int, e0: int) -> int {
    let m0 = (if dv < 0 { u } else { 0 }) + (if ev < 0 { v } else { 0 });
    m0 - ((0x70a1421da087d93 * (u * d0 + v * e0) + m0) % R())
}

/// `(d, e) = (u * d + v * e, q * d + r * e) / 2^62` modulo the modulus,
/// keeping both in `(-2 * modulus, modulus)`.
#[verifier::rlimit(100)]
pub(crate) fn update_de(d: &mut Num3072Signed, e: &mut Num3072Signed, t: &SignedMatrix)
    requires
        abs(t.u as int) + abs(t.v as int) <= R(),
        abs(t.q as int) + abs(t.r as int) <= R(),
        de_ok(old(d).limbs@),
        de_ok(old(e).limbs@),
    ensures
        de_ok(final(d).limbs@),
        de_ok(final(e).limbs@),
        (sval(final(d).limbs@) * R() - (t.u * sval(old(d).limbs@) + t.v * sval(old(e).limbs@)))
            % modulus() == 0,
        (sval(final(e).limbs@) * R() - (t.q * sval(old(d).limbs@) + t.r * sval(old(e).limbs@)))
            % modulus() == 0,
        sval(final(d).limbs@) * R() == t.u * sval(old(d).limbs@) + t.v * sval(old(e).limbs@)
            + modulus() * de_shift(t.u as int, t.v as int, sval(old(d).limbs@), sval(old(e).limbs@),
            old(d).limbs[0] as int, old(e).limbs[0] as int),
        sval(final(e).limbs@) * R() == t.q * sval(old(d).limbs@) + t.r * sval(old(e).limbs@)
            + modulus() * de_shift(t.q as int, t.r as int, sval(old(d).limbs@), sval(old(e).limbs@),
            old(d).limbs[0] as int, old(e).limbs[0] as int),
{
    let ghost od = d.limbs@;
    let ghost oe = e.limbs@;
    let u = t.u;
    let v = t.v;
    let q = t.q;
    let r = t.r;
    proof {
        lemma_de_top(od);
        lemma_de_top(oe);
        lemma_i64_sign(d.limbs[49]);
        lemma_i64_sign(e.limbs[49]);
    }
    let sd = d.limbs[SIGNED_LIMBS - 1] >> 63;
    let se = e.limbs[SIGNED_LIMBS - 1] >> 63;
    proof {
        lemma_i64_and_mask(u, sd);
        lemma_i64_and_mask(v, se);
        lemma_i64_and_mask(q, sd);
        lemma_i64_and_mask(r, se);
    }
    let mut md = (u & sd) + (v & se);
    let mut me = (q & sd) + (r & se);
    let ghost md0 = md;
    let ghost me0 = me;
    let di = d.limbs[0];
    let ei = e.limbs[0];
    proof {
        assert(abs(u * di) <= R() * R()) by (nonlinear_arith)
            requires abs(u as int) <= R(), 0 <= di < R();
        assert(abs(v * ei) <= R() * R()) by (nonlinear_arith)
            requires abs(v as int) <= R(), 0 <= ei < R();
        assert(abs(q * di) <= R() * R()) by (nonlinear_arith)
            requires abs(q as int) <= R(), 0 <= di < R();
        assert(abs(r * ei) <= R() * R()) by (nonlinear_arith)
            requires abs(r as int) <= R(), 0 <= ei < R();
    }
    let mut cd = (u as i128) * (di as i128) + (v as i128) * (ei as i128);
    let mut ce = (q as i128) * (di as i128) + (r as i128) * (ei as i128);
    let ghost cd0 = cd;
    let ghost ce0 = ce;
    proof {
        lemma_i128_to_i64(cd);
        lemma_i128_to_i64(ce);
    }
    let xd = (MODULUS_INVERSE as i64).wrapping_mul(cd as i64).wrapping_add(md) & 0x3fff_ffff_ffff_ffff;
    let xe = (MODULUS_INVERSE as i64).wrapping_mul(ce as i64).wrapping_add(me) & 0x3fff_ffff_ffff_ffff;
    proof {
        let wd = (MODULUS_INVERSE as i64).wrapping_mul(cd as i64).wrapping_add(md);
        let we = (MODULUS_INVERSE as i64).wrapping_mul(ce as i64).wrapping_add(me);
        lemma_i64_split62(wd);
        lemma_i64_split62(we);
        lemma_wrap_mul_add_mod(cd as int, (cd as i64) as int, md as int, wd as int);
        lemma_wrap_mul_add_mod(ce as int, (ce as i64) as int, me as int, we as int);
        lemma_md_correction(cd as int, md as int, xd as int);
        lemma_md_correction(ce as int, me as int, xe as int);
    }
    md = md.wrapping_sub(xd);
    me = me.wrapping_sub(xe);
    proof {
        assert(md == md0 - xd);
        assert(me == me0 - xe);
        assert(md0 == (if sval(od) < 0 { u as int } else { 0 }) + (if sval(oe) < 0 { v as int } else { 0 }));
        assert(me0 == (if sval(od) < 0 { q as int } else { 0 }) + (if sval(oe) < 0 { r as int } else { 0 }));
        assert(cd0 as int == u * od[0] + v * oe[0]);
        assert(ce0 as int == q * od[0] + r * oe[0]);
        assert(md == de_shift(u as int, v as int, sval(od), sval(oe), od[0] as int, oe[0] as int));
        assert(me == de_shift(q as int, r as int, sval(od), sval(oe), od[0] as int, oe[0] as int));
    }
    cd -= 1103717i128 * (md as i128);
    ce -= 1103717i128 * (me as i128);
    proof {
        lemma_i128_split62(cd);
        lemma_i128_split62(ce);
        assert(rpow(0) == 1);
        assert(od.take(1).drop_last().len() == 0);
        assert(oe.take(1).drop_last().len() == 0);
        assert(sval(od.take(1).drop_last()) == 0);
        assert(sval(oe.take(1).drop_last()) == 0);
        assert(od.take(1).last() == od[0]);
        assert(oe.take(1).last() == oe[0]);
        assert(sval(d.limbs@.take(0)) == 0);
        assert(sval(e.limbs@.take(0)) == 0);
    }
    cd >>= 62;
    ce >>= 62;
    for i in 1..SIGNED_LIMBS - 1
        invariant
            od.len() == 50,
            oe.len() == 50,
            de_ok(od),
            de_ok(oe),
            forall|k: int| i <= k < 50 ==> d.limbs[k] == od[k],
            forall|k: int| i <= k < 50 ==> e.limbs[k] == oe[k],
            forall|k: int| 0 <= k < i - 1 ==> 0 <= #[trigger] d.limbs[k] < R(),
            forall|k: int| 0 <= k < i - 1 ==> 0 <= #[trigger] e.limbs[k] < R(),
            abs(u as int) + abs(v as int) <= R(),
            abs(q as int) + abs(r as int) <= R(),
            abs(cd as int) <= 0x4_0000_0000_0000_0000,
            abs(ce as int) <= 0x4_0000_0000_0000_0000,
            (sval(d.limbs@.take(i - 1)) + cd * rpow((i - 1) as nat)) * R() == u * sval(
                od.take(i as int),
            ) + v * sval(oe.take(i as int)) - 1103717 * md,
            (sval(e.limbs@.take(i - 1)) + ce * rpow((i - 1) as nat)) * R() == q * sval(
                od.take(i as int),
            ) + r * sval(oe.take(i as int)) - 1103717 * me,
    {
        let di = d.limbs[i];
        let ei = e.limbs[i];
        proof {
            assert(di == od[i as int]);
            assert(ei == oe[i as int]);
            assert(abs(u * di) <= R() * R()) by (nonlinear_arith)
                requires abs(u as int) <= R(), 0 <= di < R();
            assert(abs(v * ei) <= R() * R()) by (nonlinear_arith)
                requires abs(v as int) <= R(), 0 <= ei < R();
            assert(abs(q * di) <= R() * R()) by (nonlinear_arith)
                requires abs(q as int) <= R(), 0 <= di < R();
            assert(abs(r * ei) <= R() * R()) by (nonlinear_arith)
                requires abs(r as int) <= R(), 0 <= ei < R();
        }
        let ghost cd_prev = cd;
        let ghost ce_prev = ce;
        let ghost db = d.limbs@;
        let ghost eb = e.limbs@;
        cd += (u as i128) * (di as i128) + (v as i128) * (ei as i128);
        ce += (q as i128) * (di as i128) + (r as i128) * (ei as i128);
        proof {
            lemma_i128_to_i64(cd);
            lemma_i128_to_i64(ce);
            lemma_i64_split62(cd as i64);
            lemma_i64_split62(ce as i64);
            lemma_i128_split62(cd);
            lemma_i128_split62(ce);
            lemma_mod_2_64_to_62(cd as int, (cd as i64) as int);
            lemma_mod_2_64_to_62(ce as int, (ce as i64) as int);
        }
        d.limbs[i - 1] = (cd as i64) & 0x3fff_ffff_ffff_ffff;
        e.limbs[i - 1] = (ce as i64) & 0x3fff_ffff_ffff_ffff;
        proof {
            assert(d.limbs@.take(i - 1) == db.take(i - 1));
            assert(e.limbs@.take(i - 1) == eb.take(i - 1));
            lemma_sval_take_step(d.limbs@, i - 1);
            lemma_sval_take_step(e.limbs@, i - 1);
            lemma_sval_take_step(od, i as int);
            lemma_sval_take_step(oe, i as int);
            assert(rpow(i as nat) == R() * rpow((i - 1) as nat));
            lemma_fg_step(
                sval(db.take(i - 1)),
                sval(d.limbs@.take(i as int)),
                cd_prev as int,
                cd as int,
                d.limbs[i - 1] as int,
                (cd >> 62i128) as int,
                rpow((i - 1) as nat),
                u * sval(od.take(i as int)) + v * sval(oe.take(i as int)) - 1103717 * md,
                u * di + v * ei,
            );
            lemma_fg_step(
                sval(eb.take(i - 1)),
                sval(e.limbs@.take(i as int)),
                ce_prev as int,
                ce as int,
                e.limbs[i - 1] as int,
                (ce >> 62i128) as int,
                rpow((i - 1) as nat),
                q * sval(od.take(i as int)) + r * sval(oe.take(i as int)) - 1103717 * me,
                q * di + r * ei,
            );
            lemma_lin_step(u as int, v as int, di as int, ei as int, sval(od.take(i as int)), sval(od.take(i + 1)), sval(oe.take(i as int)), sval(oe.take(i + 1)), rpow((i - 1) as nat), rpow(i as nat));
            lemma_lin_step(q as int, r as int, di as int, ei as int, sval(od.take(i as int)), sval(od.take(i + 1)), sval(oe.take(i as int)), sval(oe.take(i + 1)), rpow((i - 1) as nat), rpow(i as nat));
        }
        cd >>= 62;
        ce >>= 62;
    }
    let d49 = d.limbs[SIGNED_LIMBS - 1];
    let e49 = e.limbs[SIGNED_LIMBS - 1];
    proof {
        assert(abs(u * d49) <= R() * 0x10_0000_0000) by (nonlinear_arith)
            requires abs(u as int) <= R(), abs(d49 as int) <= 0x10_0000_0000;
        assert(abs(v * e49) <= R() * 0x10_0000_0000) by (nonlinear_arith)
            requires abs(v as int) <= R(), abs(e49 as int) <= 0x10_0000_0000;
        assert(abs(q * d49) <= R() * 0x10_0000_0000) by (nonlinear_arith)
            requires abs(q as int) <= R(), abs(d49 as int) <= 0x10_0000_0000;
        assert(abs(r * e49) <= R() * 0x10_0000_0000) by (nonlinear_arith)
            requires abs(r as int) <= R(), abs(e49 as int) <= 0x10_0000_0000;
        lemma_pow2_pos(34);
        lemma2_to64_rest();
        lemma_i128_shl(md as i128, 34);
        lemma_i128_shl(me as i128, 34);
    }
    let ghost cd_prev = cd;
    let ghost ce_prev = ce;
    cd += (u as i128) * (d49 as i128) + (v as i128) * (e49 as i128);
    ce += (q as i128) * (d49 as i128) + (r as i128) * (e49 as i128);
    cd += (md as i128) << 34;
    ce += (me as i128) << 34;
    proof {
        lemma_i128_to_i64(cd);
        lemma_i128_to_i64(ce);
        lemma_i64_split62(cd as i64);
        lemma_i64_split62(ce as i64);
        lemma_i128_split62(cd);
        lemma_i128_split62(ce);
        lemma_mod_2_64_to_62(cd as int, (cd as i64) as int);
        lemma_mod_2_64_to_62(ce as int, (ce as i64) as int);
    }
    let ghost db = d.limbs@;
    let ghost eb = e.limbs@;
    d.limbs[SIGNED_LIMBS - 2] = (cd as i64) & 0x3fff_ffff_ffff_ffff;
    e.limbs[SIGNED_LIMBS - 2] = (ce as i64) & 0x3fff_ffff_ffff_ffff;
    proof {
        let term_d = u * d49 + v * e49 + md * 0x4_0000_0000;
        let term_e = q * d49 + r * e49 + me * 0x4_0000_0000;
        assert(d.limbs@.take(48) == db.take(48));
        assert(e.limbs@.take(48) == eb.take(48));
        lemma_sval_take_step(d.limbs@, 48);
        lemma_sval_take_step(e.limbs@, 48);
        lemma_sval_take_step(od, 49);
        lemma_sval_take_step(oe, 49);
        assert(od.take(50) == od);
        assert(oe.take(50) == oe);
        assert(rpow(49) == R() * rpow(48));
        lemma_fg_step(
            sval(db.take(48)),
            sval(d.limbs@.take(49)),
            cd_prev as int,
            cd as int,
            d.limbs[48] as int,
            (cd >> 62i128) as int,
            rpow(48),
            u * sval(od.take(49)) + v * sval(oe.take(49)) - 1103717 * md,
            term_d,
        );
        lemma_fg_step(
            sval(eb.take(48)),
            sval(e.limbs@.take(49)),
            ce_prev as int,
            ce as int,
            e.limbs[48] as int,
            (ce >> 62i128) as int,
            rpow(48),
            q * sval(od.take(49)) + r * sval(oe.take(49)) - 1103717 * me,
            term_e,
        );
        lemma_modulus_limbs();
        lemma_top_step(u as int, v as int, d49 as int, e49 as int, md as int, sval(od.take(49)), sval(od), sval(oe.take(49)), sval(oe), rpow(48), rpow(49));
        lemma_top_step(q as int, r as int, d49 as int, e49 as int, me as int, sval(od.take(49)), sval(od), sval(oe.take(49)), sval(oe), rpow(48), rpow(49));
        // Both results are in range, so the top carries are small.
        lemma_de_range(sval(od), sval(oe), u as int, v as int, xd as int, (sval(d.limbs@.take(49)) * 1 + (cd >> 62i128) * rpow(49)));
        lemma_de_range(sval(od), sval(oe), q as int, r as int, xe as int, (sval(e.limbs@.take(49)) * 1 + (ce >> 62i128) * rpow(49)));
        lemma_sval_bounds(d.limbs@.take(49));
        lemma_sval_bounds(e.limbs@.take(49));
        lemma_small_top(sval(d.limbs@.take(49)), (cd >> 62i128) as int, rpow(49));
        lemma_small_top(sval(e.limbs@.take(49)), (ce >> 62i128) as int, rpow(49));
    }
    cd >>= 62;
    ce >>= 62;
    proof {
        lemma_i128_to_i64(cd);
        lemma_i128_to_i64(ce);
    }
    let ghost db = d.limbs@;
    let ghost eb = e.limbs@;
    d.limbs[SIGNED_LIMBS - 1] = cd as i64;
    e.limbs[SIGNED_LIMBS - 1] = ce as i64;
    proof {
        assert(d.limbs@.take(49) == db.take(49));
        assert(e.limbs@.take(49) == eb.take(49));
        lemma_sval_take_step(d.limbs@, 49);
        lemma_sval_take_step(e.limbs@, 49);
        assert(d.limbs@.take(50) == d.limbs@);
        assert(e.limbs@.take(50) == e.limbs@);
        crate::muhash::lemma_modulus_pos();
        vstd::arithmetic::div_mod::lemma_mod_multiples_basic(md as int, modulus());
        vstd::arithmetic::div_mod::lemma_mod_multiples_basic(me as int, modulus());
        lemma_mul_is_commutative(md as int, modulus());
        lemma_mul_is_commutative(me as int, modulus());
    }
}

/// `(cd as i64)` wrapped through the `i64` operations agrees with the exact
/// `MI * cd + md` modulo `2^62`.
proof fn lemma_wrap_mul_add_mod(cd: int, cd64: int, md: int, w: int)
    requires
        (cd - cd64) % 0x1_0000_0000_0000_0000int == 0,
        -0x8000_0000_0000_0000int <= cd64 < 0x8000_0000_0000_0000int,
        -0x8000_0000_0000_0000int <= md < 0x8000_0000_0000_0000int,
        w == vstd::wrapping::i64_specs::wrapping_add(
            vstd::wrapping::i64_specs::wrapping_mul(0x70a1421da087d93i64, cd64 as i64),
            md as i64,
        ),
    ensures
        w % R() == (0x70a1421da087d93 * cd + md) % R(),
{
    let bw = 0x1_0000_0000_0000_0000int;
    let z = 0x70a1421da087d93 * cd64;
    let p = vstd::wrapping::i64_specs::wrapping_mul(0x70a1421da087d93i64, cd64 as i64) as int;
    vstd::arithmetic::div_mod::lemma_fundamental_div_mod(z, bw);
    assert((z - p) % bw == 0) by {
        if z % bw > 0x7fff_ffff_ffff_ffff {
            assert(z - p == bw * (z / bw) + bw);
            vstd::arithmetic::div_mod::lemma_mod_multiples_basic(z / bw + 1, bw);
            lemma_mul_is_commutative(bw, z / bw + 1);
        } else {
            assert(z - p == bw * (z / bw));
            vstd::arithmetic::div_mod::lemma_mod_multiples_basic(z / bw, bw);
            lemma_mul_is_commutative(bw, z / bw);
        }
    }
    // w and p + md differ by a multiple of 2^64.
    assert((p + md - w) % bw == 0) by {
        if p + md > 0x7fff_ffff_ffff_ffff {
            assert(p + md - w == bw);
        } else if p + md < -0x8000_0000_0000_0000 {
            assert(p + md - w == -bw);
        } else {
            assert(p + md - w == 0);
        }
    }
    // MI * cd and MI * cd64 differ by a multiple of 2^64.
    let k = (cd - cd64) / bw;
    vstd::arithmetic::div_mod::lemma_fundamental_div_mod(cd - cd64, bw);
    assert(0x70a1421da087d93 * cd - z == bw * (0x70a1421da087d93 * k)) by (nonlinear_arith)
        requires
            cd - cd64 == bw * k,
            z == 0x70a1421da087d93 * cd64,
    ;
    let total = 0x70a1421da087d93 * cd + md;
    let k1 = (z - p) / bw;
    let k2 = (p + md - w) / bw;
    vstd::arithmetic::div_mod::lemma_fundamental_div_mod(z - p, bw);
    vstd::arithmetic::div_mod::lemma_fundamental_div_mod(p + md - w, bw);
    assert(total - w == bw * (0x70a1421da087d93 * k + k1 + k2)) by (nonlinear_arith)
        requires
            total == 0x70a1421da087d93 * cd + md,
            0x70a1421da087d93 * cd - z == bw * (0x70a1421da087d93 * k),
            z - p == bw * k1,
            p + md - w == bw * k2,
    ;
    vstd::arithmetic::div_mod::lemma_mod_multiples_basic(0x70a1421da087d93 * k + k1 + k2, bw);
    lemma_mul_is_commutative(bw, 0x70a1421da087d93 * k + k1 + k2);
    lemma_mod_2_64_to_62(total, w);
}

proof fn lemma_lin_step(u: int, v: int, di: int, ei: int, dt: int, dt1: int, et: int, et1: int, rp: int, rp1: int)
    requires
        rp1 == R() * rp,
        dt1 == dt + di * rp1,
        et1 == et + ei * rp1,
    ensures
        u * dt + v * et + (u * di + v * ei) * (R() * rp) == u * dt1 + v * et1,
{
    assert(u * dt1 == u * dt + u * (di * rp1)) by (nonlinear_arith)
        requires
            dt1 == dt + di * rp1,
    ;
    assert(v * et1 == v * et + v * (ei * rp1)) by (nonlinear_arith)
        requires
            et1 == et + ei * rp1,
    ;
    assert((u * di + v * ei) * rp1 == u * (di * rp1) + v * (ei * rp1)) by (nonlinear_arith);
    assert((u * di + v * ei) * (R() * rp) == (u * di + v * ei) * rp1);
}

proof fn lemma_top_step(u: int, v: int, d49: int, e49: int, md: int, dt: int, dv: int, et: int, ev: int, rp48: int, rp49: int)
    requires
        rp49 == R() * rp48,
        dv == dt + d49 * rp49,
        ev == et + e49 * rp49,
        modulus() == 0x4_0000_0000 * rp49 - 1103717,
    ensures
        u * dt + v * et - 1103717 * md + (u * d49 + v * e49 + md * 0x4_0000_0000) * (R() * rp48) == u
            * dv + v * ev + modulus() * md,
{
    let x = u * d49 + v * e49 + md * 0x4_0000_0000;
    assert(x * (R() * rp48) == x * rp49);
    assert(x * rp49 == (u * d49) * rp49 + (v * e49) * rp49 + (md * 0x4_0000_0000) * rp49) by (nonlinear_arith)
        requires
            x == u * d49 + v * e49 + md * 0x4_0000_0000,
    ;
    assert((u * d49) * rp49 == u * (d49 * rp49)) by (nonlinear_arith);
    assert((v * e49) * rp49 == v * (e49 * rp49)) by (nonlinear_arith);
    assert((md * 0x4_0000_0000) * rp49 == md * (0x4_0000_0000 * rp49)) by (nonlinear_arith);
    assert(u * dv == u * dt + u * (d49 * rp49)) by (nonlinear_arith)
        requires
            dv == dt + d49 * rp49,
    ;
    assert(v * ev == v * et + v * (e49 * rp49)) by (nonlinear_arith)
        requires
            ev == et + e49 * rp49,
    ;
    assert(modulus() * md == md * (0x4_0000_0000 * rp49) - 1103717 * md) by (nonlinear_arith)
        requires
            modulus() == 0x4_0000_0000 * rp49 - 1103717,
    ;
}

/// A value below `2^3073` in magnitude has a top limb below `2^63` in magnitude.
proof fn lemma_small_top(s: int, c: int, rp: int)
    requires
        0 <= s < rp,
        -2 * modulus() < s + c * rp < modulus(),
        modulus() == 0x4_0000_0000 * rp - 1103717,
    ensures
        abs(c) <= 0x10_0000_0000,
{
    assert(abs(c) <= 0x10_0000_0000) by (nonlinear_arith)
        requires
            0 <= s < rp,
            -2 * (0x4_0000_0000 * rp - 1103717) < s + c * rp < 0x4_0000_0000 * rp - 1103717,
    ;
}

/// Changing one limb changes the value by the difference at its weight.
pub proof fn lemma_sval_update(s: Seq<i64>, j: int, x: i64)
    requires
        0 <= j < s.len(),
    ensures
        sval(s.update(j, x)) == sval(s) + (x - s[j]) * rpow(j as nat),
    decreases s.len(),
{
    let t = s.update(j, x);
    if j == s.len() - 1 {
        assert(t.drop_last() == s.drop_last());
        assert(x * rpow(j as nat) == s[j] * rpow(j as nat) + (x - s[j]) * rpow(j as nat)) by (nonlinear_arith);
    } else {
        lemma_sval_update(s.drop_last(), j, x);
        assert(t.drop_last() == s.drop_last().update(j, x));
        assert(t.last() == s.last());
    }
}

/// Add the modulus (as limb 0 += -1103717, limb 49 += 2^34) when the top limb
/// is negative.
fn cond_add_modulus(s: &mut Num3072Signed)
    requires
        abs(old(s).limbs[0] as int) <= R() + 2,
        abs(old(s).limbs[49] as int) <= 0x100_0000_0000,
    ensures
        sval(final(s).limbs@) == sval(old(s).limbs@) + (if old(s).limbs[49] < 0 { modulus() } else { 0 }),
        forall|k: int| 1 <= k < 49 ==> final(s).limbs[k] == old(s).limbs[k],
        final(s).limbs[0] == old(s).limbs[0] - (if old(s).limbs[49] < 0 { 1103717int } else { 0 }),
        final(s).limbs[49] == old(s).limbs[49] + (if old(s).limbs[49] < 0 { 0x4_0000_0000int } else { 0 }),
{
    let ghost o = s.limbs@;
    proof {
        lemma_i64_sign(s.limbs[49]);
    }
    let cond_add = s.limbs[SIGNED_LIMBS - 1] >> 63;
    proof {
        lemma_i64_and_mask(-1103717i64, cond_add);
        lemma_i64_and_mask(0x4_0000_0000i64, cond_add);
        assert((1i64 << 34u64) == 0x4_0000_0000i64) by (bit_vector);
    }
    s.limbs[0] += (-(MAX_PRIME_DIFF as i64)) & cond_add;
    let ghost mid = s.limbs@;
    s.limbs[SIGNED_LIMBS - 1] += (1i64 << 34u64) & cond_add;
    proof {
        assert(mid == o.update(0, mid[0]));
        assert(s.limbs@ == mid.update(49, s.limbs[49]));
        lemma_sval_update(o, 0, mid[0]);
        lemma_sval_update(mid, 49, s.limbs[49]);
        lemma_modulus_limbs();
        assert(rpow(0) == 1);
    }
}

/// Move the carries of limbs 0..48 up so that they land in `[0, 2^62)`;
/// the value does not change.
fn carry_limbs(s: &mut Num3072Signed)
    requires
        forall|k: int| 0 <= k < 49 ==> abs(#[trigger] old(s).limbs[k] as int) <= R() + 2,
        abs(old(s).limbs[49] as int) <= 0x100_0000_0000,
    ensures
        sval(final(s).limbs@) == sval(old(s).limbs@),
        forall|k: int| 0 <= k < 49 ==> 0 <= #[trigger] final(s).limbs[k] < R(),
        abs(final(s).limbs[49] as int) <= 0x100_0000_0000 + 2,
{
    let ghost o = s.limbs@;
    for i in 0..SIGNED_LIMBS - 1
        invariant
            sval(s.limbs@) == sval(o),
            forall|k: int| 0 <= k < i ==> 0 <= #[trigger] s.limbs[k] < R(),
            forall|k: int| i < k < 49 ==> #[trigger] s.limbs[k] == o[k],
            forall|k: int| 0 <= k < 49 ==> abs(#[trigger] o[k] as int) <= R() + 2,
            i < 49 ==> abs(s.limbs[i as int] as int) <= R() + 4,
            i < 49 ==> s.limbs[49] == o[49],
            i == 49 ==> abs(s.limbs[49] as int) <= 0x100_0000_0000 + 2,
            abs(o[49] as int) <= 0x100_0000_0000,
    {
        let x = s.limbs[i];
        proof {
            lemma_i64_split62(x);
            assert(abs((x >> 62i64) as int) <= 2) by (nonlinear_arith)
                requires
                    (x >> 62i64) * R() + (x & 0x3fff_ffff_ffff_ffffi64) == x,
                    0 <= (x & 0x3fff_ffff_ffff_ffffi64) < R(),
                    abs(x as int) <= R() + 4,
            ;
            if i + 1 < 49 {
                assert(s.limbs[i + 1] == o[i + 1]);
            }
        }
        let ghost b = s.limbs@;
        s.limbs[i + 1] += s.limbs[i] >> 62;
        let ghost mid = s.limbs@;
        s.limbs[i] &= 0x3fff_ffff_ffff_ffff;
        proof {
            assert(mid == b.update(i + 1, mid[i + 1]));
            assert(s.limbs@ == mid.update(i as int, s.limbs[i as int]));
            lemma_sval_update(b, i + 1, mid[i + 1]);
            lemma_sval_update(mid, i as int, s.limbs[i as int]);
            assert(rpow((i + 1) as nat) == R() * rpow(i as nat));
            assert((mid[i + 1] - b[i + 1]) * rpow((i + 1) as nat) + (s.limbs[i as int] - mid[i as int])
                * rpow(i as nat) == 0) by (nonlinear_arith)
                requires
                    mid[i + 1] - b[i + 1] == (x >> 62i64),
                    s.limbs[i as int] - mid[i as int] == (x & 0x3fff_ffff_ffff_ffffi64) - x,
                    (x >> 62i64) * R() + (x & 0x3fff_ffff_ffff_ffffi64) == x,
                    rpow((i + 1) as nat) == R() * rpow(i as nat),
            ;
        }
    }
}

impl Num3072Signed {
    /// Bring a well-formed `d` to the representative of `d` (or of `-d` when
    /// `negate`) in `[0, modulus)`, with limbs 0..48 in `[0, 2^62)`.
    pub(crate) fn normalize(&mut self, negate: bool)
        requires
            de_ok(old(self).limbs@),
        ensures
            forall|k: int| 0 <= k < 49 ==> 0 <= #[trigger] final(self).limbs[k] < R(),
            0 <= final(self).limbs[49] < 0x4_0000_0000int,
            0 <= sval(final(self).limbs@) < modulus(),
            sval(final(self).limbs@) % modulus() == (if negate { -sval(old(self).limbs@) } else {
                sval(old(self).limbs@)
            }) % modulus(),
    {
        let ghost o = self.limbs@;
        let ghost dv = sval(o);
        proof {
            lemma_de_top(o);
            crate::muhash::lemma_modulus_pos();
        }
        cond_add_modulus(self);
        let ghost d1 = sval(self.limbs@);
        proof {
            assert(-modulus() < d1 < modulus());
        }
        let cond_negate: i64 = if negate { -1 } else { 0 };
        let ghost before_neg = self.limbs@;
        for i in 0..SIGNED_LIMBS
            invariant
                before_neg.len() == 50,
                forall|k: int| i <= k < 50 ==> #[trigger] self.limbs[k] == before_neg[k],
                forall|k: int| 0 <= k < i ==> #[trigger] self.limbs[k] == (if negate { -before_neg[k] } else { before_neg[k] as int }),
                sval(self.limbs@) == sval(before_neg) - (if negate { 2 * sval(before_neg.take(i as int)) } else { 0 }),
                cond_negate == (if negate { -1i64 } else { 0i64 }),
                forall|k: int| 1 <= k < 49 ==> 0 <= #[trigger] before_neg[k] < R(),
                -1103717 <= before_neg[0] < R(),
                abs(before_neg[49] as int) <= 0x10_0000_0000 + 0x4_0000_0000,
        {
            let ghost b = self.limbs@;
            proof {
                lemma_i64_cond_negate(self.limbs[i as int], cond_negate);
            }
            self.limbs[i] = (self.limbs[i] ^ cond_negate) - cond_negate;
            proof {
                assert(self.limbs@ == b.update(i as int, self.limbs[i as int]));
                lemma_sval_update(b, i as int, self.limbs[i as int]);
                lemma_sval_take_step(before_neg, i as int);
                let l = before_neg[i as int] as int;
                assert(b[i as int] == l);
                if negate {
                    assert(self.limbs[i as int] == -l);
                    assert((-l - l) * rpow(i as nat) == -2 * (l * rpow(i as nat))) by (nonlinear_arith);
                    assert(sval(self.limbs@) == sval(b) - 2 * (l * rpow(i as nat)));
                    assert(sval(before_neg.take(i + 1)) == sval(before_neg.take(i as int)) + l * rpow(i as nat));
                } else {
                    assert(self.limbs[i as int] == l);
                    assert(self.limbs@ == b);
                }
            }
        }
        proof {
            assert(before_neg.take(50) == before_neg);
            let d2 = sval(self.limbs@);
            assert(d2 == (if negate { -d1 } else { d1 }));
        }
        carry_limbs(self);
        proof {
            lemma_sval_bounds(self.limbs@.take(49));
            assert(self.limbs@.take(50) == self.limbs@);
            lemma_sval_take_step(self.limbs@, 49);
            lemma_rpow_pos(49);
            lemma_modulus_limbs();
            let a = sval(self.limbs@.take(49));
            let t = self.limbs[49] as int;
            assert((t < 0) == (a + t * rpow(49) < 0)) by (nonlinear_arith)
                requires
                    0 <= a < rpow(49),
            ;
            assert(abs(t) <= 0x10_0000_0000) by (nonlinear_arith)
                requires
                    0 <= a < rpow(49),
                    -(0x4_0000_0000 * rpow(49) - 1103717) < a + t * rpow(49) < 0x4_0000_0000 * rpow(49) - 1103717,
            ;
        }
        let ghost d2 = sval(self.limbs@);
        cond_add_modulus(self);
        let ghost d3 = sval(self.limbs@);
        proof {
            assert(0 <= d3 < modulus());
        }
        carry_limbs(self);
        proof {
            lemma_sval_bounds(self.limbs@.take(49));
            assert(self.limbs@.take(50) == self.limbs@);
            lemma_sval_take_step(self.limbs@, 49);
            lemma_modulus_limbs();
            lemma_rpow_pos(49);
            let a = sval(self.limbs@.take(49));
            let t = self.limbs[49] as int;
            assert(0 <= t < 0x4_0000_0000) by (nonlinear_arith)
                requires
                    0 <= a < rpow(49),
                    0 <= a + t * rpow(49) < 0x4_0000_0000 * rpow(49) - 1103717,
            ;
            // d3 = +-(dv + k1 * m) + k2 * m.
            let m = modulus();
            let k1: int = if dv < 0 { 1 } else { 0 };
            let k2: int = if d2 < 0 { 1 } else { 0 };
            let target = if negate { -dv } else { dv };
            let kk: int = if negate { k2 - k1 } else { k1 + k2 };
            assert(d1 == dv + k1 * m);
            assert(d2 == (if negate { -d1 } else { d1 }));
            assert(d3 == d2 + k2 * m);
            if negate {
                assert(d3 == target + kk * m) by (nonlinear_arith)
                    requires
                        d3 == -d1 + k2 * m,
                        d1 == dv + k1 * m,
                        target == -dv,
                        kk == k2 - k1,
                ;
            } else {
                assert(d3 == target + kk * m) by (nonlinear_arith)
                    requires
                        d3 == d1 + k2 * m,
                        d1 == dv + k1 * m,
                        target == dv,
                        kk == k1 + k2,
                ;
            }
            vstd::arithmetic::div_mod::lemma_mod_multiples_vanish(kk, target, m);
            lemma_mul_is_commutative(kk, m);
            vstd::arithmetic::div_mod::lemma_small_mod(d3 as nat, m as nat);
        }
    }
}

} // verus!
