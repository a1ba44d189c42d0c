//! Num3072: 3072-bit numbers modulo the prime `2^3072 - 1103717`.
use vstd::prelude::*;
use vstd::arithmetic::div_mod::*;
use vstd::arithmetic::mul::*;
use crate::product_math::{at, csum, conv, wsum_from, folded_sum, lemma_csum_bounds, lemma_high_column, lemma_product_folded};
use crate::limb_math::{W, wpow, val, acc2, acc3, lemma_val_front, lemma_val_zeros, lemma_val_take_step, lemma_val_bounds, lemma_wpow_pos, lemma_wpow_mono, lemma_val_gap, lemma_val_all_max};

verus! {

pub const BYTE_SIZE: usize = 384;
pub const LIMBS: usize = 48;
pub const LIMB_SIZE: usize = 64;
pub const SIGNED_LIMBS: usize = 50;
pub const SIGNED_LIMB_SIZE: usize = 62;

pub const MAX_PRIME_DIFF: u64 = 1103717;

/// The modulus `2^3072 - 1103717`.
pub open spec fn modulus() -> int {
    wpow(48) - MAX_PRIME_DIFF
}

/// A 3072-bit number stored as 48 little-endian 64-bit limbs; its value is
/// any number below `2^3072`, which stands for its residue modulo `modulus()`.
#[derive(Clone)]
pub struct Num3072 {
    pub limbs: [u64; LIMBS],
}

impl Num3072 {
    /// The value of the limbs.
    pub open spec fn value(&self) -> int {
        val(self.limbs@)
    }
}

pub proof fn lemma_u128_split(t: u128)
    ensures
        ((t & 0xffff_ffff_ffff_ffffu128) as u64) + ((t >> 64u128) as u64) * W() == t,
        (t >> 64u128) < W(),
{
    assert((t & 0xffff_ffff_ffff_ffffu128) == t % 0x1_0000_0000_0000_0000u128) by (bit_vector);
    assert((t >> 64u128) == t / 0x1_0000_0000_0000_0000u128) by (bit_vector);
    lemma_fundamental_div_mod(t as int, W());
    lemma_mul_is_commutative(W(), (t / 0x1_0000_0000_0000_0000u128) as int);
}

proof fn lemma_prod_bound(a: u64, b: u64)
    ensures
        0 <= a * b <= (W() - 1) * (W() - 1),
        (W() - 1) * (W() - 1) == 0xffff_ffff_ffff_fffe_0000_0000_0000_0001int,
        a * b <= 0xffff_ffff_ffff_fffe_0000_0000_0000_0001int,
{
    lemma_mul_inequality(a as int, W() - 1, b as int);
    lemma_mul_inequality(b as int, W() - 1, W() - 1);
    lemma_mul_is_commutative(W() - 1, b as int);
    lemma_mul_nonnegative(a as int, b as int);
    assert((W() - 1) * (W() - 1) == 0xffff_ffff_ffff_fffe_0000_0000_0000_0001int) by (nonlinear_arith);
}

/// Shift a three-limb accumulator down by one limb, handing out the low limb.
fn extract3(c0: &mut u64, c1: &mut u64, c2: &mut u64, n: &mut u64)
    ensures
        *final(n) == *old(c0),
        *final(c0) == *old(c1),
        *final(c1) == *old(c2),
        *final(c2) == 0,
{
    *n = *c0;
    *c0 = *c1;
    *c1 = *c2;
    *c2 = 0;
}

/// Full 64x64 -> 128-bit product as (low, high).
fn mul(a: u64, b: u64) -> (r: (u64, u64))
    ensures
        r.0 + r.1 * W() == a * b,
{
    proof {
        lemma_prod_bound(a, b);
    }
    let t = (a as u128) * (b as u128);
    proof {
        lemma_u128_split(t);
    }
    ((t & 0xffff_ffff_ffff_ffff) as u64, (t >> 64) as u64)
}

/// `(c0, c1, c2) += a * b`.
fn muladd3(c0: &mut u64, c1: &mut u64, c2: &mut u64, a: u64, b: u64)
    requires
        acc3(*old(c0), *old(c1), *old(c2)) + a * b < W() * W() * W(),
    ensures
        acc3(*final(c0), *final(c1), *final(c2)) == acc3(*old(c0), *old(c1), *old(c2)) + a * b,
{
    proof {
        lemma_prod_bound(a, b);
    }
    let t = (a as u128) * (b as u128);
    let th0 = (t >> 64) as u64;
    let tl = (t & 0xffff_ffff_ffff_ffff) as u64;
    proof {
        lemma_u128_split(t);
        assert(th0 <= W() - 2) by (nonlinear_arith)
            requires
                tl + th0 * W() == a * b,
                a * b <= (W() - 1) * (W() - 1),
                0 <= tl,
                0 <= th0,
        ;
    }
    let new_c0 = c0.wrapping_add(tl);
    let carry0 = new_c0 < tl;
    *c0 = new_c0;
    let th = th0.wrapping_add(if carry0 { 1u64 } else { 0u64 });
    let new_c1 = c1.wrapping_add(th);
    let carry1 = new_c1 < th;
    *c1 = new_c1;
    *c2 += if carry1 { 1u64 } else { 0u64 };
}

/// `(c0, c1, c2) = (c0, c1, 0) + n * (d0, d1, d2)` modulo `2^192` (the old
/// top limb is not read).
fn mulnadd3(c0: &mut u64, c1: &mut u64, c2: &mut u64, d0: u64, d1: u64, d2: u64, n: u64)
    ensures
        acc3(*final(c0), *final(c1), *final(c2)) == (acc3(*old(c0), *old(c1), 0) + acc3(d0, d1, d2)
            * n) % (W() * W() * W()),
{
    let ghost o0 = *c0;
    let ghost o1 = *c1;
    proof {
        lemma_prod_bound(d0, n);
        lemma_prod_bound(d1, n);
    }
    let t0 = (d0 as u128) * (n as u128) + (*c0 as u128);
    let c0_val = (t0 & 0xffff_ffff_ffff_ffff) as u64;
    let t1 = t0 >> 64;
    proof {
        lemma_u128_split(t0);
    }
    let t2 = t1 + (d1 as u128) * (n as u128) + (*c1 as u128);
    let c1_val = (t2 & 0xffff_ffff_ffff_ffff) as u64;
    proof {
        lemma_u128_split(t2);
    }
    let t = t2 >> 64;
    let c2_val = (t as u64).wrapping_add(d2.wrapping_mul(n));
    proof {
        let total = acc3(o0, o1, 0) + acc3(d0, d1, d2) * n;
        assert(acc3(d0, d1, d2) * n == d0 * n + (d1 * n) * W() + (d2 * n) * (W() * W()))
            by (nonlinear_arith);
        assert(c0_val + c1_val * W() + t * (W() * W()) == o0 + o1 * W() + d0 * n + (d1 * n) * W())
            by (nonlinear_arith)
            requires
                c0_val + t1 * W() == d0 * n + o0,
                c1_val + t * W() == t1 + d1 * n + o1,
        ;
        let s = t + d2 * n;
        lemma_fundamental_div_mod(s, W());
        lemma_mul_nonnegative(d2 as int, n as int);
        lemma_mul_mod_noop_right(1, d2 * n, W());
        lemma_add_mod_noop(t as int, d2 * n, W());
        lemma_mod_twice(d2 * n, W());
        lemma_small_mod(t as nat, W() as nat);
        assert(c2_val == s % W());
        let k = s / W();
        assert(acc3(c0_val, c1_val, c2_val) == total - (W() * W() * W()) * k) by (nonlinear_arith)
            requires
                c0_val + c1_val * W() + t * (W() * W()) + (d2 * n) * (W() * W()) == total,
                s == t + d2 * n,
                s == W() * k + c2_val,
        ;
        assert(0 <= acc3(c0_val, c1_val, c2_val) < W() * W() * W()) by (nonlinear_arith)
            requires
                0 <= c0_val < W(),
                0 <= c1_val < W(),
                0 <= c2_val < W(),
                W() > 0,
        ;
        assert(total == k * (W() * W() * W()) + acc3(c0_val, c1_val, c2_val)) by (nonlinear_arith)
            requires
                acc3(c0_val, c1_val, c2_val) == total - (W() * W() * W()) * k,
        ;
        lemma_fundamental_div_mod_converse(total, W() * W() * W(), k, acc3(c0_val, c1_val, c2_val));
    }
    *c0 = c0_val;
    *c1 = c1_val;
    *c2 = c2_val;
}

/// `(c0, c1) *= n` modulo `2^128`.
fn muln2(c0: &mut u64, c1: &mut u64, n: u64)
    ensures
        acc2(*final(c0), *final(c1)) == (acc2(*old(c0), *old(c1)) * n) % (W() * W()),
{
    let ghost o0 = *c0;
    let ghost o1 = *c1;
    proof {
        lemma_prod_bound(o0, n);
        lemma_prod_bound(o1, n);
    }
    let t = (*c0 as u128) * (n as u128);
    *c0 = (t & 0xffff_ffff_ffff_ffff) as u64;
    let ghost h0 = (t >> 64u128) as int;
    proof {
        lemma_u128_split(t);
    }
    let t = (t >> 64) + (*c1 as u128) * (n as u128);
    proof {
        lemma_u128_split(t);
        let lo = (t & 0xffff_ffff_ffff_ffffu128) as u64;
        let hi = (t >> 64u128) as u64;
        let k = hi as int;
        assert(acc2(*c0, lo) == acc2(o0, o1) * n - (W() * W()) * k) by (nonlinear_arith)
            requires
                *c0 + h0 * W() == o0 * n,
                t == h0 + o1 * n,
                lo + hi * W() == t,
                k == hi,
        ;
        assert(0 <= acc2(*c0, lo) < W() * W()) by (nonlinear_arith)
            requires
                0 <= *c0 < W(),
                0 <= lo < W(),
        ;
        assert(acc2(o0, o1) * n == k * (W() * W()) + acc2(*c0, lo)) by (nonlinear_arith)
            requires
                acc2(*c0, lo) == acc2(o0, o1) * n - (W() * W()) * k,
        ;
        lemma_fundamental_div_mod_converse(acc2(o0, o1) * n, W() * W(), k, acc2(*c0, lo));
    }
    *c1 = (t & 0xffff_ffff_ffff_ffff) as u64;
}

/// Add `a` to the two-limb accumulator, hand out the low limb and shift down.
fn addnextract2(c0: &mut u64, c1: &mut u64, a: u64, n: &mut u64)
    ensures
        *final(n) + acc2(*final(c0), *final(c1)) * W() == acc2(*old(c0), *old(c1)) + a,
{
    let new_c0 = c0.wrapping_add(a);
    let carry = new_c0 < a;
    *c0 = new_c0;
    let c1_add: u64 = if carry {
        let nc1 = c1.wrapping_add(1);
        let c2 = nc1 < 1;
        *c1 = nc1;
        if c2 { 1 } else { 0 }
    } else {
        0
    };
    *n = *c0;
    *c0 = *c1;
    *c1 = c1_add;
}


proof fn lemma_carry_step(vn: int, vo: int, acc_old: int, acc_new: int, n: int, a: int, wi: int, d: int)
    requires
        vn + wi * acc_old == vo + d,
        n + acc_new * W() == acc_old + a,
    ensures
        (vn + n * wi) + (W() * wi) * acc_new == (vo + a * wi) + d,
{
    assert((vn + n * wi) + (W() * wi) * acc_new == vn + wi * (n + acc_new * W())) by (nonlinear_arith);
    assert(wi * (acc_old + a) == wi * acc_old + a * wi) by (nonlinear_arith);
}

impl Num3072 {
    /// Set the value to 1.
    pub fn set_to_one(&mut self)
        ensures
            final(self).value() == 1,
            final(self).limbs@ == seq![1u64].add(Seq::new(47, |i: int| 0u64)),
    {
        self.limbs[0] = 1;
        for i in 1..LIMBS
            invariant
                self.limbs[0] == 1,
                forall|k: int| 1 <= k < i ==> self.limbs[k] == 0,
        {
            self.limbs[i] = 0;
        }
        proof {
            let s = self.limbs@;
            assert(s =~= seq![1u64].add(Seq::new(47, |i: int| 0u64)));
            lemma_val_front(s);
            lemma_val_zeros(s.drop_first());
        }
    }

    /// Add `MAX_PRIME_DIFF` and drop the carry out of the top limb: for a
    /// value at or above the modulus this subtracts the modulus.
    pub fn full_reduce(&mut self)
        ensures
            final(self).value() == (old(self).value() + MAX_PRIME_DIFF) % wpow(48),
            old(self).value() >= modulus() ==> final(self).value() == old(self).value() - modulus(),
            old(self).value() < modulus() ==> final(self).value() == old(self).value() + MAX_PRIME_DIFF,
    {
        let ghost old_limbs = self.limbs@;
        let mut c0 = MAX_PRIME_DIFF;
        let mut c1 = 0u64;
        for i in 0..LIMBS
            invariant
                old_limbs.len() == 48,
                forall|k: int| i <= k < 48 ==> self.limbs[k] == old_limbs[k],
                val(self.limbs@.take(i as int)) + wpow(i as nat) * acc2(c0, c1) == val(
                    old_limbs.take(i as int),
                ) + MAX_PRIME_DIFF,
                0 <= acc2(c0, c1) <= MAX_PRIME_DIFF,
                i > 0 ==> acc2(c0, c1) <= 1,
        {
            let ghost before = self.limbs@;
            let ghost acc_old = acc2(c0, c1);
            let a = self.limbs[i];
            addnextract2(&mut c0, &mut c1, a, &mut self.limbs[i]);
            proof {
                assert(self.limbs@.take(i as int) == before.take(i as int));
                lemma_val_take_step(self.limbs@, i as int);
                lemma_val_take_step(old_limbs, i as int);
                lemma_carry_step(
                    val(before.take(i as int)),
                    val(old_limbs.take(i as int)),
                    acc_old,
                    acc2(c0, c1),
                    self.limbs[i as int] as int,
                    a as int,
                    wpow(i as nat),
                    MAX_PRIME_DIFF as int,
                );
                assert(wpow((i + 1) as nat) == W() * wpow(i as nat));
                assert(0 <= acc2(c0, c1) <= 1) by (nonlinear_arith)
                    requires
                        self.limbs[i as int] + acc2(c0, c1) * W() == acc_old + a,
                        0 <= self.limbs[i as int],
                        0 <= acc2(c0, c1),
                        acc_old <= MAX_PRIME_DIFF,
                        a < W(),
                ;
            }
        }
        proof {
            let s = self.limbs@;
            assert(s.take(48) == s);
            assert(old_limbs.take(48) == old_limbs);
            lemma_val_bounds(s);
            lemma_val_bounds(old_limbs);
            lemma_wpow_pos(48);
            lemma_mul_is_commutative(wpow(48), acc2(c0, c1));
            lemma_fundamental_div_mod_converse(
                val(old_limbs) + MAX_PRIME_DIFF,
                wpow(48),
                acc2(c0, c1),
                val(s),
            );
            lemma_mul_is_commutative(wpow(48), acc2(c0, c1));
            if val(old_limbs) >= modulus() {
                assert(acc2(c0, c1) == 1) by (nonlinear_arith)
                    requires
                        val(s) + wpow(48) * acc2(c0, c1) == val(old_limbs) + MAX_PRIME_DIFF,
                        val(s) < wpow(48),
                        val(old_limbs) >= wpow(48) - MAX_PRIME_DIFF,
                        acc2(c0, c1) <= 1,
                        wpow(48) > 0,
                ;
            } else {
                assert(acc2(c0, c1) == 0) by (nonlinear_arith)
                    requires
                        val(s) + wpow(48) * acc2(c0, c1) == val(old_limbs) + MAX_PRIME_DIFF,
                        val(s) >= 0,
                        val(old_limbs) < wpow(48) - MAX_PRIME_DIFF,
                        acc2(c0, c1) >= 0,
                        wpow(48) > 0,
                ;
            }
        }
    }
}

impl Num3072 {
    /// Whether the value is at least the modulus (its limbs read as a number
    /// in `[modulus, 2^3072)`).
    pub fn is_overflow(&self) -> (r: bool)
        ensures
            r == (self.value() >= modulus()),
    {
        proof {
            lemma_val_front(self.limbs@);
            lemma_val_bounds(self.limbs@.drop_first());
            lemma_wpow_pos(47);
            assert(wpow(48) == W() * wpow(47));
        }
        if self.limbs[0] <= u64::MAX - MAX_PRIME_DIFF {
            proof {
                assert(self.value() < modulus()) by (nonlinear_arith)
                    requires
                        self.value() == self.limbs[0] + W() * val(self.limbs@.drop_first()),
                        val(self.limbs@.drop_first()) <= wpow(47) - 1,
                        self.limbs[0] <= W() - 1 - MAX_PRIME_DIFF,
                        wpow(48) == W() * wpow(47),
                ;
            }
            return false;
        }
        for i in 1..LIMBS
            invariant
                forall|k: int| 1 <= k < i ==> self.limbs[k] == u64::MAX,
        {
            if self.limbs[i] != u64::MAX {
                proof {
                    lemma_val_gap(self.limbs@, i as int);
                    lemma_wpow_mono(1, i as nat);
                    assert(wpow(1) == W() * wpow(0));
                }
                return false;
            }
        }
        proof {
            let rest = self.limbs@.drop_first();
            assert forall|k: int| 0 <= k < rest.len() implies rest[k] == u64::MAX by {
                assert(rest[k] == self.limbs[k + 1]);
            }
            lemma_val_all_max(rest);
        }
        true
    }
}


/// The accumulator stays below this bound between columns of a product.
pub open spec fn ACC_BOUND() -> int {
    0x8_0000_0000_0000_0000_0000_0000int
}

proof fn lemma_column_bounds(acc: int, high: int, low: int)
    requires
        0 <= acc < ACC_BOUND(),
        0 <= high <= 47 * ((W() - 1) * (W() - 1)),
        0 <= low <= 48 * ((W() - 1) * (W() - 1)),
    ensures
        acc + high * MAX_PRIME_DIFF + low < W() * W() * W(),
        (acc + high * MAX_PRIME_DIFF + low) / W() < ACC_BOUND(),
        high * MAX_PRIME_DIFF < W() * W() * W(),
{
    assert(acc + high * MAX_PRIME_DIFF + low < 0x4000_0000_0000_0000_0000_0000_0000_0000_0000_0000int)
        by (nonlinear_arith)
        requires
            0 <= acc < ACC_BOUND(),
            0 <= high <= 47 * ((W() - 1) * (W() - 1)),
            0 <= low <= 48 * ((W() - 1) * (W() - 1)),
    ;
    lemma_div_is_ordered(
        acc + high * MAX_PRIME_DIFF + low,
        0x4000_0000_0000_0000_0000_0000_0000_0000_0000_0000int,
        W(),
    );
}

/// One column of the product: the accumulator takes the column sums and
/// hands out its low limb.
proof fn lemma_column_step(
    x: Seq<u64>,
    y: Seq<u64>,
    tmp: Seq<u64>,
    j: int,
    acc_old: int,
    acc_new: int,
    low_limb: u64,
    acc_next: int,
)
    requires
        x.len() == 48,
        y.len() == 48,
        tmp.len() == 48,
        0 <= j < 48,
        tmp[j] == low_limb,
        val(tmp.take(j)) + wpow(j as nat) * acc_old == folded_sum(x, y, MAX_PRIME_DIFF as int, j as nat),
        acc_new == acc_old + conv(x, y, 48 + j) * MAX_PRIME_DIFF + conv(x, y, j),
        acc_new == low_limb + W() * acc_next,
    ensures
        val(tmp.take(j + 1)) + wpow((j + 1) as nat) * acc_next == folded_sum(
            x,
            y,
            MAX_PRIME_DIFF as int,
            (j + 1) as nat,
        ),
{
    lemma_val_take_step(tmp, j);
    let w = wpow(j as nat);
    assert(wpow((j + 1) as nat) == W() * w);
    let d = MAX_PRIME_DIFF as int;
    assert(48 + (j + 1) - 1 == 48 + j);
    assert(wsum_from(x, y, 48, (j + 1) as nat) == wsum_from(x, y, 48, j as nat) + conv(x, y, 48 + j) * w);
    assert(wsum_from(x, y, 0, (j + 1) as nat) == wsum_from(x, y, 0, j as nat) + conv(x, y, j) * w);
    assert(val(tmp.take(j + 1)) + wpow((j + 1) as nat) * acc_next == val(tmp.take(j)) + w * acc_new)
        by (nonlinear_arith)
        requires
            val(tmp.take(j + 1)) == val(tmp.take(j)) + low_limb * w,
            wpow((j + 1) as nat) == W() * w,
            acc_new == low_limb + W() * acc_next,
    ;
    assert(w * acc_new == w * acc_old + d * (conv(x, y, 48 + j) * w) + conv(x, y, j) * w)
        by (nonlinear_arith)
        requires
            acc_new == acc_old + conv(x, y, 48 + j) * d + conv(x, y, j),
    ;
    lemma_mul_is_distributive_add(d, wsum_from(x, y, 48, j as nat), conv(x, y, 48 + j) * w);
}

impl Num3072 {
    /// `self = self * a` modulo the modulus, fully reduced.
    #[verifier::rlimit(60)]
    pub fn multiply(&mut self, a: &Num3072)
        ensures
            final(self).value() == (old(self).value() * a.value()) % modulus(),
    {
        let ghost x = self.limbs@;
        let ghost y = a.limbs@;
        let mut c0 = 0u64;
        let mut c1 = 0u64;
        let mut c2 = 0u64;
        let mut tmp = [0u64; LIMBS];
        proof {
            assert(tmp@.take(0).len() == 0);
            assert(val(tmp@.take(0)) == 0);
        }

        for j in 0..LIMBS - 1
            invariant
                self.limbs@ == x,
                a.limbs@ == y,
                x.len() == 48,
                y.len() == 48,
                c2 == 0,
                0 <= acc2(c0, c1) < ACC_BOUND(),
                val(tmp@.take(j as int)) + wpow(j as nat) * acc2(c0, c1) == folded_sum(
                    x,
                    y,
                    MAX_PRIME_DIFF as int,
                    j as nat,
                ),
        {
            // The high column 48 + j, folded down with MAX_PRIME_DIFF.
            let (d0_init, d1_init) = self::mul(self.limbs[1 + j], a.limbs[LIMBS + j - (1 + j)]);
            let mut d0 = d0_init;
            let mut d1 = d1_init;
            let mut d2 = 0u64;
            proof {
                assert(csum(x, y, 48 + j, j + 1, j + 1) == 0);
                assert(csum(x, y, 48 + j, j + 1, j + 2) == at(x, j + 1) * at(y, 48 + j - (j + 1)));
            }
            for i in (2 + j)..LIMBS
                invariant
                    self.limbs@ == x,
                    a.limbs@ == y,
                    x.len() == 48,
                    y.len() == 48,
                    j < 47,
                    acc3(d0, d1, d2) == csum(x, y, 48 + j, j + 1, i as int),
            {
                proof {
                    lemma_csum_bounds(x, y, 48 + j, j + 1, i as int);
                    lemma_prod_bound(self.limbs[i as int], a.limbs[LIMBS + j - i]);
                    assert(at(x, i as int) == x[i as int]);
                    assert(at(y, 48 + j - i) == y[48 + j - i]);
                    assert(acc3(d0, d1, d2) + self.limbs[i as int] * a.limbs[LIMBS + j - i]
                        < W() * W() * W()) by (nonlinear_arith)
                        requires
                            acc3(d0, d1, d2) <= (i - j - 1) * ((W() - 1) * (W() - 1)),
                            i < 48,
                            self.limbs[i as int] * a.limbs[LIMBS + j - i] <= (W() - 1) * (W()
                                - 1),
                    ;
                }
                muladd3(&mut d0, &mut d1, &mut d2, self.limbs[i], a.limbs[LIMBS + j - i]);
            }
            let ghost acc_start = acc2(c0, c1);
            let ghost high = acc3(d0, d1, d2);
            proof {
                lemma_csum_bounds(x, y, 48 + j, j + 1, 48);
                lemma_csum_bounds(x, y, j as int, 0, j + 1);
                assert((48 - (j + 1)) * ((W() - 1) * (W() - 1)) <= 47 * ((W() - 1) * (W() - 1)))
                    by (nonlinear_arith)
                    requires
                        0 <= j,
                ;
                assert((j + 1 - 0) * ((W() - 1) * (W() - 1)) <= 48 * ((W() - 1) * (W() - 1)))
                    by (nonlinear_arith)
                    requires
                        j < 47,
                ;
                lemma_column_bounds(acc_start, high, csum(x, y, j as int, 0, j + 1));
                assert(acc3(c0, c1, 0) == acc_start);
            }
            mulnadd3(&mut c0, &mut c1, &mut c2, d0, d1, d2, MAX_PRIME_DIFF);
            proof {
                assert(0 <= acc_start + high * MAX_PRIME_DIFF < W() * W() * W()) by (nonlinear_arith)
                    requires
                        acc_start + high * MAX_PRIME_DIFF + csum(x, y, j as int, 0, j + 1)
                            < W() * W() * W(),
                        0 <= acc_start,
                        0 <= high,
                        0 <= csum(x, y, j as int, 0, j + 1),
                ;
                lemma_small_mod((acc_start + high * MAX_PRIME_DIFF) as nat, (W() * W() * W()) as nat);
            }
            let ghost acc_mid = acc3(c0, c1, c2);
            // The low column j.
            for i in 0..j + 1
                invariant
                    self.limbs@ == x,
                    a.limbs@ == y,
                    x.len() == 48,
                    y.len() == 48,
                    j < 47,
                    acc_mid == acc_start + high * MAX_PRIME_DIFF,
                    0 <= acc_start < ACC_BOUND(),
                    0 <= high <= 47 * ((W() - 1) * (W() - 1)),
                    acc3(c0, c1, c2) == acc_mid + csum(x, y, j as int, 0, i as int),
            {
                proof {
                    lemma_csum_bounds(x, y, j as int, 0, i + 1);
                    lemma_prod_bound(self.limbs[i as int], a.limbs[j - i]);
                    assert(at(x, i as int) == x[i as int]);
                    assert(at(y, j - i) == y[j - i]);
                    lemma_column_bounds(acc_start, high, csum(x, y, j as int, 0, i + 1));
                }
                muladd3(&mut c0, &mut c1, &mut c2, self.limbs[i], a.limbs[j - i]);
            }
            let ghost acc_new = acc3(c0, c1, c2);
            let ghost tmp_before = tmp@;
            extract3(&mut c0, &mut c1, &mut c2, &mut tmp[j]);
            proof {
                lemma_high_column(x, y, j as int);
                lemma_csum_bounds(x, y, j as int, 0, j + 1);
                lemma_column_bounds(acc_start, high, csum(x, y, j as int, 0, j + 1));
                assert(tmp@.take(j as int) == tmp_before.take(j as int));
                assert(acc_new == tmp[j as int] + W() * acc2(c0, c1));
                lemma_div_multiples_vanish_fancy(acc2(c0, c1), tmp[j as int] as int, W());
                lemma_column_step(
                    x,
                    y,
                    tmp@,
                    j as int,
                    acc_start,
                    acc_new,
                    tmp[j as int],
                    acc2(c0, c1),
                );
            }
        }
        // Column 47 has no high part.
        let ghost acc_start = acc2(c0, c1);
        proof {
            assert(acc3(c0, c1, c2) == acc_start);
        }
        for i in 0..LIMBS
            invariant
                self.limbs@ == x,
                a.limbs@ == y,
                x.len() == 48,
                y.len() == 48,
                0 <= acc_start < ACC_BOUND(),
                acc3(c0, c1, c2) == acc_start + csum(x, y, 47, 0, i as int),
        {
            proof {
                lemma_csum_bounds(x, y, 47, 0, i + 1);
                lemma_prod_bound(self.limbs[i as int], a.limbs[LIMBS - 1 - i]);
                assert(at(x, i as int) == x[i as int]);
                assert(at(y, 47 - i) == y[47 - i]);
                lemma_column_bounds(acc_start, 0, csum(x, y, 47, 0, i + 1));
            }
            muladd3(&mut c0, &mut c1, &mut c2, self.limbs[i], a.limbs[LIMBS - 1 - i]);
        }
        let ghost acc_new = acc3(c0, c1, c2);
        let ghost tmp_before = tmp@;
        extract3(&mut c0, &mut c1, &mut c2, &mut tmp[LIMBS - 1]);
        proof {
            lemma_high_column(x, y, 47);
            assert(csum(x, y, 95, 48, 48) == 0);
            lemma_csum_bounds(x, y, 47, 0, 48);
            lemma_column_bounds(acc_start, 0, csum(x, y, 47, 0, 48));
            assert(tmp@.take(47) == tmp_before.take(47));
            assert(acc_new == tmp[47] + W() * acc2(c0, c1));
            lemma_div_multiples_vanish_fancy(acc2(c0, c1), tmp[47] as int, W());
            lemma_column_step(x, y, tmp@, 47, acc_start, acc_new, tmp[47], acc2(c0, c1));
            assert(tmp@.take(48) == tmp@);
        }
        let ghost big_c = acc2(c0, c1);
        let ghost t = tmp@;
        // Fold the carry out of the top limb back in: 2^3072 = MAX_PRIME_DIFF.
        proof {
            assert(acc2(c0, c1) * MAX_PRIME_DIFF < W() * W()) by (nonlinear_arith)
                requires
                    0 <= acc2(c0, c1) < ACC_BOUND(),
            ;
        }
        muln2(&mut c0, &mut c1, MAX_PRIME_DIFF);
        proof {
            assert(self.limbs@.take(0).len() == 0);
            assert(val(self.limbs@.take(0)) == 0);
            assert(t.take(0).len() == 0);
            assert(val(t.take(0)) == 0);
            assert(W() * W() == 0x1_0000_0000_0000_0000_0000_0000_0000_0000int) by (nonlinear_arith);
            assert(big_c * MAX_PRIME_DIFF < W() * W()) by (nonlinear_arith)
                requires
                    0 <= big_c < 0x8_0000_0000_0000_0000_0000_0000int,
            ;
            assert(wpow(0) == 1);
            lemma_small_mod((big_c * MAX_PRIME_DIFF) as nat, (W() * W()) as nat);
            assert(acc2(c0, c1) == big_c * MAX_PRIME_DIFF);
            assert(wpow(0) * acc2(c0, c1) == big_c * MAX_PRIME_DIFF);
            assert(val(self.limbs@.take(0)) + wpow(0) * acc2(c0, c1) == val(t.take(0)) + big_c
                * MAX_PRIME_DIFF);
        }
        for j in 0..LIMBS
            invariant
                tmp@ == t,
                t.len() == 48,
                val(self.limbs@.take(j as int)) + wpow(j as nat) * acc2(c0, c1) == val(t.take(j as int))
                    + big_c * MAX_PRIME_DIFF,
                0 <= acc2(c0, c1) < 0x1_0000_0000_0000_0000_0000_0000_0000_0000int,
        {
            let ghost before = self.limbs@;
            let ghost acc_old = acc2(c0, c1);
            addnextract2(&mut c0, &mut c1, tmp[j], &mut self.limbs[j]);
            proof {
                assert(self.limbs@.take(j as int) == before.take(j as int));
                lemma_val_take_step(self.limbs@, j as int);
                lemma_val_take_step(t, j as int);
                lemma_carry_step(
                    val(before.take(j as int)),
                    val(t.take(j as int)),
                    acc_old,
                    acc2(c0, c1),
                    self.limbs[j as int] as int,
                    t[j as int] as int,
                    wpow(j as nat),
                    big_c * MAX_PRIME_DIFF,
                );
                assert(wpow((j + 1) as nat) == W() * wpow(j as nat));
                assert(0 <= acc2(c0, c1) < 0x1_0000_0000_0000_0000_0000_0000_0000_0000int)
                    by (nonlinear_arith)
                    requires
                        self.limbs[j as int] + acc2(c0, c1) * W() == acc_old + t[j as int],
                        0 <= self.limbs[j as int],
                        0 <= acc2(c0, c1),
                        acc_old < 0x1_0000_0000_0000_0000_0000_0000_0000_0000int,
                        t[j as int] < W(),
                ;
            }
        }
        let ghost v = self.limbs@;
        proof {
            assert(v.take(48) == v);
            lemma_val_bounds(v);
            lemma_val_bounds(t);
            lemma_wpow_pos(48);
            lemma_wpow_mono(2, 48);
            assert(wpow(2) == W() * W()) by {
                assert(wpow(1) == W() * wpow(0));
            }
            assert(acc2(c0, c1) <= 1) by (nonlinear_arith)
                requires
                    val(v) + wpow(48) * acc2(c0, c1) == val(t) + big_c * MAX_PRIME_DIFF,
                    val(v) >= 0,
                    val(t) < wpow(48),
                    big_c * MAX_PRIME_DIFF < 0x1_0000_0000_0000_0000_0000_0000_0000_0000int,
                    0x1_0000_0000_0000_0000_0000_0000_0000_0000int == W() * W(),
                    W() * W() <= wpow(48),
                    acc2(c0, c1) >= 0,
            ;
            assert(c1 == 0);
            // val(v) + D*c0 is congruent to the product.
            lemma_product_folded(x, y);
            let g = wsum_from(x, y, 48, 48);
            let m = modulus();
            assert(val(x) * val(y) == val(v) + c0 * MAX_PRIME_DIFF + m * (g + big_c + c0))
                by (nonlinear_arith)
                requires
                    val(x) * val(y) == wsum_from(x, y, 0, 48) + wpow(48) * g,
                    val(t) + wpow(48) * big_c == wsum_from(x, y, 0, 48) + MAX_PRIME_DIFF * g,
                    val(v) + wpow(48) * acc2(c0, c1) == val(t) + big_c * MAX_PRIME_DIFF,
                    acc2(c0, c1) == c0,
                    m == wpow(48) - MAX_PRIME_DIFF,
            ;
        }
        let ghost vv = val(v);
        if self.is_overflow() {
            self.full_reduce();
        }
        let ghost v1 = self.value();
        proof {
            assert(v1 == vv || v1 == vv - modulus());
            assert(v1 < modulus()) by {
                lemma_val_bounds(v);
            }
        }
        if c0 != 0 {
            self.full_reduce();
        }
        proof {
            let m = modulus();
            let r = self.value();
            let k: int = if v1 == vv { 0 } else { 1 };
            assert(r == vv + c0 * MAX_PRIME_DIFF - k * m);
            assert(val(x) * val(y) == r + m * (wsum_from(x, y, 48, 48) + big_c + c0 + k))
                by (nonlinear_arith)
                requires
                    val(x) * val(y) == vv + c0 * MAX_PRIME_DIFF + m * (wsum_from(x, y, 48, 48) + big_c
                        + c0),
                    r == vv + c0 * MAX_PRIME_DIFF - k * m,
            ;
            lemma_mod_multiples_vanish(wsum_from(x, y, 48, 48) + big_c + c0 + k, r, m);
            // With a carry out of the top limb the folded value is small, so the
            // result stays below the modulus.
            if c0 != 0 {
                assert(vv < 0x1_0000_0000_0000_0000_0000_0000_0000_0000int) by (nonlinear_arith)
                    requires
                        vv + wpow(48) * acc2(c0, c1) == val(t) + big_c * MAX_PRIME_DIFF,
                        acc2(c0, c1) == 1,
                        val(t) < wpow(48),
                        big_c * MAX_PRIME_DIFF < 0x1_0000_0000_0000_0000_0000_0000_0000_0000int,
                ;
                assert(v1 == vv);
                assert(wpow(48) >= W() * W() * W()) by {
                    lemma_wpow_mono(3, 48);
                    assert(wpow(3) == W() * wpow(2));
                    assert(wpow(2) == W() * wpow(1));
                    assert(wpow(1) == W() * wpow(0));
                }
                assert(W() * W() * W() == 0x1_0000_0000_0000_0000_0000_0000_0000_0000_0000_0000_0000_0000int)
                    by (nonlinear_arith);
            }
            assert(0 <= r < m) by {
                lemma_val_bounds(self.limbs@);
            }
            lemma_small_mod(r as nat, m as nat);
        }
    }
}


/// Byte `k` (little-endian) of a limb.
pub open spec fn limb_byte(x: u64, k: int) -> u8 {
    (x >> (8 * k) as u64) as u8
}

/// The little-endian bytes of a limb sequence.
pub open spec fn limbs_to_bytes(s: Seq<u64>) -> Seq<u8> {
    Seq::new((8 * s.len()) as nat, |k: int| limb_byte(s[k / 8], k % 8))
}

/// The number a little-endian byte string encodes: `sum b[i] * 256^i`.
pub open spec fn bytes_val(b: Seq<u8>) -> int
    decreases b.len(),
{
    if b.len() == 0 {
        0
    } else {
        b[0] + 256 * bytes_val(b.drop_first())
    }
}

proof fn lemma_bytes_val_front8(b: Seq<u8>)
    requires
        b.len() >= 8,
    ensures
        bytes_val(b) == b[0] + 256 * (b[1] + 256 * (b[2] + 256 * (b[3] + 256 * (b[4] + 256 * (b[5]
            + 256 * (b[6] + 256 * (b[7] + 256 * bytes_val(b.skip(8))))))))),
{
    assert forall|i: int| 0 <= i < 8 implies #[trigger] b.skip(i).drop_first() == b.skip(i + 1) by {
        assert(b.skip(i).drop_first() =~= b.skip(i + 1));
    }
    assert(b.skip(0) =~= b);
    assert(bytes_val(b.skip(0)) == b[0] + 256 * bytes_val(b.skip(1)));
    assert(bytes_val(b.skip(1)) == b[1] + 256 * bytes_val(b.skip(2)));
    assert(bytes_val(b.skip(2)) == b[2] + 256 * bytes_val(b.skip(3)));
    assert(bytes_val(b.skip(3)) == b[3] + 256 * bytes_val(b.skip(4)));
    assert(bytes_val(b.skip(4)) == b[4] + 256 * bytes_val(b.skip(5)));
    assert(bytes_val(b.skip(5)) == b[5] + 256 * bytes_val(b.skip(6)));
    assert(bytes_val(b.skip(6)) == b[6] + 256 * bytes_val(b.skip(7)));
    assert(bytes_val(b.skip(7)) == b[7] + 256 * bytes_val(b.skip(8)));
}

proof fn lemma_u64_bytes_value(x: u64, rest: int)
    ensures
        limb_byte(x, 0) + 256 * (limb_byte(x, 1) + 256 * (limb_byte(x, 2) + 256 * (limb_byte(x, 3)
            + 256 * (limb_byte(x, 4) + 256 * (limb_byte(x, 5) + 256 * (limb_byte(x, 6) + 256 * (
        limb_byte(x, 7) + 256 * rest))))))) == x + W() * rest,
{
    assert((x >> 0u64) as u8 + 256 * ((x >> 8u64) as u8 + 256 * ((x >> 16u64) as u8 + 256 * ((x
        >> 24u64) as u8 + 256 * ((x >> 32u64) as u8 + 256 * ((x >> 40u64) as u8 + 256 * ((x
        >> 48u64) as u8 + 256 * ((x >> 56u64) as u8))))))) == x) by (bit_vector);
    assert(limb_byte(x, 0) == (x >> 0u64) as u8);
    assert(limb_byte(x, 1) == (x >> 8u64) as u8);
    assert(limb_byte(x, 2) == (x >> 16u64) as u8);
    assert(limb_byte(x, 3) == (x >> 24u64) as u8);
    assert(limb_byte(x, 4) == (x >> 32u64) as u8);
    assert(limb_byte(x, 5) == (x >> 40u64) as u8);
    assert(limb_byte(x, 6) == (x >> 48u64) as u8);
    assert(limb_byte(x, 7) == (x >> 56u64) as u8);
}

/// The bytes of a limb sequence encode, little-endian, the number the limbs encode.
pub proof fn law_limbs_bytes_value(s: Seq<u64>)
    ensures
        bytes_val(limbs_to_bytes(s)) == val(s),
    decreases s.len(),
{
    let b = limbs_to_bytes(s);
    if s.len() == 0 {
        assert(b.len() == 0);
    } else {
        let t = s.drop_first();
        law_limbs_bytes_value(t);
        assert(b.skip(8) =~= limbs_to_bytes(t)) by {
            assert forall|k: int| 0 <= k < 8 * t.len() implies #[trigger] b.skip(8)[k]
                == limbs_to_bytes(t)[k] by {
                assert((8 + k) / 8 == 1 + k / 8);
                assert((8 + k) % 8 == k % 8);
            }
        }
        lemma_bytes_val_front8(b);
        assert forall|k: int| 0 <= k < 8 implies #[trigger] b[k] == limb_byte(s[0], k) by {
            assert(k / 8 == 0);
            assert(k % 8 == k);
        }
        lemma_u64_bytes_value(s[0], val(t));
        lemma_val_front(s);
    }
}

/// The little-endian `u64` in `b[o..o + 8]`.
pub open spec fn le_u64_at(b: Seq<u8>, o: int) -> u64 {
    (b[o] as u64) | ((b[o + 1] as u64) << 8u64) | ((b[o + 2] as u64) << 16u64) | ((b[o + 3] as u64)
        << 24u64) | ((b[o + 4] as u64) << 32u64) | ((b[o + 5] as u64) << 40u64) | ((b[o + 6] as u64)
        << 48u64) | ((b[o + 7] as u64) << 56u64)
}

/// The limbs read little-endian from a byte sequence.
pub open spec fn bytes_to_limbs(b: Seq<u8>) -> Seq<u64> {
    Seq::new(b.len() / 8, |i: int| le_u64_at(b, 8 * i))
}

proof fn lemma_u64_bytes_roundtrip(x: u64)
    ensures
        ((x >> 0u64) as u8 as u64) | (((x >> 8u64) as u8 as u64) << 8u64) | (((x >> 16u64) as u8
            as u64) << 16u64) | (((x >> 24u64) as u8 as u64) << 24u64) | (((x >> 32u64) as u8 as u64)
            << 32u64) | (((x >> 40u64) as u8 as u64) << 40u64) | (((x >> 48u64) as u8 as u64)
            << 48u64) | (((x >> 56u64) as u8 as u64) << 56u64) == x,
{
    assert(((x >> 0u64) as u8 as u64) | (((x >> 8u64) as u8 as u64) << 8u64) | (((x >> 16u64) as u8
        as u64) << 16u64) | (((x >> 24u64) as u8 as u64) << 24u64) | (((x >> 32u64) as u8 as u64)
        << 32u64) | (((x >> 40u64) as u8 as u64) << 40u64) | (((x >> 48u64) as u8 as u64) << 48u64)
        | (((x >> 56u64) as u8 as u64) << 56u64) == x) by (bit_vector);
}

proof fn lemma_bytes_u64_roundtrip(b0: u8, b1: u8, b2: u8, b3: u8, b4: u8, b5: u8, b6: u8, b7: u8)
    ensures
        ({
            let x = (b0 as u64) | ((b1 as u64) << 8u64) | ((b2 as u64) << 16u64) | ((b3 as u64)
                << 24u64) | ((b4 as u64) << 32u64) | ((b5 as u64) << 40u64) | ((b6 as u64)
                << 48u64) | ((b7 as u64) << 56u64);
            &&& (x >> 0u64) as u8 == b0
            &&& (x >> 8u64) as u8 == b1
            &&& (x >> 16u64) as u8 == b2
            &&& (x >> 24u64) as u8 == b3
            &&& (x >> 32u64) as u8 == b4
            &&& (x >> 40u64) as u8 == b5
            &&& (x >> 48u64) as u8 == b6
            &&& (x >> 56u64) as u8 == b7
        }),
{
    let x = (b0 as u64) | ((b1 as u64) << 8u64) | ((b2 as u64) << 16u64) | ((b3 as u64) << 24u64)
        | ((b4 as u64) << 32u64) | ((b5 as u64) << 40u64) | ((b6 as u64) << 48u64) | ((b7 as u64)
        << 56u64);
    assert((x >> 0u64) as u8 == b0) by (bit_vector)
        requires
            x == (b0 as u64) | ((b1 as u64) << 8u64) | ((b2 as u64) << 16u64) | ((b3 as u64)
                << 24u64) | ((b4 as u64) << 32u64) | ((b5 as u64) << 40u64) | ((b6 as u64)
                << 48u64) | ((b7 as u64) << 56u64),
    ;
    assert((x >> 8u64) as u8 == b1) by (bit_vector)
        requires
            x == (b0 as u64) | ((b1 as u64) << 8u64) | ((b2 as u64) << 16u64) | ((b3 as u64)
                << 24u64) | ((b4 as u64) << 32u64) | ((b5 as u64) << 40u64) | ((b6 as u64)
                << 48u64) | ((b7 as u64) << 56u64),
    ;
    assert((x >> 16u64) as u8 == b2) by (bit_vector)
        requires
            x == (b0 as u64) | ((b1 as u64) << 8u64) | ((b2 as u64) << 16u64) | ((b3 as u64)
                << 24u64) | ((b4 as u64) << 32u64) | ((b5 as u64) << 40u64) | ((b6 as u64)
                << 48u64) | ((b7 as u64) << 56u64),
    ;
    assert((x >> 24u64) as u8 == b3) by (bit_vector)
        requires
            x == (b0 as u64) | ((b1 as u64) << 8u64) | ((b2 as u64) << 16u64) | ((b3 as u64)
                << 24u64) | ((b4 as u64) << 32u64) | ((b5 as u64) << 40u64) | ((b6 as u64)
                << 48u64) | ((b7 as u64) << 56u64),
    ;
    assert((x >> 32u64) as u8 == b4) by (bit_vector)
        requires
            x == (b0 as u64) | ((b1 as u64) << 8u64) | ((b2 as u64) << 16u64) | ((b3 as u64)
                << 24u64) | ((b4 as u64) << 32u64) | ((b5 as u64) << 40u64) | ((b6 as u64)
                << 48u64) | ((b7 as u64) << 56u64),
    ;
    assert((x >> 40u64) as u8 == b5) by (bit_vector)
        requires
            x == (b0 as u64) | ((b1 as u64) << 8u64) | ((b2 as u64) << 16u64) | ((b3 as u64)
                << 24u64) | ((b4 as u64) << 32u64) | ((b5 as u64) << 40u64) | ((b6 as u64)
                << 48u64) | ((b7 as u64) << 56u64),
    ;
    assert((x >> 48u64) as u8 == b6) by (bit_vector)
        requires
            x == (b0 as u64) | ((b1 as u64) << 8u64) | ((b2 as u64) << 16u64) | ((b3 as u64)
                << 24u64) | ((b4 as u64) << 32u64) | ((b5 as u64) << 40u64) | ((b6 as u64)
                << 48u64) | ((b7 as u64) << 56u64),
    ;
    assert((x >> 56u64) as u8 == b7) by (bit_vector)
        requires
            x == (b0 as u64) | ((b1 as u64) << 8u64) | ((b2 as u64) << 16u64) | ((b3 as u64)
                << 24u64) | ((b4 as u64) << 32u64) | ((b5 as u64) << 40u64) | ((b6 as u64)
                << 48u64) | ((b7 as u64) << 56u64),
    ;
}

/// Reading back the bytes of a limb sequence gives the limbs.
pub proof fn lemma_limbs_bytes_roundtrip(s: Seq<u64>)
    ensures
        bytes_to_limbs(limbs_to_bytes(s)) == s,
{
    let b = limbs_to_bytes(s);
    assert forall|i: int| 0 <= i < s.len() implies #[trigger] le_u64_at(b, 8 * i) == s[i] by {
        let x = s[i];
        assert forall|k: int| 0 <= k < 8 implies #[trigger] b[8 * i + k] == limb_byte(x, k) by {
            assert((8 * i + k) / 8 == i);
            assert((8 * i + k) % 8 == k);
        }
        assert(b[8 * i + 0] == limb_byte(x, 0));
        assert(b[8 * i + 1] == limb_byte(x, 1));
        assert(b[8 * i + 2] == limb_byte(x, 2));
        assert(b[8 * i + 3] == limb_byte(x, 3));
        assert(b[8 * i + 4] == limb_byte(x, 4));
        assert(b[8 * i + 5] == limb_byte(x, 5));
        assert(b[8 * i + 6] == limb_byte(x, 6));
        assert(b[8 * i + 7] == limb_byte(x, 7));
        lemma_u64_bytes_roundtrip(x);
    }
    assert(bytes_to_limbs(b) =~= s);
}

/// Writing out the limbs read from a byte sequence gives the bytes.
pub proof fn law_bytes_limbs_roundtrip(b: Seq<u8>)
    requires
        b.len() % 8 == 0,
    ensures
        limbs_to_bytes(bytes_to_limbs(b)) == b,
{
    let s = bytes_to_limbs(b);
    assert forall|k: int| 0 <= k < b.len() implies #[trigger] limbs_to_bytes(s)[k] == b[k] by {
        let i = k / 8;
        let o = 8 * i;
        let m = k % 8;
        assert(k == o + m);
        lemma_bytes_u64_roundtrip(b[o], b[o + 1], b[o + 2], b[o + 3], b[o + 4], b[o + 5], b[o + 6], b[o + 7]);
        assert(s[i] == le_u64_at(b, o));
    }
    assert(limbs_to_bytes(s) =~= b);
}

impl Num3072 {
    /// Write the limbs out as 384 little-endian bytes.
    pub fn to_bytes(&self, out: &mut [u8; BYTE_SIZE])
        ensures
            final(out)@ == limbs_to_bytes(self.limbs@),
            bytes_val(final(out)@) == self.value(),
    {
        for i in 0..LIMBS
            invariant
                forall|k: int| 0 <= k < 8 * i ==> #[trigger] out@[k] == limb_byte(self.limbs[k / 8], k % 8),
        {
            let x = self.limbs[i];
            for m in 0..8usize
                invariant
                    i < 48,
                    x == self.limbs[i as int],
                    forall|k: int| 0 <= k < 8 * i + m ==> #[trigger] out@[k] == limb_byte(self.limbs[k / 8], k % 8),
            {
                out[8 * i + m] = (x >> (8 * m as u64)) as u8;
                proof {
                    assert((8 * i + m) / 8 == i);
                    assert((8 * i + m) % 8 == m);
                }
            }
        }
        proof {
            assert(out@ =~= limbs_to_bytes(self.limbs@));
            law_limbs_bytes_value(self.limbs@);
        }
    }

    /// Read 384 little-endian bytes as limbs.
    pub fn from_bytes(data: &[u8; BYTE_SIZE]) -> (r: Self)
        ensures
            r.limbs@ == bytes_to_limbs(data@),
            r.value() == bytes_val(data@),
    {
        let mut limbs = [0u64; LIMBS];
        for i in 0..LIMBS
            invariant
                forall|j: int| 0 <= j < i ==> #[trigger] limbs@[j] == le_u64_at(data@, 8 * j),
        {
            let o = 8 * i;
            limbs[i] = (data[o] as u64) | ((data[o + 1] as u64) << 8u64) | ((data[o + 2] as u64)
                << 16u64) | ((data[o + 3] as u64) << 24u64) | ((data[o + 4] as u64) << 32u64) | ((
            data[o + 5] as u64) << 40u64) | ((data[o + 6] as u64) << 48u64) | ((data[o + 7] as u64)
                << 56u64);
        }
        proof {
            assert(limbs@ =~= bytes_to_limbs(data@));
            law_bytes_limbs_roundtrip(data@);
            law_limbs_bytes_value(limbs@);
        }
        Num3072 { limbs }
    }
}

impl Default for Num3072 {
    /// The number 1.
    fn default() -> (r: Self)
        ensures
            r.value() == 1,
    {
        let mut n = Num3072 { limbs: [0; LIMBS] };
        n.set_to_one();
        n
    }
}

} // verus!
