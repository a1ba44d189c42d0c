//! Facts about shifts, masks and casts on fixed-width integers, proved with
//! the bit-vector solver and by induction on the shift amount.
use vstd::prelude::*;
use vstd::arithmetic::power2::{pow2, lemma2_to64};

verus! {

/// `2^62`, the radix of signed limbs.
pub open spec fn R() -> int {
    0x4000_0000_0000_0000
}

/// An arithmetic right shift by 62 and a mask split an `i128` exactly.
pub proof fn lemma_i128_split62(c: i128)
    ensures
        (c >> 62i128) * R() + (c & 0x3fff_ffff_ffff_ffffi128) == c,
        0 <= (c & 0x3fff_ffff_ffff_ffffi128) < R(),
        (c >> 62i128) == (c as int) / R(),
        (c & 0x3fff_ffff_ffff_ffffi128) == (c as int) % R(),
{
    assert((c >> 62i128) * 0x4000_0000_0000_0000i128 + (c & 0x3fff_ffff_ffff_ffffi128) == c)
        by (bit_vector);
    assert(0 <= (c & 0x3fff_ffff_ffff_ffffi128) < 0x4000_0000_0000_0000i128) by (bit_vector);
    vstd::arithmetic::div_mod::lemma_fundamental_div_mod_converse(
        c as int,
        R(),
        (c >> 62i128) as int,
        (c & 0x3fff_ffff_ffff_ffffi128) as int,
    );
}

/// The same for an `i64`.
pub proof fn lemma_i64_split62(x: i64)
    ensures
        (x >> 62i64) * R() + (x & 0x3fff_ffff_ffff_ffffi64) == x,
        0 <= (x & 0x3fff_ffff_ffff_ffffi64) < R(),
        (x >> 62i64) == (x as int) / R(),
        (x & 0x3fff_ffff_ffff_ffffi64) == (x as int) % R(),
{
    assert((x >> 62i64) * 0x4000_0000_0000_0000i64 + (x & 0x3fff_ffff_ffff_ffffi64) == x)
        by (bit_vector);
    assert(0 <= (x & 0x3fff_ffff_ffff_ffffi64) < 0x4000_0000_0000_0000i64) by (bit_vector);
    vstd::arithmetic::div_mod::lemma_fundamental_div_mod_converse(
        x as int,
        R(),
        (x >> 62i64) as int,
        (x & 0x3fff_ffff_ffff_ffffi64) as int,
    );
}

/// Truncating an `i128` to `i64` keeps it modulo `2^64`.
pub proof fn lemma_i128_to_i64(c: i128)
    requires
        -0x4000_0000_0000_0000_0000_0000_0000_0000int <= c < 0x4000_0000_0000_0000_0000_0000_0000_0000int,
    ensures
        (c - (c as i64)) % 0x1_0000_0000_0000_0000int == 0,
        -0x8000_0000_0000_0000int <= c < 0x8000_0000_0000_0000int ==> (c as i64) == c,
{
    let t = c as i64;
    let dlt = c.wrapping_sub(t as i128);
    assert(dlt & 0xffff_ffff_ffff_ffffi128 == 0) by (bit_vector)
        requires
            t == c as i64,
            dlt == c.wrapping_sub(t as i128),
    ;
    assert(-0x8000_0000_0000_0000i128 <= c < 0x8000_0000_0000_0000i128 ==> (t as i128) == c)
        by (bit_vector)
        requires
            t == c as i64,
    ;
    assert((dlt >> 64i128) * 0x1_0000_0000_0000_0000i128 + (dlt & 0xffff_ffff_ffff_ffffi128) == dlt)
        by (bit_vector);
    assert(dlt == c - t);
    vstd::arithmetic::div_mod::lemma_mod_multiples_basic(
        (dlt >> 64i128) as int,
        0x1_0000_0000_0000_0000int,
    );
}

/// A left shift of a `i128` by one is a doubling when it does not overflow.
proof fn lemma_i128_shl1(y: i128)
    requires
        -0x4000_0000_0000_0000_0000_0000_0000_0000int <= y < 0x4000_0000_0000_0000_0000_0000_0000_0000int,
    ensures
        (y << 1u32) == 2 * y,
{
    assert(-0x4000_0000_0000_0000_0000_0000_0000_0000i128 <= y < 0x4000_0000_0000_0000_0000_0000_0000_0000i128
        ==> (y << 1u32) == y + y) by (bit_vector);
}

/// A left shift of an `i128` multiplies by a power of two when it does not overflow.
pub proof fn lemma_i128_shl(x: i128, b: u32)
    requires
        0 <= b < 127,
        -0x8000_0000_0000_0000_0000_0000_0000_0000int <= x * pow2(b as nat)
            < 0x8000_0000_0000_0000_0000_0000_0000_0000int,
    ensures
        (x << b) == x * pow2(b as nat),
    decreases b,
{
    if b == 0 {
        assert(x << 0u32 == x) by (bit_vector);
        assert(pow2(0) == 1) by {
            lemma2_to64();
        }
        assert(x << b == x);
        assert(b as nat == 0);
        assert(pow2(b as nat) == 1);
        vstd::arithmetic::mul::lemma_mul_basics(x as int);
        assert(x * pow2(b as nat) == x);
    } else {
        let b1 = (b - 1) as u32;
        assert(pow2(b as nat) == 2 * pow2(b1 as nat)) by {
            vstd::arithmetic::power2::lemma_pow2_unfold(b as nat);
        }
        vstd::arithmetic::power2::lemma_pow2_pos(b1 as nat);
        assert(-0x8000_0000_0000_0000_0000_0000_0000_0000int <= x * pow2(b1 as nat)
            < 0x8000_0000_0000_0000_0000_0000_0000_0000int) by (nonlinear_arith)
            requires
                -0x8000_0000_0000_0000_0000_0000_0000_0000int <= x * pow2(b as nat)
                    < 0x8000_0000_0000_0000_0000_0000_0000_0000int,
                pow2(b as nat) == 2 * pow2(b1 as nat),
                pow2(b1 as nat) > 0,
        ;
        vstd::arithmetic::power2::lemma_pow2_pos(b1 as nat);
        lemma_i128_shl(x, b1);
        let y = x << b1;
        assert((x << b) == (y << 1u32)) by (bit_vector)
            requires
                y == x << b1,
                b1 == b - 1,
                1 <= b < 127,
        ;
        assert(x * pow2(b as nat) == 2 * (x * pow2(b1 as nat))) by (nonlinear_arith)
            requires
                pow2(b as nat) == 2 * pow2(b1 as nat),
        ;
        assert(-0x4000_0000_0000_0000_0000_0000_0000_0000int <= y < 0x4000_0000_0000_0000_0000_0000_0000_0000int);
        lemma_i128_shl1(y);
        assert(x << b == 2 * y);
        assert(y == x * pow2(b1 as nat));
    }
}

/// A left shift of a `u128` multiplies by a power of two when it does not overflow.
pub proof fn lemma_u128_shl(x: u128, b: u32)
    requires
        0 <= b < 128,
        x * pow2(b as nat) <= u128::MAX,
    ensures
        (x << b) == x * pow2(b as nat),
    decreases b,
{
    if b == 0 {
        assert(x << 0u32 == x) by (bit_vector);
        assert(b as nat == 0);
        assert(pow2(b as nat) == 1) by {
            lemma2_to64();
        }
        vstd::arithmetic::mul::lemma_mul_basics(x as int);
    } else {
        let b1 = (b - 1) as u32;
        assert(pow2(b as nat) == 2 * pow2(b1 as nat)) by {
            vstd::arithmetic::power2::lemma_pow2_unfold(b as nat);
        }
        vstd::arithmetic::power2::lemma_pow2_pos(b1 as nat);
        assert(x * pow2(b1 as nat) <= u128::MAX / 2) by (nonlinear_arith)
            requires
                x * pow2(b as nat) <= u128::MAX,
                pow2(b as nat) == 2 * pow2(b1 as nat),
                pow2(b1 as nat) > 0,
                x >= 0,
        ;
        lemma_u128_shl(x, b1);
        let y = x << b1;
        assert((x << b) == (y << 1u32)) by (bit_vector)
            requires
                y == x << b1,
                b1 == b - 1,
                1 <= b < 128,
        ;
        assert(y <= u128::MAX / 2 ==> (y << 1u32) == y + y) by (bit_vector);
        assert(x * pow2(b as nat) == 2 * (x * pow2(b1 as nat))) by (nonlinear_arith)
            requires
                pow2(b as nat) == 2 * pow2(b1 as nat),
        ;
    }
}

/// The sign of an `i64` by an arithmetic shift: 0 or -1.
pub proof fn lemma_i64_sign(x: i64)
    ensures
        (x >> 63i64) == (if x < 0 { -1i64 } else { 0i64 }),
{
    assert((x >> 63i64) == (if x < 0 { -1i64 } else { 0i64 })) by (bit_vector);
}

/// Masking with 0 or -1 selects 0 or the value.
pub proof fn lemma_i64_and_mask(x: i64, m: i64)
    requires
        m == 0 || m == -1,
    ensures
        (x & m) == (if m == 0 { 0i64 } else { x }),
{
    assert((x & 0i64) == 0i64) by (bit_vector);
    assert((x & -1i64) == x) by (bit_vector);
}

/// Conditional negation by XOR with 0 or -1.
pub proof fn lemma_i64_cond_negate(x: i64, c: i64)
    requires
        c == 0 || c == -1,
        x > i64::MIN,
    ensures
        (x ^ c) - c == (if c == 0 { x as int } else { -x }),
{
    assert(x > i64::MIN ==> (x ^ -1i64) + 1 == -x) by (bit_vector);
    assert((x ^ 0i64) == x) by (bit_vector);
}

} // verus!
