//! The mathematical model of multi-limb numbers: the value of a sequence of
//! 64-bit limbs (least significant first), powers of the limb base, and the
//! lemmas that the arithmetic of `Num3072` is proved from.
use vstd::prelude::*;
use vstd::arithmetic::div_mod::*;
use vstd::arithmetic::mul::*;

verus! {

/// The limb base, 2^64.
pub open spec fn W() -> int {
    0x1_0000_0000_0000_0000
}

/// `W^n`.
pub open spec fn wpow(n: nat) -> int
    decreases n,
{
    if n == 0 {
        1
    } else {
        W() * wpow((n - 1) as nat)
    }
}

/// The value of a little-endian limb sequence: `sum s[i] * W^i`.
pub open spec fn val(s: Seq<u64>) -> int
    decreases s.len(),
{
    if s.len() == 0 {
        0
    } else {
        val(s.drop_last()) + s.last() * wpow((s.len() - 1) as nat)
    }
}

/// Value of a three-limb accumulator.
pub open spec fn acc3(c0: u64, c1: u64, c2: u64) -> int {
    c0 + c1 * W() + c2 * (W() * W())
}

/// Value of a two-limb accumulator.
pub open spec fn acc2(c0: u64, c1: u64) -> int {
    c0 + c1 * W()
}

pub proof fn lemma_wpow_pos(n: nat)
    ensures
        wpow(n) > 0,
    decreases n,
{
    if n > 0 {
        lemma_wpow_pos((n - 1) as nat);
        lemma_mul_strictly_positive(W(), wpow((n - 1) as nat));
    }
}

pub proof fn lemma_wpow_add(a: nat, b: nat)
    ensures
        wpow(a + b) == wpow(a) * wpow(b),
    decreases a,
{
    if a > 0 {
        lemma_wpow_add((a - 1) as nat, b);
        assert(wpow(a + b) == W() * wpow((a - 1 + b) as nat));
        lemma_mul_is_associative(W(), wpow((a - 1) as nat), wpow(b));
    }
}

pub proof fn lemma_wpow_mono(a: nat, b: nat)
    requires
        a <= b,
    ensures
        wpow(a) <= wpow(b),
    decreases b,
{
    if a < b {
        lemma_wpow_mono(a, (b - 1) as nat);
        lemma_wpow_pos((b - 1) as nat);
    }
}

/// `0 <= val(s) < W^len`.
pub proof fn lemma_val_bounds(s: Seq<u64>)
    ensures
        0 <= val(s) < wpow(s.len()),
    decreases s.len(),
{
    if s.len() > 0 {
        let n = (s.len() - 1) as nat;
        lemma_val_bounds(s.drop_last());
        lemma_wpow_pos(n);
        assert(s.last() * wpow(n) <= (W() - 1) * wpow(n)) by {
            lemma_mul_inequality(s.last() as int, W() - 1, wpow(n));
        }
        assert((W() - 1) * wpow(n) == W() * wpow(n) - wpow(n)) by {
            lemma_mul_is_distributive_sub_other_way(wpow(n), W(), 1);
        }
        lemma_mul_nonnegative(s.last() as int, wpow(n));
    }
}

/// Appending a limb at position `j`.
pub proof fn lemma_val_take_step(s: Seq<u64>, j: int)
    requires
        0 <= j < s.len(),
    ensures
        val(s.take(j + 1)) == val(s.take(j)) + s[j] * wpow(j as nat),
{
    assert(s.take(j + 1).drop_last() == s.take(j));
}

/// The value read from the front: `val(s) == s[0] + W * val(s[1..])`.
pub proof fn lemma_val_front(s: Seq<u64>)
    requires
        s.len() > 0,
    ensures
        val(s) == s[0] + W() * val(s.drop_first()),
    decreases s.len(),
{
    if s.len() == 1 {
        assert(s.drop_last().len() == 0);
        assert(s.drop_first().len() == 0);
        assert(val(s.drop_first()) == 0);
        assert(val(s.drop_last()) == 0);
        assert(wpow(0) == 1);
        assert(s.last() == s[0]);
    } else {
        let n = (s.len() - 1) as nat;
        let a = s.drop_last();
        let b = s.drop_first();
        lemma_val_front(a);
        assert(a.drop_first() == b.drop_last());
        assert(b.last() == s.last());
        assert(a[0] == s[0]);
        assert(b.len() - 1 == n - 1);
        assert(val(b) == val(b.drop_last()) + s.last() * wpow((n - 1) as nat));
        assert(wpow(n) == W() * wpow((n - 1) as nat));
        assert(s.last() * wpow(n) == W() * (s.last() * wpow((n - 1) as nat))) by {
            lemma_mul_is_associative(s.last() as int, W(), wpow((n - 1) as nat));
            lemma_mul_is_commutative(s.last() as int, W());
            lemma_mul_is_associative(W(), s.last() as int, wpow((n - 1) as nat));
        }
        lemma_mul_is_distributive_add(W(), val(b.drop_last()), s.last() * wpow((n - 1) as nat));
    }
}

/// The value of a sequence equals its first `j` limbs plus the rest shifted.
pub proof fn lemma_val_split(s: Seq<u64>, j: int)
    requires
        0 <= j <= s.len(),
    ensures
        val(s) == val(s.take(j)) + wpow(j as nat) * val(s.skip(j)),
    decreases s.len() - j,
{
    if j == s.len() {
        assert(s.take(j) == s);
        assert(s.skip(j).len() == 0);
    } else {
        lemma_val_split(s, j + 1);
        lemma_val_take_step(s, j);
        lemma_val_front(s.skip(j));
        assert(s.skip(j).drop_first() == s.skip(j + 1));
        assert(wpow((j + 1) as nat) == W() * wpow(j as nat));
        lemma_mul_is_associative(wpow(j as nat), W(), val(s.skip(j + 1)));
        lemma_mul_is_commutative(wpow(j as nat), W());
        lemma_mul_is_distributive_add(wpow(j as nat), s[j] as int, W() * val(s.skip(j + 1)));
        lemma_mul_is_commutative(wpow(j as nat), s[j] as int);
    }
}

/// Two limb sequences of the same length with the same value are equal.
pub proof fn lemma_val_injective(s: Seq<u64>, t: Seq<u64>)
    requires
        s.len() == t.len(),
        val(s) == val(t),
    ensures
        s == t,
    decreases s.len(),
{
    if s.len() > 0 {
        lemma_val_front(s);
        lemma_val_front(t);
        lemma_val_bounds(s.drop_first());
        lemma_val_bounds(t.drop_first());
        lemma_fundamental_div_mod_converse(val(s), W(), val(s.drop_first()), s[0] as int);
        lemma_fundamental_div_mod_converse(val(t), W(), val(t.drop_first()), t[0] as int);
        lemma_val_injective(s.drop_first(), t.drop_first());
        assert(s =~= t) by {
            assert forall|i: int| 0 <= i < s.len() implies s[i] == t[i] by {
                if i > 0 {
                    assert(s[i] == s.drop_first()[i - 1]);
                    assert(t[i] == t.drop_first()[i - 1]);
                }
            }
        }
    }
}

/// A sequence of zero limbs has value 0.
pub proof fn lemma_val_zeros(s: Seq<u64>)
    requires
        forall|i: int| 0 <= i < s.len() ==> s[i] == 0,
    ensures
        val(s) == 0,
    decreases s.len(),
{
    if s.len() > 0 {
        lemma_val_zeros(s.drop_last());
    }
}

/// A sequence of all-ones limbs has the largest value, `W^n - 1`.
pub proof fn lemma_val_all_max(s: Seq<u64>)
    requires
        forall|i: int| 0 <= i < s.len() ==> s[i] == u64::MAX,
    ensures
        val(s) == wpow(s.len()) - 1,
    decreases s.len(),
{
    if s.len() > 0 {
        let n = (s.len() - 1) as nat;
        lemma_val_all_max(s.drop_last());
        assert(wpow(n) + (W() - 1) * wpow(n) == W() * wpow(n)) by (nonlinear_arith);
    }
}

/// A limb below the maximum at position `i` keeps the value `W^i` below the maximum.
pub proof fn lemma_val_gap(s: Seq<u64>, i: int)
    requires
        0 <= i < s.len(),
        s[i] < u64::MAX,
    ensures
        val(s) <= wpow(s.len()) - 1 - wpow(i as nat),
{
    let n = s.len();
    lemma_val_split(s, i);
    lemma_val_front(s.skip(i));
    assert(s.skip(i).drop_first() == s.skip(i + 1));
    lemma_val_bounds(s.take(i));
    lemma_val_bounds(s.skip(i + 1));
    let r = val(s.skip(i + 1));
    let m = (n - i - 1) as nat;
    assert(s.skip(i + 1).len() == m);
    assert(val(s.skip(i)) <= wpow((m + 1) as nat) - 2) by (nonlinear_arith)
        requires
            val(s.skip(i)) == s[i] + W() * r,
            s[i] <= W() - 2,
            r <= wpow(m) - 1,
            wpow((m + 1) as nat) == W() * wpow(m),
    ;
    lemma_wpow_add(i as nat, (m + 1) as nat);
    assert((i + (m + 1)) as nat == n);
    lemma_wpow_pos(i as nat);
    assert(val(s) <= wpow(n) - 1 - wpow(i as nat)) by (nonlinear_arith)
        requires
            val(s) == val(s.take(i)) + wpow(i as nat) * val(s.skip(i)),
            val(s.take(i)) <= wpow(i as nat) - 1,
            val(s.skip(i)) <= wpow((m + 1) as nat) - 2,
            wpow(n) == wpow(i as nat) * wpow((m + 1) as nat),
            wpow(i as nat) > 0,
    ;
}

} // verus!
