//! MuHash3072: the multiplicative rolling hash of a set.
//!
//! A state is a fraction `numerator / denominator` modulo the prime
//! `modulus()`; inserting an element multiplies the numerator by the
//! element's number, removing it multiplies the denominator.
use vstd::prelude::*;
use vstd::arithmetic::div_mod::{lemma_mul_mod_noop_general, lemma_mod_twice};
use vstd::arithmetic::mul::{lemma_mul_is_associative, lemma_mul_is_commutative};
use chacha20::ChaCha20;
use chacha20::cipher::{KeyIvInit, StreamCipher};
use sha2::{Digest, Sha256};
use crate::limb_math::{val, lemma_val_bounds};
use crate::inverse::is_invertible;
use crate::num3072::{
    BYTE_SIZE,
    Num3072,
    modulus,
    limbs_to_bytes,
    bytes_to_limbs,
    lemma_limbs_bytes_roundtrip,
    law_bytes_limbs_roundtrip,
    law_limbs_bytes_value,
    bytes_val,
};

verus! {

/// Serialized rolling state (numerator then denominator), kept between flushes.
pub const MUHASH_RUNNING_STATE_BYTES: usize = BYTE_SIZE * 2;

/// The SHA-256 digest of a byte string.
pub uninterp spec fn sha256_spec(data: Seq<u8>) -> Seq<u8>;

/// The bytes `data` XORed with the ChaCha20 keystream for `key` and `nonce`
/// (block counter starting at 0).
pub uninterp spec fn chacha20_xor_spec(key: Seq<u8>, nonce: Seq<u8>, data: Seq<u8>) -> Seq<u8>;

/// Calls `sha2::Sha256::digest`. Claimed: the result is the digest named by
/// `sha256_spec` of the input bytes (a function of those bytes alone).
#[verifier::external_body]
fn sha256(data: &[u8]) -> (r: [u8; 32])
    ensures
        r@ == sha256_spec(data@),
{
    Sha256::digest(data).into()
}

/// Calls `chacha20::ChaCha20::new` on `key` and `nonce` and then
/// `StreamCipher::apply_keystream` on `buf` (384 bytes, far inside the
/// keystream, so the call does not panic). Claimed: `buf` becomes its old
/// contents XORed with the keystream, as named by `chacha20_xor_spec`.
#[verifier::external_body]
fn chacha20_apply_keystream(key: &[u8; 32], nonce: &[u8; 12], buf: &mut [u8; BYTE_SIZE])
    ensures
        final(buf)@ == chacha20_xor_spec(key@, nonce@, old(buf)@),
{
    let mut cipher = ChaCha20::new(&(*key).into(), &(*nonce).into());
    cipher.apply_keystream(buf);
}

/// The 3072-bit number an element is mapped to: SHA-256 of the data as a
/// ChaCha20 key (zero nonce), 384 keystream bytes read as little-endian limbs.
pub open spec fn element_limbs(data: Seq<u8>) -> Seq<u64> {
    bytes_to_limbs(
        chacha20_xor_spec(sha256_spec(data), Seq::new(12, |i: int| 0u8), Seq::new(384, |i: int| 0u8)),
    )
}

/// The 3072-bit number that a ChaCha20 key gives: 384 bytes of its keystream
/// (zero nonce, counter from 0) read as little-endian limbs.
pub open spec fn keystream_limbs(key: Seq<u8>) -> Seq<u64> {
    bytes_to_limbs(chacha20_xor_spec(key, Seq::new(12, |i: int| 0u8), Seq::new(384, |i: int| 0u8)))
}

/// An element's number is the keystream number of the SHA-256 digest of all
/// of its bytes: every byte of the element goes into the key.
pub proof fn law_element_from_digest(data: Seq<u8>)
    ensures
        element_limbs(data) == keystream_limbs(sha256_spec(data)),
{
}

/// Elements whose whole byte strings have the same SHA-256 digest map to the
/// same number; an element's number depends on its bytes through that digest only.
pub proof fn law_element_same_digest(data1: Seq<u8>, data2: Seq<u8>)
    requires
        sha256_spec(data1) == sha256_spec(data2),
    ensures
        element_limbs(data1) == element_limbs(data2),
{
    law_element_from_digest(data1);
    law_element_from_digest(data2);
}

/// The residue of an element's number.
pub open spec fn element_value(data: Seq<u8>) -> int {
    val(element_limbs(data)) % modulus()
}

fn to_num3072(data: &[u8]) -> (r: Num3072)
    ensures
        r.limbs@ == element_limbs(data@),
        r.limbs@ == keystream_limbs(sha256_spec(data@)),
{
    let key = sha256(data);
    let nonce = [0u8; 12];
    let mut tmp = [0u8; BYTE_SIZE];
    proof {
        assert(nonce@ =~= Seq::new(12, |i: int| 0u8));
        assert(tmp@ =~= Seq::new(384, |i: int| 0u8));
    }
    chacha20_apply_keystream(&key, &nonce, &mut tmp);
    Num3072::from_bytes(&tmp)
}

/// MuHash3072 state. Empty set: numerator = 1, denominator = 1.
#[derive(Clone)]
pub struct MuHash3072 {
    numerator: Num3072,
    denominator: Num3072,
}

/// Insert an element of residue `e` into a state with residues `v`.
pub open spec fn insert_view(v: (int, int), e: int) -> (int, int) {
    ((v.0 * e) % modulus(), v.1)
}

/// Remove an element of residue `e` from a state with residues `v`.
pub open spec fn remove_view(v: (int, int), e: int) -> (int, int) {
    (v.0, (v.1 * e) % modulus())
}

/// The union of two states.
pub open spec fn multiply_view(v: (int, int), w: (int, int)) -> (int, int) {
    ((v.0 * w.0) % modulus(), (v.1 * w.1) % modulus())
}

/// The difference of two states.
pub open spec fn divide_view(v: (int, int), w: (int, int)) -> (int, int) {
    ((v.0 * w.1) % modulus(), (v.1 * w.0) % modulus())
}

/// The residue of `n / d` modulo the modulus: the `q` in `[0, modulus)` with
/// `q * d = n`, which is unique for an invertible `d`; zero when `d` is a
/// multiple of the modulus.
pub open spec fn fraction_value(n: int, d: int) -> int {
    if d % modulus() == 0 {
        0
    } else {
        choose|q: int| 0 <= q < modulus() && #[trigger] ((q * d) % modulus()) == n % modulus()
    }
}

/// The 48 limbs of a number below `2^3072`.
pub open spec fn value_limbs(v: int) -> Seq<u64> {
    choose|s: Seq<u64>| s.len() == 48 && #[trigger] val(s) == v
}

/// The limbs of `a * b` modulo the modulus.
pub open spec fn mul_limbs(a: Seq<u64>, b: Seq<u64>) -> Seq<u64> {
    value_limbs((val(a) * val(b)) % modulus())
}

/// The finalized hash of a state with residues `v`: SHA-256 of the 384
/// little-endian bytes of `numerator / denominator`.
pub open spec fn finalize_spec(v: (int, int)) -> Seq<u8> {
    sha256_spec(limbs_to_bytes(value_limbs(fraction_value(v.0, v.1))))
}

/// Two states stand for the same fraction: `n1 / d1 == n2 / d2` modulo the modulus.
pub open spec fn same_fraction(v: (int, int), w: (int, int)) -> bool {
    (v.0 * w.1) % modulus() == (w.0 * v.1) % modulus()
}

impl View for MuHash3072 {
    type V = (int, int);

    /// The residues of numerator and denominator.
    closed spec fn view(&self) -> (int, int) {
        (self.numerator.value() % modulus(), self.denominator.value() % modulus())
    }
}

impl MuHash3072 {
    /// The numerator's limbs.
    pub closed spec fn numerator_limbs(&self) -> Seq<u64> {
        self.numerator.limbs@
    }

    /// The denominator's limbs.
    pub closed spec fn denominator_limbs(&self) -> Seq<u64> {
        self.denominator.limbs@
    }

    /// The view is the residues of the limbs' values.
    pub proof fn lemma_view_limbs(&self)
        ensures
            self@ == (val(self.numerator_limbs()) % modulus(), val(self.denominator_limbs())
                % modulus()),
            self.numerator_limbs().len() == 48,
            self.denominator_limbs().len() == 48,
    {
    }

    /// Empty set.
    pub fn new() -> (r: Self)
        ensures
            r@ == (1int, 1int),
            r.numerator_limbs() == value_limbs(1),
            r.denominator_limbs() == value_limbs(1),
    {
        let r = MuHash3072 { numerator: Num3072::default(), denominator: Num3072::default() };
        proof {
            lemma_value_limbs(r.numerator.limbs@);
            lemma_value_limbs(r.denominator.limbs@);
            lemma_val_bounds(r.numerator.limbs@);
            lemma_modulus_pos();
            vstd::arithmetic::div_mod::lemma_small_mod(1, modulus() as nat);
            crate::limb_math::lemma_val_injective(r.numerator.limbs@, r.denominator.limbs@);
        }
        r
    }

    /// Insert element into the set.
    pub fn insert(self, data: &[u8]) -> (r: Self)
        ensures
            r@ == insert_view(self@, element_value(data@)),
            r.numerator_limbs() == mul_limbs(self.numerator_limbs(), element_limbs(data@)),
            r.numerator_limbs() == mul_limbs(self.numerator_limbs(), keystream_limbs(sha256_spec(data@))),
            r.denominator_limbs() == self.denominator_limbs(),
    {
        let mut s = self;
        s.insert_mut(data);
        s
    }

    /// Remove element from the set.
    pub fn remove(self, data: &[u8]) -> (r: Self)
        ensures
            r@ == remove_view(self@, element_value(data@)),
            r.numerator_limbs() == self.numerator_limbs(),
            r.denominator_limbs() == mul_limbs(self.denominator_limbs(), element_limbs(data@)),
            r.denominator_limbs() == mul_limbs(self.denominator_limbs(), keystream_limbs(sha256_spec(data@))),
    {
        let mut s = self;
        s.remove_mut(data);
        s
    }

    /// In-place insert: the same state change as `insert`, without moving the state.
    pub fn insert_mut(&mut self, data: &[u8])
        ensures
            final(self)@ == insert_view(old(self)@, element_value(data@)),
            final(self).numerator_limbs() == mul_limbs(old(self).numerator_limbs(), element_limbs(
                data@,
            )),
            final(self).numerator_limbs() == mul_limbs(old(self).numerator_limbs(), keystream_limbs(
                sha256_spec(data@),
            )),
            final(self).denominator_limbs() == old(self).denominator_limbs(),
    {
        let elem = to_num3072(data);
        let ghost n = self.numerator.value();
        self.numerator.multiply(&elem);
        proof {
            lemma_mul_residues(n, elem.value());
            lemma_value_limbs(self.numerator.limbs@);
        }
    }

    /// In-place remove: the same state change as `remove`.
    pub fn remove_mut(&mut self, data: &[u8])
        ensures
            final(self)@ == remove_view(old(self)@, element_value(data@)),
            final(self).numerator_limbs() == old(self).numerator_limbs(),
            final(self).denominator_limbs() == mul_limbs(old(self).denominator_limbs(),
                element_limbs(data@)),
            final(self).denominator_limbs() == mul_limbs(old(self).denominator_limbs(),
                keystream_limbs(sha256_spec(data@))),
    {
        let elem = to_num3072(data);
        let ghost d = self.denominator.value();
        self.denominator.multiply(&elem);
        proof {
            lemma_mul_residues(d, elem.value());
            lemma_value_limbs(self.denominator.limbs@);
        }
    }

    /// Multiply by another state (union of sets).
    pub fn multiply(self, other: &MuHash3072) -> (r: Self)
        ensures
            r@ == multiply_view(self@, other@),
            r.numerator_limbs() == mul_limbs(self.numerator_limbs(), other.numerator_limbs()),
            r.denominator_limbs() == mul_limbs(self.denominator_limbs(), other.denominator_limbs()),
    {
        let mut s = self;
        let ghost n = s.numerator.value();
        let ghost d = s.denominator.value();
        s.numerator.multiply(&other.numerator);
        s.denominator.multiply(&other.denominator);
        proof {
            lemma_mul_residues(n, other.numerator.value());
            lemma_mul_residues(d, other.denominator.value());
            lemma_value_limbs(s.numerator.limbs@);
            lemma_value_limbs(s.denominator.limbs@);
        }
        s
    }

    /// Divide by another state (difference of sets).
    pub fn divide(self, other: &MuHash3072) -> (r: Self)
        ensures
            r@ == divide_view(self@, other@),
            r.numerator_limbs() == mul_limbs(self.numerator_limbs(), other.denominator_limbs()),
            r.denominator_limbs() == mul_limbs(self.denominator_limbs(), other.numerator_limbs()),
    {
        let mut s = self;
        let ghost n = s.numerator.value();
        let ghost d = s.denominator.value();
        s.numerator.multiply(&other.denominator);
        s.denominator.multiply(&other.numerator);
        proof {
            lemma_mul_residues(n, other.denominator.value());
            lemma_mul_residues(d, other.numerator.value());
            lemma_value_limbs(s.numerator.limbs@);
            lemma_value_limbs(s.denominator.limbs@);
        }
        s
    }

    /// The 32-byte hash of the set: SHA-256 of the bytes of
    /// `numerator / denominator` brought below the modulus.
    pub fn finalize(self) -> (r: [u8; 32])
        ensures
            is_invertible(self@.1) || self@.1 == 0 ==> r@ == finalize_spec(self@),
    {
        let mut s = self;
        let ghost n = s.numerator.value();
        let ghost d = s.denominator.value();
        s.numerator.divide(&s.denominator);
        let mut data = [0u8; BYTE_SIZE];
        s.numerator.to_bytes(&mut data);
        proof {
            lemma_modulus_pos();
            lemma_mod_twice(d, modulus());
            lemma_mod_twice(n, modulus());
            let q = s.numerator.value();
            lemma_val_bounds(s.numerator.limbs@);
            if is_invertible(self@.1) {
                crate::inverse::lemma_invertible_residue(d % modulus(), d);
                vstd::arithmetic::div_mod::lemma_mul_mod_noop_right(q, d, modulus());
                lemma_fraction_unique(n % modulus(), d % modulus(), q);
            }
            if self@.1 == 0 {
                assert(q == 0);
            }
            lemma_value_limbs(s.numerator.limbs@);
        }
        sha256(&data)
    }

    /// Encode the rolling numerator and denominator for persistence
    /// (not the finalized 32-byte hash).
    pub fn serialize_running_state(&self) -> (r: [u8; MUHASH_RUNNING_STATE_BYTES])
        ensures
            r@ == limbs_to_bytes(self.numerator_limbs()) + limbs_to_bytes(self.denominator_limbs()),
            bytes_val(r@.take(384)) == val(self.numerator_limbs()),
            bytes_val(r@.skip(384)) == val(self.denominator_limbs()),
    {
        let mut out = [0u8; MUHASH_RUNNING_STATE_BYTES];
        let mut num_buf = [0u8; BYTE_SIZE];
        let mut den_buf = [0u8; BYTE_SIZE];
        self.numerator.to_bytes(&mut num_buf);
        self.denominator.to_bytes(&mut den_buf);
        for i in 0..BYTE_SIZE
            invariant
                forall|k: int| 0 <= k < i ==> #[trigger] out@[k] == num_buf@[k],
                forall|k: int| 0 <= k < i ==> #[trigger] out@[BYTE_SIZE + k] == den_buf@[k],
        {
            out[i] = num_buf[i];
            out[BYTE_SIZE + i] = den_buf[i];
        }
        proof {
            assert(out@ =~= num_buf@ + den_buf@) by {
                assert forall|k: int| 0 <= k < 768 implies out@[k] == (num_buf@ + den_buf@)[k] by {
                    if k >= 384 {
                        assert(out@[BYTE_SIZE + (k - 384)] == den_buf@[k - 384]);
                    }
                }
            }
            assert(out@.take(384) =~= num_buf@);
            assert(out@.skip(384) =~= den_buf@);
        }
        out
    }

    /// Decode `serialize_running_state` output.
    pub fn deserialize_running_state(bytes: &[u8; MUHASH_RUNNING_STATE_BYTES]) -> (r: Self)
        ensures
            r.numerator_limbs() == bytes_to_limbs(bytes@.take(384)),
            r.denominator_limbs() == bytes_to_limbs(bytes@.skip(384)),
            r@ == (bytes_val(bytes@.take(384)) % modulus(), bytes_val(bytes@.skip(384)) % modulus()),
    {
        let mut num_buf = [0u8; BYTE_SIZE];
        let mut den_buf = [0u8; BYTE_SIZE];
        for i in 0..BYTE_SIZE
            invariant
                forall|k: int| 0 <= k < i ==> #[trigger] num_buf@[k] == bytes@[k],
                forall|k: int| 0 <= k < i ==> #[trigger] den_buf@[k] == bytes@[BYTE_SIZE + k],
        {
            num_buf[i] = bytes[i];
            den_buf[i] = bytes[BYTE_SIZE + i];
        }
        proof {
            assert(num_buf@ =~= bytes@.take(384));
            assert(den_buf@ =~= bytes@.skip(384));
        }
        let numerator = Num3072::from_bytes(&num_buf);
        let denominator = Num3072::from_bytes(&den_buf);
        MuHash3072 { numerator, denominator }
    }
}

impl Default for MuHash3072 {
    /// Empty set.
    fn default() -> (r: Self)
        ensures
            r@ == (1int, 1int),
            r.numerator_limbs() == value_limbs(1),
            r.denominator_limbs() == value_limbs(1),
    {
        Self::new()
    }
}

/// Multiplying values multiplies their residues.
proof fn lemma_mul_residues(a: int, b: int)
    ensures
        ((a % modulus()) * (b % modulus())) % modulus() == (a * b) % modulus(),
        ((a % modulus()) * ((b % modulus()) % modulus())) % modulus() == (a * b) % modulus(),
        ((a * b) % modulus()) % modulus() == (a * b) % modulus(),
{
    lemma_modulus_pos();
    lemma_mul_mod_noop_general(a, b, modulus());
    lemma_mod_twice(b, modulus());
    lemma_mod_twice(a * b, modulus());
}

/// For an invertible `d`, the `q` below the modulus with `q * d = n` is
/// `fraction_value(n, d)`.
pub proof fn lemma_fraction_unique(n: int, d: int, q: int)
    requires
        is_invertible(d),
        0 <= q < modulus(),
        (q * d) % modulus() == n % modulus(),
    ensures
        q == fraction_value(n, d),
{
    let m = modulus();
    lemma_modulus_pos();
    let y = choose|y: int| #[trigger] ((d * y) % modulus()) == 1;
    if d % m == 0 {
        vstd::arithmetic::div_mod::lemma_mul_mod_noop_left(d, y, m);
        assert(0 * y == 0);
        vstd::arithmetic::div_mod::lemma_small_mod(0, m as nat);
        assert(false);
    }
    let q2 = fraction_value(n, d);
    assert(0 <= q2 < m && (q2 * d) % m == n % m);
    // q * d = q2 * d, so q = q * d * y = q2 * d * y = q2.
    lemma_cancel_invertible(q, q2, d, y);
    vstd::arithmetic::div_mod::lemma_small_mod(q as nat, m as nat);
    vstd::arithmetic::div_mod::lemma_small_mod(q2 as nat, m as nat);
}

/// An invertible factor cancels: `a d = b d` gives `a = b` modulo the modulus.
proof fn lemma_cancel_invertible(a: int, b: int, d: int, y: int)
    requires
        (a * d) % modulus() == (b * d) % modulus(),
        (d * y) % modulus() == 1,
    ensures
        a % modulus() == b % modulus(),
{
    let m = modulus();
    lemma_modulus_pos();
    vstd::arithmetic::div_mod::lemma_mul_mod_noop_left(a * d, y, m);
    vstd::arithmetic::div_mod::lemma_mul_mod_noop_left(b * d, y, m);
    lemma_mul_is_associative(a, d, y);
    lemma_mul_is_associative(b, d, y);
    vstd::arithmetic::div_mod::lemma_mul_mod_noop_right(a, d * y, m);
    vstd::arithmetic::div_mod::lemma_mul_mod_noop_right(b, d * y, m);
    assert(a * 1 == a);
    assert(b * 1 == b);
}

/// The limbs of a number are the `value_limbs` of its value.
proof fn lemma_value_limbs(s: Seq<u64>)
    requires
        s.len() == 48,
    ensures
        value_limbs(val(s)) == s,
{
    let t = value_limbs(val(s));
    assert(s.len() == 48 && val(s) == val(s));
    crate::limb_math::lemma_val_injective(s, t);
}

pub proof fn lemma_modulus_pos()
    ensures
        modulus() > 1,
{
    crate::limb_math::lemma_wpow_mono(1, 48);
    assert(crate::limb_math::wpow(1) == crate::limb_math::W() * crate::limb_math::wpow(0));
}

/// Order independence: inserting `a` then `b` gives the same state as
/// inserting `b` then `a`.
pub proof fn law_insert_order_independent(v: (int, int), ea: int, eb: int)
    ensures
        insert_view(insert_view(v, ea), eb) == insert_view(insert_view(v, eb), ea),
{
    lemma_modulus_pos();
    let m = modulus();
    vstd::arithmetic::div_mod::lemma_mul_mod_noop_left(v.0 * ea, eb, m);
    vstd::arithmetic::div_mod::lemma_mul_mod_noop_left(v.0 * eb, ea, m);
    lemma_mul_is_associative(v.0, ea, eb);
    lemma_mul_is_associative(v.0, eb, ea);
    lemma_mul_is_commutative(ea, eb);
}

/// Inserting an element and removing it again leaves a state that stands
/// for the same set as before.
pub proof fn law_insert_remove_same_fraction(v: (int, int), e: int)
    ensures
        same_fraction(remove_view(insert_view(v, e), e), v),
{
    lemma_modulus_pos();
    let m = modulus();
    let w = remove_view(insert_view(v, e), e);
    vstd::arithmetic::div_mod::lemma_mul_mod_noop_left(v.0 * e, v.1, m);
    vstd::arithmetic::div_mod::lemma_mul_mod_noop_right(v.0, v.1 * e, m);
    lemma_mul_is_associative(v.0, e, v.1);
    lemma_mul_is_associative(v.0, v.1, e);
    lemma_mul_is_commutative(e, v.1);
}

/// Removing an element and inserting it again leaves a state that stands
/// for the same set as before.
pub proof fn law_remove_insert_same_fraction(v: (int, int), e: int)
    ensures
        same_fraction(insert_view(remove_view(v, e), e), v),
{
    lemma_modulus_pos();
    let m = modulus();
    vstd::arithmetic::div_mod::lemma_mul_mod_noop_left(v.0 * e, v.1, m);
    vstd::arithmetic::div_mod::lemma_mul_mod_noop_right(v.0, v.1 * e, m);
    lemma_mul_is_associative(v.0, e, v.1);
    lemma_mul_is_associative(v.0, v.1, e);
    lemma_mul_is_commutative(e, v.1);
}

/// Merging commutes with insertion: inserting into one part and then
/// taking the union equals inserting into the union.
pub proof fn law_insert_multiply_commute(v: (int, int), w: (int, int), e: int)
    ensures
        multiply_view(insert_view(v, e), w) == insert_view(multiply_view(v, w), e),
{
    lemma_modulus_pos();
    let m = modulus();
    vstd::arithmetic::div_mod::lemma_mul_mod_noop_left(v.0 * e, w.0, m);
    vstd::arithmetic::div_mod::lemma_mul_mod_noop_left(v.0 * w.0, e, m);
    lemma_mul_is_associative(v.0, e, w.0);
    lemma_mul_is_associative(v.0, w.0, e);
    lemma_mul_is_commutative(e, w.0);
}

/// Dividing out a state that was multiplied in gives back the same set.
pub proof fn law_divide_undoes_multiply(v: (int, int), w: (int, int))
    ensures
        same_fraction(divide_view(multiply_view(v, w), w), v),
{
    lemma_modulus_pos();
    let m = modulus();
    let n = (v.0 * w.0) % m;
    let d = (v.1 * w.1) % m;
    // Left side: ((n * w.1) % m * v.1) % m == (v.0 * w.0 * w.1 * v.1) % m.
    vstd::arithmetic::div_mod::lemma_mul_mod_noop_left(n * w.1, v.1, m);
    assert(n * w.1 * v.1 == n * (w.1 * v.1)) by (nonlinear_arith);
    vstd::arithmetic::div_mod::lemma_mul_mod_noop_left(v.0 * w.0, w.1 * v.1, m);
    // Right side: (v.0 * ((d * w.0) % m)) % m == (v.0 * (v.1 * w.1) * w.0) % m.
    vstd::arithmetic::div_mod::lemma_mul_mod_noop_right(v.0, d * w.0, m);
    assert(v.0 * (d * w.0) == d * (v.0 * w.0)) by (nonlinear_arith);
    vstd::arithmetic::div_mod::lemma_mul_mod_noop_left(v.1 * w.1, v.0 * w.0, m);
    assert((v.0 * w.0) * (w.1 * v.1) == (v.1 * w.1) * (v.0 * w.0)) by (nonlinear_arith);
}

/// The union with the empty set keeps the state.
pub proof fn law_multiply_empty(v: (int, int))
    requires
        0 <= v.0 < modulus(),
        0 <= v.1 < modulus(),
    ensures
        multiply_view(v, (1int, 1int)) == v,
{
    lemma_modulus_pos();
    vstd::arithmetic::div_mod::lemma_small_mod(v.0 as nat, modulus() as nat);
    vstd::arithmetic::div_mod::lemma_small_mod(v.1 as nat, modulus() as nat);
}

/// Decoding the serialized running state gives back the numerator and the
/// denominator limb for limb.
pub proof fn law_running_state_roundtrip(s: MuHash3072)
    ensures
        bytes_to_limbs(
            (limbs_to_bytes(s.numerator_limbs()) + limbs_to_bytes(s.denominator_limbs())).take(384),
        ) == s.numerator_limbs(),
        bytes_to_limbs(
            (limbs_to_bytes(s.numerator_limbs()) + limbs_to_bytes(s.denominator_limbs())).skip(384),
        ) == s.denominator_limbs(),
{
    s.lemma_view_limbs();
    let a = limbs_to_bytes(s.numerator_limbs());
    let b = limbs_to_bytes(s.denominator_limbs());
    assert((a + b).take(384) =~= a);
    assert((a + b).skip(384) =~= b);
    lemma_limbs_bytes_roundtrip(s.numerator_limbs());
    lemma_limbs_bytes_roundtrip(s.denominator_limbs());
}

/// For an invertible `d`, `fraction_value(n, d)` is below the modulus and
/// times `d` gives `n`.
pub proof fn lemma_fraction_value(n: int, d: int)
    requires
        is_invertible(d),
    ensures
        0 <= fraction_value(n, d) < modulus(),
        (fraction_value(n, d) * d) % modulus() == n % modulus(),
{
    let m = modulus();
    lemma_modulus_pos();
    let y = choose|y: int| #[trigger] ((d * y) % modulus()) == 1;
    if d % m == 0 {
        vstd::arithmetic::div_mod::lemma_mul_mod_noop_left(d, y, m);
        assert(0 * y == 0);
        vstd::arithmetic::div_mod::lemma_small_mod(0, m as nat);
        assert(false);
    }
    let q = (n * y) % m;
    vstd::arithmetic::div_mod::lemma_mod_bound(n * y, m);
    vstd::arithmetic::div_mod::lemma_mul_mod_noop_left(n * y, d, m);
    lemma_mul_is_associative(n, y, d);
    lemma_mul_is_commutative(y, d);
    vstd::arithmetic::div_mod::lemma_mul_mod_noop_right(n, d * y, m);
    assert(n * 1 == n);
    assert((q * d) % m == n % m);
}

/// The finalized hash of a state with an invertible denominator is SHA-256 of
/// the 384 bytes that encode, little-endian, the quotient `numerator /
/// denominator` below the modulus: of any such bytes, as there is one quotient.
pub proof fn law_finalize_hashes_quotient(v: (int, int), b: Seq<u8>)
    requires
        is_invertible(v.1),
        b.len() == 384,
        0 <= bytes_val(b) < modulus(),
        (bytes_val(b) * v.1) % modulus() == v.0 % modulus(),
    ensures
        finalize_spec(v) == sha256_spec(b),
{
    lemma_fraction_unique(v.0, v.1, bytes_val(b));
    let s = bytes_to_limbs(b);
    law_bytes_limbs_roundtrip(b);
    law_limbs_bytes_value(s);
    lemma_value_limbs(s);
}

/// Two states that stand for the same fraction, with invertible
/// denominators, finalize to the same hash.
pub proof fn law_same_fraction_same_hash(v: (int, int), w: (int, int))
    requires
        same_fraction(v, w),
        is_invertible(v.1),
        is_invertible(w.1),
    ensures
        finalize_spec(v) == finalize_spec(w),
{
    let m = modulus();
    lemma_modulus_pos();
    lemma_fraction_value(v.0, v.1);
    lemma_fraction_value(w.0, w.1);
    let q1 = fraction_value(v.0, v.1);
    let q2 = fraction_value(w.0, w.1);
    let y1 = choose|y: int| #[trigger] ((v.1 * y) % modulus()) == 1;
    let y2 = choose|y: int| #[trigger] ((w.1 * y) % modulus()) == 1;
    // q1 * (v.1 * w.1) = v.0 * w.1 = w.0 * v.1 = q2 * (v.1 * w.1)
    vstd::arithmetic::div_mod::lemma_mul_mod_noop_left(q1 * v.1, w.1, m);
    vstd::arithmetic::div_mod::lemma_mul_mod_noop_left(v.0, w.1, m);
    vstd::arithmetic::div_mod::lemma_mul_mod_noop_left(q2 * w.1, v.1, m);
    vstd::arithmetic::div_mod::lemma_mul_mod_noop_left(w.0, v.1, m);
    lemma_mul_is_associative(q1, v.1, w.1);
    lemma_mul_is_associative(q2, w.1, v.1);
    lemma_mul_is_commutative(w.1, v.1);
    assert((q1 * (v.1 * w.1)) % m == (q2 * (v.1 * w.1)) % m);
    // v.1 * w.1 has the inverse y1 * y2.
    vstd::arithmetic::div_mod::lemma_mul_mod_noop_general(v.1 * y1, w.1 * y2, m);
    assert((v.1 * w.1) * (y1 * y2) == (v.1 * y1) * (w.1 * y2)) by (nonlinear_arith);
    assert(1int * 1int == 1);
    vstd::arithmetic::div_mod::lemma_small_mod(1, m as nat);
    lemma_cancel_invertible(q1, q2, v.1 * w.1, y1 * y2);
    vstd::arithmetic::div_mod::lemma_small_mod(q1 as nat, m as nat);
    vstd::arithmetic::div_mod::lemma_small_mod(q2 as nat, m as nat);
}

/// Inserting an element and removing it again gives the hash of the state
/// before (denominator and element invertible).
pub proof fn law_insert_remove_same_hash(v: (int, int), e: int)
    requires
        is_invertible(v.1),
        is_invertible(e),
    ensures
        finalize_spec(remove_view(insert_view(v, e), e)) == finalize_spec(v),
{
    let m = modulus();
    lemma_modulus_pos();
    law_insert_remove_same_fraction(v, e);
    let w = remove_view(insert_view(v, e), e);
    let y1 = choose|y: int| #[trigger] ((v.1 * y) % modulus()) == 1;
    let y2 = choose|y: int| #[trigger] ((e * y) % modulus()) == 1;
    vstd::arithmetic::div_mod::lemma_mul_mod_noop_left(v.1 * e, y1 * y2, m);
    vstd::arithmetic::div_mod::lemma_mul_mod_noop_general(v.1 * y1, e * y2, m);
    assert((v.1 * e) * (y1 * y2) == (v.1 * y1) * (e * y2)) by (nonlinear_arith);
    assert(1int * 1int == 1);
    vstd::arithmetic::div_mod::lemma_small_mod(1, m as nat);
    assert(((w.1 * (y1 * y2)) % modulus()) == 1);
    law_same_fraction_same_hash(w, v);
}

/// A state after inserting the elements of residues `es` in order.
pub open spec fn insert_all(v: (int, int), es: Seq<int>) -> (int, int)
    decreases es.len(),
{
    if es.len() == 0 {
        v
    } else {
        insert_view(insert_all(v, es.drop_last()), es.last())
    }
}

/// Merging commutes with insertion into the second state.
proof fn lemma_insert_multiply_commute_right(v: (int, int), w: (int, int), e: int)
    ensures
        multiply_view(v, insert_view(w, e)) == insert_view(multiply_view(v, w), e),
{
    lemma_modulus_pos();
    let m = modulus();
    vstd::arithmetic::div_mod::lemma_mul_mod_noop_right(v.0, w.0 * e, m);
    vstd::arithmetic::div_mod::lemma_mul_mod_noop_left(v.0 * w.0, e, m);
    lemma_mul_is_associative(v.0, w.0, e);
}

/// Merging a state built from `a` with one built from `b` inserts `a` and
/// `b` into the merge of the starting states.
proof fn lemma_multiply_insert_all_left(v: (int, int), w: (int, int), a: Seq<int>)
    ensures
        multiply_view(insert_all(v, a), w) == insert_all(multiply_view(v, w), a),
    decreases a.len(),
{
    if a.len() > 0 {
        lemma_multiply_insert_all_left(v, w, a.drop_last());
        law_insert_multiply_commute(insert_all(v, a.drop_last()), w, a.last());
    }
}

/// Mergeable: the union (`multiply`) of a state built by inserting the
/// elements `a` and one built by inserting `b` is the merge of the starting
/// states with all of `a` and then all of `b` inserted.
pub proof fn law_multiply_is_union(v: (int, int), w: (int, int), a: Seq<int>, b: Seq<int>)
    ensures
        multiply_view(insert_all(v, a), insert_all(w, b)) == insert_all(multiply_view(v, w), a + b),
    decreases b.len(),
{
    if b.len() == 0 {
        lemma_multiply_insert_all_left(v, w, a);
        assert(a + b =~= a);
    } else {
        law_multiply_is_union(v, w, a, b.drop_last());
        lemma_insert_multiply_commute_right(insert_all(v, a), insert_all(w, b.drop_last()), b.last());
        assert((a + b).drop_last() =~= a + b.drop_last());
        assert((a + b).last() == b.last());
    }
}

} // verus!
