use blvm_muhash::Num3072;

fn num(low: u64) -> Num3072 {
    let mut limbs = [0u64; 48];
    limbs[0] = low;
    Num3072 { limbs }
}

fn modulus_minus(k: u64) -> Num3072 {
    let mut limbs = [u64::MAX; 48];
    limbs[0] = u64::MAX - 1103717 + 1 - k;
    Num3072 { limbs }
}

fn reduced(mut x: Num3072) -> Num3072 {
    if x.is_overflow() {
        x.full_reduce();
    }
    x
}

#[test]
fn one_is_default() {
    let d: Num3072 = Default::default();
    assert_eq!(d.limbs, num(1).limbs);
    let mut x = num(77);
    x.set_to_one();
    assert_eq!(x.limbs, num(1).limbs);
}

#[test]
fn overflow_at_modulus() {
    assert!(modulus_minus(0).is_overflow());
    assert!(!modulus_minus(1).is_overflow());
    assert!(!num(5).is_overflow());
}

#[test]
fn full_reduce_modulus_is_zero() {
    let mut m = modulus_minus(0);
    m.full_reduce();
    assert_eq!(m.limbs, [0u64; 48]);
    let mut m1 = modulus_minus(0);
    m1.limbs[0] += 5;
    m1.full_reduce();
    assert_eq!(m1.limbs, num(5).limbs);
}

#[test]
fn multiply_small() {
    let mut x = num(6);
    x.multiply(&num(7));
    assert_eq!(x.limbs, num(42).limbs);
}

#[test]
fn multiply_wraps_modulo() {
    // (p - 1) * (p - 1) = 1 modulo p.
    let mut x = modulus_minus(1);
    x.multiply(&modulus_minus(1));
    assert_eq!(reduced(x).limbs, num(1).limbs);
}

#[test]
fn inverse_of_two() {
    let inv = num(2).get_inverse();
    assert_eq!(inv.limbs[0], 0xfffffffffff7944e);
    assert_eq!(inv.limbs[47], 0x7fffffffffffffff);
    let mut x = num(2);
    x.multiply(&inv);
    assert_eq!(reduced(x).limbs, num(1).limbs);
}

#[test]
fn inverse_of_minus_one() {
    let inv = modulus_minus(1).get_inverse();
    assert_eq!(inv.limbs, modulus_minus(1).limbs);
}

#[test]
fn inverse_of_one_and_zero() {
    assert_eq!(num(1).get_inverse().limbs, num(1).limbs);
    assert_eq!(num(0).get_inverse().limbs, num(0).limbs);
}

#[test]
fn inverse_of_large_value() {
    let mut limbs = [0u64; 48];
    for (i, l) in limbs.iter_mut().enumerate() {
        *l = (i as u64).wrapping_mul(0x9e37_79b9_7f4a_7c15) ^ 0x1234_5678;
    }
    let a = Num3072 { limbs };
    let inv = a.get_inverse();
    assert!(!inv.is_overflow());
    let mut x = a.clone();
    x.multiply(&inv);
    assert_eq!(reduced(x).limbs, num(1).limbs);
}

#[test]
fn divide_by_self_is_one() {
    let mut x = num(123456789);
    x.divide(&num(123456789));
    assert_eq!(x.limbs, num(1).limbs);
}

#[test]
fn divide_exact() {
    let mut x = num(42);
    x.divide(&num(6));
    assert_eq!(x.limbs, num(7).limbs);
}

#[test]
fn divide_by_zero_gives_zero() {
    let mut x = num(42);
    x.divide(&num(0));
    assert_eq!(x.limbs, num(0).limbs);
    let mut y = num(42);
    y.divide(&modulus_minus(0));
    assert_eq!(y.limbs, num(0).limbs);
}

#[test]
fn divide_reduces_unreduced_operands() {
    // modulus + 6 stands for 6.
    let mut six = modulus_minus(0);
    six.limbs[0] += 6;
    let mut x = num(42);
    x.divide(&six);
    assert_eq!(x.limbs, num(7).limbs);
}

#[test]
fn bytes_roundtrip() {
    let mut bytes = [0u8; 384];
    for (i, b) in bytes.iter_mut().enumerate() {
        *b = (i as u8).wrapping_mul(31);
    }
    let x = Num3072::from_bytes(&bytes);
    let mut out = [0u8; 384];
    x.to_bytes(&mut out);
    assert_eq!(out, bytes);
    assert_eq!(x.limbs[0], u64::from_le_bytes([0, 31, 62, 93, 124, 155, 186, 217]));
}

#[test]
fn multiply_then_divide_gives_back() {
    let mut buf_a = [0u8; 384];
    for (i, b) in buf_a.iter_mut().enumerate() {
        *b = (i as u8).wrapping_mul(13).wrapping_add(5);
    }
    let mut buf_b = buf_a;
    buf_b[0] ^= 0x5a;
    buf_b[383] ^= 0x33;
    let a = Num3072::from_bytes(&buf_a);
    let b = Num3072::from_bytes(&buf_b);
    let mut x = a.clone();
    x.multiply(&b);
    assert!(!x.is_overflow());
    let mut y = x;
    y.divide(&b);
    assert_eq!(y.limbs, reduced(a).limbs);
    let mut prod = b.get_inverse();
    prod.multiply(&b);
    assert_eq!(prod.limbs, num(1).limbs);
}

#[test]
fn multiply_result_is_reduced() {
    // (p - 1) * (p - 2) = 2 modulo p, returned below the modulus.
    let mut x = modulus_minus(1);
    x.multiply(&modulus_minus(2));
    assert_eq!(x.limbs, num(2).limbs);
}
