use blvm_muhash::{serialize_coin_for_muhash, MuHash3072, MUHASH_RUNNING_STATE_BYTES};

fn hex(bytes: &[u8]) -> String {
    let mut s = String::new();
    for b in bytes {
        s.push_str(&format!("{:02x}", b));
    }
    s
}

#[test]
fn empty_set() {
    let h = MuHash3072::new().finalize();
    assert_eq!(h.len(), 32);
}

#[test]
fn insert_remove_same() {
    let data = b"test element";
    let h1 = MuHash3072::new().finalize();
    let h2 = MuHash3072::new().insert(data).remove(data).finalize();
    assert_eq!(
        h1, h2,
        "insert then remove same element should equal empty set"
    );
}

#[test]
fn insert_order_independent() {
    let a = b"element a";
    let b = b"element b";
    let h1 = MuHash3072::new().insert(a).insert(b).finalize();
    let h2 = MuHash3072::new().insert(b).insert(a).finalize();
    assert_eq!(h1, h2, "MuHash is order-independent");
}

#[test]
fn running_state_roundtrip_preserves_finalize() {
    let coin = serialize_coin_for_muhash(&[7u8; 32], 2, 500_000, false, 12345, &[0x51]);
    let mh = MuHash3072::new().insert(&coin).insert(b"another");
    let bytes = mh.serialize_running_state();
    assert_eq!(bytes.len(), MUHASH_RUNNING_STATE_BYTES);
    let restored = MuHash3072::deserialize_running_state(&bytes);
    assert_eq!(mh.clone().finalize(), restored.finalize());
}

#[test]
fn known_empty_hash() {
    let h = MuHash3072::new().finalize();
    let h2 = MuHash3072::new().finalize();
    assert_eq!(h, h2);
}

#[test]
fn mut_api_matches_value_api() {
    let coins: [Vec<u8>; 4] = [
        serialize_coin_for_muhash(&[1u8; 32], 0, 100, false, 1, &[0x51]),
        serialize_coin_for_muhash(&[2u8; 32], 1, 200, true, 2, &[0x52]),
        serialize_coin_for_muhash(&[3u8; 32], 2, 300, false, 3, &[0x53]),
        serialize_coin_for_muhash(&[4u8; 32], 3, 400, true, 4, &[0x54]),
    ];

    let value_form = coins
        .iter()
        .fold(MuHash3072::new(), |acc, c| acc.insert(c));
    let mut mut_form = MuHash3072::new();
    for c in coins.iter() {
        mut_form.insert_mut(c);
    }
    assert_eq!(value_form.clone().finalize(), mut_form.clone().finalize());
    assert_eq!(
        value_form.serialize_running_state(),
        mut_form.serialize_running_state()
    );

    let value_form = coins
        .iter()
        .fold(MuHash3072::new(), |acc, c| acc.insert(c))
        .remove(&coins[1])
        .remove(&coins[3]);
    let mut mut_form = MuHash3072::new();
    for c in coins.iter() {
        mut_form.insert_mut(c);
    }
    mut_form.remove_mut(&coins[1]);
    mut_form.remove_mut(&coins[3]);
    assert_eq!(value_form.clone().finalize(), mut_form.clone().finalize());
    assert_eq!(
        value_form.serialize_running_state(),
        mut_form.serialize_running_state()
    );
}

#[test]
fn empty_hash_is_sha256_of_one() {
    // SHA-256 of the 384 little-endian bytes of the number 1.
    let h = MuHash3072::new().finalize();
    assert_eq!(
        hex(&h),
        "c85525462fdcf30a2c18d6f4b92923000974355c2477f59594d2c205a1d25add"
    );
}

#[test]
fn single_element_hash() {
    let h = MuHash3072::new().insert(b"element a").finalize();
    assert_eq!(
        hex(&h),
        "0b1f8d41ffd69f006ce16bbbda3e0e8a38b9bc0801c2f14680a4a17df0c768d7"
    );
}

#[test]
fn two_element_hash() {
    let h = MuHash3072::new().insert(b"element a").insert(b"element b").finalize();
    assert_eq!(
        hex(&h),
        "73def6682f2c7b304a4159ed435a9ff288c3f4cdeaece7e4001f78b2d1d907ae"
    );
}

#[test]
fn quotient_hash() {
    // Finalizing a / b exercises the modular inverse of a large denominator.
    let h = MuHash3072::new().insert(b"element a").remove(b"element b").finalize();
    assert_eq!(
        hex(&h),
        "8f211b56f51999337b15a3975809e711b8914c74c9d25fe8bd1599ca73327dd7"
    );
}

#[test]
fn element_number_low_limb() {
    // The running state holds the element's number (SHA-256, then ChaCha20).
    let s = MuHash3072::new().insert(b"element a").serialize_running_state();
    assert_eq!(s[0..8], 0x13c2c4e43e7cd6d2u64.to_le_bytes());
    assert_eq!(s[384], 1);
}

#[test]
fn remove_then_insert_same() {
    let h1 = MuHash3072::new().insert(b"x").finalize();
    let h2 = MuHash3072::new().insert(b"x").remove(b"y").insert(b"y").finalize();
    assert_eq!(h1, h2);
}

#[test]
fn multiply_is_union() {
    let a = MuHash3072::new().insert(b"one").insert(b"two");
    let b = MuHash3072::new().insert(b"three");
    let all = MuHash3072::new().insert(b"one").insert(b"two").insert(b"three");
    assert_eq!(a.multiply(&b).finalize(), all.finalize());
}

#[test]
fn divide_undoes_multiply() {
    let a = MuHash3072::new().insert(b"one").insert(b"two");
    let b = MuHash3072::new().insert(b"three").insert(b"four");
    let h1 = a.clone().finalize();
    let h2 = a.multiply(&b).divide(&b).finalize();
    assert_eq!(h1, h2);
}

#[test]
fn multiply_empty_keeps_hash() {
    let a = MuHash3072::new().insert(b"one");
    let h1 = a.clone().finalize();
    let h2 = a.multiply(&MuHash3072::new()).finalize();
    assert_eq!(h1, h2);
}

#[test]
fn default_is_empty() {
    let d: MuHash3072 = Default::default();
    assert_eq!(d.finalize(), MuHash3072::new().finalize());
}

#[test]
fn running_state_layout_of_empty() {
    let s = MuHash3072::new().serialize_running_state();
    assert_eq!(s.len(), 768);
    assert_eq!(s[0], 1);
    assert_eq!(s[384], 1);
    assert!(s[1..384].iter().all(|&b| b == 0));
    assert!(s[385..].iter().all(|&b| b == 0));
}

#[test]
fn deserialize_then_serialize_is_identity() {
    let mut bytes = [0u8; MUHASH_RUNNING_STATE_BYTES];
    for (i, b) in bytes.iter_mut().enumerate() {
        *b = (i * 7 + 3) as u8;
    }
    let s = MuHash3072::deserialize_running_state(&bytes);
    assert_eq!(s.serialize_running_state(), bytes);
}

#[test]
fn different_sets_differ() {
    let h1 = MuHash3072::new().insert(b"a").finalize();
    let h2 = MuHash3072::new().insert(b"b").finalize();
    assert_ne!(h1, h2);
}
