use blvm_muhash::serialize_coin_for_muhash;

#[test]
fn serialize_coin_format() {
    let txid = [1u8; 32];
    let vout = 0u32;
    let height = 100u32;
    let is_coinbase = true;
    let amount = 50_0000_0000i64; // 50 BTC in satoshis
    let script_pubkey: Vec<u8> = [0x76, 0xa9, 0x14].into_iter().chain([0u8; 20]).collect(); // P2PKH

    let serialized =
        serialize_coin_for_muhash(&txid, vout, height, is_coinbase, amount, &script_pubkey);

    assert_eq!(serialized[0..32], txid);
    assert_eq!(serialized[32..36], vout.to_le_bytes());
    let height_coinbase = (height << 1) | (is_coinbase as u32);
    assert_eq!(serialized[36..40], height_coinbase.to_le_bytes());
    assert_eq!(serialized[40..48], amount.to_le_bytes());
    assert_eq!(serialized[48], 23); // compact size for 23-byte script
    assert_eq!(serialized[49..72], script_pubkey);
}

#[test]
fn coin_total_length_small_script() {
    let s = serialize_coin_for_muhash(&[0u8; 32], 1, 2, false, -1, &[]);
    assert_eq!(s.len(), 32 + 4 + 4 + 8 + 1);
    assert_eq!(s[36..40], [4, 0, 0, 0]);
    assert_eq!(s[40..48], [0xff; 8]);
    assert_eq!(s[48], 0);
}

#[test]
fn coin_height_top_bit_dropped() {
    let s = serialize_coin_for_muhash(&[0u8; 32], 0, 0x8000_0001, true, 0, &[]);
    assert_eq!(s[36..40], [3, 0, 0, 0]);
}

#[test]
fn compact_size_boundary_fc() {
    let script = vec![7u8; 0xfc];
    let s = serialize_coin_for_muhash(&[0u8; 32], 0, 0, false, 0, &script);
    assert_eq!(s[48], 0xfc);
    assert_eq!(s.len(), 49 + 0xfc);
}

#[test]
fn compact_size_boundary_fd() {
    let script = vec![7u8; 0xfd];
    let s = serialize_coin_for_muhash(&[0u8; 32], 0, 0, false, 0, &script);
    assert_eq!(s[48..51], [0xfd, 0xfd, 0x00]);
    assert_eq!(s.len(), 51 + 0xfd);
}

#[test]
fn compact_size_two_byte_max() {
    let script = vec![1u8; 0xffff];
    let s = serialize_coin_for_muhash(&[0u8; 32], 0, 0, false, 0, &script);
    assert_eq!(s[48..51], [0xfd, 0xff, 0xff]);
}

#[test]
fn compact_size_four_byte() {
    let script = vec![1u8; 0x10000];
    let s = serialize_coin_for_muhash(&[0u8; 32], 0, 0, false, 0, &script);
    assert_eq!(s[48..53], [0xfe, 0x00, 0x00, 0x01, 0x00]);
    assert_eq!(s.len(), 53 + 0x10000);
}
