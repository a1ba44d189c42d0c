//! Coin serialization for MuHash: outpoint, `(height << 1) | coinbase`,
//! amount and the script with its compact-size length prefix.
use vstd::prelude::*;

verus! {

/// Little-endian bytes of a `u16`.
pub open spec fn u16_le(x: u16) -> Seq<u8> {
    seq![x as u8, (x >> 8u16) as u8]
}

/// Little-endian bytes of a `u32`.
pub open spec fn u32_le(x: u32) -> Seq<u8> {
    seq![x as u8, (x >> 8u32) as u8, (x >> 16u32) as u8, (x >> 24u32) as u8]
}

/// Little-endian bytes of a `u64`.
pub open spec fn u64_le(x: u64) -> Seq<u8> {
    seq![
        x as u8,
        (x >> 8u64) as u8,
        (x >> 16u64) as u8,
        (x >> 24u64) as u8,
        (x >> 32u64) as u8,
        (x >> 40u64) as u8,
        (x >> 48u64) as u8,
        (x >> 56u64) as u8,
    ]
}

/// Bitcoin's compact-size encoding of a length.
pub open spec fn compact_size(len: nat) -> Seq<u8> {
    if len < 0xfd {
        seq![len as u8]
    } else if len <= 0xffff {
        seq![0xfdu8] + u16_le(len as u16)
    } else if len <= 0xffff_ffff {
        seq![0xfeu8] + u32_le(len as u32)
    } else {
        seq![0xffu8] + u64_le(len as u64)
    }
}

/// The serialized form of an (outpoint, coin) pair as hashed by MuHash.
pub open spec fn coin_bytes(
    txid: Seq<u8>,
    vout: u32,
    height: u32,
    is_coinbase: bool,
    amount: i64,
    script_pubkey: Seq<u8>,
) -> Seq<u8> {
    let height_coinbase: u32 = (height << 1u32) | (if is_coinbase { 1u32 } else { 0u32 });
    txid + u32_le(vout) + u32_le(height_coinbase) + u64_le(amount as u64) + compact_size(
        script_pubkey.len(),
    ) + script_pubkey
}

/// The number that the two bytes of `b` from `at` on encode, least significant first.
pub open spec fn read_u16_le(b: Seq<u8>, at: int) -> int {
    b[at] + 256 * b[at + 1]
}

/// The number that the four bytes of `b` from `at` on encode, least significant first.
pub open spec fn read_u32_le(b: Seq<u8>, at: int) -> int {
    b[at] + 256 * b[at + 1] + 65536 * b[at + 2] + 16777216 * b[at + 3]
}

/// The number that the eight bytes of `b` from `at` on encode, least significant first.
pub open spec fn read_u64_le(b: Seq<u8>, at: int) -> int {
    read_u32_le(b, at) + 0x1_0000_0000 * read_u32_le(b, at + 4)
}

/// How many bytes the compact-size prefix of a length takes.
pub open spec fn compact_size_len(len: nat) -> nat {
    if len < 0xfd {
        1
    } else if len <= 0xffff {
        3
    } else if len <= 0xffff_ffff {
        5
    } else {
        9
    }
}

/// An amount as the unsigned 64-bit number its two's-complement bytes encode.
pub open spec fn amount_bits(amount: i64) -> int {
    if amount >= 0 {
        amount as int
    } else {
        amount + 0x1_0000_0000_0000_0000
    }
}

proof fn lemma_u16_le(x: u16)
    ensures
        u16_le(x).len() == 2,
        read_u16_le(u16_le(x), 0) == x,
{
    assert((x as u8) + 256 * ((x >> 8u16) as u8) == x) by (bit_vector);
}

proof fn lemma_u32_le(x: u32)
    ensures
        u32_le(x).len() == 4,
        read_u32_le(u32_le(x), 0) == x,
        forall|k: int| 0 <= k < 4 ==> #[trigger] u32_le(x)[k] == ((x >> ((8 * k) as u32)) as u8),
{
    assert((x >> 0u32) == x && (x as u8) + 256 * ((x >> 8u32) as u8) + 65536 * ((x >> 16u32) as u8)
        + 16777216 * ((x >> 24u32) as u8) == x) by (bit_vector);
    assert forall|k: int| 0 <= k < 4 implies #[trigger] u32_le(x)[k] == ((x >> ((8 * k) as u32)) as u8) by {
        assert(k == 0 || k == 1 || k == 2 || k == 3);
    }
}

proof fn lemma_u64_le(x: u64)
    ensures
        u64_le(x).len() == 8,
        read_u64_le(u64_le(x), 0) == x,
{
    assert((x as u8) + 256 * ((x >> 8u64) as u8) + 65536 * ((x >> 16u64) as u8) + 16777216 * ((x
        >> 24u64) as u8) + 0x1_0000_0000 * (((x >> 32u64) as u8) + 256 * ((x >> 40u64) as u8)
        + 65536 * ((x >> 48u64) as u8) + 16777216 * ((x >> 56u64) as u8)) == x) by (bit_vector);
}

proof fn lemma_height_coinbase(height: u32, cb: u32)
    requires
        cb <= 1,
    ensures
        ((height << 1u32) | cb) as int == (2 * height + cb) % 0x1_0000_0000,
{
    assert(cb <= 1u32 ==> ((height << 1u32) | cb) == (2 * height + cb) % 0x1_0000_0000)
        by (bit_vector);
}

/// Where each field of a coin stands in its serialized form: the 32 bytes of the
/// txid first, then vout and `2 * height + coinbase` (modulo `2^32`) as four
/// little-endian bytes each, the amount's two's-complement value as eight, the
/// script's length as a compact size, and the script itself last.
pub proof fn law_coin_layout(
    txid: Seq<u8>,
    vout: u32,
    height: u32,
    is_coinbase: bool,
    amount: i64,
    script_pubkey: Seq<u8>,
)
    requires
        txid.len() == 32,
    ensures
        ({
            let b = coin_bytes(txid, vout, height, is_coinbase, amount, script_pubkey);
            let n = script_pubkey.len();
            &&& b.len() == 48 + compact_size_len(n) + n
            &&& b.take(32) == txid
            &&& forall|k: int| 0 <= k < 4 ==> #[trigger] b[32 + k] == ((vout >> ((8 * k) as u32)) as u8)
            &&& read_u32_le(b, 32) == vout
            &&& read_u32_le(b, 36) == (2 * height + (if is_coinbase { 1int } else { 0int })) % 0x1_0000_0000
            &&& read_u64_le(b, 40) == amount_bits(amount)
            &&& n < 0xfd ==> b[48] == n
            &&& 0xfd <= n <= 0xffff ==> b[48] == 0xfd && read_u16_le(b, 49) == n
            &&& 0xffff < n <= 0xffff_ffff ==> b[48] == 0xfe && read_u32_le(b, 49) == n
            &&& 0xffff_ffff < n < 0x1_0000_0000_0000_0000 ==> b[48] == 0xff && read_u64_le(b, 49) == n
            &&& b.skip(b.len() - n) == script_pubkey
        }),
{
    let cb: u32 = if is_coinbase { 1u32 } else { 0u32 };
    let hc: u32 = (height << 1u32) | cb;
    let n = script_pubkey.len();
    let p1 = txid + u32_le(vout);
    let p2 = p1 + u32_le(hc);
    let p3 = p2 + u64_le(amount as u64);
    let p4 = p3 + compact_size(n);
    let b = p4 + script_pubkey;
    assert(b == coin_bytes(txid, vout, height, is_coinbase, amount, script_pubkey));
    lemma_u32_le(vout);
    lemma_u32_le(hc);
    lemma_u64_le(amount as u64);
    lemma_height_coinbase(height, cb);
    crate::divsteps::lemma_i64_to_u64(amount);
    if amount < 0 {
        vstd::arithmetic::div_mod::lemma_fundamental_div_mod_converse(
            amount as int,
            crate::limb_math::W(),
            -1,
            amount + crate::limb_math::W(),
        );
    } else {
        vstd::arithmetic::div_mod::lemma_small_mod(amount as nat, crate::limb_math::W() as nat);
    }
    assert(compact_size(n).len() == compact_size_len(n)) by {
        if n >= 0xfd && n <= 0xffff {
            lemma_u16_le(n as u16);
        } else if n > 0xffff && n <= 0xffff_ffff {
            lemma_u32_le(n as u32);
        } else if n > 0xffff_ffff {
            lemma_u64_le(n as u64);
        }
    }
    assert(b.take(32) =~= txid);
    assert forall|k: int| 0 <= k < 4 implies #[trigger] b[32 + k] == ((vout >> ((8 * k) as u32)) as u8) by {
        assert(b[32 + k] == u32_le(vout)[k]);
    }
    assert(read_u32_le(b, 32) == read_u32_le(u32_le(vout), 0));
    assert(read_u32_le(b, 36) == read_u32_le(u32_le(hc), 0));
    assert(read_u32_le(b, 40) == read_u32_le(u64_le(amount as u64), 0));
    assert(read_u32_le(b, 44) == read_u32_le(u64_le(amount as u64), 4));
    if n < 0xfd {
        assert(b[48] == compact_size(n)[0]);
    } else if n <= 0xffff {
        lemma_u16_le(n as u16);
        assert(b[48] == compact_size(n)[0]);
        assert(read_u16_le(b, 49) == read_u16_le(u16_le(n as u16), 0));
    } else if n <= 0xffff_ffff {
        lemma_u32_le(n as u32);
        assert(b[48] == compact_size(n)[0]);
        assert(read_u32_le(b, 49) == read_u32_le(u32_le(n as u32), 0));
    } else {
        lemma_u64_le(n as u64);
        assert(b[48] == compact_size(n)[0]);
        assert(read_u32_le(b, 49) == read_u32_le(u64_le(n as u64), 0));
        assert(read_u32_le(b, 53) == read_u32_le(u64_le(n as u64), 4));
    }
    assert(b.skip(b.len() - n) =~= script_pubkey);
}

/// Two outputs of one transaction never serialize alike: coins that differ
/// only in their output index give different bytes.
pub proof fn law_coin_distinct_outputs(
    txid: Seq<u8>,
    vout1: u32,
    vout2: u32,
    height: u32,
    is_coinbase: bool,
    amount: i64,
    script_pubkey: Seq<u8>,
)
    requires
        txid.len() == 32,
        vout1 != vout2,
    ensures
        coin_bytes(txid, vout1, height, is_coinbase, amount, script_pubkey) != coin_bytes(
            txid,
            vout2,
            height,
            is_coinbase,
            amount,
            script_pubkey,
        ),
{
    law_coin_layout(txid, vout1, height, is_coinbase, amount, script_pubkey);
    law_coin_layout(txid, vout2, height, is_coinbase, amount, script_pubkey);
}

fn push_u16_le(out: &mut Vec<u8>, x: u16)
    ensures
        final(out)@ == old(out)@ + u16_le(x),
{
    out.push(x as u8);
    out.push((x >> 8u16) as u8);
}

fn push_u32_le(out: &mut Vec<u8>, x: u32)
    ensures
        final(out)@ == old(out)@ + u32_le(x),
{
    out.push(x as u8);
    out.push((x >> 8u32) as u8);
    out.push((x >> 16u32) as u8);
    out.push((x >> 24u32) as u8);
}

fn push_u64_le(out: &mut Vec<u8>, x: u64)
    ensures
        final(out)@ == old(out)@ + u64_le(x),
{
    out.push(x as u8);
    out.push((x >> 8u64) as u8);
    out.push((x >> 16u64) as u8);
    out.push((x >> 24u64) as u8);
    out.push((x >> 32u64) as u8);
    out.push((x >> 40u64) as u8);
    out.push((x >> 48u64) as u8);
    out.push((x >> 56u64) as u8);
}

fn push_all(out: &mut Vec<u8>, data: &[u8])
    ensures
        final(out)@ == old(out)@ + data@,
{
    let ghost start = out@;
    let mut i: usize = 0;
    while i < data.len()
        invariant
            i <= data.len(),
            out@ == start + data@.take(i as int),
        decreases data.len() - i,
    {
        out.push(data[i]);
        i = i + 1;
        assert(data@.take(i as int) == data@.take(i - 1) .push(data@[i - 1]));
    }
    assert(data@.take(data.len() as int) == data@);
}

/// Compact-size encoding of `len`: one byte below 0xfd, else a marker byte
/// followed by the little-endian length in 2, 4 or 8 bytes.
fn compact_size_encode(len: usize) -> (out: Vec<u8>)
    ensures
        out@ == compact_size(len as nat),
{
    let mut out: Vec<u8> = Vec::with_capacity(9);
    if len < 0xfd {
        out.push(len as u8);
    } else if len <= 0xffff {
        out.push(0xfd);
        push_u16_le(&mut out, len as u16);
    } else if len <= 0xffff_ffff {
        out.push(0xfe);
        push_u32_le(&mut out, len as u32);
    } else {
        out.push(0xff);
        push_u64_le(&mut out, len as u64);
    }
    out
}

/// Serialize (outpoint, coin) for MuHash insertion:
/// txid, vout, `(height << 1) | coinbase`, amount, compact size, script.
pub fn serialize_coin_for_muhash(
    txid: &[u8; 32],
    vout: u32,
    height: u32,
    is_coinbase: bool,
    amount: i64,
    script_pubkey: &[u8],
) -> (out: Vec<u8>)
    ensures
        out@ == coin_bytes(txid@, vout, height, is_coinbase, amount, script_pubkey@),
        out@.len() == 48 + compact_size_len(script_pubkey@.len()) + script_pubkey@.len(),
        out@.take(32) == txid@,
        forall|k: int| 0 <= k < 4 ==> #[trigger] out@[32 + k] == ((vout >> ((8 * k) as u32)) as u8),
        read_u32_le(out@, 32) == vout,
        read_u32_le(out@, 36) == (2 * height + (if is_coinbase { 1int } else { 0int }))
            % 0x1_0000_0000,
        read_u64_le(out@, 40) == amount_bits(amount),
        script_pubkey@.len() < 0xfd ==> out@[48] == script_pubkey@.len(),
        out@.skip(out@.len() - script_pubkey@.len()) == script_pubkey@,
{
    proof {
        law_coin_layout(txid@, vout, height, is_coinbase, amount, script_pubkey@);
    }
    let mut out: Vec<u8> = Vec::new();
    push_all(&mut out, txid);
    push_u32_le(&mut out, vout);
    let coinbase_bit: u32 = if is_coinbase { 1 } else { 0 };
    let height_coinbase: u32 = (height << 1u32) | coinbase_bit;
    push_u32_le(&mut out, height_coinbase);
    push_u64_le(&mut out, amount as u64);
    let size = compact_size_encode(script_pubkey.len());
    push_all(&mut out, size.as_slice());
    push_all(&mut out, script_pubkey);
    out
}

} // verus!
