# blvm-muhash

MuHash3072, the rolling multiplicative hash of a set of byte strings used for
Bitcoin UTXO set hashing, written in Verus with its behaviour stated in
contracts and proved.

A state is a fraction `numerator / denominator` modulo the prime
`2^3072 - 1103717`. Inserting an element multiplies the numerator by the
element's 3072-bit number (SHA-256 of the data used as a ChaCha20 key, 384
keystream bytes); removing it multiplies the denominator. `finalize` divides
and hashes the 384 little-endian bytes of the quotient with SHA-256.

Layout of `src/`:

- `coin.rs`: the serialization of an (outpoint, coin) pair.
- `limb_math.rs`, `product_math.rs`: the value of limb sequences and the
  schoolbook product folded modulo `2^3072 - 1103717`.
- `num3072.rs`: `Num3072` and its reduction, multiplication and byte codecs.
- `bit_lemmas.rs`, `modinv.rs`, `divsteps.rs`, `inverse.rs`: the modular
  inverse by batches of divsteps on signed 62-bit limbs, with a binary-gcd
  fallback, and `Num3072::divide`.
- `muhash.rs`: `MuHash3072`, the SHA-256 and ChaCha20 calls, and the laws of
  the set operations and of the finalized hash.
