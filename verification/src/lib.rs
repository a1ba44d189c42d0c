//! MuHash3072 for Bitcoin UTXO set hashing.
//!
//! The rolling hash of a set is a fraction `numerator / denominator` in the
//! multiplicative group of integers modulo the prime `2^3072 - 1103717`; each
//! element is mapped to a 3072-bit number by SHA-256 followed by ChaCha20.
pub mod bit_lemmas;
pub mod coin;
pub mod limb_math;
pub mod num3072;
pub mod product_math;
pub mod muhash;
pub mod modinv;
pub mod divsteps;
pub mod inverse;

pub use coin::serialize_coin_for_muhash;
pub use muhash::{MuHash3072, MUHASH_RUNNING_STATE_BYTES};
pub use num3072::Num3072;
