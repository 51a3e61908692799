//! Fractional indexing: short, canonical string keys that sort lexicographically
//! and can always be generated strictly between two existing keys.

pub mod alphabet;
pub mod error;
pub mod lex;
pub mod integer;
pub mod midpoint;
pub mod key;
pub use error::FrackErr;
pub use key::{key_between, key_digits, n_keys_between, KeyDigits};
