//! Known-plaintext recovery of the internal keys of the traditional ZIP stream cipher.
//!
//! The cipher keeps three 32-bit keys and updates them with every byte. Given
//! twelve or more bytes of plaintext and the ciphertext that holds them, the
//! attack of Biham and Kocher recovers the keys:
//!
//! - `zreduction` lists the values that the third key can have at the end of the
//!   known plaintext, and reduces the list position by position;
//! - `attack` completes, for one such value, twelve consecutive values of each
//!   key by guessing and filtering, as `workspace` and `search` describe;
//! - `driver` runs the attack over the list and deciphers with the keys found.
//!
//! `truth` proves that keys which did encipher the plaintext are not missed,
//! and `sound` that the keys of an accepted completion produce the keystream of
//! the positions that follow them.

pub mod utils;
pub mod sieve;
pub mod crc32_tab;
pub mod mult_tab;
pub mod keystream_tab;
pub mod keys;
pub mod data;
pub mod workspace;
pub mod search;
pub mod attack;
pub mod zreduction;
pub mod truth;
pub mod sound;
pub mod driver;
