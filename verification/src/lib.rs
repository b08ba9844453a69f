//! Threshold secret sharing and information dispersal of byte streams over
//! GF(2^8).
//!
//! A stream is split into `n` shares of which any `k` give it back:
//!
//! - [`shamir`] shares every byte as the constant term of a random
//!   polynomial, so that fewer than `k` shares say nothing of the stream;
//! - [`ida`] disperses every `k` bytes as the values of a polynomial, so that
//!   a share has a `k`-th of the length of the stream;
//! - [`shamir_ida`] encrypts the stream under a fresh key, disperses the
//!   ciphertext and shares the key.
//!
//! [`share_file`] puts a header before each share of the last, which makes
//! a share file.
//!
//! The schemes read from and write to the streams of [`io`]. The streams of
//! [`padding_streaming`] and [`block_mode_streaming`] pad and encrypt on the
//! way. [`gf256`] is the field, [`poly`] evaluates Lagrange basis
//! polynomials in it, and [`interpolation`] shows why `k` values determine a
//! polynomial of degree below `k`, which is why joining undoes splitting.

pub mod aes_cbc;
pub mod block_mode_streaming;
pub mod error;
pub mod gf256;
pub mod header;
pub mod ida;
pub mod interpolation;
pub mod io;
pub mod padding;
pub mod padding_streaming;
pub mod partitioner;
pub mod poly;
pub mod random;
pub mod shamir;
pub mod shamir_ida;
pub mod share_file;
pub mod utils;
