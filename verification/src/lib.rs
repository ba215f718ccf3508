//! Time-memory tradeoff tables for inverting SHA-256 over a small password
//! space.
//!
//! A chain starts at a seed plaintext and alternates hashing and reduction:
//! the digest of a plaintext is reduced to the next plaintext. A table
//! stores, for each chain, only the seed and the last digest. To invert a
//! digest, the search walks forward from it until it meets a stored
//! endpoint, then replays the chain kept there to find the plaintext that
//! hashes to the digest.
//!
//! - [`config`]: the password space and the chain length, validated once.
//! - [`digest`]: the digest oracle and the shape of its results.
//! - [`reduce`]: the reduction from digests to plaintexts.
//! - [`chain`]: steps, walks and replays of chains, and the search of one
//!   chain.
//! - [`table`]: the chain table and its construction from seeds.
//! - [`invert`]: the inversion of a digest against a table.
//! - [`persist`]: the stored form of a table, written and read.
//! - [`sample`]: random plaintexts for seeding.
//! - [`bytes`]: helpers on byte strings.
//!
//! Plaintexts and digests are byte strings throughout; a digest is the
//! lower-case hexadecimal text of the SHA-256 value. SHA-256 itself and the
//! random generator are called, not proved: what is assumed of them is
//! stated in [`digest`] and [`sample`].

pub mod bytes;
pub mod chain;
pub mod config;
pub mod digest;
pub mod invert;
pub mod persist;
pub mod reduce;
pub mod sample;
pub mod table;
