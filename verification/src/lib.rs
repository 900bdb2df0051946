//! Core library for packing a byte buffer into an authenticated,
//! erasure-coded, content-addressed artifact and unpacking it again.

pub mod bytes;
pub mod contracts;
pub mod crypto;
pub mod drafts;
pub mod erasure;
pub mod ed25519;
pub mod errors;
pub mod fountain;
pub mod hashes;
pub mod ledger;
pub mod merkle;
pub mod hexcode;
pub mod poc;
pub mod pod;
pub mod profiles;
pub mod rng;
pub mod series;
pub mod strmap;
