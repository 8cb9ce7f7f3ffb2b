//! Codec for the IAB Europe vendor consent string: a base64-armoured,
//! bit-packed record of the consent that a user gave to vendors and
//! purposes.
//!
//! - `vendor_consent` decodes a consent string into a record and encodes a
//!   record into a consent string, with the shorter of the two encodings of
//!   the vendors.
//! - `wire` says what bits stand for a record and what record a bit string
//!   stands for; `laws` proves that the two agree.
//! - `bits` reads and writes numbers of any width in a byte buffer;
//!   `ranges` finds the runs of consecutive vendors.
//! - `armor` reaches the `base64` crate, `bitset` the `bit_set` and
//!   `bit_vec` crates. What they state of those crates is believed, not
//!   proved.
//! - `vendor_list` keeps the vendors, purposes and features of the global
//!   vendor list by their IDs.

pub mod armor;
pub mod bits;
pub mod bitset;
pub mod error;
pub mod laws;
pub mod ranges;
pub mod vendor_consent;
pub mod vendor_list;
pub mod wire;
