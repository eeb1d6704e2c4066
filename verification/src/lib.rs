//! A dictionary-driven text transducer: a byte-keyed key/value store with
//! greedy longest-prefix substitution over encoded text.

pub mod dict;
pub mod laws;
pub mod model;
pub mod store;
