//! A cryptanalysis toolkit for shift-based polyalphabetic ciphers over the
//! 27-symbol alphabet `a`..`z` plus space.
//!
//! The crate models symbols as integers in `[0, 27)`, provides the
//! encryption side (an [`ciphers::Encryptor`] driven by pluggable key
//! schedules), and a recovery pipeline: keylength estimation by chunkwise
//! Hamming similarity, per-column frequency cracking, and dictionary-guided
//! re-segmentation. All frequency and score arithmetic is fixed point, so
//! every contract speaks in exact integers.

pub mod utils;
pub mod rng;
pub mod dict;
pub mod freq;
pub mod crack;
pub mod spellcheck;
pub mod keylength;
pub mod schedulers;
pub mod ciphers;
pub mod gen;
pub mod driver;
