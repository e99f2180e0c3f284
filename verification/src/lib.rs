//! Articulatory features for IPA text: segmentation of a word into the
//! phonemes of a fixed inventory, encoding of phonemes as ternary feature
//! vectors, binarisation and sum pooling of those vectors, and an edit
//! distance between words whose costs are counted in features.

pub mod distance;
pub mod error;
pub mod features;
pub mod inventory;
pub mod segment;
pub mod table;
