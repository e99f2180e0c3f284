//! The ways in which an operation of this library can fail.

use vstd::prelude::*;

verus! {

/// Why an operation on phonemes or feature vectors was refused.
#[derive(Clone, Copy, Debug, PartialEq, Eq, Hash, Structural)]
pub enum FeatureError {
    /// A symbol handed to the encoder is not in the inventory.
    UnknownPhoneme,
    /// Pooling was asked for over no phonemes at all.
    EmptyInput,
}

impl FeatureError {
    /// A short description of the error.
    pub fn message(&self) -> (r: &'static str)
        ensures
            *self == FeatureError::UnknownPhoneme ==> r@ == "phoneme is not in the inventory"@,
            *self == FeatureError::EmptyInput ==> r@ == "no phonemes to pool"@,
    {
        match self {
            FeatureError::UnknownPhoneme => "phoneme is not in the inventory",
            FeatureError::EmptyInput => "no phonemes to pool",
        }
    }
}

} // verus!
