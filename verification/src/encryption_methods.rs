//! The ciphers under which stored text may be encrypted.

use vstd::prelude::*;

verus! {

/// A cipher for text at rest.
#[derive(Debug, Clone, Copy, PartialEq, Eq, Hash, Structural)]
pub enum EncryptionMethods {
    AES256,
}

impl EncryptionMethods {
    /// The number under which the cipher is stored.
    pub open spec fn spec_code(self) -> i16 {
        match self {
            EncryptionMethods::AES256 => 1,
        }
    }

    /// The cipher that is stored under `value`, if there is one.
    pub open spec fn coded(value: i16) -> Option<EncryptionMethods> {
        if value == 1 {
            Some(EncryptionMethods::AES256)
        } else {
            None
        }
    }

    /// The number under which the cipher is stored.
    #[verifier::when_used_as_spec(spec_code)]
    pub fn code(self) -> (value: i16)
        ensures
            value == self.spec_code(),
    {
        match self {
            EncryptionMethods::AES256 => 1,
        }
    }

    /// Reads a stored number.
    pub fn try_from_code(value: i16) -> (method: Option<EncryptionMethods>)
        ensures
            method == EncryptionMethods::coded(value),
    {
        if value == 1 {
            Some(EncryptionMethods::AES256)
        } else {
            None
        }
    }

    /// Reads a stored number that is known to stand for a cipher.
    pub fn from(value: i16) -> (method: EncryptionMethods)
        requires
            EncryptionMethods::coded(value) is Some,
        ensures
            Some(method) == EncryptionMethods::coded(value),
    {
        EncryptionMethods::AES256
    }

    /// Every cipher is read back from its own number.
    pub proof fn lemma_code_round_trip(self)
        ensures
            EncryptionMethods::coded(self.spec_code()) == Some(self),
    {
    }
}

} // verus!
