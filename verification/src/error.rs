//! The failures that the digest reports.

use vstd::prelude::*;

verus! {

/// Why an operation on a digest was refused. A refused operation leaves the
/// digest as it was.
#[derive(Clone, Copy, Debug, PartialEq, Eq, Structural)]
pub enum DigestError {
    /// The value is not a finite number, or the insertion or merge would
    /// count more samples than [`crate::centroid::MAX_TOTAL_WEIGHT`].
    InvalidValue,
    /// The quantile asked for is not a fraction between 0 and 1.
    InvalidQuantile,
    /// A quantile was asked of a digest that holds no sample.
    EmptyDigest,
    /// The bytes are not the snapshot of any digest.
    DecodeError,
}

impl DigestError {
    /// A short text for the failure, for messages and logs.
    pub fn message(&self) -> (text: &'static str)
        ensures
            text@ == self.message_text(),
    {
        match self {
            DigestError::InvalidValue => "invalid value: not a finite number, or more samples than a digest counts",
            DigestError::InvalidQuantile => "invalid quantile: expected a fraction between 0 and 1",
            DigestError::EmptyDigest => "empty digest: no sample has been observed",
            DigestError::DecodeError => "decode error: the bytes are not a digest snapshot",
        }
    }

    /// The text that [`DigestError::message`] returns.
    pub open spec fn message_text(&self) -> Seq<char> {
        match self {
            DigestError::InvalidValue => "invalid value: not a finite number, or more samples than a digest counts"@,
            DigestError::InvalidQuantile => "invalid quantile: expected a fraction between 0 and 1"@,
            DigestError::EmptyDigest => "empty digest: no sample has been observed"@,
            DigestError::DecodeError => "decode error: the bytes are not a digest snapshot"@,
        }
    }
}

} // verus!
