//! The closed set of failure kinds the engine reports.

use vstd::prelude::*;

verus! {

/// Every way an encode or decode can fail.
///
/// Malformed, truncated or adversarial input is always reported as one of
/// these values; the engine never panics on input.
#[derive(Debug, Clone, PartialEq, Eq)]
pub enum JustcodeError {
    /// A read wanted `needed` bytes but only `available` remained.
    UnexpectedEnd { needed: usize, available: usize },
    /// A write or read would have crossed the configured size limit or the
    /// fixed region's capacity (`limit`); `requested` is the size of the
    /// step that was refused.
    LimitExceeded { limit: usize, requested: usize },
    /// A sum-type tag at or above the declared variant count.
    InvalidVariantIndex { tag: usize, declared_count: usize },
    /// A boolean byte other than `0` or `1`.
    InvalidBool { byte: u8 },
    /// String payload bytes that are not well-formed UTF-8.
    InvalidText,
    /// A variable-length integer that is non-minimal or too wide.
    InvalidVarint,
    /// A failure raised by a hand-written or generated codec.
    Custom { message: String },
}

impl JustcodeError {
    /// A collaborator-raised failure carrying `message`.
    pub fn custom(message: String) -> (r: Self)
        ensures
            r matches JustcodeError::Custom { message: m } && m@ == message@,
    {
        JustcodeError::Custom { message }
    }
}

} // verus!
