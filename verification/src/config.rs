//! Immutable wire-format options threaded through every component.

use vstd::prelude::*;

verus! {

/// Width strategy for integers, recorded for codecs that consult it.
///
/// The engine's own primitive codecs always use fixed-width layouts, and
/// lengths and sum-type tags always use the canonical varint; generated or
/// hand-written codecs may read this option through `config()` to pick a
/// different integer layout of their own.
#[derive(Debug, Clone, Copy, PartialEq, Eq)]
pub enum IntEncoding {
    /// Fixed-width integers on the wire.
    Fixed,
    /// Codecs that opt in may use variable-width integers.
    Variable,
}

/// Byte order for multi-byte fixed-width values.
#[derive(Debug, Clone, Copy, PartialEq, Eq)]
pub enum Endianness {
    /// Least-significant byte first.
    Little,
    /// Most-significant byte first.
    Big,
}

/// An immutable, copyable set of wire-format options.
///
/// Builder-style operations return a new `Config`; no operation mutates one
/// in place, so a `Config` may be shared freely.
#[derive(Debug, Clone, Copy, PartialEq, Eq)]
pub struct Config {
    /// Integer width strategy.
    pub int_encoding: IntEncoding,
    /// Byte order of fixed-width values.
    pub endianness: Endianness,
    /// Upper bound, in bytes, on any single encode or decode; `None` is
    /// unlimited.
    pub limit: Option<usize>,
}

/// The effective byte budget `c.limit` grants: the limit itself, or the
/// largest machine size when none is set.
pub open spec fn limit_cap(c: Config) -> int {
    match c.limit {
        Some(l) => l as int,
        None => usize::MAX as int,
    }
}

/// The default configuration: fixed-width integers, little-endian, no limit.
pub fn standard() -> (r: Config)
    ensures
        r.int_encoding is Fixed,
        r.endianness is Little,
        r.limit is None,
{
    Config { int_encoding: IntEncoding::Fixed, endianness: Endianness::Little, limit: None }
}

impl Config {
    /// A copy of `self` whose size limit is `n` bytes.
    pub fn with_limit(self, n: usize) -> (r: Config)
        ensures
            r.int_encoding == self.int_encoding,
            r.endianness == self.endianness,
            r.limit == Some(n),
    {
        Config { limit: Some(n), ..self }
    }

    /// A copy of `self` that writes most-significant byte first.
    pub fn with_big_endian(self) -> (r: Config)
        ensures
            r.int_encoding == self.int_encoding,
            r.endianness is Big,
            r.limit == self.limit,
    {
        Config { endianness: Endianness::Big, ..self }
    }

    /// A copy of `self` that records the variable integer width strategy.
    pub fn with_variable_int_encoding(self) -> (r: Config)
        ensures
            r.int_encoding is Variable,
            r.endianness == self.endianness,
            r.limit == self.limit,
    {
        Config { int_encoding: IntEncoding::Variable, ..self }
    }
}

} // verus!
