//! A compact, deterministic, schema-less binary serialization engine.
//!
//! Values are written through a [`writer::Writer`] and read back through a
//! [`Reader`]; both carry a [`config::Config`] that fixes the wire format
//! (endianness, optional size limit). Collection lengths and sum-type tags
//! travel as canonical variable-length integers ([`varint`]). Nothing on the
//! wire is self-describing: encoder and decoder must agree on each type's
//! shape out of band.

use vstd::prelude::*;

pub mod codec;
pub mod config;
pub mod endian;
pub mod error;
pub mod reader;
pub mod varint;
pub mod writer;

pub use codec::{Decode, Encode, Wire};
pub use error::JustcodeError;
pub use reader::Reader;
pub use writer::Writer;

use crate::codec::lemma_prefix_comparable;
use crate::config::{Config, limit_cap};

verus! {

broadcast use vstd::seq::group_seq_axioms;

/// The region of `bytes` a decode may read under `c`: the whole input, or
/// its front when the configured limit is shorter.
pub open spec fn decode_window(bytes: Seq<u8>, c: Config) -> Seq<u8> {
    bytes.take(vstd::math::min(bytes.len() as int, limit_cap(c)))
}

/// Encode `value` into a fresh growable buffer under `config`.
///
/// The buffer holds exactly the value's wire layout; the call fails, with
/// `LimitExceeded`, exactly when that layout would overrun the configured
/// limit.
pub fn encode_to_vec<T: Encode>(value: &T, config: Config) -> (r: Result<
    Vec<u8>,
    JustcodeError,
>)
    ensures
        r matches Ok(out) ==> out@ == value.wire(config),
        r matches Ok(_) <==> value.wire(config).len() <= limit_cap(config),
        r matches Err(e) ==> e matches JustcodeError::LimitExceeded { .. },
{
    let mut w = Writer::new(config);
    match value.encode(&mut w) {
        Ok(_) => Ok(w.into_vec()),
        Err(e) => Err(e),
    }
}

/// Encode `value` into the front of a caller-supplied region, without
/// allocating a destination; returns how many bytes were written.
///
/// `dst`'s length is the region's capacity and never changes; past the
/// written prefix its old contents stay. The call fails, with
/// `LimitExceeded`, exactly when the layout outgrows the capacity or the
/// configured limit, and then leaves `dst` untouched.
pub fn encode_into_slice<T: Encode>(value: &T, dst: &mut Vec<u8>, config: Config) -> (r: Result<
    usize,
    JustcodeError,
>)
    ensures
        final(dst)@.len() == old(dst)@.len(),
        r matches Ok(n) ==> n == value.wire(config).len() && final(dst)@ == value.wire(config)
            + old(dst)@.skip(n as int),
        r matches Ok(_) <==> value.wire(config).len() <= vstd::math::min(
            old(dst)@.len() as int,
            limit_cap(config),
        ),
        r matches Err(e) ==> final(dst)@ == old(dst)@ && e matches JustcodeError::LimitExceeded {
            ..
        },
{
    let mut w = Writer::fixed(dst.len(), config);
    match value.encode(&mut w) {
        Ok(_) => {
            let out = w.into_vec();
            let n = out.len();
            let mut i: usize = 0;
            while i < n
                invariant
                    i <= n,
                    n == out@.len(),
                    n <= dst@.len(),
                    dst@.len() == old(dst)@.len(),
                    forall|k: int| 0 <= k < i ==> dst@[k] == out@[k],
                    forall|k: int| i <= k < dst@.len() ==> dst@[k] == old(dst)@[k],
                decreases n - i,
            {
                let b = out[i];
                dst.set(i, b);
                i = i + 1;
            }
            proof {
                assert(dst@ =~= out@ + old(dst)@.skip(n as int));
            }
            Ok(n)
        },
        Err(e) => Err(e),
    }
}

/// Decode one `T` from the front of `bytes`; returns the value and the
/// exact count of bytes consumed.
///
/// Whenever some value's layout starts the readable window, the call
/// succeeds and returns exactly that value's layout — byte for byte — and
/// its length as the count; callers parsing a whole buffer strictly should
/// check the count against the input length. A window that is a strict
/// prefix of some layout is never accepted as a value.
pub fn decode_from_slice<T: Decode>(bytes: &[u8], config: Config) -> (r: Result<
    (T, usize),
    JustcodeError,
>)
    ensures
        r matches Ok(p) ==> p.1 == p.0.wire(config).len() && p.0.wire(config).is_prefix_of(
            decode_window(bytes@, config),
        ),
        forall|val: T|
            (#[trigger] val.wire(config)).is_prefix_of(decode_window(bytes@, config)) ==> r
                is Ok && r->Ok_0.0.wire(config) == val.wire(config) && r->Ok_0.1 == val.wire(
                config).len(),
        forall|val: T, k: int|
            0 <= k < val.wire(config).len() && decode_window(bytes@, config) == (
            #[trigger] val.wire(config).take(k)) ==> r is Err,
{
    let mut reader = Reader::new(bytes, config);
    proof {
        assert(reader.readable() =~= decode_window(bytes@, config));
    }
    let value = match T::decode(&mut reader) {
        Ok(v) => v,
        Err(e) => {
            return Err(e);
        },
    };
    let ghost win = decode_window(bytes@, config);
    let ghost vw = value.wire(config);
    proof {
        assert forall|val: T|
            (#[trigger] val.wire(config)).is_prefix_of(win) implies vw == val.wire(config) by {
            if val.wire(config).len() <= vw.len() {
                lemma_prefix_comparable(val.wire(config), vw, win);
                val.wire_no_strict_prefix(&value, config);
            } else {
                lemma_prefix_comparable(vw, val.wire(config), win);
                value.wire_no_strict_prefix(&val, config);
            }
        }
        assert forall|val: T, k: int|
            0 <= k < val.wire(config).len() && win == (#[trigger] val.wire(config).take(
                k,
            )) implies false by {
            assert(vw.is_prefix_of(val.wire(config))) by {
                assert(win.is_prefix_of(val.wire(config))) by {
                    assert(win =~= val.wire(config).subrange(0, k));
                }
                crate::codec::lemma_prefix_trans(vw, win, val.wire(config));
            }
            value.wire_no_strict_prefix(&val, config);
            assert(vw.len() == val.wire(config).len());
            assert(vw.len() <= win.len());
        }
    }
    let consumed = bytes.len() - reader.remaining();
    proof {
        assert(consumed == vw.len());
    }
    Ok((value, consumed))
}

} // verus!
