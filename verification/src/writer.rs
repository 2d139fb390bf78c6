//! Append-only byte sink with growable or fixed-capacity backing.

use vstd::prelude::*;
use crate::config::{Config, limit_cap};
use crate::endian::{reverse_bytes, u16_bytes, u32_bytes, u64_bytes, lemma_u16_bytes,
    lemma_u32_bytes, lemma_u64_bytes};
use crate::error::JustcodeError;

verus! {

broadcast use vstd::seq::group_seq_axioms;

/// An append-only byte sink.
///
/// The view `w@` is the byte sequence written so far. `cap_spec()` is the
/// effective capacity: the configured limit, the fixed region's size, or the
/// largest machine size when neither binds. A write either appends exactly
/// its bytes or fails with `LimitExceeded` and leaves the sink unchanged;
/// it never silently truncates.
pub struct Writer {
    buf: Vec<u8>,
    cap: usize,
    config: Config,
}

impl View for Writer {
    type V = Seq<u8>;

    closed spec fn view(&self) -> Seq<u8> {
        self.buf@
    }
}

impl Writer {
    /// The effective capacity in bytes.
    pub closed spec fn cap_spec(&self) -> int {
        self.cap as int
    }

    /// The configuration this sink was created with.
    pub closed spec fn config_spec(&self) -> Config {
        self.config
    }

    /// The bytes written never exceed the capacity.
    pub open spec fn wf(&self) -> bool {
        self@.len() <= self.cap_spec()
    }

    /// A growable sink bounded only by `config`'s limit.
    pub fn new(config: Config) -> (r: Writer)
        ensures
            r.wf(),
            r@ == Seq::<u8>::empty(),
            r.cap_spec() == limit_cap(config),
            r.config_spec() == config,
    {
        let cap = match config.limit {
            Some(l) => l,
            None => usize::MAX,
        };
        let r = Writer { buf: Vec::new(), cap, config };
        assert(r@ =~= Seq::<u8>::empty());
        r
    }

    /// A sink over a fixed-capacity region of `capacity` bytes.
    pub fn fixed(capacity: usize, config: Config) -> (r: Writer)
        ensures
            r.wf(),
            r@ == Seq::<u8>::empty(),
            r.cap_spec() == vstd::math::min(capacity as int, limit_cap(config)),
            r.config_spec() == config,
    {
        let lim = match config.limit {
            Some(l) => l,
            None => usize::MAX,
        };
        let cap = if capacity < lim { capacity } else { lim };
        let r = Writer { buf: Vec::new(), cap, config };
        assert(r@ =~= Seq::<u8>::empty());
        r
    }

    /// The configuration, for codecs that select behavior from it.
    pub fn config(&self) -> (r: Config)
        ensures
            r == self.config_spec(),
    {
        self.config
    }

    /// How many bytes have been written.
    pub fn len(&self) -> (r: usize)
        ensures
            r == self@.len(),
    {
        self.buf.len()
    }

    /// Hand the written bytes out, consuming the sink.
    pub fn into_vec(self) -> (r: Vec<u8>)
        ensures
            r@ == self@,
    {
        self.buf
    }

    /// Append `data` verbatim.
    ///
    /// Succeeds exactly when the result still fits the capacity; on failure
    /// nothing is retained.
    pub fn write_bytes(&mut self, data: &[u8]) -> (r: Result<(), JustcodeError>)
        requires
            old(self).wf(),
        ensures
            final(self).wf(),
            final(self).cap_spec() == old(self).cap_spec(),
            final(self).config_spec() == old(self).config_spec(),
            r matches Ok(_) <==> old(self)@.len() + data@.len() <= old(self).cap_spec(),
            r matches Ok(_) ==> final(self)@ == old(self)@ + data@,
            r matches Err(e) ==> final(self)@ == old(self)@ && e == (JustcodeError::LimitExceeded {
                limit: old(self).cap_spec() as usize,
                requested: data@.len() as usize,
            }),
    {
        let n = data.len();
        if n > self.cap - self.buf.len() {
            return Err(JustcodeError::LimitExceeded { limit: self.cap, requested: n });
        }
        let mut i: usize = 0;
        while i < n
            invariant
                i <= n,
                n == data@.len(),
                self.buf@.len() == old(self)@.len() + i,
                self.buf@ == old(self)@ + data@.take(i as int),
                self.cap == old(self).cap_spec(),
                self.config == old(self).config_spec(),
                old(self)@.len() + n <= self.cap,
            decreases n - i,
        {
            self.buf.push(*vstd::slice::slice_index_get(data, i));
            assert(self.buf@ =~= old(self)@ + data@.take(i + 1));
            i = i + 1;
        }
        assert(self.buf@ =~= old(self)@ + data@);
        Ok(())
    }

    /// Append one byte.
    pub fn write_u8(&mut self, v: u8) -> (r: Result<(), JustcodeError>)
        requires
            old(self).wf(),
        ensures
            final(self).wf(),
            final(self).cap_spec() == old(self).cap_spec(),
            final(self).config_spec() == old(self).config_spec(),
            r matches Ok(_) <==> old(self)@.len() + 1 <= old(self).cap_spec(),
            r matches Ok(_) ==> final(self)@ == old(self)@ + seq![v],
            r matches Err(e) ==> final(self)@ == old(self)@ && e == (JustcodeError::LimitExceeded {
                limit: old(self).cap_spec() as usize,
                requested: 1usize,
            }),
    {
        if self.cap - self.buf.len() < 1 {
            return Err(JustcodeError::LimitExceeded { limit: self.cap, requested: 1 });
        }
        self.buf.push(v);
        assert(self.buf@ =~= old(self)@ + seq![v]);
        Ok(())
    }

    /// Append the two-byte layout of `v`, honoring the configured byte order.
    pub fn write_u16(&mut self, v: u16) -> (r: Result<(), JustcodeError>)
        requires
            old(self).wf(),
        ensures
            final(self).wf(),
            final(self).cap_spec() == old(self).cap_spec(),
            final(self).config_spec() == old(self).config_spec(),
            r matches Ok(_) <==> old(self)@.len() + 2 <= old(self).cap_spec(),
            r matches Ok(_) ==> final(self)@ == old(self)@ + u16_bytes(v,
                old(self).config_spec().endianness),
            r matches Err(e) ==> final(self)@ == old(self)@ && e == (JustcodeError::LimitExceeded {
                limit: old(self).cap_spec() as usize,
                requested: 2usize,
            }),
    {
        proof {
            lemma_u16_bytes(v, v, self.config.endianness);
        }
        let le = vstd::bytes::u16_to_le_bytes(v);
        let out = match self.config.endianness {
            crate::config::Endianness::Little => le,
            crate::config::Endianness::Big => reverse_bytes(le),
        };
        self.write_bytes(out.as_slice())
    }

    /// Append the four-byte layout of `v`, honoring the configured byte order.
    pub fn write_u32(&mut self, v: u32) -> (r: Result<(), JustcodeError>)
        requires
            old(self).wf(),
        ensures
            final(self).wf(),
            final(self).cap_spec() == old(self).cap_spec(),
            final(self).config_spec() == old(self).config_spec(),
            r matches Ok(_) <==> old(self)@.len() + 4 <= old(self).cap_spec(),
            r matches Ok(_) ==> final(self)@ == old(self)@ + u32_bytes(v,
                old(self).config_spec().endianness),
            r matches Err(e) ==> final(self)@ == old(self)@ && e == (JustcodeError::LimitExceeded {
                limit: old(self).cap_spec() as usize,
                requested: 4usize,
            }),
    {
        proof {
            lemma_u32_bytes(v, v, self.config.endianness);
        }
        let le = vstd::bytes::u32_to_le_bytes(v);
        let out = match self.config.endianness {
            crate::config::Endianness::Little => le,
            crate::config::Endianness::Big => reverse_bytes(le),
        };
        self.write_bytes(out.as_slice())
    }

    /// Append the eight-byte layout of `v`, honoring the configured byte order.
    pub fn write_u64(&mut self, v: u64) -> (r: Result<(), JustcodeError>)
        requires
            old(self).wf(),
        ensures
            final(self).wf(),
            final(self).cap_spec() == old(self).cap_spec(),
            final(self).config_spec() == old(self).config_spec(),
            r matches Ok(_) <==> old(self)@.len() + 8 <= old(self).cap_spec(),
            r matches Ok(_) ==> final(self)@ == old(self)@ + u64_bytes(v,
                old(self).config_spec().endianness),
            r matches Err(e) ==> final(self)@ == old(self)@ && e == (JustcodeError::LimitExceeded {
                limit: old(self).cap_spec() as usize,
                requested: 8usize,
            }),
    {
        proof {
            lemma_u64_bytes(v, v, self.config.endianness);
        }
        let le = vstd::bytes::u64_to_le_bytes(v);
        let out = match self.config.endianness {
            crate::config::Endianness::Little => le,
            crate::config::Endianness::Big => reverse_bytes(le),
        };
        self.write_bytes(out.as_slice())
    }
}

} // verus!
