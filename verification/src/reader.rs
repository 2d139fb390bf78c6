//! Cursor over a borrowed input byte region.

use vstd::prelude::*;
use crate::config::{Config, limit_cap};
use crate::endian::{u16_bytes, u32_bytes, u64_bytes, lemma_u16_bytes, lemma_u32_bytes,
    lemma_u64_bytes, reverse_bytes};
use crate::error::JustcodeError;

verus! {

broadcast use vstd::seq::group_seq_axioms;

/// A byte source: borrows an input region and tracks a read cursor.
///
/// `data()` is the whole input, `pos_spec()` the cursor, and `cap_spec()` the
/// effective end of the readable region: the input length, or less when the
/// configuration's limit binds first. Every read either returns exactly the
/// requested bytes or fails without consuming anything — no partial reads.
pub struct Reader<'a> {
    bytes: &'a [u8],
    pos: usize,
    cap: usize,
    config: Config,
}

impl<'a> Reader<'a> {
    /// The whole input region.
    pub closed spec fn data(&self) -> Seq<u8> {
        self.bytes@
    }

    /// The cursor: how many bytes have been consumed.
    pub closed spec fn pos_spec(&self) -> int {
        self.pos as int
    }

    /// End of the readable region: input length capped by the limit.
    pub closed spec fn cap_spec(&self) -> int {
        self.cap as int
    }

    /// The configuration this cursor was created with.
    pub closed spec fn config_spec(&self) -> Config {
        self.config
    }

    /// The bytes still readable: from the cursor to the effective end.
    pub open spec fn readable(&self) -> Seq<u8> {
        self.data().subrange(self.pos_spec(), self.cap_spec())
    }

    /// The cursor stays inside the readable region, which stays inside the
    /// input.
    pub open spec fn wf(&self) -> bool {
        self.pos_spec() <= self.cap_spec() && self.cap_spec() <= self.data().len()
    }

    /// What `readable()` holds: one byte of the input per readable place.
    pub proof fn lemma_readable(self)
        requires
            self.wf(),
        ensures
            self.readable().len() == self.cap_spec() - self.pos_spec(),
            forall|i: int| 0 <= i < self.readable().len() ==> self.readable()[i] == self.data()[
                self.pos_spec() + i],
            0 <= self.pos_spec(),
            self.cap_spec() <= usize::MAX as int,
    {
    }

    /// A cursor further along the same region reads a suffix of what the
    /// earlier cursor could read.
    pub proof fn lemma_readable_suffix(self, later: Self)
        requires
            self.wf(),
            later.wf(),
            later.data() == self.data(),
            later.cap_spec() == self.cap_spec(),
            self.pos_spec() <= later.pos_spec(),
        ensures
            later.readable() == self.readable().skip(later.pos_spec() - self.pos_spec()),
    {
        self.lemma_readable();
        later.lemma_readable();
        assert(later.readable() =~= self.readable().skip(
            later.pos_spec() - self.pos_spec()));
    }

    /// Start a cursor at the beginning of `bytes`.
    pub fn new(bytes: &'a [u8], config: Config) -> (r: Self)
        ensures
            r.wf(),
            r.data() == bytes@,
            r.pos_spec() == 0,
            r.cap_spec() == vstd::math::min(bytes@.len() as int, limit_cap(config)),
            r.config_spec() == config,
    {
        let n = bytes.len();
        let lim = match config.limit {
            Some(l) => l,
            None => usize::MAX,
        };
        let cap = if n < lim { n } else { lim };
        Reader { bytes, pos: 0, cap, config }
    }

    /// The configuration, for codecs that select behavior from it.
    pub fn config(&self) -> (r: Config)
        ensures
            r == self.config_spec(),
    {
        self.config
    }

    /// Bytes left unread in the input.
    pub fn remaining(&self) -> (r: usize)
        requires
            self.wf(),
        ensures
            r == self.data().len() - self.pos_spec(),
    {
        self.bytes.len() - self.pos
    }

    /// The effective end of the readable region, as a machine value.
    pub(crate) fn cap_exec(&self) -> (r: usize)
        ensures
            r == self.cap_spec(),
    {
        self.cap
    }

    /// The byte `off` places past the cursor, when it is still readable.
    pub(crate) fn peek(&self, off: usize) -> (r: Option<u8>)
        requires
            self.wf(),
        ensures
            self.pos_spec() + off < self.cap_spec() ==> r == Some(
                self.data()[self.pos_spec() + off]),
            self.pos_spec() + off >= self.cap_spec() ==> r is None,
    {
        if off < self.cap - self.pos {
            Some(*vstd::slice::slice_index_get(self.bytes, self.pos + off))
        } else {
            None
        }
    }

    /// Move the cursor forward by `n` already-examined bytes.
    pub(crate) fn advance(&mut self, n: usize)
        requires
            old(self).wf(),
            old(self).pos_spec() + n <= old(self).cap_spec(),
        ensures
            final(self).wf(),
            final(self).data() == old(self).data(),
            final(self).cap_spec() == old(self).cap_spec(),
            final(self).config_spec() == old(self).config_spec(),
            final(self).pos_spec() == old(self).pos_spec() + n,
    {
        self.pos = self.pos + n;
    }

    /// Borrow the next `n` bytes without copying and step over them.
    ///
    /// Succeeds exactly when `n` bytes remain inside the readable region;
    /// fails with `UnexpectedEnd` when the input itself runs out first and
    /// with `LimitExceeded` when only the configured limit does. On failure
    /// the cursor does not move.
    pub fn read_bytes(&mut self, n: usize) -> (r: Result<&'a [u8], JustcodeError>)
        requires
            old(self).wf(),
        ensures
            final(self).wf(),
            final(self).data() == old(self).data(),
            final(self).cap_spec() == old(self).cap_spec(),
            final(self).config_spec() == old(self).config_spec(),
            r matches Ok(_) <==> old(self).pos_spec() + n <= old(self).cap_spec(),
            r matches Ok(s) ==> s@ == old(self).data().subrange(old(self).pos_spec(),
                old(self).pos_spec() + n) && final(self).pos_spec() == old(self).pos_spec() + n,
            r matches Err(_) ==> final(self).pos_spec() == old(self).pos_spec(),
            old(self).pos_spec() + n > old(self).data().len() ==> r == Err::<&[u8],
                _>(JustcodeError::UnexpectedEnd {
                needed: n,
                available: (old(self).data().len() - old(self).pos_spec()) as usize,
            }),
            (old(self).pos_spec() + n <= old(self).data().len() && old(self).pos_spec() + n
                > old(self).cap_spec()) ==> r == Err::<&[u8], _>(JustcodeError::LimitExceeded {
                limit: old(self).cap_spec() as usize,
                requested: n,
            }),
    {
        if n > self.bytes.len() - self.pos {
            return Err(JustcodeError::UnexpectedEnd {
                needed: n,
                available: self.bytes.len() - self.pos,
            });
        }
        if n > self.cap - self.pos {
            return Err(JustcodeError::LimitExceeded { limit: self.cap, requested: n });
        }
        let s = vstd::slice::slice_subrange(self.bytes, self.pos, self.pos + n);
        self.pos = self.pos + n;
        Ok(s)
    }

    /// Read one byte.
    pub fn read_u8(&mut self) -> (r: Result<u8, JustcodeError>)
        requires
            old(self).wf(),
        ensures
            final(self).wf(),
            final(self).data() == old(self).data(),
            final(self).cap_spec() == old(self).cap_spec(),
            final(self).config_spec() == old(self).config_spec(),
            r matches Ok(_) <==> old(self).pos_spec() + 1 <= old(self).cap_spec(),
            r matches Ok(v) ==> v == old(self).data()[old(self).pos_spec()] && final(
                self).pos_spec() == old(self).pos_spec() + 1,
            r matches Err(_) ==> final(self).pos_spec() == old(self).pos_spec(),
            old(self).pos_spec() + 1 > old(self).data().len() ==> r == Err::<u8,
                _>(JustcodeError::UnexpectedEnd {
                needed: 1usize,
                available: (old(self).data().len() - old(self).pos_spec()) as usize,
            }),
            (old(self).pos_spec() + 1 <= old(self).data().len() && old(self).pos_spec() + 1
                > old(self).cap_spec()) ==> r == Err::<u8, _>(JustcodeError::LimitExceeded {
                limit: old(self).cap_spec() as usize,
                requested: 1usize,
            }),
    {
        match self.read_bytes(1) {
            Ok(s) => Ok(*vstd::slice::slice_index_get(s, 0)),
            Err(e) => Err(e),
        }
    }

    /// Read the two-byte layout of a value, honoring the configured byte
    /// order.
    pub fn read_u16(&mut self) -> (r: Result<u16, JustcodeError>)
        requires
            old(self).wf(),
        ensures
            final(self).wf(),
            final(self).data() == old(self).data(),
            final(self).cap_spec() == old(self).cap_spec(),
            final(self).config_spec() == old(self).config_spec(),
            r matches Ok(_) <==> old(self).pos_spec() + 2 <= old(self).cap_spec(),
            r matches Ok(v) ==> old(self).data().subrange(old(self).pos_spec(),
                old(self).pos_spec() + 2) == u16_bytes(v, old(self).config_spec().endianness)
                && final(self).pos_spec() == old(self).pos_spec() + 2,
            r matches Err(_) ==> final(self).pos_spec() == old(self).pos_spec(),
            old(self).pos_spec() + 2 > old(self).data().len() ==> r == Err::<u16,
                _>(JustcodeError::UnexpectedEnd {
                needed: 2usize,
                available: (old(self).data().len() - old(self).pos_spec()) as usize,
            }),
            (old(self).pos_spec() + 2 <= old(self).data().len() && old(self).pos_spec() + 2
                > old(self).cap_spec()) ==> r == Err::<u16, _>(JustcodeError::LimitExceeded {
                limit: old(self).cap_spec() as usize,
                requested: 2usize,
            }),
    {
        let s = match self.read_bytes(2) {
            Ok(s) => s,
            Err(e) => { return Err(e) },
        };
        let v = match self.config.endianness {
            crate::config::Endianness::Little => vstd::bytes::u16_from_le_bytes(s),
            crate::config::Endianness::Big => {
                let rv = reverse_bytes(vstd::slice::slice_to_vec(s));
                vstd::bytes::u16_from_le_bytes(rv.as_slice())
            },
        };
        proof {
            vstd::bytes::lemma_auto_spec_u16_to_from_le_bytes();
            lemma_u16_bytes(v, v, self.config.endianness);
            if self.config.endianness is Big {
                crate::endian::lemma_reverse_reverse(s@);
            }
            assert(old(self).data().subrange(old(self).pos_spec(), old(self).pos_spec() + 2)
                == u16_bytes(v, old(self).config_spec().endianness));
        }
        Ok(v)
    }

    /// Read the four-byte layout of a value, honoring the configured byte
    /// order.
    pub fn read_u32(&mut self) -> (r: Result<u32, JustcodeError>)
        requires
            old(self).wf(),
        ensures
            final(self).wf(),
            final(self).data() == old(self).data(),
            final(self).cap_spec() == old(self).cap_spec(),
            final(self).config_spec() == old(self).config_spec(),
            r matches Ok(_) <==> old(self).pos_spec() + 4 <= old(self).cap_spec(),
            r matches Ok(v) ==> old(self).data().subrange(old(self).pos_spec(),
                old(self).pos_spec() + 4) == u32_bytes(v, old(self).config_spec().endianness)
                && final(self).pos_spec() == old(self).pos_spec() + 4,
            r matches Err(_) ==> final(self).pos_spec() == old(self).pos_spec(),
            old(self).pos_spec() + 4 > old(self).data().len() ==> r == Err::<u32,
                _>(JustcodeError::UnexpectedEnd {
                needed: 4usize,
                available: (old(self).data().len() - old(self).pos_spec()) as usize,
            }),
            (old(self).pos_spec() + 4 <= old(self).data().len() && old(self).pos_spec() + 4
                > old(self).cap_spec()) ==> r == Err::<u32, _>(JustcodeError::LimitExceeded {
                limit: old(self).cap_spec() as usize,
                requested: 4usize,
            }),
    {
        let s = match self.read_bytes(4) {
            Ok(s) => s,
            Err(e) => { return Err(e) },
        };
        let v = match self.config.endianness {
            crate::config::Endianness::Little => vstd::bytes::u32_from_le_bytes(s),
            crate::config::Endianness::Big => {
                let rv = reverse_bytes(vstd::slice::slice_to_vec(s));
                vstd::bytes::u32_from_le_bytes(rv.as_slice())
            },
        };
        proof {
            vstd::bytes::lemma_auto_spec_u32_to_from_le_bytes();
            lemma_u32_bytes(v, v, self.config.endianness);
            if self.config.endianness is Big {
                crate::endian::lemma_reverse_reverse(s@);
            }
            assert(old(self).data().subrange(old(self).pos_spec(), old(self).pos_spec() + 4)
                == u32_bytes(v, old(self).config_spec().endianness));
        }
        Ok(v)
    }

    /// Read the eight-byte layout of a value, honoring the configured byte
    /// order.
    pub fn read_u64(&mut self) -> (r: Result<u64, JustcodeError>)
        requires
            old(self).wf(),
        ensures
            final(self).wf(),
            final(self).data() == old(self).data(),
            final(self).cap_spec() == old(self).cap_spec(),
            final(self).config_spec() == old(self).config_spec(),
            r matches Ok(_) <==> old(self).pos_spec() + 8 <= old(self).cap_spec(),
            r matches Ok(v) ==> old(self).data().subrange(old(self).pos_spec(),
                old(self).pos_spec() + 8) == u64_bytes(v, old(self).config_spec().endianness)
                && final(self).pos_spec() == old(self).pos_spec() + 8,
            r matches Err(_) ==> final(self).pos_spec() == old(self).pos_spec(),
            old(self).pos_spec() + 8 > old(self).data().len() ==> r == Err::<u64,
                _>(JustcodeError::UnexpectedEnd {
                needed: 8usize,
                available: (old(self).data().len() - old(self).pos_spec()) as usize,
            }),
            (old(self).pos_spec() + 8 <= old(self).data().len() && old(self).pos_spec() + 8
                > old(self).cap_spec()) ==> r == Err::<u64, _>(JustcodeError::LimitExceeded {
                limit: old(self).cap_spec() as usize,
                requested: 8usize,
            }),
    {
        let s = match self.read_bytes(8) {
            Ok(s) => s,
            Err(e) => { return Err(e) },
        };
        let v = match self.config.endianness {
            crate::config::Endianness::Little => vstd::bytes::u64_from_le_bytes(s),
            crate::config::Endianness::Big => {
                let rv = reverse_bytes(vstd::slice::slice_to_vec(s));
                vstd::bytes::u64_from_le_bytes(rv.as_slice())
            },
        };
        proof {
            vstd::bytes::lemma_auto_spec_u64_to_from_le_bytes();
            lemma_u64_bytes(v, v, self.config.endianness);
            if self.config.endianness is Big {
                crate::endian::lemma_reverse_reverse(s@);
            }
            assert(old(self).data().subrange(old(self).pos_spec(), old(self).pos_spec() + 8)
                == u64_bytes(v, old(self).config_spec().endianness));
        }
        Ok(v)
    }
}

} // verus!
