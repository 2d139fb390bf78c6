//! The Encode / Decode capability pair and its primitive implementations.
//!
//! Every serializable type carries a spec-level wire layout ([`Wire::wire`]);
//! encoding appends exactly that layout, and decoding consumes exactly the
//! layout of the value it returns. Two laws tie the pair together for every
//! implementing type: a layout is never empty, and no layout is a strict
//! prefix of another layout of the same type — which is what makes the
//! format self-delimiting and the round trip exact.

use vstd::prelude::*;
use crate::config::Config;
use crate::endian::{u16_bytes, u32_bytes, u64_bytes, lemma_u16_bytes, lemma_u32_bytes,
    lemma_u64_bytes};
use crate::error::JustcodeError;
use crate::varint::{decode_length, encode_length, varint_bytes, lemma_varint_bytes_min,
    lemma_varint_parse_encoding, lemma_varint_parse_sound, lemma_parse_value_bounds};
use crate::reader::Reader;
use crate::writer::Writer;

verus! {

broadcast use {vstd::seq::group_seq_axioms, vstd::seq_lib::group_seq_lib_default};

/// The byte layout a value takes on the wire under a configuration.
pub trait Wire {
    /// The exact bytes this value encodes to under `c`.
    spec fn wire(&self, c: Config) -> Seq<u8>;

    /// A layout is never empty.
    proof fn wire_min_len(&self, c: Config)
        ensures
            self.wire(c).len() >= 1,
    ;

    /// No layout of this type is a strict prefix of another: the format is
    /// self-delimiting.
    proof fn wire_no_strict_prefix(&self, other: &Self, c: Config)
        requires
            self.wire(c).is_prefix_of(other.wire(c)),
        ensures
            self.wire(c) == other.wire(c),
    ;
}

/// A type the engine can write.
pub trait Encode: Wire {
    /// Append this value's layout to `writer`.
    ///
    /// Succeeds exactly when the layout still fits the sink's capacity; on
    /// failure the sink holds the old bytes plus at most a prefix of the
    /// layout, and the caller must discard it.
    fn encode(&self, writer: &mut Writer) -> (r: Result<(), JustcodeError>)
        requires
            old(writer).wf(),
        ensures
            final(writer).wf(),
            final(writer).cap_spec() == old(writer).cap_spec(),
            final(writer).config_spec() == old(writer).config_spec(),
            old(writer)@.is_prefix_of(final(writer)@),
            r matches Ok(_) <==> old(writer)@.len() + self.wire(old(writer).config_spec()).len()
                <= old(writer).cap_spec(),
            r matches Ok(_) ==> final(writer)@ == old(writer)@ + self.wire(
                old(writer).config_spec()),
            r matches Err(e) ==> e matches JustcodeError::LimitExceeded { .. },
    ;
}

/// A type the engine can read back.
pub trait Decode: Wire + Sized {
    /// Read one value from the cursor.
    ///
    /// On success the cursor steps over exactly the returned value's layout;
    /// success is owed whenever some value's layout starts the readable
    /// region.
    fn decode(reader: &mut Reader) -> (r: Result<Self, JustcodeError>)
        requires
            old(reader).wf(),
        ensures
            final(reader).wf(),
            final(reader).data() == old(reader).data(),
            final(reader).cap_spec() == old(reader).cap_spec(),
            final(reader).config_spec() == old(reader).config_spec(),
            old(reader).pos_spec() <= final(reader).pos_spec(),
            r matches Ok(v) ==> final(reader).pos_spec() == old(reader).pos_spec() + v.wire(
                old(reader).config_spec()).len() && v.wire(
                old(reader).config_spec()).is_prefix_of(old(reader).readable()),
            (exists|val: Self|
                (#[trigger] val.wire(old(reader).config_spec())).is_prefix_of(
                    old(reader).readable())) ==> r matches Ok(_),
    ;
}

/// The one-byte layout of a boolean: `1` for true, `0` for false.
pub open spec fn bool_wire(b: bool) -> Seq<u8> {
    seq![if b { 1u8 } else { 0u8 }]
}

impl Wire for bool {
    open spec fn wire(&self, c: Config) -> Seq<u8> {
        bool_wire(*self)
    }

    proof fn wire_min_len(&self, c: Config) {
    }

    proof fn wire_no_strict_prefix(&self, other: &Self, c: Config) {
        assert(self.wire(c) =~= other.wire(c));
    }
}

impl Encode for bool {
    fn encode(&self, writer: &mut Writer) -> (r: Result<(), JustcodeError>) {
        writer.write_u8(if *self { 1 } else { 0 })
    }
}

impl Decode for bool {
    fn decode(reader: &mut Reader) -> (r: Result<Self, JustcodeError>) {
        decode_bool(reader)
    }
}

/// Read one boolean byte.
///
/// Succeeds exactly when a readable byte holding `0` or `1` is next; a
/// readable byte holding anything else is `InvalidBool` with that byte, and
/// the cursor then does not move.
pub fn decode_bool(reader: &mut Reader) -> (r: Result<bool, JustcodeError>)
    requires
        old(reader).wf(),
    ensures
        final(reader).wf(),
        final(reader).data() == old(reader).data(),
        final(reader).cap_spec() == old(reader).cap_spec(),
        final(reader).config_spec() == old(reader).config_spec(),
        old(reader).pos_spec() <= final(reader).pos_spec(),
        r matches Ok(v) <==> old(reader).readable().len() >= 1 && (old(reader).readable()[0] == 0
            || old(reader).readable()[0] == 1),
        r matches Ok(v) ==> final(reader).pos_spec() == old(reader).pos_spec() + 1 && bool_wire(
            v).is_prefix_of(old(reader).readable()),
        (old(reader).readable().len() >= 1 && old(reader).readable()[0] >= 2) ==> r == Err::<
            bool,
            _,
        >(JustcodeError::InvalidBool { byte: old(reader).readable()[0] })
            && final(reader).pos_spec() == old(reader).pos_spec(),
        (exists|val: bool| (#[trigger] bool_wire(val)).is_prefix_of(old(reader).readable()))
            ==> r matches Ok(_),
{
    proof {
        old(reader).lemma_readable();
    }
    let b = match reader.peek(0) {
        Some(b) => b,
        None => {
            let e = if reader.remaining() == 0 {
                JustcodeError::UnexpectedEnd { needed: 1, available: 0 }
            } else {
                JustcodeError::LimitExceeded { limit: reader.cap_exec(), requested: 1 }
            };
            proof {
                if exists|val: bool|
                    (#[trigger] bool_wire(val)).is_prefix_of(old(reader).readable()) {
                    let val = choose|val: bool|
                        (#[trigger] bool_wire(val)).is_prefix_of(old(reader).readable());
                    assert(old(reader).readable().len() >= 1);
                }
            }
            return Err(e);
        },
    };
    if b == 0 {
        reader.advance(1);
        proof {
            assert(bool_wire(false).is_prefix_of(old(reader).readable())) by {
                assert(bool_wire(false) =~= old(reader).readable().take(1));
            }
        }
        Ok(false)
    } else if b == 1 {
        reader.advance(1);
        proof {
            assert(bool_wire(true).is_prefix_of(old(reader).readable())) by {
                assert(bool_wire(true) =~= old(reader).readable().take(1));
            }
        }
        Ok(true)
    } else {
        proof {
            if exists|val: bool|
                (#[trigger] bool_wire(val)).is_prefix_of(old(reader).readable()) {
                let val = choose|val: bool|
                    (#[trigger] bool_wire(val)).is_prefix_of(old(reader).readable());
                assert(bool_wire(val)[0] == old(reader).readable()[0]);
            }
        }
        Err(JustcodeError::InvalidBool { byte: b })
    }
}


impl Wire for u8 {
    open spec fn wire(&self, c: Config) -> Seq<u8> {
        seq![*self]
    }

    proof fn wire_min_len(&self, c: Config) {
    }

    proof fn wire_no_strict_prefix(&self, other: &Self, c: Config) {
        assert(self.wire(c) =~= other.wire(c));
    }
}

impl Encode for u8 {
    fn encode(&self, writer: &mut Writer) -> (r: Result<(), JustcodeError>) {
        writer.write_u8(*self)
    }
}

impl Decode for u8 {
    fn decode(reader: &mut Reader) -> (r: Result<Self, JustcodeError>) {
        proof {
            old(reader).lemma_readable();
            if exists|val: u8|
                (#[trigger] val.wire(old(reader).config_spec())).is_prefix_of(
                    old(reader).readable()) {
                let val = choose|val: u8|
                    (#[trigger] val.wire(old(reader).config_spec())).is_prefix_of(
                        old(reader).readable());
                assert(val.wire(old(reader).config_spec()).len() == 1);
            }
        }
        match reader.read_u8() {
            Ok(v) => {
                proof {
                    assert(v.wire(old(reader).config_spec()).is_prefix_of(
                        old(reader).readable())) by {
                        assert(v.wire(old(reader).config_spec()) =~= old(
                            reader).readable().take(1));
                    }
                }
                Ok(v)
            },
            Err(e) => Err(e),
        }
    }
}

impl Wire for u16 {
    open spec fn wire(&self, c: Config) -> Seq<u8> {
        u16_bytes(*self, c.endianness)
    }

    proof fn wire_min_len(&self, c: Config) {
        lemma_u16_bytes(*self, *self, c.endianness);
    }

    proof fn wire_no_strict_prefix(&self, other: &Self, c: Config) {
        lemma_u16_bytes(*self, *other, c.endianness);
        lemma_u16_bytes(*other, *self, c.endianness);
        assert(self.wire(c) =~= other.wire(c));
    }
}

impl Encode for u16 {
    fn encode(&self, writer: &mut Writer) -> (r: Result<(), JustcodeError>) {
        proof {
            lemma_u16_bytes(*self, *self, old(writer).config_spec().endianness);
        }
        writer.write_u16(*self)
    }
}

impl Decode for u16 {
    fn decode(reader: &mut Reader) -> (r: Result<Self, JustcodeError>) {
        proof {
            old(reader).lemma_readable();
            if exists|val: u16|
                (#[trigger] val.wire(old(reader).config_spec())).is_prefix_of(
                    old(reader).readable()) {
                let val = choose|val: u16|
                    (#[trigger] val.wire(old(reader).config_spec())).is_prefix_of(
                        old(reader).readable());
                lemma_u16_bytes(val, val, old(reader).config_spec().endianness);
            }
        }
        match reader.read_u16() {
            Ok(v) => {
                proof {
                    lemma_u16_bytes(v, v, old(reader).config_spec().endianness);
                    assert(v.wire(old(reader).config_spec()).is_prefix_of(
                        old(reader).readable())) by {
                        assert(v.wire(old(reader).config_spec()) =~= old(
                            reader).readable().take(2));
                    }
                }
                Ok(v)
            },
            Err(e) => Err(e),
        }
    }
}


impl Wire for u32 {
    open spec fn wire(&self, c: Config) -> Seq<u8> {
        u32_bytes(*self, c.endianness)
    }

    proof fn wire_min_len(&self, c: Config) {
        lemma_u32_bytes(*self, *self, c.endianness);
    }

    proof fn wire_no_strict_prefix(&self, other: &Self, c: Config) {
        lemma_u32_bytes(*self, *other, c.endianness);
        lemma_u32_bytes(*other, *self, c.endianness);
        assert(self.wire(c) =~= other.wire(c));
    }
}

impl Encode for u32 {
    fn encode(&self, writer: &mut Writer) -> (r: Result<(), JustcodeError>) {
        proof {
            lemma_u32_bytes(*self, *self, old(writer).config_spec().endianness);
        }
        writer.write_u32(*self)
    }
}

impl Decode for u32 {
    fn decode(reader: &mut Reader) -> (r: Result<Self, JustcodeError>) {
        proof {
            old(reader).lemma_readable();
            if exists|val: u32|
                (#[trigger] val.wire(old(reader).config_spec())).is_prefix_of(
                    old(reader).readable()) {
                let val = choose|val: u32|
                    (#[trigger] val.wire(old(reader).config_spec())).is_prefix_of(
                        old(reader).readable());
                lemma_u32_bytes(val, val, old(reader).config_spec().endianness);
            }
        }
        match reader.read_u32() {
            Ok(v) => {
                proof {
                    lemma_u32_bytes(v, v, old(reader).config_spec().endianness);
                    assert(v.wire(old(reader).config_spec()).is_prefix_of(
                        old(reader).readable())) by {
                        assert(v.wire(old(reader).config_spec()) =~= old(
                            reader).readable().take(4));
                    }
                }
                Ok(v)
            },
            Err(e) => Err(e),
        }
    }
}


impl Wire for u64 {
    open spec fn wire(&self, c: Config) -> Seq<u8> {
        u64_bytes(*self, c.endianness)
    }

    proof fn wire_min_len(&self, c: Config) {
        lemma_u64_bytes(*self, *self, c.endianness);
    }

    proof fn wire_no_strict_prefix(&self, other: &Self, c: Config) {
        lemma_u64_bytes(*self, *other, c.endianness);
        lemma_u64_bytes(*other, *self, c.endianness);
        assert(self.wire(c) =~= other.wire(c));
    }
}

impl Encode for u64 {
    fn encode(&self, writer: &mut Writer) -> (r: Result<(), JustcodeError>) {
        proof {
            lemma_u64_bytes(*self, *self, old(writer).config_spec().endianness);
        }
        writer.write_u64(*self)
    }
}

impl Decode for u64 {
    fn decode(reader: &mut Reader) -> (r: Result<Self, JustcodeError>) {
        proof {
            old(reader).lemma_readable();
            if exists|val: u64|
                (#[trigger] val.wire(old(reader).config_spec())).is_prefix_of(
                    old(reader).readable()) {
                let val = choose|val: u64|
                    (#[trigger] val.wire(old(reader).config_spec())).is_prefix_of(
                        old(reader).readable());
                lemma_u64_bytes(val, val, old(reader).config_spec().endianness);
            }
        }
        match reader.read_u64() {
            Ok(v) => {
                proof {
                    lemma_u64_bytes(v, v, old(reader).config_spec().endianness);
                    assert(v.wire(old(reader).config_spec()).is_prefix_of(
                        old(reader).readable())) by {
                        assert(v.wire(old(reader).config_spec()) =~= old(
                            reader).readable().take(8));
                    }
                }
                Ok(v)
            },
            Err(e) => Err(e),
        }
    }
}


impl Wire for i8 {
    open spec fn wire(&self, c: Config) -> Seq<u8> {
        seq![*self as u8]
    }

    proof fn wire_min_len(&self, c: Config) {
    }

    proof fn wire_no_strict_prefix(&self, other: &Self, c: Config) {
        assert(self.wire(c) =~= other.wire(c));
    }
}

impl Encode for i8 {
    fn encode(&self, writer: &mut Writer) -> (r: Result<(), JustcodeError>) {
        writer.write_u8(#[verifier::truncate] (*self as u8))
    }
}

impl Decode for i8 {
    fn decode(reader: &mut Reader) -> (r: Result<Self, JustcodeError>) {
        proof {
            old(reader).lemma_readable();
            if exists|val: i8|
                (#[trigger] val.wire(old(reader).config_spec())).is_prefix_of(
                    old(reader).readable()) {
                let val = choose|val: i8|
                    (#[trigger] val.wire(old(reader).config_spec())).is_prefix_of(
                        old(reader).readable());
                assert(val.wire(old(reader).config_spec()).len() == 1);
            }
        }
        match reader.read_u8() {
            Ok(v) => {
                let w: i8 = #[verifier::truncate] (v as i8);
                proof {
                    assert((v as i8) as u8 == v) by (bit_vector);
                    assert(w.wire(old(reader).config_spec()).is_prefix_of(
                        old(reader).readable())) by {
                        assert(w.wire(old(reader).config_spec()) =~= old(
                            reader).readable().take(1));
                    }
                }
                Ok(w)
            },
            Err(e) => Err(e),
        }
    }
}

impl Wire for i16 {
    open spec fn wire(&self, c: Config) -> Seq<u8> {
        u16_bytes(*self as u16, c.endianness)
    }

    proof fn wire_min_len(&self, c: Config) {
        lemma_u16_bytes(*self as u16, *self as u16, c.endianness);
    }

    proof fn wire_no_strict_prefix(&self, other: &Self, c: Config) {
        lemma_u16_bytes(*self as u16, *self as u16, c.endianness);
        lemma_u16_bytes(*other as u16, *other as u16, c.endianness);
        assert(self.wire(c) =~= other.wire(c));
    }
}

impl Encode for i16 {
    fn encode(&self, writer: &mut Writer) -> (r: Result<(), JustcodeError>) {
        proof {
            lemma_u16_bytes(*self as u16, *self as u16, old(writer).config_spec().endianness);
        }
        writer.write_u16(#[verifier::truncate] (*self as u16))
    }
}

impl Decode for i16 {
    fn decode(reader: &mut Reader) -> (r: Result<Self, JustcodeError>) {
        proof {
            old(reader).lemma_readable();
            if exists|val: i16|
                (#[trigger] val.wire(old(reader).config_spec())).is_prefix_of(
                    old(reader).readable()) {
                let val = choose|val: i16|
                    (#[trigger] val.wire(old(reader).config_spec())).is_prefix_of(
                        old(reader).readable());
                lemma_u16_bytes(val as u16, val as u16, old(reader).config_spec().endianness);
            }
        }
        match reader.read_u16() {
            Ok(v) => {
                let w: i16 = #[verifier::truncate] (v as i16);
                proof {
                    assert((v as i16) as u16 == v) by (bit_vector);
                    lemma_u16_bytes(v, v, old(reader).config_spec().endianness);
                    assert(w.wire(old(reader).config_spec()).is_prefix_of(
                        old(reader).readable())) by {
                        assert(w.wire(old(reader).config_spec()) =~= old(
                            reader).readable().take(2));
                    }
                }
                Ok(w)
            },
            Err(e) => Err(e),
        }
    }
}


impl Wire for i32 {
    open spec fn wire(&self, c: Config) -> Seq<u8> {
        u32_bytes(*self as u32, c.endianness)
    }

    proof fn wire_min_len(&self, c: Config) {
        lemma_u32_bytes(*self as u32, *self as u32, c.endianness);
    }

    proof fn wire_no_strict_prefix(&self, other: &Self, c: Config) {
        lemma_u32_bytes(*self as u32, *self as u32, c.endianness);
        lemma_u32_bytes(*other as u32, *other as u32, c.endianness);
        assert(self.wire(c) =~= other.wire(c));
    }
}

impl Encode for i32 {
    fn encode(&self, writer: &mut Writer) -> (r: Result<(), JustcodeError>) {
        proof {
            lemma_u32_bytes(*self as u32, *self as u32, old(writer).config_spec().endianness);
        }
        writer.write_u32(#[verifier::truncate] (*self as u32))
    }
}

impl Decode for i32 {
    fn decode(reader: &mut Reader) -> (r: Result<Self, JustcodeError>) {
        proof {
            old(reader).lemma_readable();
            if exists|val: i32|
                (#[trigger] val.wire(old(reader).config_spec())).is_prefix_of(
                    old(reader).readable()) {
                let val = choose|val: i32|
                    (#[trigger] val.wire(old(reader).config_spec())).is_prefix_of(
                        old(reader).readable());
                lemma_u32_bytes(val as u32, val as u32, old(reader).config_spec().endianness);
            }
        }
        match reader.read_u32() {
            Ok(v) => {
                let w: i32 = #[verifier::truncate] (v as i32);
                proof {
                    assert((v as i32) as u32 == v) by (bit_vector);
                    lemma_u32_bytes(v, v, old(reader).config_spec().endianness);
                    assert(w.wire(old(reader).config_spec()).is_prefix_of(
                        old(reader).readable())) by {
                        assert(w.wire(old(reader).config_spec()) =~= old(
                            reader).readable().take(4));
                    }
                }
                Ok(w)
            },
            Err(e) => Err(e),
        }
    }
}


impl Wire for i64 {
    open spec fn wire(&self, c: Config) -> Seq<u8> {
        u64_bytes(*self as u64, c.endianness)
    }

    proof fn wire_min_len(&self, c: Config) {
        lemma_u64_bytes(*self as u64, *self as u64, c.endianness);
    }

    proof fn wire_no_strict_prefix(&self, other: &Self, c: Config) {
        lemma_u64_bytes(*self as u64, *self as u64, c.endianness);
        lemma_u64_bytes(*other as u64, *other as u64, c.endianness);
        assert(self.wire(c) =~= other.wire(c));
    }
}

impl Encode for i64 {
    fn encode(&self, writer: &mut Writer) -> (r: Result<(), JustcodeError>) {
        proof {
            lemma_u64_bytes(*self as u64, *self as u64, old(writer).config_spec().endianness);
        }
        writer.write_u64(#[verifier::truncate] (*self as u64))
    }
}

impl Decode for i64 {
    fn decode(reader: &mut Reader) -> (r: Result<Self, JustcodeError>) {
        proof {
            old(reader).lemma_readable();
            if exists|val: i64|
                (#[trigger] val.wire(old(reader).config_spec())).is_prefix_of(
                    old(reader).readable()) {
                let val = choose|val: i64|
                    (#[trigger] val.wire(old(reader).config_spec())).is_prefix_of(
                        old(reader).readable());
                lemma_u64_bytes(val as u64, val as u64, old(reader).config_spec().endianness);
            }
        }
        match reader.read_u64() {
            Ok(v) => {
                let w: i64 = #[verifier::truncate] (v as i64);
                proof {
                    assert((v as i64) as u64 == v) by (bit_vector);
                    lemma_u64_bytes(v, v, old(reader).config_spec().endianness);
                    assert(w.wire(old(reader).config_spec()).is_prefix_of(
                        old(reader).readable())) by {
                        assert(w.wire(old(reader).config_spec()) =~= old(
                            reader).readable().take(8));
                    }
                }
                Ok(w)
            },
            Err(e) => Err(e),
        }
    }
}


/// A prefix of a prefix is a prefix.
pub proof fn lemma_prefix_trans(a: Seq<u8>, b: Seq<u8>, s: Seq<u8>)
    requires
        a.is_prefix_of(b),
        b.is_prefix_of(s),
    ensures
        a.is_prefix_of(s),
{
    assert(a =~= s.subrange(0, a.len() as int));
}

/// Two prefixes of one sequence: the shorter is a prefix of the longer.
pub proof fn lemma_prefix_comparable(a: Seq<u8>, b: Seq<u8>, s: Seq<u8>)
    requires
        a.is_prefix_of(s),
        b.is_prefix_of(s),
        a.len() <= b.len(),
    ensures
        a.is_prefix_of(b),
{
    assert(a =~= b.subrange(0, a.len() as int));
}

/// A prefix grows by anything that prefixes what remains past it.
pub proof fn lemma_prefix_extend(p: Seq<u8>, t: Seq<u8>, s: Seq<u8>)
    requires
        p.is_prefix_of(s),
        t.is_prefix_of(s.skip(p.len() as int)),
    ensures
        (p + t).is_prefix_of(s),
{
    assert((p + t) =~= s.subrange(0, p.len() + t.len() as int));
}

/// Stripping the same front off a prefix pair keeps the prefix relation.
pub proof fn lemma_prefix_skip(p: Seq<u8>, s: Seq<u8>, k: int)
    requires
        p.is_prefix_of(s),
        0 <= k <= p.len(),
    ensures
        p.skip(k).is_prefix_of(s.skip(k)),
{
    assert(p.skip(k) =~= s.skip(k).subrange(0, p.len() - k));
}

/// A sequence that starts with `a + b` is that pair plus whatever follows.
pub proof fn lemma_prefix_split_tail(a: Seq<u8>, b: Seq<u8>, s: Seq<u8>)
    requires
        (a + b).is_prefix_of(s),
    ensures
        s == a + (b + s.skip(a.len() + b.len() as int)),
{
    let t = s.skip(a.len() + b.len() as int);
    assert forall|k: int| 0 <= k < s.len() implies s[k] == (a + (b + t))[k] by {
        if k < a.len() + b.len() {
            assert((a + b)[k] == s[k]) by {
                assert(a + b =~= s.subrange(0, (a + b).len() as int));
            }
            if k < a.len() {
                assert((a + (b + t))[k] == a[k] && (a + b)[k] == a[k]);
            } else {
                assert((a + (b + t))[k] == b[k - a.len()] && (a + b)[k] == b[k - a.len()]);
            }
        } else {
            assert((a + (b + t))[k] == t[k - a.len() - b.len()]);
            assert(t[k - a.len() - b.len()] == s[k]);
        }
    }
    assert(s =~= a + (b + t));
}

/// The layouts of a sequence of items, one after another.
pub open spec fn seq_wire<T: Wire>(s: Seq<T>, c: Config) -> Seq<u8>
    decreases s.len(),
{
    if s.len() == 0 {
        Seq::empty()
    } else {
        s[0].wire(c) + seq_wire(s.drop_first(), c)
    }
}

/// Splitting a sequence anywhere splits its joint layout there.
pub proof fn lemma_seq_wire_split<T: Wire>(s: Seq<T>, i: int, c: Config)
    requires
        0 <= i <= s.len(),
    ensures
        seq_wire(s, c) == seq_wire(s.take(i), c) + seq_wire(s.skip(i), c),
    decreases i,
{
    if i == 0 {
        assert(s.take(0).len() == 0);
        assert(s.skip(0) =~= s);
        assert(seq_wire(s.take(0), c) + seq_wire(s.skip(0), c) =~= seq_wire(s, c));
    } else {
        let tail = s.drop_first();
        lemma_seq_wire_split(tail, i - 1, c);
        assert(s.take(i)[0] == s[0]);
        assert(s.take(i).drop_first() =~= tail.take(i - 1));
        assert(s.skip(i) =~= tail.skip(i - 1));
        assert(seq_wire(s.take(i), c) == s[0].wire(c) + seq_wire(tail.take(i - 1), c));
        assert(seq_wire(s.take(i), c) + seq_wire(s.skip(i), c) =~= s[0].wire(c) + (seq_wire(
            tail.take(i - 1), c) + seq_wire(tail.skip(i - 1), c)));
    }
}

/// One more item appends exactly that item's layout.
pub proof fn lemma_seq_wire_push<T: Wire>(s: Seq<T>, t: T, c: Config)
    ensures
        seq_wire(s.push(t), c) == seq_wire(s, c) + t.wire(c),
    decreases s.len(),
{
    if s.len() == 0 {
        assert(s.push(t)[0] == t);
        assert(s.push(t).drop_first().len() == 0);
        assert(seq_wire(s.push(t).drop_first(), c) == Seq::<u8>::empty());
        assert(seq_wire(s, c) == Seq::<u8>::empty());
        assert(seq_wire(s.push(t), c) =~= seq_wire(s, c) + t.wire(c));
    } else {
        assert(s.push(t)[0] == s[0]);
        assert(s.push(t).drop_first() =~= s.drop_first().push(t));
        lemma_seq_wire_push(s.drop_first(), t, c);
        assert(s[0].wire(c) + (seq_wire(s.drop_first(), c) + t.wire(c)) =~= seq_wire(s, c)
            + t.wire(c));
    }
}

/// Every item costs at least one byte: a joint layout is never shorter than
/// its item count.
pub proof fn lemma_seq_wire_min_len<T: Wire>(s: Seq<T>, c: Config)
    ensures
        seq_wire(s, c).len() >= s.len(),
    decreases s.len(),
{
    if s.len() > 0 {
        s[0].wire_min_len(c);
        lemma_seq_wire_min_len(s.drop_first(), c);
    }
}

/// Equal-count sequences whose joint layouts nest are laid out identically.
pub proof fn lemma_seq_wire_prefix_eq<T: Wire>(s1: Seq<T>, s2: Seq<T>, c: Config)
    requires
        s1.len() == s2.len(),
        seq_wire(s1, c).is_prefix_of(seq_wire(s2, c)),
    ensures
        seq_wire(s1, c) == seq_wire(s2, c),
    decreases s1.len(),
{
    if s1.len() == 0 {
        assert(seq_wire(s1, c) =~= seq_wire(s2, c));
    } else {
        let w1 = s1[0].wire(c);
        let w2 = s2[0].wire(c);
        let sw1 = seq_wire(s1, c);
        let sw2 = seq_wire(s2, c);
        assert(sw1 == w1 + seq_wire(s1.drop_first(), c));
        assert(sw2 == w2 + seq_wire(s2.drop_first(), c));
        assert(w1.is_prefix_of(sw1)) by {
            assert(w1 =~= sw1.subrange(0, w1.len() as int));
        }
        assert(w2.is_prefix_of(sw2)) by {
            assert(w2 =~= sw2.subrange(0, w2.len() as int));
        }
        lemma_prefix_trans(w1, sw1, sw2);
        if w1.len() <= w2.len() {
            lemma_prefix_comparable(w1, w2, sw2);
            s1[0].wire_no_strict_prefix(&s2[0], c);
        } else {
            lemma_prefix_comparable(w2, w1, sw2);
            s2[0].wire_no_strict_prefix(&s1[0], c);
        }
        assert(w1 == w2);
        lemma_prefix_skip(sw1, sw2, w1.len() as int);
        assert(sw1.skip(w1.len() as int) =~= seq_wire(s1.drop_first(), c));
        assert(sw2.skip(w1.len() as int) =~= seq_wire(s2.drop_first(), c));
        lemma_seq_wire_prefix_eq(s1.drop_first(), s2.drop_first(), c);
    }
}

/// The layout of an optional: one discriminant byte, then the value's
/// layout when present.
pub open spec fn option_wire<T: Wire>(v: Option<T>, c: Config) -> Seq<u8> {
    match v {
        Option::None => seq![0u8],
        Option::Some(t) => seq![1u8] + t.wire(c),
    }
}

impl<T: Wire> Wire for Option<T> {
    open spec fn wire(&self, c: Config) -> Seq<u8> {
        option_wire(*self, c)
    }

    proof fn wire_min_len(&self, c: Config) {
    }

    proof fn wire_no_strict_prefix(&self, other: &Self, c: Config) {
        match (self, other) {
            (Option::None, Option::None) => {
                assert(self.wire(c) =~= other.wire(c));
            },
            (Option::None, Option::Some(u)) => {
                assert(self.wire(c)[0] == 0 && other.wire(c)[0] == 1);
                assert(self.wire(c) =~= other.wire(c).subrange(0, 1));
                assert(false);
            },
            (Option::Some(t), Option::None) => {
                t.wire_min_len(c);
                assert(false);
            },
            (Option::Some(t), Option::Some(u)) => {
                let tw = t.wire(c);
                let uw = u.wire(c);
                assert(tw.is_prefix_of(uw)) by {
                    assert(self.wire(c) =~= other.wire(c).subrange(0, self.wire(c).len() as int));
                    assert forall|i: int| 0 <= i < tw.len() implies tw[i] == uw[i] by {
                        assert(tw[i] == self.wire(c)[i + 1]);
                        assert(self.wire(c)[i + 1] == other.wire(c)[i + 1]);
                        assert(other.wire(c)[i + 1] == uw[i]);
                    }
                    assert(tw =~= uw.subrange(0, tw.len() as int));
                }
                t.wire_no_strict_prefix(u, c);
                assert(self.wire(c) =~= other.wire(c));
            },
        }
    }
}

impl<T: Encode> Encode for Option<T> {
    fn encode(&self, writer: &mut Writer) -> (r: Result<(), JustcodeError>) {
        let ghost c = old(writer).config_spec();
        match self {
            Option::None => {
                let r = writer.write_u8(0);
                proof {
                    if r is Ok {
                        assert(final(writer)@ =~= old(writer)@ + self.wire(c));
                    }
                }
                r
            },
            Option::Some(t) => {
                proof {
                    t.wire_min_len(c);
                }
                match writer.write_u8(1) {
                    Ok(_) => {
                        let ghost mid = writer@;
                        let r = t.encode(writer);
                        proof {
                            assert(old(writer)@.is_prefix_of(writer@)) by {
                                assert(old(writer)@ =~= writer@.subrange(0, old(
                                    writer)@.len() as int));
                            }
                            if r is Ok {
                                assert(writer@ =~= old(writer)@ + self.wire(c));
                            }
                        }
                        r
                    },
                    Err(e) => {
                        proof {
                            assert(old(writer)@.is_prefix_of(writer@)) by {
                                assert(old(writer)@ =~= writer@.subrange(0, old(
                                    writer)@.len() as int));
                            }
                        }
                        Err(e)
                    },
                }
            },
        }
    }
}

impl<T: Decode> Decode for Option<T> {
    fn decode(reader: &mut Reader) -> (r: Result<Self, JustcodeError>) {
        let ghost c = old(reader).config_spec();
        let ghost rd0 = old(reader).readable();
        proof {
            old(reader).lemma_readable();
            if exists|val: Option<T>| (#[trigger] val.wire(c)).is_prefix_of(rd0) {
                let val = choose|val: Option<T>| (#[trigger] val.wire(c)).is_prefix_of(rd0);
                val.wire_min_len(c);
                assert(val.wire(c)[0] == rd0[0]);
                match val {
                    Option::None => {
                        assert(val.wire(c)[0] == 0);
                    },
                    Option::Some(t2) => {
                        assert(val.wire(c)[0] == 1);
                    },
                }
                assert(rd0.len() >= 1 && (rd0[0] == 0 || rd0[0] == 1));
            }
        }
        let b = match reader.read_u8() {
            Ok(b) => b,
            Err(e) => {
                return Err(e);
            },
        };
        if b == 0 {
            proof {
                let v: Option<T> = Option::None;
                assert(v.wire(c).is_prefix_of(rd0)) by {
                    assert(v.wire(c) =~= rd0.take(1));
                }
            }
            Ok(Option::None)
        } else if b == 1 {
            let ghost mid = *reader;
            match T::decode(reader) {
                Ok(t) => {
                    proof {
                        old(reader).lemma_readable_suffix(mid);
                        let v: Option<T> = Option::Some(t);
                        assert(v.wire(c).is_prefix_of(rd0)) by {
                            assert(seq![1u8].is_prefix_of(rd0)) by {
                                assert(seq![1u8] =~= rd0.take(1));
                            }
                            assert(t.wire(c).is_prefix_of(rd0.skip(1)));
                            lemma_prefix_extend(seq![1u8], t.wire(c), rd0);
                        }
                    }
                    Ok(Option::Some(t))
                },
                Err(e) => {
                    proof {
                        if exists|val: Option<T>| (#[trigger] val.wire(c)).is_prefix_of(rd0) {
                            let val = choose|val: Option<T>|
                                (#[trigger] val.wire(c)).is_prefix_of(rd0);
                            old(reader).lemma_readable_suffix(mid);
                            match val {
                                Option::None => {
                                    assert(val.wire(c)[0] == 0 && rd0[0] == 1);
                                },
                                Option::Some(t2) => {
                                    assert(t2.wire(c).is_prefix_of(mid.readable())) by {
                                        lemma_prefix_skip(val.wire(c), rd0, 1);
                                        assert(val.wire(c).skip(1) =~= t2.wire(c));
                                    }
                                },
                            }
                        }
                    }
                    Err(e)
                },
            }
        } else {
            proof {
                if exists|val: Option<T>| (#[trigger] val.wire(c)).is_prefix_of(rd0) {
                    let val = choose|val: Option<T>| (#[trigger] val.wire(c)).is_prefix_of(rd0);
                    assert(val.wire(c)[0] == rd0[0]);
                }
            }
            Err(JustcodeError::InvalidVariantIndex { tag: b as usize, declared_count: 2 })
        }
    }
}


impl<T: Wire> Wire for Vec<T> {
    open spec fn wire(&self, c: Config) -> Seq<u8> {
        varint_bytes(self@.len()) + seq_wire(self@, c)
    }

    proof fn wire_min_len(&self, c: Config) {
        lemma_varint_bytes_min(self@.len());
    }

    proof fn wire_no_strict_prefix(&self, other: &Self, c: Config) {
        vstd::std_specs::vec::axiom_spec_len(self);
        vstd::std_specs::vec::axiom_spec_len(other);
        let n1 = self@.len();
        let n2 = other@.len();
        let sw1 = seq_wire(self@, c);
        let sw2 = seq_wire(other@, c);
        let v1 = varint_bytes(n1);
        let v2 = varint_bytes(n2);
        let w1 = self.wire(c);
        let w2 = other.wire(c);
        let tail = w2.skip(w1.len() as int);
        lemma_prefix_split_tail(v1, sw1, w2);
        assert(w2 =~= v1 + (sw1 + tail));
        lemma_varint_parse_encoding(n1, sw1 + tail);
        lemma_varint_parse_encoding(n2, sw2);
        assert(w2 == v2 + sw2);
        assert(n1 == n2);
        lemma_prefix_skip(w1, w2, v1.len() as int);
        assert(w1.skip(v1.len() as int) =~= sw1);
        assert(w2.skip(v1.len() as int) =~= sw2);
        lemma_seq_wire_prefix_eq(self@, other@, c);
        assert(w1 =~= w2);
    }
}

impl<T: Encode> Encode for Vec<T> {
    #[verifier::loop_isolation(false)]
    fn encode(&self, writer: &mut Writer) -> (r: Result<(), JustcodeError>) {
        let ghost c = old(writer).config_spec();
        let ghost w0 = old(writer)@;
        proof {
            vstd::std_specs::vec::axiom_spec_len(self);
        }
        let n = self.len();
        match encode_length(writer, n) {
            Err(e) => {
                proof {
                    assert(w0.is_prefix_of(writer@)) by {
                        assert(w0 =~= writer@.subrange(0, w0.len() as int));
                    }
                }
                return Err(e);
            },
            Ok(_) => {},
        }
        let mut i: usize = 0;
        while i < n
            invariant
                writer.wf(),
                writer.cap_spec() == old(writer).cap_spec(),
                writer.config_spec() == old(writer).config_spec(),
                i <= n,
                n == self@.len(),
                writer@ == w0 + varint_bytes(n as nat) + seq_wire(self@.take(i as int), c),
            decreases n - i,
        {
            let ghost pre = writer@;
            match self[i].encode(writer) {
                Ok(_) => {
                    proof {
                        assert(self@.take(i + 1) =~= self@.take(i as int).push(self@[i as int]));
                        lemma_seq_wire_push(self@.take(i as int), self@[i as int], c);
                        assert(writer@ =~= w0 + varint_bytes(n as nat) + seq_wire(
                            self@.take(i + 1), c));
                    }
                    i = i + 1;
                },
                Err(e) => {
                    proof {
                        lemma_seq_wire_split(self@, i as int, c);
                        assert(seq_wire(self@.skip(i as int), c) == self@.skip(i as int)[0].wire(
                            c) + seq_wire(self@.skip(i as int).drop_first(), c));
                        assert(self@.skip(i as int)[0] == self@[i as int]);
                        assert(w0.is_prefix_of(writer@)) by {
                            assert(w0.is_prefix_of(pre)) by {
                                assert(w0 =~= pre.subrange(0, w0.len() as int));
                            }
                            lemma_prefix_trans(w0, pre, writer@);
                        }
                        assert(w0.len() + self.wire(c).len() > old(writer).cap_spec());
                    }
                    return Err(e);
                },
            }
        }
        proof {
            assert(self@.take(n as int) =~= self@);
            assert(writer@ =~= w0 + self.wire(c));
            assert(w0.is_prefix_of(writer@)) by {
                assert(w0 =~= writer@.subrange(0, w0.len() as int));
            }
        }
        Ok(())
    }
}

impl<T: Decode> Decode for Vec<T> {
    #[verifier::loop_isolation(false)]
    fn decode(reader: &mut Reader) -> (r: Result<Self, JustcodeError>) {
        let ghost c = old(reader).config_spec();
        let ghost rd0 = old(reader).readable();
        let ghost pos0 = old(reader).pos_spec();
        let ghost has = exists|val: Vec<T>| (#[trigger] val.wire(c)).is_prefix_of(rd0);
        let ghost gval: Vec<T> = if has {
            choose|val: Vec<T>| (#[trigger] val.wire(c)).is_prefix_of(rd0)
        } else {
            arbitrary()
        };
        proof {
            old(reader).lemma_readable();
            if has {
                vstd::std_specs::vec::axiom_spec_len(&gval);
                let gw = gval.wire(c);
                let gtail = rd0.skip(gw.len() as int);
                lemma_prefix_split_tail(varint_bytes(gval@.len()), seq_wire(gval@, c), rd0);
                assert(rd0 =~= varint_bytes(gval@.len()) + (seq_wire(gval@, c) + gtail));
                lemma_varint_parse_encoding(gval@.len(), seq_wire(gval@, c) + gtail);
            }
        }
        let n = match decode_length(reader) {
            Ok(n) => n,
            Err(e) => {
                proof {
                    assert(!has);
                }
                return Err(e);
            },
        };
        let ghost mid0 = *reader;
        let ghost gl = mid0.pos_spec() - pos0;
        let ghost vb = rd0.take(gl);
        proof {
            lemma_parse_value_bounds(rd0);
            lemma_varint_parse_sound(rd0);
            assert(vb == varint_bytes(n as nat));
            if has {
                assert(gval@.len() == n);
            }
        }
        if n > reader.remaining() {
            let e = JustcodeError::UnexpectedEnd { needed: n, available: reader.remaining() };
            proof {
                if has {
                    let gw = gval.wire(c);
                    lemma_seq_wire_min_len(gval@, c);
                    assert(pos0 + gw.len() <= old(reader).cap_spec());
                    assert(false);
                }
            }
            return Err(e);
        }
        let mut out: Vec<T> = Vec::new();
        let mut i: usize = 0;
        proof {
            assert(out@.len() == 0);
            assert(seq_wire(out@, c) == Seq::<u8>::empty());
            assert((vb + seq_wire(out@, c)).is_prefix_of(rd0)) by {
                assert(vb + seq_wire(out@, c) =~= rd0.subrange(0, gl));
            }
            if has {
                assert(seq_wire(out@, c) == seq_wire(gval@.take(0), c)) by {
                    assert(gval@.take(0).len() == 0);
                }
            }
        }
        while i < n
            invariant
                reader.wf(),
                reader.data() == old(reader).data(),
                reader.cap_spec() == old(reader).cap_spec(),
                reader.config_spec() == old(reader).config_spec(),
                i <= n,
                out@.len() == i,
                reader.pos_spec() == pos0 + gl + seq_wire(out@, c).len(),
                reader.pos_spec() <= reader.cap_spec(),
                (vb + seq_wire(out@, c)).is_prefix_of(rd0),
                has ==> gval@.len() == n && seq_wire(out@, c) == seq_wire(
                    gval@.take(i as int), c),
            decreases n - i,
        {
            let ghost pre = *reader;
            proof {
                old(reader).lemma_readable_suffix(pre);
                if has {
                    let gw = gval.wire(c);
                    lemma_seq_wire_split(gval@, i as int, c);
                    assert(seq_wire(gval@.skip(i as int), c) == gval@.skip(i as int)[0].wire(c)
                        + seq_wire(gval@.skip(i as int).drop_first(), c));
                    assert(gval@.skip(i as int)[0] == gval@[i as int]);
                    let d = gl + seq_wire(out@, c).len();
                    lemma_prefix_skip(gw, rd0, d);
                    assert(gval@[i as int].wire(c).is_prefix_of(gw.skip(d))) by {
                        assert(gw =~= vb + seq_wire(gval@.take(i as int), c) + (gval@[
                            i as int].wire(c) + seq_wire(gval@.skip(i as int).drop_first(),
                            c)));
                        assert(gval@[i as int].wire(c) =~= gw.skip(d).subrange(0, gval@[
                            i as int].wire(c).len() as int));
                    }
                    lemma_prefix_trans(gval@[i as int].wire(c), gw.skip(d), rd0.skip(d));
                    assert(gval@[i as int].wire(c).is_prefix_of(pre.readable()));
                }
            }
            match T::decode(reader) {
                Ok(t) => {
                    proof {
                        let ghost swo = seq_wire(out@, c);
                        lemma_seq_wire_push(out@, t, c);
                        pre.lemma_readable_suffix(*reader);
                        if has {
                            let tw = t.wire(c);
                            let ew = gval@[i as int].wire(c);
                            if tw.len() <= ew.len() {
                                lemma_prefix_comparable(tw, ew, pre.readable());
                                t.wire_no_strict_prefix(&gval@[i as int], c);
                            } else {
                                lemma_prefix_comparable(ew, tw, pre.readable());
                                gval@[i as int].wire_no_strict_prefix(&t, c);
                            }
                            assert(tw == ew);
                            assert(gval@.take(i + 1) =~= gval@.take(i as int).push(gval@[
                                i as int]));
                            lemma_seq_wire_push(gval@.take(i as int), gval@[i as int], c);
                        }
                        lemma_prefix_extend(vb + swo, t.wire(c), rd0);
                        assert(vb + (swo + t.wire(c)) =~= (vb + swo) + t.wire(c));
                    }
                    out.push(t);
                    i = i + 1;
                },
                Err(e) => {
                    proof {
                        if has {
                            assert(gval@[i as int].wire(c).is_prefix_of(pre.readable()));
                            assert(false);
                        }
                    }
                    return Err(e);
                },
            }
        }
        proof {
            assert(out@.len() == n);
            assert(out.wire(c) =~= vb + seq_wire(out@, c));
            assert(reader.pos_spec() == pos0 + out.wire(c).len());
        }
        Ok(out)
    }
}


/// Encodings of two values never nest: a varint is a prefix of another
/// varint-led region only for the same value.
pub proof fn lemma_varint_bytes_prefix_unique(a: nat, b: nat, s: Seq<u8>)
    requires
        varint_bytes(a).is_prefix_of(s),
        varint_bytes(b).is_prefix_of(s),
    ensures
        a == b,
    decreases a,
{
    let va = varint_bytes(a);
    let vb = varint_bytes(b);
    lemma_varint_bytes_min(a);
    lemma_varint_bytes_min(b);
    assert(va[0] == s[0]) by {
        assert(va =~= s.subrange(0, va.len() as int));
    }
    assert(vb[0] == s[0]) by {
        assert(vb =~= s.subrange(0, vb.len() as int));
    }
    if a < 0x80 {
        assert(va[0] == a as u8);
        if b >= 0x80 {
            assert(vb[0] == (b % 0x80 + 0x80) as u8);
            assert(false);
        }
    } else {
        if b < 0x80 {
            assert(va[0] == (a % 0x80 + 0x80) as u8);
            assert(false);
        } else {
            assert(va.drop_first() =~= varint_bytes(a / 0x80));
            assert(vb.drop_first() =~= varint_bytes(b / 0x80));
            lemma_prefix_skip(va, s, 1);
            lemma_prefix_skip(vb, s, 1);
            assert(va.skip(1) =~= varint_bytes(a / 0x80));
            assert(vb.skip(1) =~= varint_bytes(b / 0x80));
            lemma_varint_bytes_prefix_unique(a / 0x80, b / 0x80, s.skip(1));
            assert((a % 0x80 + 0x80) as u8 == (b % 0x80 + 0x80) as u8);
            assert(a % 0x80 == b % 0x80);
            vstd::arithmetic::div_mod::lemma_fundamental_div_mod(a as int, 0x80);
            vstd::arithmetic::div_mod::lemma_fundamental_div_mod(b as int, 0x80);
        }
    }
}

/// The layout of text: the UTF-8 byte count as a varint, then those bytes.
pub open spec fn string_wire(s: Seq<char>) -> Seq<u8> {
    varint_bytes(vstd::utf8::encode_utf8(s).len()) + vstd::utf8::encode_utf8(s)
}

impl Wire for String {
    open spec fn wire(&self, c: Config) -> Seq<u8> {
        string_wire(self@)
    }

    proof fn wire_min_len(&self, c: Config) {
        lemma_varint_bytes_min(vstd::utf8::encode_utf8(self@).len());
    }

    proof fn wire_no_strict_prefix(&self, other: &Self, c: Config) {
        let u1 = vstd::utf8::encode_utf8(self@);
        let u2 = vstd::utf8::encode_utf8(other@);
        let v1 = varint_bytes(u1.len());
        let v2 = varint_bytes(u2.len());
        let w1 = self.wire(c);
        let w2 = other.wire(c);
        assert(v1.is_prefix_of(w1)) by {
            assert(v1 =~= w1.subrange(0, v1.len() as int));
        }
        assert(v2.is_prefix_of(w2)) by {
            assert(v2 =~= w2.subrange(0, v2.len() as int));
        }
        lemma_prefix_trans(v1, w1, w2);
        lemma_varint_bytes_prefix_unique(u1.len(), u2.len(), w2);
        lemma_prefix_skip(w1, w2, v1.len() as int);
        assert(w1.skip(v1.len() as int) =~= u1);
        assert(w2.skip(v1.len() as int) =~= u2);
        assert(u1 =~= u2) by {
            assert(u1 =~= u2.subrange(0, u1.len() as int));
        }
        assert(w1 =~= w2);
    }
}

/// Relies on `String::from_utf8`: it succeeds exactly on well-formed UTF-8
/// bytes and yields the characters those bytes encode, as vstd's UTF-8
/// model states them.
#[verifier::external_body]
fn string_from_utf8(v: Vec<u8>) -> (r: Option<String>)
    ensures
        r matches Some(s) ==> vstd::utf8::valid_utf8(v@) && vstd::utf8::encode_utf8(s@) == v@,
        r is None ==> !vstd::utf8::valid_utf8(v@),
{
    match String::from_utf8(v) {
        Ok(s) => Some(s),
        Err(_) => None,
    }
}

impl Encode for String {
    fn encode(&self, writer: &mut Writer) -> (r: Result<(), JustcodeError>) {
        let ghost c = old(writer).config_spec();
        let ghost w0 = old(writer)@;
        let bytes = self.as_str().as_bytes();
        match encode_length(writer, bytes.len()) {
            Err(e) => {
                proof {
                    assert(w0.is_prefix_of(writer@)) by {
                        assert(w0 =~= writer@.subrange(0, w0.len() as int));
                    }
                }
                return Err(e);
            },
            Ok(_) => {},
        }
        let r = writer.write_bytes(bytes);
        proof {
            assert(w0.is_prefix_of(writer@)) by {
                assert(w0 =~= writer@.subrange(0, w0.len() as int));
            }
            if r is Ok {
                assert(writer@ =~= w0 + self.wire(c));
            }
        }
        match r {
            Ok(_) => Ok(()),
            Err(e) => Err(e),
        }
    }
}

impl Decode for String {
    fn decode(reader: &mut Reader) -> (r: Result<Self, JustcodeError>) {
        let ghost c = old(reader).config_spec();
        let ghost rd0 = old(reader).readable();
        let ghost pos0 = old(reader).pos_spec();
        let ghost has = exists|val: String| (#[trigger] val.wire(c)).is_prefix_of(rd0);
        let ghost gval: String = if has {
            choose|val: String| (#[trigger] val.wire(c)).is_prefix_of(rd0)
        } else {
            arbitrary()
        };
        let ghost gu = vstd::utf8::encode_utf8(gval@);
        proof {
            old(reader).lemma_readable();
            if has {
                let gw = gval.wire(c);
                lemma_varint_bytes_min(gu.len());
                assert(gw.len() <= rd0.len());
                assert(gu.len() <= rd0.len() <= usize::MAX as int);
                lemma_prefix_split_tail(varint_bytes(gu.len()), gu, rd0);
                lemma_varint_parse_encoding(gu.len(), gu + rd0.skip(gw.len() as int));
            }
        }
        let n = match decode_length(reader) {
            Ok(n) => n,
            Err(e) => {
                proof {
                    assert(!has);
                }
                return Err(e);
            },
        };
        let ghost mid0 = *reader;
        let ghost gl = mid0.pos_spec() - pos0;
        proof {
            lemma_parse_value_bounds(rd0);
            lemma_varint_parse_sound(rd0);
            assert(rd0.take(gl) == varint_bytes(n as nat));
            if has {
                assert(gu.len() == n);
            }
            old(reader).lemma_readable_suffix(mid0);
        }
        let payload_bytes = match reader.read_bytes(n) {
            Ok(s) => s,
            Err(e) => {
                proof {
                    if has {
                        let gw = gval.wire(c);
                        lemma_prefix_skip(gw, rd0, gl);
                        assert(gw.skip(gl) =~= gu);
                        assert(mid0.pos_spec() + n <= mid0.cap_spec());
                        assert(false);
                    }
                }
                return Err(e);
            },
        };
        let owned = vstd::slice::slice_to_vec(payload_bytes);
        proof {
            assert(owned@ =~= rd0.subrange(gl, gl + n));
            if has {
                let gw = gval.wire(c);
                lemma_prefix_skip(gw, rd0, gl);
                assert(gw.skip(gl) =~= gu);
                assert(owned@ =~= gu) by {
                    assert(gu =~= rd0.skip(gl).subrange(0, gu.len() as int));
                }
                vstd::utf8::encode_utf8_valid_utf8(gval@);
            }
        }
        match string_from_utf8(owned) {
            Some(st) => {
                proof {
                    assert(st.wire(c) =~= rd0.take(gl) + rd0.subrange(gl, gl + n));
                    assert(st.wire(c).is_prefix_of(rd0)) by {
                        assert(st.wire(c) =~= rd0.subrange(0, gl + n));
                    }
                }
                Ok(st)
            },
            None => {
                proof {
                    if has {
                        assert(false);
                    }
                }
                Err(JustcodeError::InvalidText)
            },
        }
    }
}

impl<A: Wire, B: Wire> Wire for (A, B) {
    open spec fn wire(&self, c: Config) -> Seq<u8> {
        self.0.wire(c) + self.1.wire(c)
    }

    proof fn wire_min_len(&self, c: Config) {
        self.0.wire_min_len(c);
    }

    proof fn wire_no_strict_prefix(&self, other: &Self, c: Config) {
        let a1 = self.0.wire(c);
        let b1 = self.1.wire(c);
        let a2 = other.0.wire(c);
        let b2 = other.1.wire(c);
        let w1 = self.wire(c);
        let w2 = other.wire(c);
        assert(a1.is_prefix_of(w1)) by {
            assert(a1 =~= w1.subrange(0, a1.len() as int));
        }
        assert(a2.is_prefix_of(w2)) by {
            assert(a2 =~= w2.subrange(0, a2.len() as int));
        }
        lemma_prefix_trans(a1, w1, w2);
        if a1.len() <= a2.len() {
            lemma_prefix_comparable(a1, a2, w2);
            self.0.wire_no_strict_prefix(&other.0, c);
        } else {
            lemma_prefix_comparable(a2, a1, w2);
            other.0.wire_no_strict_prefix(&self.0, c);
        }
        assert(a1 == a2);
        lemma_prefix_skip(w1, w2, a1.len() as int);
        assert(w1.skip(a1.len() as int) =~= b1);
        assert(w2.skip(a1.len() as int) =~= b2);
        self.1.wire_no_strict_prefix(&other.1, c);
        assert(w1 =~= w2);
    }
}

impl<A: Encode, B: Encode> Encode for (A, B) {
    fn encode(&self, writer: &mut Writer) -> (r: Result<(), JustcodeError>) {
        let ghost c = old(writer).config_spec();
        let ghost w0 = old(writer)@;
        proof {
            self.1.wire_min_len(c);
        }
        match self.0.encode(writer) {
            Err(e) => {
                return Err(e);
            },
            Ok(_) => {},
        }
        let r = self.1.encode(writer);
        proof {
            assert(w0.is_prefix_of(writer@)) by {
                assert(w0 =~= writer@.subrange(0, w0.len() as int));
            }
            if r is Ok {
                assert(writer@ =~= w0 + self.wire(c));
            }
        }
        match r {
            Ok(_) => Ok(()),
            Err(e) => Err(e),
        }
    }
}

impl<A: Decode, B: Decode> Decode for (A, B) {
    fn decode(reader: &mut Reader) -> (r: Result<Self, JustcodeError>) {
        let ghost c = old(reader).config_spec();
        let ghost rd0 = old(reader).readable();
        let ghost has = exists|val: (A, B)| (#[trigger] val.wire(c)).is_prefix_of(rd0);
        let ghost gval: (A, B) = if has {
            choose|val: (A, B)| (#[trigger] val.wire(c)).is_prefix_of(rd0)
        } else {
            arbitrary()
        };
        proof {
            old(reader).lemma_readable();
            if has {
                let aw = gval.0.wire(c);
                assert(aw.is_prefix_of(gval.wire(c))) by {
                    assert(aw =~= gval.wire(c).subrange(0, aw.len() as int));
                }
                lemma_prefix_trans(aw, gval.wire(c), rd0);
            }
        }
        let first = match A::decode(reader) {
            Ok(a) => a,
            Err(e) => {
                proof {
                    assert(!has);
                }
                return Err(e);
            },
        };
        let ghost mid = *reader;
        proof {
            old(reader).lemma_readable_suffix(mid);
            if has {
                let aw = gval.0.wire(c);
                let fw = first.wire(c);
                if fw.len() <= aw.len() {
                    lemma_prefix_comparable(fw, aw, rd0);
                    first.wire_no_strict_prefix(&gval.0, c);
                } else {
                    lemma_prefix_comparable(aw, fw, rd0);
                    gval.0.wire_no_strict_prefix(&first, c);
                }
                assert(fw == aw);
                lemma_prefix_skip(gval.wire(c), rd0, fw.len() as int);
                assert(gval.wire(c).skip(fw.len() as int) =~= gval.1.wire(c));
                assert(gval.1.wire(c).is_prefix_of(mid.readable()));
            }
        }
        let second = match B::decode(reader) {
            Ok(b) => b,
            Err(e) => {
                proof {
                    if has {
                        assert(false);
                    }
                }
                return Err(e);
            },
        };
        proof {
            mid.lemma_readable_suffix(*reader);
            lemma_prefix_extend(first.wire(c), second.wire(c), rd0);
        }
        Ok((first, second))
    }
}

/// An absent value, a present empty sequence, and a present non-empty
/// sequence all take distinct byte layouts — the wire distinguishes them.
pub proof fn lemma_option_seq_distinct<T: Wire>(
    empty: Vec<T>,
    nonempty: Vec<T>,
    c: Config,
)
    requires
        empty@.len() == 0,
        nonempty@.len() >= 1,
    ensures
        option_wire(Option::<Vec<T>>::None, c) != option_wire(Option::Some(empty), c),
        option_wire(Option::Some(empty), c) != option_wire(Option::Some(nonempty), c),
        option_wire(Option::<Vec<T>>::None, c) != option_wire(Option::Some(nonempty), c),
{
    let wn = option_wire(Option::<Vec<T>>::None, c);
    let we = option_wire(Option::Some(empty), c);
    let wx = option_wire(Option::Some(nonempty), c);
    assert(wn[0] == 0 && we[0] == 1 && wx[0] == 1);
    let ve = varint_bytes(empty@.len());
    let vx = varint_bytes(nonempty@.len());
    assert(ve =~= seq![0u8]);
    assert(seq_wire(empty@, c) =~= Seq::<u8>::empty());
    assert(we =~= seq![1u8, 0u8]);
    lemma_varint_bytes_min(nonempty@.len());
    if nonempty@.len() < 0x80 {
        assert(vx[0] == nonempty@.len() as u8);
    } else {
        assert(vx[0] == (nonempty@.len() % 0x80 + 0x80) as u8);
    }
    assert(vx[0] != 0);
    assert(wx[1] == vx[0]);
    assert(we[1] != wx[1]);
}


/// A layout identifies its boolean: the round trip returns the value itself.
pub proof fn lemma_bool_wire_injective(a: bool, b: bool, c: Config)
    requires
        a.wire(c) == b.wire(c),
    ensures
        a == b,
{
    assert(bool_wire(a)[0] == bool_wire(b)[0]);
}

/// A layout identifies its byte.
pub proof fn lemma_u8_wire_injective(a: u8, b: u8, c: Config)
    requires
        a.wire(c) == b.wire(c),
    ensures
        a == b,
{
    assert(a.wire(c)[0] == a && b.wire(c)[0] == b);
    assert(a.wire(c)[0] == b.wire(c)[0]);
}

/// A layout identifies its two-byte integer.
pub proof fn lemma_u16_wire_injective(a: u16, b: u16, c: Config)
    requires
        a.wire(c) == b.wire(c),
    ensures
        a == b,
{
    lemma_u16_bytes(a, b, c.endianness);
}

/// A layout identifies its four-byte integer.
pub proof fn lemma_u32_wire_injective(a: u32, b: u32, c: Config)
    requires
        a.wire(c) == b.wire(c),
    ensures
        a == b,
{
    lemma_u32_bytes(a, b, c.endianness);
}

/// A layout identifies its eight-byte integer.
pub proof fn lemma_u64_wire_injective(a: u64, b: u64, c: Config)
    requires
        a.wire(c) == b.wire(c),
    ensures
        a == b,
{
    lemma_u64_bytes(a, b, c.endianness);
}

/// A layout identifies its signed byte.
pub proof fn lemma_i8_wire_injective(a: i8, b: i8, c: Config)
    requires
        a.wire(c) == b.wire(c),
    ensures
        a == b,
{
    assert(a.wire(c)[0] == (a as u8) && b.wire(c)[0] == (b as u8));
    assert(a as u8 == b as u8 ==> a == b) by (bit_vector);
}

/// A layout identifies its two-byte signed integer.
pub proof fn lemma_i16_wire_injective(a: i16, b: i16, c: Config)
    requires
        a.wire(c) == b.wire(c),
    ensures
        a == b,
{
    lemma_u16_bytes(a as u16, b as u16, c.endianness);
    assert(a as u16 == b as u16 ==> a == b) by (bit_vector);
}

/// A layout identifies its four-byte signed integer.
pub proof fn lemma_i32_wire_injective(a: i32, b: i32, c: Config)
    requires
        a.wire(c) == b.wire(c),
    ensures
        a == b,
{
    lemma_u32_bytes(a as u32, b as u32, c.endianness);
    assert(a as u32 == b as u32 ==> a == b) by (bit_vector);
}

/// A layout identifies its eight-byte signed integer.
pub proof fn lemma_i64_wire_injective(a: i64, b: i64, c: Config)
    requires
        a.wire(c) == b.wire(c),
    ensures
        a == b,
{
    lemma_u64_bytes(a as u64, b as u64, c.endianness);
    assert(a as u64 == b as u64 ==> a == b) by (bit_vector);
}

} // verus!
