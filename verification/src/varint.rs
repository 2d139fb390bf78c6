//! Canonical variable-length integer codec for lengths and sum-type tags.
//!
//! A value is laid out seven payload bits per byte, least-significant group
//! first; the high bit of every byte but the last is set. Exactly one
//! encoding exists per value: a trailing zero group (a non-minimal form) or
//! a value too wide for the machine is rejected as `InvalidVarint`.

use vstd::prelude::*;
use crate::error::JustcodeError;
use crate::reader::Reader;
use crate::writer::Writer;

verus! {

broadcast use vstd::seq::group_seq_axioms;

/// The canonical byte layout of `n`: seven bits per byte, low group first,
/// high bit marking continuation.
pub open spec fn varint_bytes(n: nat) -> Seq<u8>
    decreases n,
{
    if n < 0x80 {
        seq![n as u8]
    } else {
        seq![(n % 0x80 + 0x80) as u8] + varint_bytes(n / 0x80)
    }
}

/// What reading a varint from the front of `s` yields.
pub enum VarintParse {
    /// A canonical encoding of `value`, `len` bytes long, starts `s`.
    Value { value: int, len: int },
    /// `s` ends inside the varint.
    Incomplete,
    /// The leading bytes are a non-minimal or too-wide varint.
    Invalid,
}

/// Read one varint from the front of `s`: the decoded value and the bytes it
/// spans, or why there is none.
pub open spec fn varint_parse(s: Seq<u8>) -> VarintParse
    decreases s.len(),
{
    if s.len() == 0 {
        VarintParse::Incomplete
    } else if s[0] < 0x80 {
        VarintParse::Value { value: s[0] as int, len: 1 }
    } else {
        match varint_parse(s.drop_first()) {
            VarintParse::Value { value, len } => {
                if value == 0 {
                    VarintParse::Invalid
                } else if (s[0] - 0x80) + 0x80 * value > usize::MAX as int {
                    VarintParse::Invalid
                } else {
                    VarintParse::Value { value: (s[0] - 0x80) + 0x80 * value, len: len + 1 }
                }
            },
            other => other,
        }
    }
}

/// 128 raised to `i`.
pub open spec fn pow128(i: nat) -> int
    decreases i,
{
    if i == 0 {
        1
    } else {
        128 * pow128((i - 1) as nat)
    }
}

/// The value carried by a run of continuation bytes, low group first.
pub open spec fn payload(s: Seq<u8>) -> int
    decreases s.len(),
{
    if s.len() == 0 {
        0
    } else {
        (s[0] - 0x80) + 128 * payload(s.drop_first())
    }
}

/// Powers of 128 are positive and monotonic.
pub proof fn lemma_pow128_mono(a: nat, b: nat)
    requires
        a <= b,
    ensures
        1 <= pow128(a) <= pow128(b),
    decreases b,
{
    if b == 0 {
    } else {
        lemma_pow128_mono(0, (b - 1) as nat);
        if a <= b - 1 {
            lemma_pow128_mono(a, (b - 1) as nat);
        }
    }
}

/// A run of continuation bytes carries a non-negative value below
/// 128 to the run's length.
pub proof fn lemma_payload_bound(s: Seq<u8>)
    requires
        forall|j: int| 0 <= j < s.len() ==> s[j] >= 0x80,
    ensures
        0 <= payload(s) < pow128(s.len()),
    decreases s.len(),
{
    if s.len() == 0 {
    } else {
        lemma_payload_bound(s.drop_first());
        let p = payload(s.drop_first());
        let m = pow128((s.len() - 1) as nat);
        assert(payload(s) == (s[0] - 0x80) + 128 * p);
        assert(128 * p <= 128 * (m - 1)) by (nonlinear_arith)
            requires p <= m - 1;
        assert(128 * p >= 0) by (nonlinear_arith)
            requires p >= 0;
    }
}

/// Appending one continuation byte adds its group at the next weight.
pub proof fn lemma_payload_snoc(s: Seq<u8>, b: u8)
    ensures
        payload(s + seq![b]) == payload(s) + (b - 0x80) * pow128(s.len()),
    decreases s.len(),
{
    let t = s + seq![b];
    if s.len() == 0 {
        assert(t.len() == 1 && t[0] == b);
        assert(payload(t.drop_first()) == 0) by {
            assert(t.drop_first().len() == 0);
        }
    } else {
        assert(t.drop_first() =~= s.drop_first() + seq![b]);
        lemma_payload_snoc(s.drop_first(), b);
        let p = payload(s.drop_first());
        let m = pow128((s.len() - 1) as nat);
        assert(128 * (p + (b - 0x80) * m) == 128 * p + (b - 0x80) * (128 * m))
            by (nonlinear_arith);
    }
}

/// A successful parse yields a machine-representable value spanning at least
/// one byte of `s`.
pub proof fn lemma_parse_value_bounds(s: Seq<u8>)
    requires
        varint_parse(s) matches VarintParse::Value { .. },
    ensures
        varint_parse(s) matches VarintParse::Value { value, len } ==> 0 <= value
            <= usize::MAX as int && 1 <= len <= s.len(),
    decreases s.len(),
{
    if s.len() == 0 {
    } else if s[0] < 0x80 {
    } else {
        match varint_parse(s.drop_first()) {
            VarintParse::Value { value, len } => {
                lemma_parse_value_bounds(s.drop_first());
                if value != 0 && (s[0] - 0x80) + 0x80 * value <= usize::MAX as int {
                    assert(0x80 * value >= 0) by (nonlinear_arith)
                        requires value >= 0;
                }
            },
            _ => {},
        }
    }
}

/// Reading past `i` leading continuation bytes: the parse of `s` is the
/// parse of the tail, shifted up by the run's payload, with non-minimal and
/// too-wide forms rejected.
pub proof fn lemma_parse_continuations(s: Seq<u8>, i: int)
    requires
        0 <= i <= s.len(),
        forall|j: int| 0 <= j < i ==> s[j] >= 0x80,
    ensures
        varint_parse(s) == (match varint_parse(s.skip(i)) {
            VarintParse::Incomplete => VarintParse::Incomplete,
            VarintParse::Invalid => VarintParse::Invalid,
            VarintParse::Value { value, len } => {
                if i > 0 && value == 0 {
                    VarintParse::Invalid
                } else if payload(s.take(i)) + value * pow128(i as nat) > usize::MAX as int {
                    VarintParse::Invalid
                } else {
                    (VarintParse::Value {
                        value: payload(s.take(i)) + value * pow128(i as nat),
                        len: i + len,
                    })
                }
            },
        }),
    decreases i,
{
    if i == 0 {
        assert(s.skip(0) =~= s);
        assert(s.take(0).len() == 0);
        match varint_parse(s) {
            VarintParse::Value { value, len } => {
                lemma_parse_value_bounds(s);
                assert(value * pow128(0) == value) by (nonlinear_arith);
            },
            _ => {},
        }
    } else {
        let tail = s.drop_first();
        assert(tail.skip(i - 1) =~= s.skip(i));
        lemma_parse_continuations(tail, i - 1);
        assert(s.take(i)[0] == s[0]);
        assert(s.take(i).drop_first() =~= tail.take(i - 1));
        let pl = payload(tail.take(i - 1));
        assert(payload(s.take(i)) == (s[0] - 0x80) + 128 * pl);
        lemma_payload_bound(tail.take(i - 1));
        lemma_pow128_mono(0, (i - 1) as nat);
        match varint_parse(s.skip(i)) {
            VarintParse::Value { value, len } => {
                lemma_parse_value_bounds(s.skip(i));
                let m = pow128((i - 1) as nat);
                let v1 = pl + value * m;
                assert(value * m >= 0) by (nonlinear_arith)
                    requires value >= 0, m >= 0;
                if i - 1 > 0 && value == 0 {
                    // the inner run already rejects a trailing zero group
                } else if v1 > usize::MAX as int {
                    // too wide one level down stays too wide
                    assert((s[0] - 0x80) + 128 * v1 > usize::MAX as int) by (nonlinear_arith)
                        requires v1 > usize::MAX as int, s[0] >= 0x80;
                    assert(payload(s.take(i)) + value * pow128(i as nat) > usize::MAX as int)
                        by (nonlinear_arith)
                        requires
                            payload(s.take(i)) == (s[0] - 0x80) + 128 * pl,
                            pl + value * m > usize::MAX as int,
                            pow128(i as nat) == 128 * m,
                            s[0] >= 0x80;
                } else {
                    if value == 0 {
                        // only a one-byte tail can carry zero; the byte before
                        // it makes the form non-minimal
                        assert(value * m == 0) by (nonlinear_arith)
                            requires value == 0;
                        assert(v1 == pl);
                        if i - 1 == 0 {
                            assert(v1 == 0);
                        }
                    } else {
                        assert(v1 >= m) by (nonlinear_arith)
                            requires v1 == pl + value * m, value >= 1, m >= 1, pl >= 0;
                        assert((s[0] - 0x80) + 128 * v1 == payload(s.take(i)) + value * pow128(
                            i as nat)) by (nonlinear_arith)
                            requires
                                payload(s.take(i)) == (s[0] - 0x80) + 128 * pl,
                                v1 == pl + value * m,
                                pow128(i as nat) == 128 * m;
                    }
                }
            },
            _ => {},
        }
    }
}

/// Parsing an encoding placed before anything else finds exactly that value
/// and consumes exactly its bytes.
pub proof fn lemma_varint_parse_encoding(n: nat, rest: Seq<u8>)
    requires
        n <= usize::MAX as nat,
    ensures
        1 <= varint_bytes(n).len(),
        varint_parse(varint_bytes(n) + rest) == (VarintParse::Value {
            value: n as int,
            len: varint_bytes(n).len() as int,
        }),
    decreases n,
{
    let s = varint_bytes(n) + rest;
    if n < 0x80 {
        assert(s[0] == n as u8);
    } else {
        assert(s[0] == (n % 0x80 + 0x80) as u8);
        assert(s.drop_first() =~= varint_bytes(n / 0x80) + rest);
        lemma_varint_parse_encoding(n / 0x80, rest);
        assert(n / 0x80 >= 1);
        assert((s[0] - 0x80) + 0x80 * ((n / 0x80) as int) == n) by {
            vstd::arithmetic::div_mod::lemma_fundamental_div_mod(n as int, 0x80);
        }
    }
}

/// A successful parse consumes exactly the canonical encoding of its value:
/// re-encoding what was read reproduces the very same bytes.
pub proof fn lemma_varint_parse_sound(s: Seq<u8>)
    requires
        varint_parse(s) matches VarintParse::Value { .. },
    ensures
        varint_parse(s) matches VarintParse::Value { value, len } ==> 0 <= value
            <= usize::MAX as int && 1 <= len <= s.len() && s.take(len) == varint_bytes(
            value as nat) && varint_bytes(value as nat).len() == len,
    decreases s.len(),
{
    lemma_parse_value_bounds(s);
    if s.len() == 0 {
    } else if s[0] < 0x80 {
        assert(s.take(1) =~= varint_bytes(s[0] as nat));
    } else {
        match varint_parse(s.drop_first()) {
            VarintParse::Value { value, len } => {
                lemma_varint_parse_sound(s.drop_first());
                if value != 0 && (s[0] - 0x80) + 0x80 * value <= usize::MAX as int {
                    let v = (s[0] - 0x80) + 0x80 * value;
                    assert(0x80 * value >= 0x80) by (nonlinear_arith)
                        requires value >= 1;
                    assert(v as nat % 0x80 == (s[0] - 0x80) as nat && v as nat / 0x80
                        == value as nat) by {
                        vstd::arithmetic::div_mod::lemma_fundamental_div_mod_converse(
                            v as int, 0x80, value, (s[0] - 0x80) as int);
                    }
                    assert(varint_bytes(v as nat) == seq![s[0]] + varint_bytes(value as nat));
                    assert(s.drop_first().take(len) == varint_bytes(value as nat));
                    assert(s.take(len + 1) =~= seq![s[0]] + s.drop_first().take(len));
                }
            },
            _ => {},
        }
    }
}

/// An encoding is never empty.
pub proof fn lemma_varint_bytes_min(n: nat)
    ensures
        varint_bytes(n).len() >= 1,
{
    if n < 0x80 {
    } else {
        assert(varint_bytes(n) == seq![(n % 0x80 + 0x80) as u8] + varint_bytes(n / 0x80));
    }
}

/// Distinct values never share an encoding.
pub proof fn lemma_varint_bytes_injective(a: nat, b: nat)
    requires
        a <= usize::MAX as nat,
        b <= usize::MAX as nat,
        varint_bytes(a) == varint_bytes(b),
    ensures
        a == b,
{
    lemma_varint_parse_encoding(a, Seq::<u8>::empty());
    lemma_varint_parse_encoding(b, Seq::<u8>::empty());
    assert(varint_bytes(a) + Seq::<u8>::empty() =~= varint_bytes(b) + Seq::<u8>::empty());
}

/// The front `i` places of `s`, place by place.
pub proof fn lemma_take_facts(s: Seq<u8>, i: int)
    requires
        0 <= i <= s.len(),
    ensures
        s.take(i).len() == i,
        forall|j: int| 0 <= j < i ==> s.take(i)[j] == s[j],
{
}

/// What remains of `s` past `i` places, place by place.
pub proof fn lemma_skip_facts(s: Seq<u8>, i: int)
    requires
        0 <= i <= s.len(),
    ensures
        s.skip(i).len() == s.len() - i,
        forall|j: int| 0 <= j < s.len() - i ==> s.skip(i)[j] == s[i + j],
{
}

/// Encode `value` canonically into `writer`.
///
/// Succeeds exactly when the encoding still fits the capacity; on failure
/// the sink is unchanged.
pub fn encode_length(writer: &mut Writer, value: usize) -> (r: Result<(), JustcodeError>)
    requires
        old(writer).wf(),
    ensures
        final(writer).wf(),
        final(writer).cap_spec() == old(writer).cap_spec(),
        final(writer).config_spec() == old(writer).config_spec(),
        r matches Ok(_) <==> old(writer)@.len() + varint_bytes(value as nat).len() <= old(
            writer).cap_spec(),
        r matches Ok(_) ==> final(writer)@ == old(writer)@ + varint_bytes(value as nat),
        r matches Err(e) ==> final(writer)@ == old(writer)@ && e == (JustcodeError::LimitExceeded {
            limit: old(writer).cap_spec() as usize,
            requested: varint_bytes(value as nat).len() as usize,
        }),
{
    let mut buf: Vec<u8> = Vec::new();
    let mut cur: usize = value;
    proof {
        assert(buf@ + varint_bytes(cur as nat) =~= varint_bytes(value as nat));
    }
    while cur >= 0x80
        invariant
            varint_bytes(value as nat) == buf@ + varint_bytes(cur as nat),
        decreases cur,
    {
        buf.push((cur % 0x80 + 0x80) as u8);
        proof {
            assert(varint_bytes(cur as nat) == seq![(cur % 0x80 + 0x80) as u8] + varint_bytes(
                (cur / 0x80) as nat));
            assert(buf@ + varint_bytes((cur / 0x80) as nat) =~= varint_bytes(value as nat));
        }
        cur = cur / 0x80;
    }
    buf.push(cur as u8);
    proof {
        assert(varint_bytes(cur as nat) =~= seq![cur as u8]);
        assert(buf@ =~= varint_bytes(value as nat));
    }
    writer.write_bytes(buf.as_slice())
}

/// Decode one canonical varint from the cursor.
///
/// On success the cursor steps over exactly the encoding; any failure leaves
/// it where it was. A non-minimal or too-wide form is `InvalidVarint`;
/// running out of readable bytes mid-varint is `UnexpectedEnd` (or
/// `LimitExceeded` when only the configured limit cut the region short).
#[verifier::loop_isolation(false)]
pub fn decode_length(reader: &mut Reader) -> (r: Result<usize, JustcodeError>)
    requires
        old(reader).wf(),
    ensures
        final(reader).wf(),
        final(reader).data() == old(reader).data(),
        final(reader).cap_spec() == old(reader).cap_spec(),
        final(reader).config_spec() == old(reader).config_spec(),
        (match varint_parse(old(reader).readable()) {
            VarintParse::Value { value, len } => r == Ok::<usize, JustcodeError>(value as usize)
                && final(reader).pos_spec() == old(reader).pos_spec() + len,
            VarintParse::Incomplete => final(reader).pos_spec() == old(reader).pos_spec() && r
                == Err::<usize, JustcodeError>(
                if old(reader).cap_spec() == old(reader).data().len() {
                    JustcodeError::UnexpectedEnd { needed: 1usize, available: 0usize }
                } else {
                    JustcodeError::LimitExceeded {
                        limit: old(reader).cap_spec() as usize,
                        requested: 1usize,
                    }
                },
            ),
            VarintParse::Invalid => final(reader).pos_spec() == old(reader).pos_spec() && r
                == Err::<usize, JustcodeError>(JustcodeError::InvalidVarint),
        }),
{
    let ghost rd = old(reader).readable();
    let mut value: usize = 0;
    let mut mult: usize = 1;
    let mut i: usize = 0;
    let mut wide: bool = false;
    proof {
        old(reader).lemma_readable();
        lemma_take_facts(rd, 0);
    }
    loop
        invariant
            old(reader).wf(),
            reader.wf(),
            reader.data() == old(reader).data(),
            reader.pos_spec() == old(reader).pos_spec(),
            reader.cap_spec() == old(reader).cap_spec(),
            reader.config_spec() == old(reader).config_spec(),
            rd == old(reader).readable(),
            i <= rd.len(),
            forall|j: int| 0 <= j < i ==> rd[j] >= 0x80,
            !wide ==> mult == pow128(i as nat) && value == payload(rd.take(i as int)),
            wide ==> i >= 1 && payload(rd.take(i as int)) + pow128(i as nat) > usize::MAX as int,
        decreases rd.len() - i,
    {
        proof {
            old(reader).lemma_readable();
            lemma_take_facts(rd, i as int);
            lemma_skip_facts(rd, i as int);
            lemma_payload_bound(rd.take(i as int));
        }
        match reader.peek(i) {
            None => {
                proof {
                    assert(i == rd.len());
                    assert(rd.skip(i as int).len() == 0);
                    lemma_parse_continuations(rd, i as int);
                }
                if i >= reader.remaining() {
                    return Err(JustcodeError::UnexpectedEnd { needed: 1, available: 0 });
                } else {
                    return Err(JustcodeError::LimitExceeded {
                        limit: reader.cap_exec(),
                        requested: 1,
                    });
                }
            },
            Some(b) => {
                let ghost pl = payload(rd.take(i as int));
                let ghost pw = pow128(i as nat);
                proof {
                    assert(i < rd.len());
                    assert(rd[i as int] == b);
                    assert(rd.skip(i as int)[0] == rd[i as int]);
                }
                if b < 0x80 {
                    proof {
                        assert(varint_parse(rd.skip(i as int)) == (VarintParse::Value {
                            value: b as int,
                            len: 1,
                        }));
                        lemma_parse_continuations(rd, i as int);
                    }
                    if i > 0 && b == 0 {
                        return Err(JustcodeError::InvalidVarint);
                    }
                    if wide {
                        proof {
                            assert(pl + (b as int) * pw > usize::MAX as int) by (nonlinear_arith)
                                requires
                                    pl + pw > usize::MAX as int,
                                    pl >= 0,
                                    pw >= 1,
                                    b >= 1;
                        }
                        return Err(JustcodeError::InvalidVarint);
                    }
                    let pm = match (b as usize).checked_mul(mult) {
                        Some(x) => x,
                        None => {
                            proof {
                                assert(pl + (b as int) * pw > usize::MAX as int);
                            }
                            return Err(JustcodeError::InvalidVarint);
                        },
                    };
                    let total = match value.checked_add(pm) {
                        Some(x) => x,
                        None => {
                            proof {
                                assert(pl + (b as int) * pw > usize::MAX as int);
                            }
                            return Err(JustcodeError::InvalidVarint);
                        },
                    };
                    proof {
                        assert(total == pl + (b as int) * pw);
                        assert(i + 1 <= rd.len());
                        assert(rd.len() <= usize::MAX as int);
                    }
                    reader.advance(i + 1);
                    return Ok(total);
                } else {
                    proof {
                        lemma_payload_snoc(rd.take(i as int), b);
                        lemma_take_facts(rd, i as int + 1);
                        assert(rd.take(i as int) + seq![b] =~= rd.take(i as int + 1));
                        assert(payload(rd.take(i as int + 1)) == pl + ((b - 0x80) as int) * pw);
                        assert(i + 1 <= rd.len());
                        assert(rd.len() <= usize::MAX as int);
                    }
                    if wide {
                        proof {
                            assert(payload(rd.take(i as int + 1)) + pow128((i + 1) as nat)
                                > usize::MAX as int) by (nonlinear_arith)
                                requires
                                    payload(rd.take(i as int + 1)) == pl + ((b - 0x80) as int)
                                        * pw,
                                    pl + pw > usize::MAX as int,
                                    pow128((i + 1) as nat) == 128 * pw,
                                    b >= 0x80,
                                    pw >= 1;
                        }
                        i = i + 1;
                    } else {
                        let p = (b - 0x80) as usize;
                        let mut overflowed = false;
                        match p.checked_mul(mult) {
                            Some(pm) => {
                                match value.checked_add(pm) {
                                    Some(v2) => {
                                        value = v2;
                                        match mult.checked_mul(128) {
                                            Some(m2) => {
                                                mult = m2;
                                            },
                                            None => {
                                                overflowed = true;
                                                proof {
                                                    assert(payload(rd.take(i as int + 1))
                                                        + pow128((i + 1) as nat)
                                                        > usize::MAX as int);
                                                }
                                            },
                                        }
                                    },
                                    None => {
                                        overflowed = true;
                                        proof {
                                            assert(payload(rd.take(i as int + 1)) + pow128(
                                                (i + 1) as nat) > usize::MAX as int)
                                                by (nonlinear_arith)
                                                requires
                                                    payload(rd.take(i as int + 1))
                                                        > usize::MAX as int,
                                                    pow128((i + 1) as nat) >= 1;
                                        }
                                    },
                                }
                            },
                            None => {
                                overflowed = true;
                                proof {
                                    assert(payload(rd.take(i as int + 1)) + pow128(
                                        (i + 1) as nat) > usize::MAX as int) by (nonlinear_arith)
                                        requires
                                            payload(rd.take(i as int + 1)) == pl + (
                                            (b - 0x80) as int) * pw,
                                            ((b - 0x80) as int) * (pw as int)
                                                > usize::MAX as int,
                                            pl >= 0,
                                            pow128((i + 1) as nat) >= 1,
                                            pw >= 1;
                                }
                            },
                        }
                        if overflowed {
                            wide = true;
                        }
                        i = i + 1;
                    }
                }
            },
        }
    }
}

/// Decode a sum-type tag and hold it against the declared variant count.
///
/// A tag at or past `declared_count` is `InvalidVariantIndex`; the cursor
/// then rests just past the tag, so no variant-field bytes are consumed.
pub fn decode_variant_tag(reader: &mut Reader, declared_count: usize) -> (r: Result<
    usize,
    JustcodeError,
>)
    requires
        old(reader).wf(),
    ensures
        final(reader).wf(),
        final(reader).data() == old(reader).data(),
        final(reader).cap_spec() == old(reader).cap_spec(),
        final(reader).config_spec() == old(reader).config_spec(),
        (match varint_parse(old(reader).readable()) {
            VarintParse::Value { value, len } => final(reader).pos_spec() == old(
                reader).pos_spec() + len && r == (if value < declared_count {
                Ok::<usize, JustcodeError>(value as usize)
            } else {
                Err::<usize, JustcodeError>(JustcodeError::InvalidVariantIndex {
                    tag: value as usize,
                    declared_count,
                })
            }),
            VarintParse::Incomplete => final(reader).pos_spec() == old(reader).pos_spec() && r
                == Err::<usize, JustcodeError>(
                if old(reader).cap_spec() == old(reader).data().len() {
                    JustcodeError::UnexpectedEnd { needed: 1usize, available: 0usize }
                } else {
                    JustcodeError::LimitExceeded {
                        limit: old(reader).cap_spec() as usize,
                        requested: 1usize,
                    }
                },
            ),
            VarintParse::Invalid => final(reader).pos_spec() == old(reader).pos_spec() && r
                == Err::<usize, JustcodeError>(JustcodeError::InvalidVarint),
        }),
{
    match decode_length(reader) {
        Ok(tag) => {
            proof {
                lemma_parse_value_bounds(old(reader).readable());
            }
            if tag < declared_count {
                Ok(tag)
            } else {
                Err(JustcodeError::InvalidVariantIndex { tag, declared_count })
            }
        },
        Err(e) => Err(e),
    }
}

} // verus!

