//! The engine's own behavior: exact wire bytes, canonical varints,
//! truncation, limits, tags, and the closed error set.

use justcode_core::config;
use justcode_core::varint::{decode_length, decode_variant_tag, encode_length};
use justcode_core::{decode_from_slice, encode_into_slice, encode_to_vec, JustcodeError, Reader,
    Writer};

#[test]
fn round_trip_all_primitives() {
    let c = config::standard();
    assert_eq!(decode_from_slice(&encode_to_vec(&true, c).unwrap(), c).unwrap(), (true, 1));
    assert_eq!(decode_from_slice(&encode_to_vec(&0xabu8, c).unwrap(), c).unwrap(), (0xabu8, 1));
    assert_eq!(decode_from_slice(&encode_to_vec(&0xbeefu16, c).unwrap(), c).unwrap(), (0xbeefu16, 2));
    assert_eq!(decode_from_slice(&encode_to_vec(&0xdeadbeefu32, c).unwrap(), c).unwrap(), (0xdeadbeefu32, 4));
    assert_eq!(decode_from_slice(&encode_to_vec(&u64::MAX, c).unwrap(), c).unwrap(), (u64::MAX, 8));
    assert_eq!(decode_from_slice(&encode_to_vec(&-7i8, c).unwrap(), c).unwrap(), (-7i8, 1));
    assert_eq!(decode_from_slice(&encode_to_vec(&-300i16, c).unwrap(), c).unwrap(), (-300i16, 2));
    assert_eq!(decode_from_slice(&encode_to_vec(&i32::MIN, c).unwrap(), c).unwrap(), (i32::MIN, 4));
    assert_eq!(decode_from_slice(&encode_to_vec(&i64::MIN, c).unwrap(), c).unwrap(), (i64::MIN, 8));
    let s = String::from("hello");
    let bytes = encode_to_vec(&s, c).unwrap();
    assert_eq!(bytes, vec![5u8, b'h', b'e', b'l', b'l', b'o']);
    let (back, n): (String, usize) = decode_from_slice(&bytes, c).unwrap();
    assert_eq!((back.as_str(), n), ("hello", 6));
    let pair = (7u16, true);
    let pb = encode_to_vec(&pair, c).unwrap();
    assert_eq!(pb, vec![7u8, 0u8, 1u8]);
    assert_eq!(decode_from_slice(&pb, c).unwrap(), (pair, 3));
}

#[test]
fn endianness_changes_the_layout() {
    let le = config::standard();
    let be = config::standard().with_big_endian();
    assert_eq!(encode_to_vec(&0xdeadbeefu32, le).unwrap(), vec![0xef, 0xbe, 0xad, 0xde]);
    assert_eq!(encode_to_vec(&0xdeadbeefu32, be).unwrap(), vec![0xde, 0xad, 0xbe, 0xef]);
    let (v, _): (u32, usize) =
        decode_from_slice(&encode_to_vec(&0x01020304u32, be).unwrap(), be).unwrap();
    assert_eq!(v, 0x01020304);
}

#[test]
fn varint_layout_is_canonical() {
    let c = config::standard();
    for (value, expected) in [
        (0usize, vec![0u8]),
        (1, vec![1u8]),
        (127, vec![127u8]),
        (128, vec![0x80u8, 0x01]),
        (300, vec![0xacu8, 0x02]),
        (16384, vec![0x80u8, 0x80, 0x01]),
    ] {
        let mut w = Writer::new(c);
        encode_length(&mut w, value).unwrap();
        let bytes = w.into_vec();
        assert_eq!(bytes, expected);
        let mut r = Reader::new(&bytes, c);
        assert_eq!(decode_length(&mut r).unwrap(), value);
        assert_eq!(r.remaining(), 0);
    }
    let mut w = Writer::new(c);
    encode_length(&mut w, usize::MAX).unwrap();
    let bytes = w.into_vec();
    assert_eq!(bytes.len(), 10);
    let mut r = Reader::new(&bytes, c);
    assert_eq!(decode_length(&mut r).unwrap(), usize::MAX);
}

#[test]
fn varint_rejects_non_minimal_and_wide_forms() {
    let c = config::standard();
    for bad in [
        vec![0x80u8, 0x00],
        vec![0x81u8, 0x80, 0x00],
        vec![0xffu8, 0xff, 0xff, 0xff, 0xff, 0xff, 0xff, 0xff, 0xff, 0x02],
        vec![0x80u8, 0x80, 0x80, 0x80, 0x80, 0x80, 0x80, 0x80, 0x80, 0x80, 0x01],
    ] {
        let mut r = Reader::new(&bad, c);
        assert!(matches!(decode_length(&mut r), Err(JustcodeError::InvalidVarint)));
    }
    let truncated = [0x80u8, 0x80];
    let mut r = Reader::new(&truncated, c);
    assert!(matches!(decode_length(&mut r), Err(JustcodeError::UnexpectedEnd { .. })));
}

#[test]
fn truncation_never_yields_a_value() {
    let c = config::standard();
    let value = vec![1u32, 2, 3];
    let encoded = encode_to_vec(&value, c).unwrap();
    for cut in 0..encoded.len() {
        let r: Result<(Vec<u32>, usize), JustcodeError> = decode_from_slice(&encoded[..cut], c);
        assert!(matches!(r, Err(JustcodeError::UnexpectedEnd { .. })));
    }
    let text = String::from("hi");
    let encoded = encode_to_vec(&text, c).unwrap();
    for cut in 0..encoded.len() {
        let r: Result<(String, usize), JustcodeError> = decode_from_slice(&encoded[..cut], c);
        assert!(matches!(r, Err(JustcodeError::UnexpectedEnd { .. })));
    }
}

#[test]
fn out_of_range_tag_stops_before_the_fields() {
    let c = config::standard();
    let bytes = [5u8, 0xaa, 0xbb];
    let mut r = Reader::new(&bytes, c);
    let e = decode_variant_tag(&mut r, 2).unwrap_err();
    assert_eq!(e, JustcodeError::InvalidVariantIndex { tag: 5, declared_count: 2 });
    // exactly the one tag byte was consumed, no variant-field bytes
    assert_eq!(r.remaining(), 2);
    let mut r2 = Reader::new(&bytes, c);
    assert_eq!(decode_variant_tag(&mut r2, 6).unwrap(), 5);
}

#[test]
fn limits_stop_both_directions() {
    let c = config::standard().with_limit(4);
    let value = vec![1u32, 2, 3];
    assert!(matches!(
        encode_to_vec(&value, c),
        Err(JustcodeError::LimitExceeded { .. })
    ));
    let unlimited = config::standard();
    let encoded = encode_to_vec(&value, unlimited).unwrap();
    let r: Result<(Vec<u32>, usize), JustcodeError> = decode_from_slice(&encoded, c);
    assert!(matches!(r, Err(JustcodeError::LimitExceeded { .. })));
    // within the limit both directions go through
    let small = config::standard().with_limit(64);
    let enc2 = encode_to_vec(&value, small).unwrap();
    assert_eq!(decode_from_slice::<Vec<u32>>(&enc2, small).unwrap(), (value, enc2.len()));
}

#[test]
fn fixed_region_refuses_overflow_and_keeps_contents() {
    let c = config::standard();
    let mut region = vec![0xeeu8; 3];
    let e = encode_into_slice(&0xdeadbeefu32, &mut region, c).unwrap_err();
    assert!(matches!(e, JustcodeError::LimitExceeded { .. }));
    assert_eq!(region, vec![0xee, 0xee, 0xee]);
    let mut region = vec![0u8; 8];
    let n = encode_into_slice(&0x01020304u32, &mut region, c).unwrap();
    assert_eq!(n, 4);
    assert_eq!(region, vec![4, 3, 2, 1, 0, 0, 0, 0]);
}

#[test]
fn bool_and_text_reject_bad_bytes() {
    let c = config::standard();
    let r: Result<(bool, usize), JustcodeError> = decode_from_slice(&[7u8], c);
    assert_eq!(r.unwrap_err(), JustcodeError::InvalidBool { byte: 7 });
    let r: Result<(String, usize), JustcodeError> = decode_from_slice(&[2u8, 0xff, 0xfe], c);
    assert_eq!(r.unwrap_err(), JustcodeError::InvalidText);
    let r: Result<(Option<bool>, usize), JustcodeError> = decode_from_slice(&[9u8], c);
    assert_eq!(r.unwrap_err(), JustcodeError::InvalidVariantIndex { tag: 9, declared_count: 2 });
    let e = JustcodeError::custom(String::from("collaborator failure"));
    assert!(matches!(e, JustcodeError::Custom { .. }));
}

#[test]
fn optional_sequences_stay_distinguishable() {
    let c = config::standard();
    let none: Option<Vec<u32>> = None;
    let some_empty: Option<Vec<u32>> = Some(vec![]);
    let some_full: Option<Vec<u32>> = Some(vec![1]);
    let b0 = encode_to_vec(&none, c).unwrap();
    let b1 = encode_to_vec(&some_empty, c).unwrap();
    let b2 = encode_to_vec(&some_full, c).unwrap();
    assert_eq!(b0, vec![0u8]);
    assert_eq!(b1, vec![1u8, 0]);
    assert_ne!(b0, b1);
    assert_ne!(b1, b2);
    assert_ne!(b0, b2);
    assert_eq!(decode_from_slice(&b0, c).unwrap(), (none, b0.len()));
    assert_eq!(decode_from_slice(&b1, c).unwrap(), (some_empty, b1.len()));
    assert_eq!(decode_from_slice(&b2, c).unwrap(), (some_full, b2.len()));
}

#[test]
fn reencoding_a_decoded_varint_reproduces_the_bytes() {
    let c = config::standard();
    let bytes = [0xacu8, 0x02, 0x99];
    let mut r = Reader::new(&bytes, c);
    let v = decode_length(&mut r).unwrap();
    assert_eq!(v, 300);
    assert_eq!(r.remaining(), 1);
    let mut w = Writer::new(c);
    encode_length(&mut w, v).unwrap();
    assert_eq!(w.into_vec(), bytes[..2].to_vec());
}

#[test]
fn consumed_count_frames_back_to_back_records() {
    let c = config::standard();
    let mut stream = encode_to_vec(&(1u16, true), c).unwrap();
    stream.extend(encode_to_vec(&(2u16, false), c).unwrap());
    let (first, n): ((u16, bool), usize) = decode_from_slice(&stream, c).unwrap();
    assert_eq!(first, (1, true));
    let (second, m): ((u16, bool), usize) = decode_from_slice(&stream[n..], c).unwrap();
    assert_eq!(second, (2, false));
    assert_eq!(n + m, stream.len());
}
