//! Round trips through the growable-buffer entry points, as a no-std
//! caller would drive them: plain values in, plain values out.

use justcode_core::config::Config;
use justcode_core::{config, decode_from_slice, encode_to_vec, Decode, Encode, JustcodeError,
    Reader, Wire, Writer};
use vstd::prelude::Seq;

#[derive(PartialEq, Debug, Clone, Copy)]
struct SimpleStruct {
    value: u32,
    flag: bool,
}

impl Wire for SimpleStruct {
    fn wire(&self, _: Config) -> Seq<u8> {
        unreachable!()
    }

    fn wire_min_len(&self, _: Config) {
        unreachable!()
    }

    fn wire_no_strict_prefix(&self, _: &Self, _: Config) {
        unreachable!()
    }
}

impl Encode for SimpleStruct {
    fn encode(&self, writer: &mut Writer) -> Result<(), JustcodeError> {
        self.value.encode(writer)?;
        self.flag.encode(writer)
    }
}

impl Decode for SimpleStruct {
    fn decode(reader: &mut Reader) -> Result<Self, JustcodeError> {
        Ok(SimpleStruct { value: u32::decode(reader)?, flag: bool::decode(reader)? })
    }
}

#[test]
fn test_no_std_vec_encode_decode() {
    let config = config::standard();

    let value = vec![1u32, 2, 3, 4, 5];
    let encoded = encode_to_vec(&value, config).unwrap();
    let (decoded, _): (Vec<u32>, usize) = decode_from_slice(&encoded, config).unwrap();

    assert_eq!(value, decoded);
}

#[test]
fn test_no_std_empty_vec() {
    let config = config::standard();

    let value: Vec<u32> = Vec::new();
    let encoded = encode_to_vec(&value, config).unwrap();
    let (decoded, _): (Vec<u32>, usize) = decode_from_slice(&encoded, config).unwrap();

    assert_eq!(value, decoded);
}

#[test]
fn test_no_std_struct_with_vec() {
    let config = config::standard();

    let data = SimpleStruct { value: 42, flag: true };

    let vec_data = vec![data, data];
    let encoded = encode_to_vec(&vec_data, config).unwrap();
    let (decoded, _): (Vec<SimpleStruct>, usize) = decode_from_slice(&encoded, config).unwrap();

    assert_eq!(vec_data, decoded);
}

#[test]
fn test_no_std_option_with_vec() {
    let config = config::standard();

    let value: Option<Vec<u32>> = Some(vec![1, 2, 3]);
    let encoded = encode_to_vec(&value, config).unwrap();
    let (decoded, _): (Option<Vec<u32>>, usize) = decode_from_slice(&encoded, config).unwrap();

    assert_eq!(value, decoded);
}

#[test]
fn test_no_std_large_vec() {
    let config = config::standard();

    let mut value = Vec::new();
    for i in 0..100 {
        value.push(i as u32);
    }

    let encoded = encode_to_vec(&value, config).unwrap();
    let (decoded, _): (Vec<u32>, usize) = decode_from_slice(&encoded, config).unwrap();

    assert_eq!(value, decoded);
}
