//! The concrete two-record scenario: floats ride their IEEE-754 bit
//! patterns through the engine's four-byte writes.

use justcode_core::config::Config;
use justcode_core::{config, decode_from_slice, encode_to_vec, Decode, Encode, JustcodeError,
    Reader, Wire, Writer};
use vstd::prelude::Seq;

#[derive(PartialEq, Debug, Clone, Copy)]
struct Entity {
    x: f32,
    y: f32,
}

impl Wire for Entity {
    fn wire(&self, _: Config) -> Seq<u8> {
        unreachable!()
    }

    fn wire_min_len(&self, _: Config) {
        unreachable!()
    }

    fn wire_no_strict_prefix(&self, _: &Self, _: Config) {
        unreachable!()
    }
}

impl Encode for Entity {
    fn encode(&self, writer: &mut Writer) -> Result<(), JustcodeError> {
        writer.write_u32(self.x.to_bits())?;
        writer.write_u32(self.y.to_bits())
    }
}

impl Decode for Entity {
    fn decode(reader: &mut Reader) -> Result<Self, JustcodeError> {
        let x = f32::from_bits(reader.read_u32()?);
        let y = f32::from_bits(reader.read_u32()?);
        Ok(Entity { x, y })
    }
}

#[derive(PartialEq, Debug)]
struct World(Vec<Entity>);

impl Wire for World {
    fn wire(&self, _: Config) -> Seq<u8> {
        unreachable!()
    }

    fn wire_min_len(&self, _: Config) {
        unreachable!()
    }

    fn wire_no_strict_prefix(&self, _: &Self, _: Config) {
        unreachable!()
    }
}

impl Encode for World {
    fn encode(&self, writer: &mut Writer) -> Result<(), JustcodeError> {
        self.0.encode(writer)
    }
}

impl Decode for World {
    fn decode(reader: &mut Reader) -> Result<Self, JustcodeError> {
        Ok(World(Vec::<Entity>::decode(reader)?))
    }
}

#[test]
fn two_float_records_take_seventeen_bytes() {
    let config = config::standard();
    let world = World(vec![Entity { x: 0.0, y: 4.0 }, Entity { x: 10.0, y: 20.5 }]);
    let encoded = encode_to_vec(&world, config).unwrap();
    // 1 varint length byte (value 2) + 2 records * 2 floats * 4 bytes
    assert_eq!(encoded.len(), 17);
    assert_eq!(encoded[0], 2);
    let (decoded, n): (World, usize) = decode_from_slice(&encoded, config).unwrap();
    assert_eq!(decoded, world);
    assert_eq!(n, encoded.len());
}

fn world_bits(w: &World) -> Vec<u32> {
    let mut out = Vec::new();
    for e in &w.0 {
        out.push(e.x.to_bits());
        out.push(e.y.to_bits());
    }
    out
}

#[test]
fn any_single_bit_flip_is_visible() {
    let config = config::standard();
    let world = World(vec![Entity { x: 0.0, y: 4.0 }, Entity { x: 10.0, y: 20.5 }]);
    let encoded = encode_to_vec(&world, config).unwrap();
    for byte in 0..encoded.len() {
        for bit in 0..8 {
            let mut corrupt = encoded.clone();
            corrupt[byte] ^= 1u8 << bit;
            match decode_from_slice::<World>(&corrupt, config) {
                Ok((decoded, n)) => {
                    // never the original record bits back (float == would call
                    // 0.0 and the sign-flipped -0.0 equal; the bits differ)
                    assert!(world_bits(&decoded) != world_bits(&world) || n != encoded.len());
                },
                Err(_) => {},
            }
        }
    }
}
