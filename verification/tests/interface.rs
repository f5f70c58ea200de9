//! Configuration composition, struct and variant framing, the typed decoder
//! operations, the raw-string envelopes, and the borrowed reader.

use rmp_serde::config::{
    BinaryConfig, DefaultConfig, HumanReadableConfig, SerializerConfig, StructMapConfig,
    StructTupleConfig,
};
use rmp_serde::decode::{Deserializer, EnumShape, RemainingCount};
use rmp_serde::encode::{
    write_struct_field, write_struct_len, write_unit_struct, write_value, write_variant,
    write_variant_ident,
};
use rmp_serde::error::Error;
use rmp_serde::marker::Marker;
use rmp_serde::raw::{Raw, RawRef};
use rmp_serde::read::{BytesReadError, ReadRefReader, ReadSlice, Reference};
use rmp_serde::value::Value;

#[test]
fn test_as_ref_reader() {
    let buf = [0, 1, 2, 3, 4, 5, 6, 7, 8, 9, 10];
    let mut rd = ReadRefReader::new(&buf);

    assert_eq!(rd.read_slice(1).unwrap(), Reference::Borrowed(&[0][..]));
    assert_eq!(rd.read_slice(6).unwrap(), Reference::Borrowed(&[1, 2, 3, 4, 5, 6][..]));
    assert!(rd.read_slice(5).is_err());
    assert_eq!(rd.read_slice(4).unwrap(), Reference::Borrowed(&[7, 8, 9, 10][..]));
}

#[test]
fn short_reads_report_sizes_and_consume_nothing() {
    let buf = [1, 2, 3];
    let mut rd = ReadRefReader::new(&buf);
    match rd.read_slice(5) {
        Err(BytesReadError::InsufficientBytes { expected, actual, position }) => {
            assert_eq!(expected, 5);
            assert_eq!(actual, 3);
            assert_eq!(position, 0);
        }
        other => panic!("expected a short-read error, got {:?}", other),
    }
    assert_eq!(rd.read_slice(3).unwrap(), Reference::Borrowed(&[1, 2, 3][..]));
}

#[test]
fn struct_framing_default_config() {
    let cfg = DefaultConfig;
    let mut buf: Vec<u8> = Vec::new();
    write_struct_len(&cfg, &mut buf, 2);
    write_struct_field(&cfg, &mut buf, "name", &Value::Str(&b"Bobby"[..])).unwrap();
    write_struct_field(&cfg, &mut buf, "age", &Value::Uint(8)).unwrap();
    assert_eq!(buf, vec![0x92, 0xa5, 0x42, 0x6f, 0x62, 0x62, 0x79, 0x08]);

    let mut de = Deserializer::from_bytes(&buf);
    assert_eq!(
        de.read_value().unwrap(),
        Value::Array(vec![Value::Str(&b"Bobby"[..]), Value::Uint(8)])
    );
}

#[test]
fn struct_framing_struct_map_config() {
    let cfg = StructMapConfig::new(DefaultConfig);
    let mut buf: Vec<u8> = Vec::new();
    write_struct_len(&cfg, &mut buf, 2);
    write_struct_field(&cfg, &mut buf, "name", &Value::Str(&b"Bobby"[..])).unwrap();
    write_struct_field(&cfg, &mut buf, "age", &Value::Uint(8)).unwrap();
    assert_eq!(
        buf,
        vec![
            0x82, 0xa4, 0x6e, 0x61, 0x6d, 0x65, 0xa5, 0x42, 0x6f, 0x62, 0x62, 0x79, 0xa3, 0x61,
            0x67, 0x65, 0x08
        ]
    );

    let mut de = Deserializer::from_bytes(&buf);
    assert_eq!(
        de.read_value().unwrap(),
        Value::Mapping(vec![
            (Value::Str(&b"name"[..]), Value::Str(&b"Bobby"[..])),
            (Value::Str(&b"age"[..]), Value::Uint(8)),
        ])
    );
}

#[test]
fn struct_framing_struct_tuple_overrides_map() {
    let cfg = StructTupleConfig::new(StructMapConfig::new(DefaultConfig));
    let mut buf: Vec<u8> = Vec::new();
    write_struct_len(&cfg, &mut buf, 1);
    write_struct_field(&cfg, &mut buf, "x", &Value::Uint(7)).unwrap();
    assert_eq!(buf, vec![0x91, 0x07]);
}

#[test]
fn variant_framing() {
    let cfg = DefaultConfig;
    let mut buf: Vec<u8> = Vec::new();
    write_variant(&cfg, &mut buf, 1, "B", &Value::Uint(5)).unwrap();
    assert_eq!(buf, vec![0x81, 0xa1, 0x42, 0x05]);

    let mut unit_buf: Vec<u8> = Vec::new();
    write_variant_ident(&cfg, &mut unit_buf, 0, "A");
    assert_eq!(unit_buf, vec![0xa1, 0x41]);
}

#[test]
fn unit_struct_encodes_as_empty_array() {
    let mut buf: Vec<u8> = Vec::new();
    write_unit_struct(&mut buf);
    assert_eq!(buf, vec![0x90]);
}

#[test]
fn human_readable_flag_outermost_wins() {
    assert!(!DefaultConfig.is_human_readable());
    assert!(HumanReadableConfig::new(DefaultConfig).is_human_readable());
    assert!(!BinaryConfig::new(HumanReadableConfig::new(DefaultConfig)).is_human_readable());
    assert!(HumanReadableConfig::new(BinaryConfig::new(DefaultConfig)).is_human_readable());
    assert!(StructMapConfig::new(HumanReadableConfig::new(DefaultConfig)).is_human_readable());
}

#[test]
fn deserializer_human_readable_toggles() {
    let buf = [0xc0];
    let de = Deserializer::from_bytes(&buf);
    assert!(!de.is_human_readable());
    let de = de.with_human_readable();
    assert!(de.is_human_readable());
    let de = de.with_binary();
    assert!(!de.is_human_readable());
}

#[test]
fn option_header_nil_versus_value() {
    let mut de = Deserializer::from_bytes(&[0xc0]);
    assert_eq!(de.read_option_header().unwrap(), false);

    let mut de2 = Deserializer::from_bytes(&[0x05]);
    assert_eq!(de2.read_option_header().unwrap(), true);
    assert_eq!(de2.read_value().unwrap(), Value::Uint(5));
}

#[test]
fn option_header_keeps_marker_for_nested_options() {
    // The stashed marker serves every nesting level until the value is read.
    let mut de = Deserializer::from_bytes(&[0x2a]);
    assert_eq!(de.read_option_header().unwrap(), true);
    assert_eq!(de.read_option_header().unwrap(), true);
    assert_eq!(de.read_value().unwrap(), Value::Uint(42));
}

#[test]
fn enum_shape_dispatch() {
    // A one-entry map opens a compound variant.
    let mut de = Deserializer::from_bytes(&[0x81, 0xa1, 0x42, 0x05]);
    assert_eq!(de.read_enum_shape().unwrap(), EnumShape::Compound);
    assert_eq!(de.read_value().unwrap(), Value::Str(&b"B"[..]));
    assert_eq!(de.read_value().unwrap(), Value::Uint(5));

    // A one-element array opens a compound variant too.
    let mut de2 = Deserializer::from_bytes(&[0x91, 0x00]);
    assert_eq!(de2.read_enum_shape().unwrap(), EnumShape::Compound);

    // A bare string is a unit variant, and stays for the identifier read.
    let mut de3 = Deserializer::from_bytes(&[0xa1, 0x41]);
    assert_eq!(de3.read_enum_shape().unwrap(), EnumShape::Unit);
    assert_eq!(de3.read_value().unwrap(), Value::Str(&b"A"[..]));

    // A map of two entries is a length mismatch.
    let mut de4 = Deserializer::from_bytes(&[0x82, 0x01, 0x02, 0x03, 0x04]);
    assert!(matches!(de4.read_enum_shape(), Err(Error::LengthMismatch(2))));
}

#[test]
fn unit_struct_accepts_nil_and_empty_array() {
    let mut de = Deserializer::from_bytes(&[0xc0]);
    assert_eq!(de.accept_unit().unwrap(), true);

    let mut de2 = Deserializer::from_bytes(&[0x90]);
    assert_eq!(de2.accept_unit().unwrap(), true);

    let mut de3 = Deserializer::from_bytes(&[0x07]);
    assert_eq!(de3.accept_unit().unwrap(), false);
    assert_eq!(de3.read_value().unwrap(), Value::Uint(7));
}

#[test]
fn int128_reads_bin8_of_sixteen_bytes() {
    let mut buf: Vec<u8> = vec![0xc4, 16];
    buf.extend_from_slice(&[0u8; 15]);
    buf.push(0x2a);
    let mut de = Deserializer::from_bytes(&buf);
    assert_eq!(de.read_u128().unwrap(), 42u128);

    let mut neg: Vec<u8> = vec![0xc4, 16];
    neg.extend_from_slice(&[0xffu8; 16]);
    let mut de2 = Deserializer::from_bytes(&neg);
    assert_eq!(de2.read_i128().unwrap(), -1i128);

    // Length 15 is a length mismatch reported as the expected 16.
    let mut short: Vec<u8> = vec![0xc4, 15];
    short.extend_from_slice(&[0u8; 15]);
    let mut de3 = Deserializer::from_bytes(&short);
    assert!(matches!(de3.read_i128(), Err(Error::LengthMismatch(16))));

    // Any marker but bin8 is a type mismatch.
    let mut de4 = Deserializer::from_bytes(&[0xc5, 0x00, 0x10]);
    assert!(matches!(de4.read_u128(), Err(Error::TypeMismatch(Marker::Bin16))));
}

#[test]
fn ext_struct_round_trip_via_typed_read() {
    let mut buf: Vec<u8> = Vec::new();
    rmp_serde::encode::write_ext(&mut buf, 2, &[5]).unwrap();
    assert_eq!(buf, vec![0xd4, 0x02, 0x05]);
    let mut de = Deserializer::from_bytes(&buf);
    let (tag, payload) = de.read_ext().unwrap();
    assert_eq!(tag, 2);
    assert_eq!(payload, &[5]);

    // A non-ext marker on the reserved-newtype path is a type mismatch.
    let mut de2 = Deserializer::from_bytes(&[0x91, 0x00]);
    assert!(matches!(de2.read_ext(), Err(Error::TypeMismatch(Marker::FixArray(1)))));
}

#[test]
fn remaining_count_length_mismatch_policy() {
    // A consumer that takes one of three declared elements: closing reports
    // how many were consumed.
    let mut c = RemainingCount::new(3);
    assert!(c.try_take());
    assert_eq!(c.remaining(), 2);
    assert!(matches!(c.finish(), Err(Error::LengthMismatch(1))));

    // Taking everything closes cleanly, and the guard stops at zero.
    let mut c2 = RemainingCount::new(2);
    assert!(c2.try_take());
    assert!(c2.try_take());
    assert!(!c2.try_take());
    assert!(c2.finish().is_ok());
}

#[test]
fn raw_keeps_invalid_utf8() {
    let good = Raw::from_utf8(vec![0x68, 0x69]);
    assert!(good.is_str());
    assert!(!good.is_err());
    assert_eq!(good.as_str(), Some("hi"));
    assert!(good.as_err().is_none());
    assert_eq!(good.as_bytes(), b"hi");
    assert_eq!(good.into_str(), Some(String::from("hi")));

    let bad = Raw::from_utf8(vec![0xff, 0x00]);
    assert!(!bad.is_str());
    assert!(bad.is_err());
    assert!(bad.as_str().is_none());
    assert!(bad.as_err().is_some());
    assert_eq!(bad.as_bytes(), &[0xff, 0x00]);
    assert_eq!(bad.into_bytes(), vec![0xff, 0x00]);

    let borrowed = Raw::new_borrowed("hej");
    assert_eq!(borrowed.as_bytes(), b"hej");
    assert_eq!(borrowed.into_str(), Some(String::from("hej")));

    let owned = Raw::new(String::from("ok"));
    assert_eq!(owned.into_bytes(), vec![0x6f, 0x6b]);
}

#[test]
fn raw_ref_keeps_invalid_utf8() {
    let good = RawRef::from_utf8(b"hi");
    assert!(good.is_str());
    assert!(!good.is_err());
    assert_eq!(good.as_str(), Some("hi"));
    assert!(good.as_err().is_none());
    assert_eq!(good.as_bytes(), b"hi");

    let bad_bytes = [0xffu8, 0x00];
    let bad = RawRef::from_utf8(&bad_bytes);
    assert!(!bad.is_str());
    assert!(bad.is_err());
    assert!(bad.as_str().is_none());
    assert!(bad.as_err().is_some());
    assert_eq!(bad.as_bytes(), &bad_bytes);

    let named = RawRef::new("ok");
    assert_eq!(named.as_bytes(), b"ok");
}

#[test]
fn invalid_utf8_strings_survive_the_wire() {
    // A string value whose bytes are not valid UTF-8 still round-trips: the
    // encoder frames whatever bytes it is given as a string, and the decoder
    // hands them back untouched.
    let payload = [0xffu8, 0xfe];
    let mut buf: Vec<u8> = Vec::new();
    rmp_serde::encode::write_str_bytes(&mut buf, &payload).unwrap();
    assert_eq!(buf, vec![0xa2, 0xff, 0xfe]);
    let mut de = Deserializer::from_bytes(&buf);
    match de.read_value().unwrap() {
        Value::Str(s) => {
            assert_eq!(s, &payload);
            let raw = RawRef::from_utf8(s);
            assert!(raw.is_err());
            assert_eq!(raw.as_bytes(), &payload);
        }
        other => panic!("expected a string value, got {:?}", other),
    }
}

#[test]
fn encode_fails_only_on_oversized_lengths() {
    // Every value with lengths in range encodes; the in-range path is the
    // whole reachable space on most targets, so check a representative mix.
    for v in [
        Value::Nil,
        Value::Uint(7),
        Value::Str(&b"x"[..]),
        Value::Array(vec![Value::Bool(false)]),
    ] {
        let mut buf: Vec<u8> = Vec::new();
        assert!(write_value(&mut buf, &v).is_ok());
    }
}
