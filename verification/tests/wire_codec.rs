//! Wire-level encode/decode behavior, checked byte for byte and against the
//! raw MessagePack helpers of the `rmp` crate.

use rmp_serde::decode::Deserializer;
use rmp_serde::encode::{
    write_array_len, write_bin, write_bool, write_ext, write_f32_bits, write_f64_bits,
    write_map_len, write_nil, write_sint, write_str, write_str_bytes, write_uint, write_value,
};
use rmp_serde::error::Error;
use rmp_serde::marker::Marker;
use rmp_serde::value::Value;

fn decode_one(buf: &[u8]) -> Result<Value<'_>, Error> {
    let mut de = Deserializer::from_bytes(buf);
    de.read_value()
}

fn roundtrip(v: &Value<'_>) -> Vec<u8> {
    let mut buf: Vec<u8> = Vec::new();
    write_value(&mut buf, v).unwrap();
    let back = decode_one(&buf).unwrap();
    assert_eq!(&back, v);
    buf
}

#[test]
fn tuple_encodes_to_expected_bytes() {
    let v = Value::Array(vec![Value::Uint(42), Value::Str(&b"the Answer"[..])]);
    let buf = roundtrip(&v);
    assert_eq!(
        buf,
        vec![0x92, 0x2a, 0xaa, 0x74, 0x68, 0x65, 0x20, 0x41, 0x6e, 0x73, 0x77, 0x65, 0x72]
    );
}

#[test]
fn uint_width_boundaries() {
    for (v, expected) in [
        (0u64, vec![0x00]),
        (0x7fu64, vec![0x7f]),
        (0x80u64, vec![0xcc, 0x80]),
        (0xffu64, vec![0xcc, 0xff]),
        (0x100u64, vec![0xcd, 0x01, 0x00]),
        (0xffffu64, vec![0xcd, 0xff, 0xff]),
        (0x10000u64, vec![0xce, 0x00, 0x01, 0x00, 0x00]),
        (0xffffffffu64, vec![0xce, 0xff, 0xff, 0xff, 0xff]),
        (0x100000000u64, vec![0xcf, 0x00, 0x00, 0x00, 0x01, 0x00, 0x00, 0x00, 0x00]),
        (u64::MAX, vec![0xcf, 0xff, 0xff, 0xff, 0xff, 0xff, 0xff, 0xff, 0xff]),
    ] {
        let mut buf: Vec<u8> = Vec::new();
        write_uint(&mut buf, v);
        assert_eq!(buf, expected, "uint {v}");
        let mut rmp_buf: Vec<u8> = Vec::new();
        rmp::encode::write_uint(&mut rmp_buf, v).unwrap();
        assert_eq!(buf, rmp_buf, "rmp disagreement for uint {v}");
        assert_eq!(decode_one(&buf).unwrap(), Value::Uint(v));
    }
}

#[test]
fn sint_width_boundaries() {
    for (v, expected) in [
        (-1i64, vec![0xff]),
        (-32i64, vec![0xe0]),
        (-33i64, vec![0xd0, 0xdf]),
        (-128i64, vec![0xd0, 0x80]),
        (-129i64, vec![0xd1, 0xff, 0x7f]),
        (-32768i64, vec![0xd1, 0x80, 0x00]),
        (-32769i64, vec![0xd2, 0xff, 0xff, 0x7f, 0xff]),
        (-2147483648i64, vec![0xd2, 0x80, 0x00, 0x00, 0x00]),
        (
            -2147483649i64,
            vec![0xd3, 0xff, 0xff, 0xff, 0xff, 0x7f, 0xff, 0xff, 0xff],
        ),
        (i64::MIN, vec![0xd3, 0x80, 0x00, 0x00, 0x00, 0x00, 0x00, 0x00, 0x00]),
    ] {
        let mut buf: Vec<u8> = Vec::new();
        write_sint(&mut buf, v);
        assert_eq!(buf, expected, "sint {v}");
        let mut rmp_buf: Vec<u8> = Vec::new();
        rmp::encode::write_sint(&mut rmp_buf, v).unwrap();
        assert_eq!(buf, rmp_buf, "rmp disagreement for sint {v}");
        assert_eq!(decode_one(&buf).unwrap(), Value::Int(v));
    }
}

#[test]
fn nonnegative_sint_takes_unsigned_form() {
    for v in [0i64, 1, 127, 128, 255, 256, 65535, 65536, 4294967295, 4294967296] {
        let mut ours: Vec<u8> = Vec::new();
        write_sint(&mut ours, v);
        let mut theirs: Vec<u8> = Vec::new();
        rmp::encode::write_sint(&mut theirs, v).unwrap();
        assert_eq!(ours, theirs);
        assert_eq!(decode_one(&ours).unwrap(), Value::Uint(v as u64));
    }
}

#[test]
fn signed_markers_with_nonnegative_payloads_normalize() {
    // d0 05: an i8 marker carrying 5 dispatches as a non-negative integer.
    assert_eq!(decode_one(&[0xd0, 0x05]).unwrap(), Value::Uint(5));
    assert_eq!(decode_one(&[0xd1, 0x00, 0x07]).unwrap(), Value::Uint(7));
    assert_eq!(decode_one(&[0xd0, 0xfb]).unwrap(), Value::Int(-5));
}

#[test]
fn float_bit_patterns_round_trip() {
    let f = 1.25f32;
    let mut buf: Vec<u8> = Vec::new();
    write_f32_bits(&mut buf, f.to_bits());
    let mut rmp_buf: Vec<u8> = Vec::new();
    rmp::encode::write_f32(&mut rmp_buf, f).unwrap();
    assert_eq!(buf, rmp_buf);
    assert_eq!(decode_one(&buf).unwrap(), Value::F32Bits(f.to_bits()));

    let d = -2.5f64;
    let mut buf64: Vec<u8> = Vec::new();
    write_f64_bits(&mut buf64, d.to_bits());
    let mut rmp_buf64: Vec<u8> = Vec::new();
    rmp::encode::write_f64(&mut rmp_buf64, d).unwrap();
    assert_eq!(buf64, rmp_buf64);
    assert_eq!(decode_one(&buf64).unwrap(), Value::F64Bits(d.to_bits()));
}

#[test]
fn nil_and_bool() {
    let mut buf: Vec<u8> = Vec::new();
    write_nil(&mut buf);
    write_bool(&mut buf, true);
    write_bool(&mut buf, false);
    assert_eq!(buf, vec![0xc0, 0xc3, 0xc2]);
    let mut de = Deserializer::from_bytes(&buf);
    assert_eq!(de.read_value().unwrap(), Value::Nil);
    assert_eq!(de.read_value().unwrap(), Value::Bool(true));
    assert_eq!(de.read_value().unwrap(), Value::Bool(false));
}

#[test]
fn str_length_boundaries() {
    for len in [0usize, 31, 32, 255, 256] {
        let data = vec![0x61u8; len];
        let mut ours: Vec<u8> = Vec::new();
        write_str_bytes(&mut ours, &data).unwrap();
        let text = String::from_utf8(data.clone()).unwrap();
        let mut theirs: Vec<u8> = Vec::new();
        rmp::encode::write_str(&mut theirs, &text).unwrap();
        assert_eq!(ours, theirs, "str len {len}");
        match decode_one(&ours).unwrap() {
            Value::Str(s) => assert_eq!(s, &data[..]),
            other => panic!("expected a string value, got {:?}", other),
        }
    }
    let mut via_str: Vec<u8> = Vec::new();
    write_str(&mut via_str, "hej").unwrap();
    assert_eq!(via_str, vec![0xa3, 0x68, 0x65, 0x6a]);
}

#[test]
fn bin_length_boundaries() {
    for len in [0usize, 1, 255, 256] {
        let data = vec![0x07u8; len];
        let mut ours: Vec<u8> = Vec::new();
        write_bin(&mut ours, &data).unwrap();
        let mut theirs: Vec<u8> = Vec::new();
        rmp::encode::write_bin(&mut theirs, &data).unwrap();
        assert_eq!(ours, theirs, "bin len {len}");
        match decode_one(&ours).unwrap() {
            Value::Bin(s) => assert_eq!(s, &data[..]),
            other => panic!("expected a binary value, got {:?}", other),
        }
    }
}

#[test]
fn array_and_map_length_boundaries() {
    for len in [0u32, 15, 16, 65535, 65536] {
        let mut ours: Vec<u8> = Vec::new();
        write_array_len(&mut ours, len);
        let mut theirs: Vec<u8> = Vec::new();
        rmp::encode::write_array_len(&mut theirs, len).unwrap();
        assert_eq!(ours, theirs, "array len {len}");

        let mut ours_m: Vec<u8> = Vec::new();
        write_map_len(&mut ours_m, len);
        let mut theirs_m: Vec<u8> = Vec::new();
        rmp::encode::write_map_len(&mut theirs_m, len).unwrap();
        assert_eq!(ours_m, theirs_m, "map len {len}");
    }
}

#[test]
fn nested_value_round_trip() {
    let v = Value::Mapping(vec![
        (Value::Str(&b"list"[..]), Value::Array(vec![Value::Uint(1), Value::Int(-3)])),
        (Value::Str(&b"flag"[..]), Value::Bool(true)),
        (Value::Str(&b"blob"[..]), Value::Bin(&[0, 159, 146][..])),
        (Value::Str(&b"unit"[..]), Value::Nil),
    ]);
    let buf = roundtrip(&v);
    assert_eq!(buf[0], 0x84);
}

#[test]
fn ext_encodings_and_round_trip() {
    // Tag 2 with a one-byte payload takes the fixext1 form.
    let mut buf: Vec<u8> = Vec::new();
    write_ext(&mut buf, 2, &[5]).unwrap();
    assert_eq!(buf, vec![0xd4, 0x02, 0x05]);
    assert_eq!(decode_one(&buf).unwrap(), Value::Ext(2, &[5]));

    for len in [0usize, 1, 2, 3, 4, 8, 16, 17, 255, 256] {
        let data = vec![0xabu8; len];
        let mut ours: Vec<u8> = Vec::new();
        write_ext(&mut ours, -7, &data).unwrap();
        let mut theirs: Vec<u8> = Vec::new();
        rmp::encode::write_ext_meta(&mut theirs, len as u32, -7).unwrap();
        theirs.extend_from_slice(&data);
        assert_eq!(ours, theirs, "ext len {len}");
        assert_eq!(decode_one(&ours).unwrap(), Value::Ext(-7, &data[..]));
    }
}

#[test]
fn reserved_marker_is_rejected() {
    match decode_one(&[0xc1]) {
        Err(Error::TypeMismatch(Marker::Reserved)) => {}
        other => panic!("expected the reserved-marker mismatch, got {:?}", other),
    }
}

#[test]
fn truncated_input_reports_read_errors() {
    assert!(matches!(decode_one(&[]), Err(Error::InvalidValueRead(_))));
    // A u16 marker with one of its two payload bytes missing.
    assert!(matches!(decode_one(&[0xcd, 0x01]), Err(Error::InvalidValueRead(_))));
    // A fixstr announcing three bytes with only two present.
    assert!(matches!(decode_one(&[0xa3, 0x61, 0x62]), Err(Error::InvalidValueRead(_))));
}

#[test]
fn depth_limit_default_cap() {
    // 1025 nested arrays: 1024 one-element arrays around an empty one.
    let mut deep: Vec<u8> = vec![0x91; 1024];
    deep.push(0x90);
    match decode_one(&deep) {
        Err(Error::DepthLimitExceeded) => {}
        other => panic!("expected the depth limit, got {:?}", other),
    }

    // 1023 levels decode fine under the default cap of 1024.
    let mut shallow: Vec<u8> = vec![0x91; 1022];
    shallow.push(0x90);
    assert!(decode_one(&shallow).is_ok());
}

#[test]
fn depth_limit_configurable() {
    let bytes = [0x91, 0x91, 0x90]; // three levels of nesting
    let mut de = Deserializer::from_bytes(&bytes);
    de.set_max_depth(3);
    assert!(matches!(de.read_value(), Err(Error::DepthLimitExceeded)));

    let mut de2 = Deserializer::from_bytes(&bytes);
    de2.set_max_depth(4);
    assert!(de2.read_value().is_ok());
}

#[test]
fn decoder_consumes_exactly_one_value() {
    // A value followed by trailing bytes: the cursor stops right after the
    // first value, so the next read sees the trailing marker.
    let buf = [0x92, 0x01, 0x02, 0x2a];
    let mut de = Deserializer::from_bytes(&buf);
    assert_eq!(
        de.read_value().unwrap(),
        Value::Array(vec![Value::Uint(1), Value::Uint(2)])
    );
    assert_eq!(de.read_value().unwrap(), Value::Uint(42));
}

#[test]
fn marker_byte_round_trip() {
    for b in 0..=255u8 {
        let m = Marker::from_u8(b);
        assert_eq!(m.to_u8(), b);
    }
    assert_eq!(Marker::from_u8(0xc1), Marker::Reserved);
    assert_eq!(Marker::from_u8(0x2a), Marker::FixPos(42));
    assert_eq!(Marker::from_u8(0xe0), Marker::FixNeg(-32));
    assert_eq!(Marker::from_u8(0x91), Marker::FixArray(1));
}

#[test]
fn zero_copy_payloads_borrow_from_input() {
    let buf = vec![0x92, 0xa5, 0x42, 0x6f, 0x62, 0x62, 0x79, 0x08];
    let decoded = decode_one(&buf).unwrap();
    match decoded {
        Value::Array(items) => {
            match items[0] {
                Value::Str(s) => {
                    assert_eq!(s, b"Bobby");
                    // The payload is the input's own bytes, not a copy.
                    assert!(std::ptr::eq(s.as_ptr(), buf[2..].as_ptr()));
                }
                ref other => panic!("expected a string, got {:?}", other),
            }
            assert_eq!(items[1], Value::Uint(8));
        }
        other => panic!("expected an array, got {:?}", other),
    }
}

#[test]
fn sixteen_bit_length_forms_decode() {
    // An array16 of three small integers.
    let buf = [0xdc, 0x00, 0x03, 0x01, 0x02, 0x03];
    assert_eq!(
        decode_one(&buf).unwrap(),
        Value::Array(vec![Value::Uint(1), Value::Uint(2), Value::Uint(3)])
    );

    // A map16 of one entry.
    let buf2 = [0xde, 0x00, 0x01, 0x2a, 0xc3];
    assert_eq!(
        decode_one(&buf2).unwrap(),
        Value::Mapping(vec![(Value::Uint(42), Value::Bool(true))])
    );

    // A str16 of three bytes.
    let buf3 = [0xda, 0x00, 0x03, 0x61, 0x62, 0x63];
    assert_eq!(decode_one(&buf3).unwrap(), Value::Str(&b"abc"[..]));
}

#[test]
fn wide_containers_round_trip() {
    let items: Vec<Value> = (0..300u64).map(Value::Uint).collect();
    let v = Value::Array(items);
    let buf = roundtrip(&v);
    assert_eq!(&buf[..3], &[0xdc, 0x01, 0x2c]);

    let entries: Vec<(Value, Value)> = (0..20u64).map(|i| (Value::Uint(i), Value::Bool(i % 2 == 0))).collect();
    let m = Value::Mapping(entries);
    let buf2 = roundtrip(&m);
    assert_eq!(&buf2[..3], &[0xde, 0x00, 0x14]);
}
