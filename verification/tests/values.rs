use cram_core::value::Int16;
use cram_core::value::Int32;
use cram_core::value::Int8;
use cram_core::value::Value;
use cram_core::value::read_value;
use cram_core::value::write_value;

#[test]
fn test_write_value() {
    let mut buf = Vec::new();
    write_value(&mut buf, None);
    assert_eq!(buf, [0x00]);

    buf.clear();
    write_value(&mut buf, Some(Value::Int8(None)));
    assert_eq!(buf, [0x01]);

    buf.clear();
    write_value(&mut buf, Some(Value::Int8(Some(Int8::Value(5)))));
    assert_eq!(buf, [0x11, 0x05]);

    buf.clear();
    write_value(&mut buf, Some(Value::Int8Array(vec![5, 8, 13])));
    assert_eq!(buf, [0x31, 0x05, 0x08, 0x0d]);

    buf.clear();
    write_value(&mut buf, Some(Value::Int16(None)));
    assert_eq!(buf, [0x02]);

    buf.clear();
    write_value(&mut buf, Some(Value::Int16(Some(Int16::Value(377)))));
    assert_eq!(buf, [0x12, 0x79, 0x01]);

    buf.clear();
    write_value(&mut buf, Some(Value::Int16Array(vec![377, 610, 987])));
    assert_eq!(buf, [0x32, 0x79, 0x01, 0x62, 0x02, 0xdb, 0x03]);

    buf.clear();
    write_value(&mut buf, Some(Value::Int32(None)));
    assert_eq!(buf, [0x03]);

    buf.clear();
    write_value(&mut buf, Some(Value::Int32(Some(Int32::Value(75025)))));
    assert_eq!(buf, [0x13, 0x11, 0x25, 0x01, 0x00]);

    buf.clear();
    write_value(&mut buf, Some(Value::Int32Array(vec![75025, 121393, 196418])));
    assert_eq!(
        buf,
        [0x33, 0x11, 0x25, 0x01, 0x00, 0x31, 0xda, 0x01, 0x00, 0x42, 0xff, 0x02, 0x00]
    );
}

fn round_trip(v: Option<Value>) {
    let mut buf = Vec::new();
    write_value(&mut buf, v.clone());
    let mut pos = 0;
    let back = read_value(&buf, &mut pos).unwrap();
    assert_eq!(back, v);
    assert_eq!(pos, buf.len());
}

#[test]
fn test_value_round_trips() {
    round_trip(None);
    round_trip(Some(Value::Int8(None)));
    round_trip(Some(Value::Int8(Some(Int8::Value(5)))));
    round_trip(Some(Value::Int8(Some(Int8::Value(-5)))));
    round_trip(Some(Value::Int8(Some(Int8::Missing))));
    round_trip(Some(Value::Int8(Some(Int8::EndOfVector))));
    round_trip(Some(Value::Int8Array(vec![5, 8, 13])));
    round_trip(Some(Value::Int8Array(vec![0; 20])));
    round_trip(Some(Value::Int16(None)));
    round_trip(Some(Value::Int16(Some(Int16::Value(377)))));
    round_trip(Some(Value::Int16(Some(Int16::Value(-377)))));
    round_trip(Some(Value::Int16Array(vec![377, 610, 987])));
    round_trip(Some(Value::Int16Array(vec![-1; 300])));
    round_trip(Some(Value::Int32(None)));
    round_trip(Some(Value::Int32(Some(Int32::Value(75025)))));
    round_trip(Some(Value::Int32(Some(Int32::Value(-75025)))));
    round_trip(Some(Value::Int32Array(vec![75025, 121393, 196418])));
    round_trip(Some(Value::Int32Array(vec![7; 40000])));
}

#[test]
fn test_single_element_array_decodes_as_scalar() {
    // A one-element array is indistinguishable from a scalar on the wire,
    // so it comes back as the scalar form.
    let mut buf = Vec::new();
    write_value(&mut buf, Some(Value::Int8Array(vec![5])));
    assert_eq!(buf, [0x11, 0x05]);
    let mut pos = 0;
    let back = read_value(&buf, &mut pos).unwrap();
    assert_eq!(back, Some(Value::Int8(Some(Int8::Value(5)))));
}

#[test]
fn test_read_value_rejects_bad_type() {
    // Type nibble 4 is not an integer type.
    let buf = [0x14, 0x00];
    let mut pos = 0;
    assert!(read_value(&buf, &mut pos).is_err());
}
