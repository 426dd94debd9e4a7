use wasmpg::wire::{encode_value, Value, Wire, WireFields};

fn wfields(ws: Vec<Wire>) -> Box<WireFields> {
    let mut fs = WireFields::Nil;
    for w in ws.into_iter().rev() {
        fs = WireFields::Cons(Box::new(w), Box::new(fs));
    }
    Box::new(fs)
}

fn enc(w: &Wire, v: &Value) -> Vec<u8> {
    let mut out = Vec::new();
    assert!(encode_value(w, v, &mut out));
    out
}

#[test]
fn int_is_big_endian_two_complement() {
    assert_eq!(enc(&Wire::WInt, &Value::IntV(1)), vec![0, 0, 0, 1]);
    assert_eq!(enc(&Wire::WInt, &Value::IntV(258)), vec![0, 0, 1, 2]);
    assert_eq!(enc(&Wire::WInt, &Value::IntV(-1)), vec![0xff, 0xff, 0xff, 0xff]);
    assert_eq!(enc(&Wire::WInt, &Value::IntV(i32::MIN)), vec![0x80, 0, 0, 0]);
}

#[test]
fn bool_and_char_are_one_byte() {
    assert_eq!(enc(&Wire::WBool, &Value::BoolV(true)), vec![1]);
    assert_eq!(enc(&Wire::WBool, &Value::BoolV(false)), vec![0]);
    assert_eq!(enc(&Wire::WChar, &Value::CharV(0x41)), vec![0x41]);
}

#[test]
fn string_is_terminated_and_empty_string_is_one_byte() {
    assert_eq!(enc(&Wire::WStr, &Value::StrV(b"ab".to_vec())), vec![0x61, 0x62, 0]);
    assert_eq!(enc(&Wire::WStr, &Value::StrV(Vec::new())), vec![0]);
}

#[test]
fn string_with_embedded_terminator_is_refused() {
    let mut out = Vec::new();
    assert!(!encode_value(&Wire::WStr, &Value::StrV(vec![1, 0, 2]), &mut out));
}

#[test]
fn list_is_count_prefixed() {
    let w = Wire::WList(Box::new(Wire::WInt));
    let v = Value::ListV(vec![Value::IntV(7), Value::IntV(8)]);
    assert_eq!(enc(&w, &v), vec![0, 0, 0, 2, 0, 0, 0, 7, 0, 0, 0, 8]);
    assert_eq!(enc(&w, &Value::ListV(Vec::new())), vec![0, 0, 0, 0]);
}

#[test]
fn struct_is_plain_concatenation() {
    let w = Wire::WStruct(wfields(vec![Wire::WInt, Wire::WBool]));
    let v = Value::StructV(vec![Value::IntV(5), Value::BoolV(true)]);
    assert_eq!(enc(&w, &v), vec![0, 0, 0, 5, 1]);
}

#[test]
fn point_protocol_payload_is_fifteen_bytes() {
    // struct Point { int x; int y; } and protocol c Foo { Point p; string names[]; }:
    // encoding p = {x: 1, y: 2}, names = ["ab"] takes
    // 8 (two ints) + 4 (array count) + 3 ("ab" plus terminator) = 15 bytes
    let point = Wire::WStruct(wfields(vec![Wire::WInt, Wire::WInt]));
    let foo = Wire::WStruct(wfields(vec![point, Wire::WList(Box::new(Wire::WStr))]));
    let payload = Value::StructV(vec![
        Value::StructV(vec![Value::IntV(1), Value::IntV(2)]),
        Value::ListV(vec![Value::StrV(b"ab".to_vec())]),
    ]);
    let bytes = enc(&foo, &payload);
    assert_eq!(bytes.len(), 15);
    assert_eq!(
        bytes,
        vec![0, 0, 0, 1, 0, 0, 0, 2, 0, 0, 0, 1, 0x61, 0x62, 0]
    );
}

#[test]
fn float_zero_is_four_zero_bytes() {
    assert_eq!(0.0f32.to_bits(), 0);
    assert_eq!(enc(&Wire::WFloat, &Value::FloatBits(0.0f32.to_bits())), vec![0, 0, 0, 0]);
}

#[test]
fn float_bit_patterns_round_trip_through_the_wire() {
    // the wire carries the IEEE-754 single-precision bit pattern big-endian,
    // so reading the four bytes back recovers a float equal to the original
    for x in [1.5f32, -0.25f32, 3.0e38f32] {
        let bytes = enc(&Wire::WFloat, &Value::FloatBits(x.to_bits()));
        assert_eq!(bytes.len(), 4);
        let bits = ((bytes[0] as u32) << 24)
            | ((bytes[1] as u32) << 16)
            | ((bytes[2] as u32) << 8)
            | (bytes[3] as u32);
        assert_eq!(f32::from_bits(bits), x);
    }
    assert_eq!(enc(&Wire::WFloat, &Value::FloatBits(1.5f32.to_bits())), vec![0x3f, 0xc0, 0, 0]);
}

#[test]
fn negative_zero_collapses_to_the_zero_word() {
    let bytes = enc(&Wire::WFloat, &Value::FloatBits((-0.0f32).to_bits()));
    assert_eq!(bytes, vec![0, 0, 0, 0]);
    assert_eq!(f32::from_bits(0), -0.0f32);
}
