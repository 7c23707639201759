use drax::buffer::{ReadLimiter, SoftReadLimiter};
use drax::error::ErrorType;
use drax::extension::{read_string, read_string_checked, size_string, write_string, write_string_checked};
use drax::packet::option::Maybe;
use drax::packet::primitive::{VarInt, VarLong};
use drax::packet::string::{LimitedString, TcpShieldHeaderDelegate};
use drax::packet::vec::{ByteDrain, LimitedVec, SliceU8, VecU8};
use drax::packet::{PacketComponent, Size};
use drax::reader::ByteReader;

// The example record the packet tests exercise: a variable-length integer
// field, then a fixed-width integer field.
struct Example {
    v_int: i32,
    uu: i32,
}

fn decode_example(r: &mut ByteReader) -> Example {
    let v_int = VarInt::decode(r).unwrap();
    let uu = <i32 as PacketComponent>::decode(r).unwrap();
    Example { v_int, uu }
}

fn encode_example(e: &Example, out: &mut Vec<u8>) {
    VarInt::encode(&e.v_int, out).unwrap();
    <i32 as PacketComponent>::encode(&e.uu, out).unwrap();
}

fn size_example(e: &Example) -> Size {
    let a = VarInt::size(&e.v_int).unwrap();
    let b = <i32 as PacketComponent>::size(&e.uu).unwrap();
    a.plus(b)
}

#[test]
fn test_decode_packet() {
    let mut cursor = ByteReader::new(vec![25, 0, 0, 0, 10]);
    let example = decode_example(&mut cursor);
    assert_eq!(example.v_int, 25);
    assert_eq!(example.uu, 10);
    assert_eq!(cursor.remaining_len(), 0);
}

#[test]
fn test_encode_packet() {
    let example = Example { v_int: 25, uu: 10 };
    let mut out = Vec::new();
    encode_example(&example, &mut out);
    assert_eq!(out, vec![25, 0, 0, 0, 10]);
}

#[test]
fn test_size_packet() {
    let example = Example { v_int: 25, uu: 10 };
    assert_eq!(size_example(&example), Size::Dynamic(5));
}

#[test]
fn packet_test_decode_packet() {
    let mut cursor = ByteReader::new(vec![25, 0, 0, 0, 10]);
    let example = decode_example(&mut cursor);
    assert_eq!(example.v_int, 25);
    assert_eq!(example.uu, 10);
}

#[test]
fn packet_test_encode_packet() {
    let example = Example { v_int: 25, uu: 10 };
    let mut out = Vec::new();
    encode_example(&example, &mut out);
    assert_eq!(out, vec![25, 0, 0, 0, 10]);
}

#[test]
fn packet_test_size_packet() {
    let example = Example { v_int: 25, uu: 10 };
    assert_eq!(size_example(&example), Size::Dynamic(5));
}

// The example tagged union: the discriminant picks the variant and the
// variants carry the same fields in different orders.
#[derive(Debug, PartialEq)]
enum ExampleEnum {
    Variant1 { v_int: i32, reg_int: i32 },
    Variant2 { reg_int: i32, v_int: i32 },
}

fn decode_example_enum(r: &mut ByteReader) -> ExampleEnum {
    let key = VarInt::decode(r).unwrap();
    match key {
        0 => {
            let v_int = VarInt::decode(r).unwrap();
            let reg_int = <i32 as PacketComponent>::decode(r).unwrap();
            ExampleEnum::Variant1 { v_int, reg_int }
        },
        1 => {
            let reg_int = <i32 as PacketComponent>::decode(r).unwrap();
            let v_int = VarInt::decode(r).unwrap();
            ExampleEnum::Variant2 { reg_int, v_int }
        },
        _ => panic!("unmatched discriminant"),
    }
}

fn encode_example_enum(e: &ExampleEnum, out: &mut Vec<u8>) {
    match e {
        ExampleEnum::Variant1 { v_int, reg_int } => {
            VarInt::encode(&0, out).unwrap();
            VarInt::encode(v_int, out).unwrap();
            <i32 as PacketComponent>::encode(reg_int, out).unwrap();
        },
        ExampleEnum::Variant2 { reg_int, v_int } => {
            VarInt::encode(&1, out).unwrap();
            <i32 as PacketComponent>::encode(reg_int, out).unwrap();
            VarInt::encode(v_int, out).unwrap();
        },
    }
}

fn size_example_enum(e: &ExampleEnum) -> Size {
    match e {
        ExampleEnum::Variant1 { v_int, reg_int } => VarInt::size(&0)
            .unwrap()
            .plus(VarInt::size(v_int).unwrap())
            .plus(<i32 as PacketComponent>::size(reg_int).unwrap()),
        ExampleEnum::Variant2 { reg_int, v_int } => VarInt::size(&1)
            .unwrap()
            .plus(<i32 as PacketComponent>::size(reg_int).unwrap())
            .plus(VarInt::size(v_int).unwrap()),
    }
}

#[test]
fn test_decode_enum_packet() {
    let mut cursor = ByteReader::new(vec![0, 25, 0, 0, 0, 10]);
    let example = decode_example_enum(&mut cursor);
    assert_eq!(example, ExampleEnum::Variant1 { v_int: 25, reg_int: 10 });

    let mut cursor2 = ByteReader::new(vec![1, 0, 0, 0, 10, 25]);
    let example2 = decode_example_enum(&mut cursor2);
    assert_eq!(example2, ExampleEnum::Variant2 { reg_int: 10, v_int: 25 });
}

#[test]
fn test_encode_enum_packet() {
    let mut out = Vec::new();
    encode_example_enum(&ExampleEnum::Variant1 { v_int: 25, reg_int: 10 }, &mut out);
    assert_eq!(out, vec![0, 25, 0, 0, 0, 10]);

    let mut out2 = Vec::new();
    encode_example_enum(&ExampleEnum::Variant2 { reg_int: 10, v_int: 25 }, &mut out2);
    assert_eq!(out2, vec![1, 0, 0, 0, 10, 25]);
}

#[test]
fn test_size_enum_packet() {
    let e1 = ExampleEnum::Variant1 { v_int: 25, reg_int: 10 };
    assert_eq!(size_example_enum(&e1), Size::Dynamic(6));
    let e2 = ExampleEnum::Variant2 { reg_int: 10, v_int: 25 };
    assert_eq!(size_example_enum(&e2), Size::Dynamic(6));
}

#[test]
fn primitive_components_are_constant_sized() {
    assert_eq!(<u16 as PacketComponent>::size(&7).unwrap(), Size::Constant(2));
    assert_eq!(<i64 as PacketComponent>::size(&-1).unwrap(), Size::Constant(8));
    assert_eq!(<bool as PacketComponent>::size(&true).unwrap(), Size::Constant(1));
    let mut out = Vec::new();
    <u16 as PacketComponent>::encode(&0x1234, &mut out).unwrap();
    assert_eq!(out, vec![0x12, 0x34]);
    let mut out2 = Vec::new();
    <i64 as PacketComponent>::encode(&-2, &mut out2).unwrap();
    assert_eq!(out2.len(), 8);
}

#[test]
fn var_components_round_trip() {
    let mut out = Vec::new();
    VarLong::encode(&-8877777, &mut out).unwrap();
    let written = VarLong::size(&-8877777).unwrap();
    assert_eq!(written, Size::Dynamic(out.len()));
    let mut cursor = ByteReader::new(out);
    assert_eq!(VarLong::decode(&mut cursor).unwrap(), -8877777);
}

#[test]
fn string_component_round_trip() {
    let s = "hello component".to_string();
    let mut out = Vec::new();
    <String as PacketComponent>::encode(&s, &mut out).unwrap();
    let sz = <String as PacketComponent>::size(&s).unwrap();
    assert_eq!(sz, Size::Dynamic(out.len()));
    let mut cursor = ByteReader::new(out);
    assert_eq!(<String as PacketComponent>::decode(&mut cursor).unwrap(), s);
}

#[test]
fn limited_string_rejects_long_payloads() {
    let s = "abcdefgh".to_string();
    let mut out = Vec::new();
    let e = <LimitedString<1> as PacketComponent>::encode(&s, &mut out).unwrap_err();
    assert!(matches!(e.error_type, ErrorType::BoundExceeded));

    let mut encoded = Vec::new();
    <String as PacketComponent>::encode(&s, &mut encoded).unwrap();
    let mut cursor = ByteReader::new(encoded);
    let e2 = <LimitedString<1> as PacketComponent>::decode(&mut cursor).unwrap_err();
    assert!(matches!(e2.error_type, ErrorType::BoundExceeded));
}

#[test]
fn vec_components_round_trip() {
    let xs: Vec<u8> = vec![9, 8, 7];
    let mut out = Vec::new();
    VecU8::encode(&xs, &mut out).unwrap();
    assert_eq!(out, vec![3, 9, 8, 7]);
    let mut cursor = ByteReader::new(out);
    assert_eq!(VecU8::decode(&mut cursor).unwrap(), xs);

    let ints: Vec<i32> = vec![25, -1];
    let mut out2 = Vec::new();
    <Vec<VarInt> as PacketComponent>::encode(&ints, &mut out2).unwrap();
    let mut cursor2 = ByteReader::new(out2);
    assert_eq!(<Vec<VarInt> as PacketComponent>::decode(&mut cursor2).unwrap(), ints);
}

#[test]
fn limited_vec_rejects_long_counts() {
    let xs: Vec<i32> = vec![1, 2, 3];
    let mut out = Vec::new();
    let e = <LimitedVec<VarInt, 2> as PacketComponent>::encode(&xs, &mut out).unwrap_err();
    assert!(matches!(e.error_type, ErrorType::BoundExceeded));

    let mut encoded = Vec::new();
    <Vec<VarInt> as PacketComponent>::encode(&xs, &mut encoded).unwrap();
    let mut cursor = ByteReader::new(encoded);
    let e2 = <LimitedVec<VarInt, 2> as PacketComponent>::decode(&mut cursor).unwrap_err();
    assert!(matches!(e2.error_type, ErrorType::BoundExceeded));
}

#[test]
fn slice_component_is_exact_width() {
    let xs: Vec<u8> = vec![1, 2, 3, 4];
    let mut out = Vec::new();
    <SliceU8<4> as PacketComponent>::encode(&xs, &mut out).unwrap();
    assert_eq!(out, xs);
    assert_eq!(<SliceU8<4> as PacketComponent>::size(&xs).unwrap(), Size::Constant(4));
    let mut cursor = ByteReader::new(vec![1, 2, 3, 4, 5]);
    let got = <SliceU8<4> as PacketComponent>::decode(&mut cursor).unwrap();
    assert_eq!(got, xs);
    assert_eq!(cursor.remaining_len(), 1);
}

#[test]
fn maybe_component_round_trip() {
    let some: Option<i32> = Some(77);
    let mut out = Vec::new();
    <Maybe<i32> as PacketComponent>::encode(&some, &mut out).unwrap();
    assert_eq!(out, vec![1, 0, 0, 0, 77]);
    let mut cursor = ByteReader::new(out);
    assert_eq!(<Maybe<i32> as PacketComponent>::decode(&mut cursor).unwrap(), some);

    let none: Option<i32> = None;
    let mut out2 = Vec::new();
    <Maybe<i32> as PacketComponent>::encode(&none, &mut out2).unwrap();
    assert_eq!(out2, vec![0]);
    assert_eq!(<Maybe<i32> as PacketComponent>::size(&none).unwrap(), Size::Dynamic(1));
}

#[test]
fn byte_drain_takes_everything() {
    let mut cursor = ByteReader::new(vec![5, 6, 7]);
    let got = ByteDrain::decode(&mut cursor);
    assert_eq!(got, vec![5, 6, 7]);
    assert_eq!(cursor.remaining_len(), 0);
    let mut out = Vec::new();
    ByteDrain::encode(&got, &mut out);
    assert_eq!(out, vec![5, 6, 7]);
    assert_eq!(ByteDrain::size(&got), Size::Dynamic(3));
}

#[test]
fn read_limiter_caps_reads() {
    let mut cursor = ByteReader::new(vec![1, 2, 3]);
    let mut limiter = ReadLimiter::new(2);
    let e = limiter.read_exact(&mut cursor, 3).unwrap_err();
    assert!(matches!(e.error_type, ErrorType::BoundExceeded));
    let got = limiter.read_exact(&mut cursor, 2).unwrap();
    assert_eq!(got, vec![1, 2]);
    assert!(limiter.assert_length().is_ok());
}

#[test]
fn read_limiter_detects_under_read() {
    let mut cursor = ByteReader::new(vec![1, 2, 3]);
    let mut limiter = ReadLimiter::new(2);
    let _ = limiter.read_exact(&mut cursor, 1).unwrap();
    assert!(limiter.assert_length().is_err());
}

#[test]
fn soft_read_limiter_truncates() {
    let mut cursor = ByteReader::new(vec![1, 2, 3]);
    let mut limiter = SoftReadLimiter::new(2);
    let got = limiter.read(&mut cursor, 3);
    assert_eq!(got, vec![1, 2]);
    let more = limiter.read(&mut cursor, 3);
    assert!(more.is_empty());
}

#[test]
fn extension_string_round_trip() {
    let s = "length prefixed".to_string();
    let mut out = Vec::new();
    write_string(32767, &s, &mut out).unwrap();
    assert_eq!(size_string(&s).unwrap(), out.len());
    let mut cursor = ByteReader::new(out);
    let back = read_string(32767, &mut cursor).unwrap();
    assert_eq!(back, s);
}

#[test]
fn extension_string_checked_round_trip() {
    let bytes = "abc".as_bytes().to_vec();
    let mut out = Vec::new();
    write_string_checked(&bytes, &mut out).unwrap();
    assert_eq!(out, vec![3, b'a', b'b', b'c']);
    let mut cursor = ByteReader::new(vec![b'a', b'b', b'c']);
    let back = read_string_checked(3, &mut cursor).unwrap();
    assert_eq!(back, "abc");
}

#[test]
fn extension_read_string_rejects_over_length() {
    let s = "abcdef".to_string();
    let mut out = Vec::new();
    write_string(32767, &s, &mut out).unwrap();
    let mut cursor = ByteReader::new(out);
    let e = read_string(1, &mut cursor).unwrap_err();
    assert!(matches!(e.error_type, ErrorType::BoundExceeded));
}

#[test]
fn tcp_shield_header_round_trips_the_string() {
    let s = "host.example".to_string();
    let mut out = Vec::new();
    TcpShieldHeaderDelegate::encode(&s, &mut out).unwrap();
    assert_eq!(out[0], 0);
    assert_eq!(out[out.len() - 1], 2);
    assert_eq!(
        TcpShieldHeaderDelegate::size(&s).unwrap(),
        Size::Dynamic(out.len())
    );
    let mut cursor = ByteReader::new(out);
    assert_eq!(TcpShieldHeaderDelegate::decode(&mut cursor).unwrap(), s);
    assert_eq!(cursor.remaining_len(), 0);
}
