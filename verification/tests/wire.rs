// Exact bytes of the writers, what the readers make of given bytes, and
// every error the readers report.
use msgpack::decoder::Decoder;
use msgpack::encoder::Encoder;
use msgpack::error::{Error, IntType, Invalid};
use msgpack::value::Value;

fn bytes_of(f: impl Fn(&mut Encoder)) -> Vec<u8> {
    let mut e = Encoder::new(Vec::new());
    f(&mut e);
    e.into_bytes()
}

fn invalid(why: Invalid) -> Error {
    Error::InvalidInput(why)
}

#[test]
fn unsigned_uses_the_shortest_form() {
    assert_eq!(bytes_of(|e| e.emit_u64(0)), vec![0x00]);
    assert_eq!(bytes_of(|e| e.emit_u64(127)), vec![0x7f]);
    assert_eq!(bytes_of(|e| e.emit_u64(128)), vec![0xcc, 0x80]);
    assert_eq!(bytes_of(|e| e.emit_u16(300)), vec![0xcd, 0x01, 0x2c]);
    assert_eq!(bytes_of(|e| e.emit_u32(70000)), vec![0xce, 0x00, 0x01, 0x11, 0x70]);
    assert_eq!(
        bytes_of(|e| e.emit_u64(1u64 << 32)),
        vec![0xcf, 0x00, 0x00, 0x00, 0x01, 0x00, 0x00, 0x00, 0x00]
    );
    assert_eq!(bytes_of(|e| e.emit_uint(255)), vec![0xcc, 0xff]);
    assert_eq!(bytes_of(|e| e.emit_u8(7)), vec![0x07]);
}

#[test]
fn signed_uses_the_shortest_signed_form() {
    assert_eq!(bytes_of(|e| e.emit_i64(-1)), vec![0xff]);
    assert_eq!(bytes_of(|e| e.emit_i64(-32)), vec![0xe0]);
    assert_eq!(bytes_of(|e| e.emit_i64(-33)), vec![0xd0, 0xdf]);
    assert_eq!(bytes_of(|e| e.emit_i8(5)), vec![0xd0, 0x05]);
    assert_eq!(bytes_of(|e| e.emit_i16(200)), vec![0xd1, 0x00, 0xc8]);
    assert_eq!(bytes_of(|e| e.emit_i32(-40000)), vec![0xd2, 0xff, 0xff, 0x63, 0xc0]);
    assert_eq!(
        bytes_of(|e| e.emit_i64(i64::MIN)),
        vec![0xd3, 0x80, 0x00, 0x00, 0x00, 0x00, 0x00, 0x00, 0x00]
    );
    assert_eq!(bytes_of(|e| e.emit_int(-123)), vec![0xd0, 0x85]);
}

#[test]
fn scalars_have_their_markers() {
    assert_eq!(bytes_of(|e| e.emit_nil()), vec![0xc0]);
    assert_eq!(bytes_of(|e| e.emit_option_none()), vec![0xc0]);
    assert_eq!(bytes_of(|e| e.emit_bool(false)), vec![0xc2]);
    assert_eq!(bytes_of(|e| e.emit_bool(true)), vec![0xc3]);
    assert_eq!(bytes_of(|e| e.emit_f32(1.0f32.to_bits())), vec![0xca, 0x3f, 0x80, 0x00, 0x00]);
    assert_eq!(
        bytes_of(|e| e.emit_f64(1.0f64.to_bits())),
        vec![0xcb, 0x3f, 0xf0, 0, 0, 0, 0, 0, 0]
    );
}

#[test]
fn headers_follow_the_length() {
    let s31: String = std::iter::repeat('x').take(31).collect();
    assert_eq!(bytes_of(|e| e.emit_str(&s31))[0], 0xbf);
    let s32: String = std::iter::repeat('x').take(32).collect();
    assert_eq!(bytes_of(|e| e.emit_str(&s32))[..2].to_vec(), vec![0xd9, 32]);
    let s300: String = std::iter::repeat('x').take(300).collect();
    assert_eq!(bytes_of(|e| e.emit_str(&s300))[..3].to_vec(), vec![0xda, 0x01, 0x2c]);
    assert_eq!(bytes_of(|e| e.emit_seq(15)), vec![0x9f]);
    assert_eq!(bytes_of(|e| e.emit_seq(16)), vec![0xdc, 0x00, 0x10]);
    assert_eq!(bytes_of(|e| e.emit_tuple_struct(2)), vec![0x92]);
    assert_eq!(bytes_of(|e| e.emit_map(3)), vec![0x83]);
    assert_eq!(bytes_of(|e| e.emit_map(70000)), vec![0xdf, 0x00, 0x01, 0x11, 0x70]);
    assert_eq!(bytes_of(|e| e.emit_struct(2)), vec![0x82]);
}

#[test]
fn strings_and_characters_are_utf8() {
    assert_eq!(bytes_of(|e| e.emit_str("ab")), vec![0xa2, b'a', b'b']);
    assert_eq!(bytes_of(|e| e.emit_char('a')), vec![0xa1, b'a']);
    assert_eq!(bytes_of(|e| e.emit_char('é')), vec![0xa2, 0xc3, 0xa9]);
    assert_eq!(
        bytes_of(|e| e.emit_enum_variant("Dog", 0)),
        vec![0x91, 0xa3, b'D', b'o', b'g']
    );
    assert_eq!(
        bytes_of(|e| e.emit_enum_struct_variant("A", 1)),
        vec![0x92, 0xa1, b'A']
    );
}

#[test]
fn encoder_appends_to_its_buffer() {
    let mut e = Encoder::new(vec![0x01, 0x02]);
    e.emit_nil();
    assert_eq!(e.into_bytes(), vec![0x01, 0x02, 0xc0]);
}

#[test]
fn decode_value_reads_nested_values() {
    let mut d = Decoder::new(vec![0x93, 0x01, 0xc3, 0xa1, b'x', 0xc0]);
    let v = d.decode_value().unwrap();
    assert_eq!(
        v,
        Value::Array(vec![Value::Unsigned(1), Value::Boolean(true), Value::Str(vec![b'x'])])
    );
    assert_eq!(d.decode_value().unwrap(), Value::Nil);
    assert_eq!(d.decode_value(), Err(Error::UnexpectedEof));
}

#[test]
fn decode_value_reads_every_kind() {
    let mut d = Decoder::new(vec![
        0xff, 0xd1, 0x01, 0x00, 0xcd, 0x01, 0x00, 0xca, 0x3f, 0x80, 0, 0, 0xc4, 0x02, 9, 8,
        0xd4, 0x01, 0x07, 0x81, 0xa1, b'k', 0x90, 0xc7, 0x01, 0x02, 0x05,
    ]);
    assert_eq!(d.decode_value().unwrap(), Value::Integer(-1));
    assert_eq!(d.decode_value().unwrap(), Value::Integer(256));
    assert_eq!(d.decode_value().unwrap(), Value::Unsigned(256));
    assert_eq!(d.decode_value().unwrap(), Value::Float(1.0f32.to_bits()));
    assert_eq!(d.decode_value().unwrap(), Value::Binary(vec![9, 8]));
    assert_eq!(d.decode_value().unwrap(), Value::Extended(1, vec![7]));
    assert_eq!(
        d.decode_value().unwrap(),
        Value::Mapping(vec![(Value::Str(vec![b'k']), Value::Array(vec![]))])
    );
    assert_eq!(d.decode_value().unwrap(), Value::Extended(2, vec![5]));
}

#[test]
fn decode_value_refuses_what_it_must() {
    assert_eq!(Decoder::new(vec![]).decode_value(), Err(Error::UnexpectedEof));
    assert_eq!(Decoder::new(vec![0xc1]).decode_value(), Err(invalid(Invalid::Reserved)));
    assert_eq!(
        Decoder::new(vec![0xd4, 0xff, 0x00]).decode_value(),
        Err(invalid(Invalid::ReservedType))
    );
    assert_eq!(Decoder::new(vec![0xc4, 5, 1, 2]).decode_value(), Err(Error::UnexpectedEof));
    assert_eq!(Decoder::new(vec![0x92, 0x01]).decode_value(), Err(Error::UnexpectedEof));
}

#[test]
fn encode_value_then_decode_value_gives_it_back() {
    let v = Value::Mapping(vec![
        (
            Value::Str(b"key".to_vec()),
            Value::Array(vec![
                Value::Integer(-5),
                Value::Integer(1000),
                Value::Unsigned(70000),
                Value::Double(2.5f64.to_bits()),
                Value::Float(0.5f32.to_bits()),
                Value::Nil,
                Value::Boolean(false),
            ]),
        ),
        (Value::Unsigned(1), Value::Str("é".as_bytes().to_vec())),
    ]);
    let mut e = Encoder::new(Vec::new());
    e.encode_value(&v);
    let mut d = Decoder::new(e.into_bytes());
    assert_eq!(d.decode_value().unwrap(), v);
    assert_eq!(d.decode_value(), Err(Error::UnexpectedEof));
}

#[test]
fn integer_readers_check_the_range() {
    let mut d = Decoder::new(bytes_of(|e| e.emit_u64(300)));
    assert_eq!(d.read_u8(), Err(invalid(Invalid::DoesNotFit(IntType::U8))));
    let mut d = Decoder::new(bytes_of(|e| e.emit_u64(70000)));
    assert_eq!(d.read_u16(), Err(invalid(Invalid::DoesNotFit(IntType::U16))));
    let mut d = Decoder::new(bytes_of(|e| e.emit_u64(1u64 << 40)));
    assert_eq!(d.read_u32(), Err(invalid(Invalid::DoesNotFit(IntType::U32))));
    let mut d = Decoder::new(bytes_of(|e| e.emit_i64(200)));
    assert_eq!(d.read_i8(), Err(invalid(Invalid::DoesNotFit(IntType::I8))));
    let mut d = Decoder::new(bytes_of(|e| e.emit_i64(-40000)));
    assert_eq!(d.read_i16(), Err(invalid(Invalid::DoesNotFit(IntType::I16))));
    let mut d = Decoder::new(bytes_of(|e| e.emit_i64(1i64 << 40)));
    assert_eq!(d.read_i32(), Err(invalid(Invalid::DoesNotFit(IntType::I32))));
    let mut d = Decoder::new(bytes_of(|e| e.emit_u64(u64::MAX)));
    assert_eq!(d.read_u64(), Ok(u64::MAX));
    let mut d = Decoder::new(bytes_of(|e| e.emit_i64(i64::MIN)));
    assert_eq!(d.read_i64(), Ok(i64::MIN));
    let mut d = Decoder::new(bytes_of(|e| e.emit_u32(u32::MAX)));
    assert_eq!(d.read_u32(), Ok(u32::MAX));
    let mut d = Decoder::new(bytes_of(|e| e.emit_i16(i16::MIN)));
    assert_eq!(d.read_i16(), Ok(i16::MIN));
}

#[test]
fn readers_refuse_other_markers() {
    assert_eq!(Decoder::new(vec![0xc0]).read_u64(), Err(invalid(Invalid::NoUnsignedInteger)));
    assert_eq!(Decoder::new(vec![0x05]).read_i64(), Err(invalid(Invalid::NoSignedInteger)));
    assert_eq!(Decoder::new(vec![0xc2]).read_nil(), Err(invalid(Invalid::InvalidNil)));
    assert_eq!(Decoder::new(vec![0xc0]).read_bool(), Err(invalid(Invalid::InvalidBool)));
    assert_eq!(Decoder::new(vec![0xca]).read_f64(), Err(invalid(Invalid::InvalidF64)));
    assert_eq!(Decoder::new(vec![0xcb]).read_f32(), Err(invalid(Invalid::InvalidF32)));
    assert_eq!(Decoder::new(vec![0x01]).read_str(), Err(invalid(Invalid::InvalidString)));
    assert_eq!(Decoder::new(vec![0x80]).read_seq(), Err(invalid(Invalid::InvalidVecLen)));
    assert_eq!(Decoder::new(vec![0x90]).read_map(), Err(invalid(Invalid::InvalidMapLen)));
    assert_eq!(
        Decoder::new(vec![0xa2, 0xff, 0xfe]).read_str(),
        Err(invalid(Invalid::NoUtf8String))
    );
    assert_eq!(
        Decoder::new(vec![0x82]).read_struct(3),
        Err(invalid(Invalid::InvalidStructLength))
    );
    assert_eq!(Decoder::new(vec![0x82]).read_struct(2), Ok(()));
    assert_eq!(
        Decoder::new(vec![0xa2, b'a', b'b']).read_char(),
        Err(invalid(Invalid::InvalidChar))
    );
    assert_eq!(
        Decoder::new(bytes_of(|e| e.emit_char('é'))).read_char(),
        Err(invalid(Invalid::InvalidChar))
    );
    assert_eq!(
        Decoder::new(bytes_of(|e| e.emit_enum_variant("Cat", 0))).read_enum_variant(&["Dog"]),
        Err(invalid(Invalid::UnknownVariant))
    );
    assert_eq!(
        Decoder::new(bytes_of(|e| e.emit_enum_struct_variant("B", 0)))
            .read_enum_struct_variant(&["A", "B", "B"]),
        Ok(1)
    );
    let mut d = Decoder::new(vec![]);
    assert_eq!(d.error("anything"), invalid(Invalid::ApplicationError));
}

#[test]
fn readers_report_early_end() {
    assert_eq!(Decoder::new(vec![]).read_u64(), Err(Error::UnexpectedEof));
    assert_eq!(Decoder::new(vec![0xcd, 0x01]).read_u64(), Err(Error::UnexpectedEof));
    assert_eq!(Decoder::new(vec![0xd2, 0x01]).read_i64(), Err(Error::UnexpectedEof));
    assert_eq!(Decoder::new(vec![0xa3, b'a']).read_str(), Err(Error::UnexpectedEof));
    assert_eq!(Decoder::new(vec![0xdc]).read_seq(), Err(Error::UnexpectedEof));
    assert_eq!(Decoder::new(vec![]).read_option(), Err(Error::UnexpectedEof));
}

#[test]
fn read_option_leaves_a_present_value_in_place() {
    let mut d = Decoder::new(vec![0x05, 0xc0, 0x07]);
    assert_eq!(d.read_option(), Ok(true));
    assert_eq!(d.read_u64(), Ok(5));
    assert_eq!(d.read_option(), Ok(false));
    assert_eq!(d.read_u64(), Ok(7));
}

#[test]
fn tuple_headers_are_array_headers() {
    let mut d = Decoder::new(bytes_of(|e| {
        e.emit_tuple(2);
        e.emit_nil();
        e.emit_bool(true);
    }));
    assert_eq!(d.read_tuple_struct(2), Ok(()));
    assert_eq!(d.read_nil(), Ok(()));
    assert_eq!(d.read_bool(), Ok(true));
}

#[test]
fn long_headers_read_back() {
    let mut d = Decoder::new(bytes_of(|e| {
        e.emit_seq(70000);
        e.emit_map(300);
    }));
    assert_eq!(d.read_seq(), Ok(70000));
    assert_eq!(d.read_map(), Ok(300));
}

#[test]
fn binary_blobs_read_back_through_decode_value() {
    let mut d = Decoder::new(vec![0xc4, 0x03, 1, 2, 3]);
    assert_eq!(d.decode_value().unwrap(), Value::Binary(vec![1, 2, 3]));
    let mut long = vec![0xc5, 0x01, 0x00];
    long.extend(std::iter::repeat(7u8).take(256));
    let mut d = Decoder::new(long);
    assert_eq!(d.decode_value().unwrap(), Value::Binary(vec![7u8; 256]));
}
