use std::borrow::Cow;
use netzer::numeric::{BigEndian, LittleEndian};
use netzer::string::Utf8;
use netzer::varint::{decode_leb128, Leb128, Leb128Decoder, Leb128Step, Leb128TooLong, VarInt};
use netzer::variant::{variant_by_name, variant_by_ordinal};
use netzer::{DecodeError, EncodeError, NetDecode, NetEncode};

fn be<T: NetEncode<BigEndian>>(v: &T) -> Vec<u8> {
    let mut out = Vec::new();
    v.encode(&mut out).unwrap();
    out
}

fn le<T: NetEncode<LittleEndian>>(v: &T) -> Vec<u8> {
    let mut out = Vec::new();
    v.encode(&mut out).unwrap();
    out
}

fn leb<T: NetEncode<Leb128>>(v: &T) -> Vec<u8> {
    let mut out = Vec::new();
    v.encode(&mut out).unwrap();
    out
}

#[test]
fn big_endian_integers() {
    assert_eq!(be(&0x1234u16), vec![0x12, 0x34]);
    assert_eq!(be(&0x0102_0304u32), vec![1, 2, 3, 4]);
    assert_eq!(be(&-1i32), vec![0xff, 0xff, 0xff, 0xff]);
    assert_eq!(be(&-2i16), vec![0xff, 0xfe]);
    assert_eq!(be(&0x80u8), vec![0x80]);
    assert_eq!(be(&i8::MIN), vec![0x80]);
    assert_eq!(be(&1u64), vec![0, 0, 0, 0, 0, 0, 0, 1]);
    assert_eq!(be(&u128::MAX), vec![0xff; 16]);
    assert_eq!(be(&i128::MIN), {
        let mut v = vec![0u8; 16];
        v[0] = 0x80;
        v
    });
}

#[test]
fn little_endian_integers() {
    assert_eq!(le(&0x1234u16), vec![0x34, 0x12]);
    assert_eq!(le(&0x0102_0304u32), vec![4, 3, 2, 1]);
    assert_eq!(le(&i64::MIN), vec![0, 0, 0, 0, 0, 0, 0, 0x80]);
    assert_eq!(le(&-3i8), vec![0xfd]);
}

#[test]
fn encoding_appends() {
    let mut out = vec![9u8];
    NetEncode::<BigEndian>::encode(&0x000au16, &mut out).unwrap();
    assert_eq!(out, vec![9, 0, 0x0a]);
}

#[test]
fn fixed_width_round_trip() {
    for v in [0i32, 1, -1, i32::MIN, i32::MAX, 123456, -98765] {
        let mut bytes = be(&v);
        bytes.push(0xee);
        let (w, n) = <i32 as NetDecode<BigEndian>>::decode(&bytes).unwrap();
        assert_eq!((w, n), (v, 4));
        let bytes = le(&v);
        assert_eq!(<i32 as NetDecode<LittleEndian>>::decode(&bytes).unwrap(), (v, 4));
    }
    for v in [0u128, 1, u128::MAX, 0x0123_4567_89ab_cdef_0011_2233_4455_6677] {
        assert_eq!(<u128 as NetDecode<BigEndian>>::decode(&be(&v)).unwrap(), (v, 16));
        assert_eq!(<u128 as NetDecode<LittleEndian>>::decode(&le(&v)).unwrap(), (v, 16));
    }
}

#[test]
fn fixed_width_decode_values() {
    assert_eq!(<u16 as NetDecode<BigEndian>>::decode(&[0xab, 0xcd]).unwrap(), (0xabcd, 2));
    assert_eq!(<u16 as NetDecode<LittleEndian>>::decode(&[0xab, 0xcd]).unwrap(), (0xcdab, 2));
    assert_eq!(<i16 as NetDecode<BigEndian>>::decode(&[0x80, 0x00]).unwrap(), (i16::MIN, 2));
    assert_eq!(<i8 as NetDecode<LittleEndian>>::decode(&[0xff, 1, 2]).unwrap(), (-1, 1));
}

#[test]
fn fixed_width_short_input() {
    assert_eq!(<u32 as NetDecode<BigEndian>>::decode(&[1, 2, 3]), Err(DecodeError::UnexpectedEnd));
    assert_eq!(<u8 as NetDecode<LittleEndian>>::decode(&[]), Err(DecodeError::UnexpectedEnd));
}

#[test]
fn booleans() {
    assert_eq!(be(&true), vec![1]);
    assert_eq!(le(&false), vec![0]);
    assert_eq!(<bool as NetDecode<BigEndian>>::decode(&[0]).unwrap(), (false, 1));
    assert_eq!(<bool as NetDecode<BigEndian>>::decode(&[1]).unwrap(), (true, 1));
    assert_eq!(<bool as NetDecode<LittleEndian>>::decode(&[7]).unwrap(), (true, 1));
    assert_eq!(<bool as NetDecode<LittleEndian>>::decode(&[]), Err(DecodeError::UnexpectedEnd));
}

#[test]
fn varint_encodings() {
    assert_eq!(leb(&VarInt(0u32)), vec![0]);
    assert_eq!(leb(&VarInt(1u32)), vec![1]);
    assert_eq!(leb(&VarInt(127u32)), vec![0x7f]);
    assert_eq!(leb(&VarInt(128u32)), vec![0x80, 0x01]);
    assert_eq!(leb(&VarInt(300u32)), vec![0xac, 0x02]);
    assert_eq!(leb(&VarInt(u16::MAX)), vec![0xff, 0xff, 0x03]);
    assert_eq!(leb(&VarInt(-1i32)), vec![0xff, 0xff, 0xff, 0xff, 0x0f]);
    assert_eq!(leb(&VarInt(i32::MIN)), vec![0x80, 0x80, 0x80, 0x80, 0x08]);
    assert_eq!(leb(&VarInt(-1i64)), vec![0xff, 0xff, 0xff, 0xff, 0xff, 0xff, 0xff, 0xff, 0xff, 0x01]);
    assert_eq!(leb(&VarInt(u128::MAX)).len(), 19);
    assert_eq!(leb(&VarInt(2_147_483_647i32)), vec![0xff, 0xff, 0xff, 0xff, 0x07]);
}

#[test]
fn varint_round_trip() {
    for v in [0i64, 1, -1, 63, 64, -64, -65, i64::MIN, i64::MAX, 1 << 35] {
        let mut bytes = leb(&VarInt(v));
        let n = bytes.len();
        bytes.extend_from_slice(&[0xff, 0x01]);
        let (w, m) = <VarInt<i64> as NetDecode<Leb128>>::decode(&bytes).unwrap();
        assert_eq!((w.0, m), (v, n));
    }
    for v in [0u128, 1, 300, u128::MAX, 1 << 127] {
        let bytes = leb(&VarInt(v));
        let (w, m) = <VarInt<u128> as NetDecode<Leb128>>::decode(&bytes).unwrap();
        assert_eq!((w.0, m), (v, bytes.len()));
    }
}

#[test]
fn varint_decode_lenient_forms() {
    // A longer form than needed is read all the same.
    let (v, n) = <VarInt<u32> as NetDecode<Leb128>>::decode(&[0x81, 0x80, 0x00]).unwrap();
    assert_eq!((v.0, n), (1, 3));
    // Bits above the width of the type are dropped.
    let (v, n) = <VarInt<u16> as NetDecode<Leb128>>::decode(&[0xff, 0xff, 0x7f]).unwrap();
    assert_eq!((v.0, n), (0xffff, 3));
    let (v, _) = <VarInt<i16> as NetDecode<Leb128>>::decode(&[0x80, 0x80, 0x02]).unwrap();
    assert_eq!(v.0, i16::MIN);
}

#[test]
fn varint_too_long() {
    assert!(matches!(
        <VarInt<u16> as NetDecode<Leb128>>::decode(&[0x80, 0x80, 0x80, 0x01]),
        Err(DecodeError::Leb128TooLong)
    ));
    assert!(matches!(
        <VarInt<i32> as NetDecode<Leb128>>::decode(&[0xff, 0xff, 0xff, 0xff, 0xff]),
        Err(DecodeError::Leb128TooLong)
    ));
    // Ten bytes are the most an i64 may take.
    let mut ten = vec![0xffu8; 9];
    ten.push(0x01);
    assert!(<VarInt<i64> as NetDecode<Leb128>>::decode(&ten).is_ok());
    let mut eleven = vec![0xffu8; 10];
    eleven.push(0x01);
    assert!(matches!(<VarInt<i64> as NetDecode<Leb128>>::decode(&eleven), Err(DecodeError::Leb128TooLong)));
}

#[test]
fn varint_unexpected_end() {
    assert!(matches!(<VarInt<u32> as NetDecode<Leb128>>::decode(&[]), Err(DecodeError::UnexpectedEnd)));
    assert!(matches!(<VarInt<u32> as NetDecode<Leb128>>::decode(&[0x80, 0x80]), Err(DecodeError::UnexpectedEnd)));
}

#[test]
fn leb128_reader_by_byte() {
    let mut reader = Leb128Decoder::new(32);
    assert_eq!(reader.push(0xac), Leb128Step::More);
    assert_eq!(reader.push(0x02), Leb128Step::Done(300));
    let mut reader = Leb128Decoder::new(16);
    assert_eq!(reader.push(0x80), Leb128Step::More);
    assert_eq!(reader.push(0x80), Leb128Step::More);
    assert_eq!(reader.push(0x80), Leb128Step::TooLong(Leb128TooLong));
    assert_eq!(decode_leb128(&[0xe5, 0x8e, 0x26, 0x00], 64), Ok((624485, 3)));
}

#[test]
fn varint_conversions() {
    assert_eq!(VarInt::<u16>::try_from_int(-1i32).map(|v| v.0), None);
    assert_eq!(VarInt::<u16>::try_from_int(70000u32).map(|v| v.0), None);
    assert_eq!(VarInt::<u16>::try_from_int(65535u64).map(|v| v.0), Some(65535));
    assert_eq!(VarInt::<i64>::try_from_int(-5i8).map(|v| v.0), Some(-5));
    assert_eq!(VarInt::<i16>::try_from_int(u128::MAX).map(|v| v.0), None);
    assert_eq!(VarInt::<i128>::try_from_int(u64::MAX).map(|v| v.0), Some(u64::MAX as i128));
    assert_eq!(VarInt(-1i64).try_into_int::<i32>(), Some(-1));
    assert_eq!(VarInt(i64::MIN).try_into_int::<i32>(), None);
    assert_eq!(VarInt(-1i64).try_into_int::<u8>(), None);
    assert_eq!(VarInt(200u32).try_into_int::<u8>(), Some(200));
    assert_eq!(VarInt(200u32).try_into_int::<i8>(), None);
    assert_eq!(VarInt::<u32>::from_bool(true).0, 1);
    assert_eq!(VarInt::<i16>::from_bool(false).0, 0);
}

type Short = Utf8<u16, BigEndian>;
type Tiny = Utf8<u8, LittleEndian>;
type Signed = Utf8<i8, BigEndian>;
type Var = Utf8<VarInt<u32>, Leb128>;

fn utf8<F: netzer::NetFormat>(s: &str) -> Result<Vec<u8>, EncodeError>
where
    String: NetEncode<F>,
{
    let mut out = Vec::new();
    NetEncode::<F>::encode(&s.to_string(), &mut out).map(|_| out)
}

#[test]
fn utf8_encodings() {
    assert_eq!(utf8::<Short>("hi").unwrap(), vec![0, 2, b'h', b'i']);
    assert_eq!(utf8::<Tiny>("").unwrap(), vec![0]);
    assert_eq!(utf8::<Var>("é").unwrap(), vec![2, 0xc3, 0xa9]);
    let long = "x".repeat(200);
    let bytes = utf8::<Var>(&long).unwrap();
    assert_eq!(&bytes[..2], &[0xc8, 0x01]);
    assert_eq!(bytes.len(), 202);
}

#[test]
fn utf8_length_out_of_range() {
    let long = "y".repeat(256);
    assert_eq!(utf8::<Tiny>(&long), Err(EncodeError::LengthOutOfRange));
    assert_eq!(utf8::<Tiny>(&"y".repeat(255)).map(|b| b.len()), Ok(256));
    assert_eq!(utf8::<Signed>(&"z".repeat(128)), Err(EncodeError::LengthOutOfRange));
}

#[test]
fn utf8_round_trip() {
    for s in ["", "netzer", "grüße", "日本語", "🦀 crab"] {
        let mut bytes = utf8::<Var>(s).unwrap();
        let n = bytes.len();
        bytes.push(0x42);
        let (t, m) = <String as NetDecode<Var>>::decode(&bytes).unwrap();
        assert_eq!((t.as_str(), m), (s, n));
        let bytes = utf8::<Short>(s).unwrap();
        let (t, m) = <String as NetDecode<Short>>::decode(&bytes).unwrap();
        assert_eq!((t.as_str(), m), (s, bytes.len()));
    }
}

#[test]
fn utf8_decode_errors() {
    assert_eq!(<String as NetDecode<Short>>::decode(&[0, 1, 0xff]), Err(DecodeError::InvalidUtf8));
    assert_eq!(<String as NetDecode<Short>>::decode(&[0, 2, 0xc3]), Err(DecodeError::UnexpectedEnd));
    assert_eq!(<String as NetDecode<Short>>::decode(&[0]), Err(DecodeError::UnexpectedEnd));
    assert_eq!(<String as NetDecode<Signed>>::decode(&[0xff, b'a']), Err(DecodeError::LengthOutOfRange));
    assert_eq!(<String as NetDecode<Var>>::decode(&[0x80]), Err(DecodeError::UnexpectedEnd));
    assert_eq!(<String as NetDecode<Var>>::decode(&[0x80, 0x80, 0x80, 0x80, 0x80, 0x01]), Err(DecodeError::Leb128TooLong));
    // An overlong encoding of '/' is not UTF-8.
    assert_eq!(<String as NetDecode<Short>>::decode(&[0, 2, 0xc0, 0xaf]), Err(DecodeError::InvalidUtf8));
}

#[test]
fn enum_variants_by_ordinal() {
    let discriminants = [0u8, 1, 2, 3];
    assert!(matches!(variant_by_ordinal(2u8, &discriminants), Ok(2)));
    match variant_by_ordinal(9u8, &discriminants) {
        Err(e) => assert_eq!(e.0, 9),
        Ok(_) => panic!("ordinal 9 names no variant"),
    }
    assert!(matches!(variant_by_ordinal(-1i32, &[5, -1, -1]), Ok(1)));
}

#[test]
fn enum_variants_by_name() {
    let names = vec![
        "minecraft:overworld".to_string(),
        "minecraft:the_nether".to_string(),
        "minecraft:the_end".to_string(),
    ];
    assert!(matches!(variant_by_name("minecraft:the_end".to_string(), &names), Ok(2)));
    match variant_by_name("minecraft:moon".to_string(), &names) {
        Err(e) => assert_eq!(e.0, "minecraft:moon"),
        Ok(_) => panic!("no such dimension"),
    }
}

#[test]
fn utf8_from_str_and_cow() {
    let mut out = Vec::new();
    NetEncode::<Short>::encode("ok", &mut out).unwrap();
    assert_eq!(out, vec![0, 2, b'o', b'k']);
    let mut out = Vec::new();
    NetEncode::<Var>::encode(&Cow::Borrowed("ab"), &mut out).unwrap();
    assert_eq!(out, vec![2, b'a', b'b']);
    let mut out2 = Vec::new();
    NetEncode::<Var>::encode(&Cow::<str>::Owned("ab".to_string()), &mut out2).unwrap();
    assert_eq!(out, out2);
    let (c, n) = <Cow<str> as NetDecode<Var>>::decode(&out).unwrap();
    assert_eq!((c.as_ref(), n), ("ab", 3));
    assert_eq!(<Cow<str> as NetDecode<Var>>::decode(&[1, 0x80]), Err(DecodeError::InvalidUtf8));
}

#[test]
fn utf8_failed_encoding_leaves_buffer() {
    let mut out = vec![1u8, 2, 3];
    let long = "q".repeat(300);
    assert_eq!(NetEncode::<Tiny>::encode(long.as_str(), &mut out), Err(EncodeError::LengthOutOfRange));
    assert_eq!(out, vec![1, 2, 3]);
}

#[test]
fn utf8_little_endian_prefix() {
    let bytes = utf8::<Utf8<u32, LittleEndian>>("abc").unwrap();
    assert_eq!(bytes, vec![3, 0, 0, 0, b'a', b'b', b'c']);
    let (s, n) = <String as NetDecode<Utf8<u32, LittleEndian>>>::decode(&bytes).unwrap();
    assert_eq!((s.as_str(), n), ("abc", 7));
}

#[test]
fn composite_record() {
    // A record of a u64 in little-endian order, an i32 carried as a VarInt<i64>,
    // and a string with a VarInt<u32> length, one after the other.
    let mut out = Vec::new();
    NetEncode::<LittleEndian>::encode(&7u64.wrapping_add(1), &mut out).unwrap();
    let b = VarInt::<i64>::try_from_int(-300i32).unwrap();
    NetEncode::<Leb128>::encode(&b, &mut out).unwrap();
    NetEncode::<Var>::encode("hello", &mut out).unwrap();
    assert_eq!(out.len(), 8 + 10 + 6);

    let (a, n1) = <u64 as NetDecode<LittleEndian>>::decode(&out).unwrap();
    assert_eq!(a.wrapping_sub(1), 7);
    let (b, n2) = <VarInt<i64> as NetDecode<Leb128>>::decode(&out[n1..]).unwrap();
    assert_eq!(b.try_into_int::<i32>(), Some(-300));
    let (c, n3) = <String as NetDecode<Var>>::decode(&out[n1 + n2..]).unwrap();
    assert_eq!(c, "hello");
    assert_eq!(n1 + n2 + n3, out.len());
}
