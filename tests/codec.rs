use binprot::{
    binprot_read_with_size, binprot_write_with_size, BinProt, BinProtMap, Error, Nat0, WithLen,
};

fn encode<T: BinProt>(v: &T) -> Vec<u8> {
    let mut out = Vec::new();
    v.binprot_write(&mut out);
    out
}

fn decode<T: BinProt>(buf: &[u8]) -> Result<(T, usize), Error> {
    let mut pos = 0usize;
    let v = T::binprot_read(buf, &mut pos)?;
    Ok((v, pos))
}

fn round_trip<T: BinProt + PartialEq + std::fmt::Debug>(v: T) {
    let bytes = encode(&v);
    assert_eq!(v.binprot_size(), bytes.len());
    let mut extended = bytes.clone();
    extended.extend_from_slice(&[0xaa, 0xbb]);
    let (back, used) = decode::<T>(&extended).unwrap();
    assert_eq!(back, v);
    assert_eq!(used, bytes.len());
}

#[test]
fn nat0_canonical_widths() {
    assert_eq!(encode(&Nat0(0)), vec![0x00]);
    assert_eq!(encode(&Nat0(127)), vec![0x7f]);
    assert_eq!(encode(&Nat0(128)), vec![0xfe, 0x80, 0x00]);
    assert_eq!(encode(&Nat0(0xffff)), vec![0xfe, 0xff, 0xff]);
    assert_eq!(encode(&Nat0(65536)), vec![0xfd, 0x00, 0x00, 0x01, 0x00]);
    assert_eq!(encode(&Nat0(0xffff_ffff)), vec![0xfd, 0xff, 0xff, 0xff, 0xff]);
    assert_eq!(
        encode(&Nat0(0x1_0000_0000)),
        vec![0xfc, 0x00, 0x00, 0x00, 0x00, 0x01, 0x00, 0x00, 0x00]
    );
    assert_eq!(encode(&Nat0(u64::MAX)), vec![0xfc, 0xff, 0xff, 0xff, 0xff, 0xff, 0xff, 0xff, 0xff]);
}

#[test]
fn i64_canonical_widths() {
    assert_eq!(encode(&0i64), vec![0x00]);
    assert_eq!(encode(&127i64), vec![0x7f]);
    assert_eq!(encode(&-1i64), vec![0xff, 0xff]);
    assert_eq!(encode(&-128i64), vec![0xff, 0x80]);
    assert_eq!(encode(&128i64), vec![0xfe, 0x80, 0x00]);
    assert_eq!(encode(&-129i64), vec![0xfe, 0x7f, 0xff]);
    assert_eq!(encode(&32767i64), vec![0xfe, 0xff, 0x7f]);
    assert_eq!(encode(&-32768i64), vec![0xfe, 0x00, 0x80]);
    assert_eq!(encode(&32768i64), vec![0xfd, 0x00, 0x80, 0x00, 0x00]);
    assert_eq!(encode(&-0x8000_0000i64), vec![0xfd, 0x00, 0x00, 0x00, 0x80]);
    assert_eq!(
        encode(&0x8000_0000i64),
        vec![0xfc, 0x00, 0x00, 0x00, 0x80, 0x00, 0x00, 0x00, 0x00]
    );
    assert_eq!(encode(&i64::MIN), vec![0xfc, 0, 0, 0, 0, 0, 0, 0, 0x80]);
    assert_eq!(encode(&i64::MAX), vec![0xfc, 0xff, 0xff, 0xff, 0xff, 0xff, 0xff, 0xff, 0x7f]);
}

#[test]
fn integers_round_trip() {
    for v in [0u64, 1, 127, 128, 255, 256, 0xffff, 0x1_0000, 0xffff_ffff, 0x1_0000_0000, u64::MAX] {
        round_trip(Nat0(v));
    }
    for v in [
        0i64, 1, -1, 127, 128, -128, -129, 255, 32767, -32768, 32768, -32769, 0x7fff_ffff,
        -0x8000_0000, 0x8000_0000, -0x8000_0001, i64::MAX, i64::MIN,
    ] {
        round_trip(v);
    }
}

#[test]
fn integer_decode_reads_the_wider_tags() {
    assert_eq!(decode::<Nat0>(&[0xfe, 0x80, 0x00]), Ok((Nat0(128), 3)));
    assert_eq!(decode::<Nat0>(&[0xfd, 0x01, 0x02, 0x03, 0x04]), Ok((Nat0(0x0403_0201), 5)));
    assert_eq!(decode::<i64>(&[0xff, 0x80]), Ok((-128, 2)));
    assert_eq!(decode::<i64>(&[0xfe, 0x00, 0x80]), Ok((-32768, 3)));
}

#[test]
fn integer_decode_errors() {
    assert_eq!(decode::<Nat0>(&[]), Err(Error::UnexpectedEof));
    assert_eq!(decode::<Nat0>(&[0xfe, 0x01]), Err(Error::UnexpectedEof));
    assert_eq!(decode::<Nat0>(&[0x80]), Err(Error::UnexpectedIntegerTag(0x80)));
    assert_eq!(decode::<Nat0>(&[0xff, 0x01]), Err(Error::UnexpectedIntegerTag(0xff)));
    assert_eq!(decode::<i64>(&[0xfb]), Err(Error::UnexpectedIntegerTag(0xfb)));
    assert_eq!(decode::<i64>(&[0xfc, 0, 0, 0]), Err(Error::UnexpectedEof));
}

#[test]
fn primitives_round_trip() {
    round_trip(());
    round_trip(true);
    round_trip(false);
    assert_eq!(encode(&()), vec![0x00]);
    assert_eq!(encode(&true), vec![0x01]);
    assert_eq!(encode(&false), vec![0x00]);
}

#[test]
fn invalid_discriminants() {
    assert_eq!(decode::<bool>(&[0x02]), Err(Error::UnexpectedValueForBool(2)));
    assert_eq!(decode::<Option<i64>>(&[0x05]), Err(Error::UnexpectedValueForOption(5)));
    assert_eq!(decode::<()>(&[0x03]), Err(Error::UnexpectedValueForUnit(3)));
    assert_eq!(decode::<bool>(&[]), Err(Error::UnexpectedEof));
}

#[test]
fn option_encoding() {
    assert_eq!(encode(&None::<i64>), vec![0x00]);
    assert_eq!(encode(&Some(300i64)), vec![0x01, 0xfe, 0x2c, 0x01]);
    round_trip(None::<i64>);
    round_trip(Some(-5i64));
    round_trip(Some(Some(true)));
    assert_eq!(decode::<Option<bool>>(&[0x01, 0x07]), Err(Error::UnexpectedValueForBool(7)));
}

#[test]
fn sequence_encoding() {
    assert_eq!(encode(&Vec::<i64>::new()), vec![0x00]);
    assert_eq!(encode(&vec![1i64, -1, 200]), vec![0x03, 0x01, 0xff, 0xff, 0xfe, 0xc8, 0x00]);
    round_trip(vec![1i64, 2, 3, -100_000]);
    round_trip(vec![vec![true], vec![], vec![false, true]]);
    let long: Vec<i64> = (0..300).collect();
    round_trip(long.clone());
    assert_eq!(&encode(&long)[..3], &[0xfe, 0x2c, 0x01]);
    assert_eq!(decode::<Vec<bool>>(&[0x02, 0x01, 0x09]), Err(Error::UnexpectedValueForBool(9)));
    assert_eq!(decode::<Vec<bool>>(&[0x02, 0x01]), Err(Error::UnexpectedEof));
}

#[test]
fn string_encoding() {
    assert_eq!(encode(&String::from("abc")), vec![0x03, b'a', b'b', b'c']);
    assert_eq!(encode(&String::new()), vec![0x00]);
    round_trip(String::from("hello"));
    round_trip(String::from("h\u{e9}llo \u{1f600}"));
    round_trip("x".repeat(200));
    assert_eq!(decode::<String>(&[0x02, 0xc3, 0xa9]), Ok((String::from("\u{e9}"), 3)));
}

#[test]
fn string_rejects_invalid_utf8() {
    assert_eq!(decode::<String>(&[0x02, 0xff, 0xfe]), Err(Error::Utf8Error));
    assert_eq!(decode::<String>(&[0x01, 0xc3]), Err(Error::Utf8Error));
    assert_eq!(decode::<String>(&[0x03, b'a', b'b']), Err(Error::UnexpectedEof));
}

#[test]
fn tuples_encoding() {
    assert_eq!(encode(&(1i64, true)), vec![0x01, 0x01]);
    round_trip((5i64,));
    round_trip((1i64, String::from("a")));
    round_trip((1i64, false, Nat0(1000)));
    round_trip((1i64, 2i64, 3i64, 4i64));
    round_trip((1i64, 2i64, 3i64, 4i64, 5i64));
    round_trip((1i64, 2i64, 3i64, 4i64, 5i64, 6i64));
    round_trip((1i64, 2i64, 3i64, 4i64, 5i64, 6i64, 7i64));
    round_trip((1i64, 2i64, 3i64, 4i64, 5i64, 6i64, 7i64, 8i64));
    round_trip((1i64, 2i64, 3i64, 4i64, 5i64, 6i64, 7i64, 8i64, true));
}

#[test]
fn map_round_trip() {
    let mut m: BinProtMap<String, i64> = BinProtMap::new();
    m.insert(String::from("b"), 2);
    m.insert(String::from("a"), 1);
    m.insert(String::from("b"), 3);
    assert_eq!(m.len(), 2);
    let bytes = encode(&m);
    assert_eq!(bytes, vec![0x02, 0x01, b'b', 0x03, 0x01, b'a', 0x01]);
    assert_eq!(m.binprot_size(), bytes.len());
    let (back, used) = decode::<BinProtMap<String, i64>>(&bytes).unwrap();
    assert_eq!(used, bytes.len());
    assert_eq!(
        back.entries(),
        &[(String::from("b"), 3i64), (String::from("a"), 1i64)][..]
    );
}

#[test]
fn map_rejects_duplicate_keys() {
    let bytes = [0x02, 0x01, 0x0a, 0x01, 0x14];
    assert!(matches!(
        decode::<BinProtMap<i64, i64>>(&bytes),
        Err(Error::SameKeyAppearsTwiceInMap)
    ));
    let ok = [0x02, 0x01, 0x0a, 0x02, 0x14];
    let (m, used) = decode::<BinProtMap<i64, i64>>(&ok).unwrap();
    assert_eq!(used, 5);
    assert_eq!(m.entries(), &[(1i64, 10i64), (2, 20)][..]);
}

#[test]
fn with_len_encoding() {
    let w = WithLen(vec![1i64, 2, 3]);
    assert_eq!(encode(&w), vec![0x04, 0x03, 0x01, 0x02, 0x03]);
    round_trip(WithLen(String::from("abc")));
    let big = WithLen(vec![7i64; 200]);
    let bytes = encode(&big);
    assert_eq!(bytes.len(), 3 + 203);
    assert_eq!(&bytes[..3], &[0xfe, 0xcb, 0x00]);
    round_trip(big);
}

#[test]
fn fixed_width_framing() {
    let v = vec![1i64, 300, -5];
    let payload = encode(&v);
    let mut out = Vec::new();
    binprot_write_with_size(&v, &mut out);
    assert_eq!(out.len(), 8 + payload.len());
    let mut len_bytes = [0u8; 8];
    len_bytes.copy_from_slice(&out[..8]);
    assert_eq!(i64::from_le_bytes(len_bytes), payload.len() as i64);
    assert_eq!(&out[8..], &payload[..]);
    let mut pos = 0usize;
    let back: Vec<i64> = binprot_read_with_size(&out, &mut pos).unwrap();
    assert_eq!(back, v);
    assert_eq!(pos, out.len());
    let mut pos = 0usize;
    assert_eq!(
        binprot_read_with_size::<i64>(&[1, 0, 0], &mut pos),
        Err(Error::UnexpectedEof)
    );
}

#[test]
fn reads_continue_from_position() {
    let mut out = Vec::new();
    Nat0(500).binprot_write(&mut out);
    String::from("ok").binprot_write(&mut out);
    true.binprot_write(&mut out);
    let mut pos = 0usize;
    assert_eq!(Nat0::binprot_read(&out, &mut pos), Ok(Nat0(500)));
    assert_eq!(pos, 3);
    assert_eq!(String::binprot_read(&out, &mut pos), Ok(String::from("ok")));
    assert_eq!(bool::binprot_read(&out, &mut pos), Ok(true));
    assert_eq!(pos, out.len());
}
