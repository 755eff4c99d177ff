use rmp::bytes::{Bytes, InsufficientBytes};
use rmp::errors::Error;
use rmp::marker::Marker;
use rmp::reader::{MapReader, ReadResult, Reader};

#[test]
fn every_byte_maps_to_a_marker_and_back() {
    for b in 0..=255u8 {
        let m = Marker::from_u8(b);
        assert_eq!(m.to_u8(), b);
    }
    assert_eq!(Marker::from_u8(0x00), Marker::FixPos(0));
    assert_eq!(Marker::from_u8(0x7f), Marker::FixPos(127));
    assert_eq!(Marker::from_u8(0x8f), Marker::FixMap(15));
    assert_eq!(Marker::from_u8(0x9f), Marker::FixArray(15));
    assert_eq!(Marker::from_u8(0xbf), Marker::FixStr(31));
    assert_eq!(Marker::from_u8(0xc1), Marker::Reserved);
    assert_eq!(Marker::from_u8(0xe0), Marker::FixNeg(-32));
    assert_eq!(Marker::from_u8(0xff), Marker::FixNeg(-1));
    assert_eq!(Marker::from_u8(0xdf), Marker::Map32);
}

#[test]
fn cursor_reads_big_endian_and_reports_shortfall() {
    let data = [0x01u8, 0x02, 0x03, 0x04, 0x05];
    let mut b = Bytes::new(&data);
    assert_eq!(b.read_data_u16().unwrap(), 0x0102);
    assert_eq!(b.position(), 2);
    assert_eq!(b.remaining_slice(), &[0x03, 0x04, 0x05]);
    let e = b.read_data_u32().unwrap_err();
    assert_eq!(e, InsufficientBytes { expected: 4, actual: 3, position: 2 });
    assert_eq!(b.position(), 2);
    assert_eq!(b.read_exact_ref(3).unwrap(), &[0x03, 0x04, 0x05]);
    assert!(b.read_data_u8().is_err());
}

#[test]
fn cursor_reads_signed_and_wide_values() {
    let data = [0xffu8, 0xff, 0xfe, 0x80, 0, 0, 0, 0, 0, 0, 0, 0x01, 0x02, 0x03, 0x04, 0x05, 0x06, 0x07, 0x08];
    let mut b = Bytes::new(&data);
    assert_eq!(b.read_data_i8().unwrap(), -1);
    assert_eq!(b.read_data_i16().unwrap(), -2);
    assert_eq!(b.read_data_i32().unwrap(), i32::MIN);
    assert_eq!(b.read_data_i64().unwrap(), 0x0000_0000_0102_0304);
    assert_eq!(b.position(), 15);
    let mut c = Bytes::new(&data[11..]);
    assert_eq!(c.read_data_u64().unwrap(), 0x0102_0304_0506_0708);
}

fn one(bytes: &[u8]) -> Result<Option<ReadResult<'_>>, Error> {
    let mut r = Reader::new(bytes);
    r.read()
}

#[test]
fn decodes_scalars_with_their_markers() {
    assert!(matches!(one(&[0xc0]), Ok(Some(ReadResult::Null(Marker::Null)))));
    assert!(matches!(one(&[0xc3]), Ok(Some(ReadResult::Bool(Marker::True, true)))));
    assert!(matches!(one(&[0xc2]), Ok(Some(ReadResult::Bool(Marker::False, false)))));
    assert!(matches!(one(&[0x05]), Ok(Some(ReadResult::UInt(Marker::FixPos(5), 5)))));
    assert!(matches!(one(&[0xe0]), Ok(Some(ReadResult::IInt(Marker::FixNeg(-32), -32)))));
    assert!(matches!(one(&[0xcc, 0xff]), Ok(Some(ReadResult::UInt(Marker::U8, 255)))));
    assert!(matches!(one(&[0xcd, 0x01, 0x00]), Ok(Some(ReadResult::UInt(Marker::U16, 256)))));
    assert!(matches!(one(&[0xce, 0, 1, 0, 0]), Ok(Some(ReadResult::UInt(Marker::U32, 65536)))));
    assert!(matches!(
        one(&[0xcf, 0xff, 0xff, 0xff, 0xff, 0xff, 0xff, 0xff, 0xff]),
        Ok(Some(ReadResult::UInt(Marker::U64, u64::MAX)))
    ));
    assert!(matches!(one(&[0xd0, 0x80]), Ok(Some(ReadResult::IInt(Marker::I8, -128)))));
    assert!(matches!(one(&[0xd1, 0xff, 0x00]), Ok(Some(ReadResult::IInt(Marker::I16, -256)))));
    assert!(matches!(one(&[0xd2, 0xff, 0xff, 0xff, 0xff]), Ok(Some(ReadResult::IInt(Marker::I32, -1)))));
    assert!(matches!(
        one(&[0xd3, 0x80, 0, 0, 0, 0, 0, 0, 0]),
        Ok(Some(ReadResult::IInt(Marker::I64, i64::MIN)))
    ));
}

#[test]
fn decodes_floats_as_bits() {
    let f = 1.5f32.to_bits().to_be_bytes();
    let bytes = [0xca, f[0], f[1], f[2], f[3]];
    match one(&bytes) {
        Ok(Some(ReadResult::F32(Marker::F32, bits))) => assert_eq!(f32::from_bits(bits), 1.5),
        other => panic!("unexpected {:?}", other),
    }
    let d = (-2.25f64).to_bits().to_be_bytes();
    let mut bytes = vec![0xcb];
    bytes.extend_from_slice(&d);
    match one(&bytes) {
        Ok(Some(ReadResult::F64(Marker::F64, bits))) => assert_eq!(f64::from_bits(bits), -2.25),
        other => panic!("unexpected {:?}", other),
    }
}

#[test]
fn decodes_text_and_keeps_invalid_utf8_as_raw_bytes() {
    match one(&[0xa3, b'a', b'b', b'c']) {
        Ok(Some(ReadResult::Str(Marker::FixStr(3), Ok(s)))) => assert_eq!(s, "abc"),
        other => panic!("unexpected {:?}", other),
    }
    match one(&[0xd9, 0x02, 0xff, 0xfe]) {
        Ok(Some(ReadResult::Str(Marker::Str8, Err((_, raw))))) => assert_eq!(raw, &[0xff, 0xfe]),
        other => panic!("unexpected {:?}", other),
    }
    match one(&[0xa0]) {
        Ok(Some(ReadResult::Str(Marker::FixStr(0), Ok(s)))) => assert_eq!(s, ""),
        other => panic!("unexpected {:?}", other),
    }
}

#[test]
fn decodes_binary_and_extensions() {
    match one(&[0xc4, 0x02, 0x01, 0x02]) {
        Ok(Some(ReadResult::Bin(Marker::Bin8, b))) => assert_eq!(b, &[1, 2]),
        other => panic!("unexpected {:?}", other),
    }
    match one(&[0xd4, 0x05, 0x2a]) {
        Ok(Some(ReadResult::Ext(Marker::FixExt1, 5, d))) => assert_eq!(d, &[0x2a]),
        other => panic!("unexpected {:?}", other),
    }
    match one(&[0xc7, 0x03, 0xfe, 1, 2, 3]) {
        Ok(Some(ReadResult::Ext(Marker::Ext8, -2, d))) => assert_eq!(d, &[1, 2, 3]),
        other => panic!("unexpected {:?}", other),
    }
    assert!(matches!(one(&[0xd5, 0x01, 0x00]), Err(Error::InsufficientBytes)));
}

#[test]
fn reserved_marker_is_invalid() {
    assert!(matches!(one(&[0xc1]), Err(Error::InvalidMarker)));
}

#[test]
fn shortfall_after_marker_is_an_error_not_the_end() {
    for b in [0xccu8, 0xcd, 0xce, 0xcf, 0xd0, 0xca, 0xcb, 0xa1, 0xd9, 0xc4, 0xd4, 0xc7, 0x91, 0xdc, 0x81, 0xde] {
        assert!(matches!(one(&[b]), Err(Error::InsufficientBytes)), "marker {:#x}", b);
    }
    assert!(matches!(one(&[]), Ok(None)));
    assert!(matches!(one(&[0x90]), Ok(Some(ReadResult::Array(Marker::FixArray(0), 0, _)))));
}

#[test]
fn array_span_holds_exactly_its_elements() {
    // [1, [2, 3], "x"] followed by 7
    let bytes = [0x93u8, 0x01, 0x92, 0x02, 0x03, 0xa1, b'x', 0x07];
    let mut r = Reader::new(&bytes);
    match r.next() {
        Some(Ok(ReadResult::Array(Marker::FixArray(3), 3, span))) => {
            assert_eq!(span, &bytes[1..7]);
            let mut inner = Reader::new(span);
            assert!(matches!(inner.next(), Some(Ok(ReadResult::UInt(_, 1)))));
            match inner.next() {
                Some(Ok(ReadResult::Array(Marker::FixArray(2), 2, s))) => assert_eq!(s, &[0x02, 0x03]),
                other => panic!("unexpected {:?}", other),
            }
            assert!(matches!(inner.next(), Some(Ok(ReadResult::Str(_, Ok("x"))))));
            assert!(inner.next().is_none());
        }
        other => panic!("unexpected {:?}", other),
    }
    assert_eq!(r.position(), 7);
    assert!(matches!(r.next(), Some(Ok(ReadResult::UInt(Marker::FixPos(7), 7)))));
    assert!(r.next().is_none());
}

#[test]
fn array_missing_elements_is_a_shortfall() {
    let bytes = [0x93u8, 0x01, 0x02];
    assert!(matches!(one(&bytes), Err(Error::InsufficientBytes)));
    let bytes = [0x92u8, 0x01, 0xc1];
    assert!(matches!(one(&bytes), Err(Error::InvalidMarker)));
}

#[test]
fn array16_and_map16_headers_decode() {
    let mut bytes = vec![0xdc, 0x00, 0x10];
    bytes.extend(std::iter::repeat(0x00).take(16));
    match one(&bytes) {
        Ok(Some(ReadResult::Array(Marker::Array16, 16, span))) => assert_eq!(span.len(), 16),
        other => panic!("unexpected {:?}", other),
    }
    let bytes = [0xde, 0x00, 0x01, 0xc0, 0xc3];
    match one(&bytes) {
        Ok(Some(ReadResult::MapEntries(Marker::Map16, pairs))) => assert_eq!(pairs.len(), 1),
        other => panic!("unexpected {:?}", other),
    }
}

#[test]
fn map_reader_with_declared_count_above_pairs() {
    // {1: 2, 3: 4} declared with a count of three
    let span = [0x01u8, 0x02, 0x03, 0x04];
    let mut pairs = MapReader::new(3, &span);
    assert_eq!(pairs.len(), 3);
    assert!(matches!(pairs.next(), Some(Ok((ReadResult::UInt(_, 1), ReadResult::UInt(_, 2))))));
    assert!(matches!(pairs.next(), Some(Ok((ReadResult::UInt(_, 3), ReadResult::UInt(_, 4))))));
    assert!(matches!(pairs.next(), Some(Err(Error::MapMissingElementsError))));
    assert!(pairs.next().is_none());
    assert!(pairs.next().is_none());
}

#[test]
fn map_reader_with_key_but_no_value() {
    let span = [0x01u8];
    let mut pairs = MapReader::new(1, &span);
    assert!(matches!(pairs.next(), Some(Err(Error::MapMissingElementsError))));
    assert!(pairs.next().is_none());
}

#[test]
fn map_reader_with_malformed_value() {
    let span = [0x01u8, 0xc1, 0x02, 0x03];
    let mut pairs = MapReader::new(2, &span);
    assert!(matches!(pairs.next(), Some(Err(Error::ValueReadError))));
    assert!(pairs.next().is_none());
}

#[test]
fn map_reader_ignores_bytes_after_the_count() {
    let span = [0x01u8, 0x02, 0xc1];
    let mut pairs = MapReader::new(1, &span);
    assert!(matches!(pairs.next(), Some(Ok(_))));
    assert!(pairs.next().is_none());
}

#[test]
fn error_kinds_have_messages() {
    assert_eq!(Error::InvalidMarker.message(), "invalid marker");
    assert_eq!(Error::from(rmp::reader::InvalidMarker {}), Error::InvalidMarker);
    assert_ne!(Error::InsufficientBytes.message(), Error::Utf8Error.message());
}
