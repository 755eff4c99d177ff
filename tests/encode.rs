use rmp::buffer::{ByteBuf, FixedBufCapacityOverflow};
use rmp::encode::{
    write_array_len, write_bin_len, write_ext_meta, write_map_len, write_marker, write_sint,
    write_str_len, write_uint, RmpWrite,
};
use rmp::errors::Error;
use rmp::fixed;
use rmp::marker::Marker;
use rmp::reader::{ReadResult, Reader};
use rmp::writer::{write_map, WriteRequest};

fn encode(req: WriteRequest) -> Vec<u8> {
    let mut buf = ByteBuf::new();
    let mut req = req;
    req.write_request(&mut buf).unwrap();
    buf.into_vec()
}

fn header<F: Fn(&mut ByteBuf) -> Result<(), Error>>(f: F) -> Vec<u8> {
    let mut buf = ByteBuf::new();
    f(&mut buf).unwrap();
    buf.into_vec()
}

#[test]
fn scalars_encode_exactly() {
    assert_eq!(encode(WriteRequest::Null), vec![0xc0]);
    assert_eq!(encode(WriteRequest::Bool(true)), vec![0xc3]);
    assert_eq!(encode(WriteRequest::Bool(false)), vec![0xc2]);
    assert_eq!(encode(WriteRequest::U8(1)), vec![0x01]);
    assert_eq!(encode(WriteRequest::U8(200)), vec![0xcc, 200]);
    assert_eq!(encode(WriteRequest::U16(0x1234)), vec![0xcd, 0x12, 0x34]);
    assert_eq!(encode(WriteRequest::U32(0x1234_5678)), vec![0xce, 0x12, 0x34, 0x56, 0x78]);
    assert_eq!(
        encode(WriteRequest::U64(0x0102_0304_0506_0708)),
        vec![0xcf, 1, 2, 3, 4, 5, 6, 7, 8]
    );
    assert_eq!(encode(WriteRequest::I8(-1)), vec![0xff]);
    assert_eq!(encode(WriteRequest::I8(-33)), vec![0xd0, 0xdf]);
    assert_eq!(encode(WriteRequest::I16(-129)), vec![0xd1, 0xff, 0x7f]);
    assert_eq!(encode(WriteRequest::I32(-32769)), vec![0xd2, 0xff, 0xff, 0x7f, 0xff]);
    assert_eq!(encode(WriteRequest::I64(i64::MIN)), vec![0xd3, 0x80, 0, 0, 0, 0, 0, 0, 0]);
    assert_eq!(encode(WriteRequest::I64(300)), vec![0xcd, 0x01, 0x2c]);
    assert_eq!(encode(WriteRequest::F32(1.0f32.to_bits())), vec![0xca, 0x3f, 0x80, 0, 0]);
    assert_eq!(
        encode(WriteRequest::F64(1.0f64.to_bits())),
        vec![0xcb, 0x3f, 0xf0, 0, 0, 0, 0, 0, 0]
    );
}

#[test]
fn strings_and_binaries_encode_with_payload() {
    assert_eq!(encode(WriteRequest::Str("ab")), vec![0xa2, b'a', b'b']);
    assert_eq!(encode(WriteRequest::Str("")), vec![0xa0]);
    assert_eq!(encode(WriteRequest::Bin(&[9, 8])), vec![0xc4, 2, 9, 8]);
    let long = "x".repeat(40);
    let bytes = encode(WriteRequest::Str(&long));
    assert_eq!(&bytes[..2], &[0xd9, 40]);
    assert_eq!(bytes.len(), 42);
}

#[test]
fn headers_pick_the_smallest_tier() {
    assert_eq!(header(|b| write_map_len(b, 15)), vec![0x8f]);
    assert_eq!(header(|b| write_map_len(b, 16)), vec![0xde, 0x00, 0x10]);
    assert_eq!(header(|b| write_map_len(b, 0xffff)), vec![0xde, 0xff, 0xff]);
    assert_eq!(header(|b| write_map_len(b, 0x10000)), vec![0xdf, 0x00, 0x01, 0x00, 0x00]);
    assert_eq!(header(|b| write_array_len(b, 0)), vec![0x90]);
    assert_eq!(header(|b| write_array_len(b, 16)), vec![0xdc, 0x00, 0x10]);
    assert_eq!(header(|b| write_array_len(b, u32::MAX)), vec![0xdd, 0xff, 0xff, 0xff, 0xff]);
    assert_eq!(header(|b| write_str_len(b, 31)), vec![0xbf]);
    assert_eq!(header(|b| write_str_len(b, 32)), vec![0xd9, 32]);
    assert_eq!(header(|b| write_str_len(b, 256)), vec![0xda, 0x01, 0x00]);
    assert_eq!(header(|b| write_str_len(b, 0x10000)), vec![0xdb, 0x00, 0x01, 0x00, 0x00]);
    assert_eq!(header(|b| write_bin_len(b, 0)), vec![0xc4, 0]);
    assert_eq!(header(|b| write_bin_len(b, 256)), vec![0xc5, 0x01, 0x00]);
    assert_eq!(header(|b| write_bin_len(b, 0x10000)), vec![0xc6, 0x00, 0x01, 0x00, 0x00]);
}

#[test]
fn extension_headers() {
    assert_eq!(header(|b| write_ext_meta(b, 1, 5)), vec![0xd4, 5]);
    assert_eq!(header(|b| write_ext_meta(b, 2, 5)), vec![0xd5, 5]);
    assert_eq!(header(|b| write_ext_meta(b, 4, 5)), vec![0xd6, 5]);
    assert_eq!(header(|b| write_ext_meta(b, 8, -1)), vec![0xd7, 0xff]);
    assert_eq!(header(|b| write_ext_meta(b, 16, 5)), vec![0xd8, 5]);
    assert_eq!(header(|b| write_ext_meta(b, 3, 5)), vec![0xc7, 3, 5]);
    assert_eq!(header(|b| write_ext_meta(b, 256, 5)), vec![0xc8, 0x01, 0x00, 5]);
    assert_eq!(header(|b| write_ext_meta(b, 0x10000, 5)), vec![0xc9, 0, 1, 0, 0, 5]);
    assert_eq!(encode(WriteRequest::Ext(7, 17)), vec![0xc7, 17, 7]);
}

#[test]
fn integer_writers_pick_the_smallest_encoding() {
    assert_eq!(header(|b| write_uint(b, 127)), vec![0x7f]);
    assert_eq!(header(|b| write_uint(b, 128)), vec![0xcc, 0x80]);
    assert_eq!(header(|b| write_uint(b, 256)), vec![0xcd, 0x01, 0x00]);
    assert_eq!(header(|b| write_uint(b, 65536)), vec![0xce, 0, 1, 0, 0]);
    assert_eq!(header(|b| write_uint(b, 1 << 32)), vec![0xcf, 0, 0, 0, 1, 0, 0, 0, 0]);
    assert_eq!(header(|b| write_sint(b, -32)), vec![0xe0]);
    assert_eq!(header(|b| write_sint(b, -128)), vec![0xd0, 0x80]);
    assert_eq!(header(|b| write_sint(b, 5)), vec![0x05]);
    assert_eq!(header(|b| write_marker(b, Marker::Null)), vec![0xc0]);
}

#[test]
fn map_of_one_pair_writes_and_reads_back() {
    let mut buf = ByteBuf::new();
    let entries = [(WriteRequest::U8(1), WriteRequest::Str("ab"))];
    write_map(&mut buf, &entries).unwrap();
    let bytes = buf.into_vec();
    assert_eq!(bytes, vec![0x81, 0x01, 0xa2, 0x61, 0x62]);
    let mut r = Reader::new(&bytes);
    match r.next() {
        Some(Ok(ReadResult::MapEntries(Marker::FixMap(1), mut pairs))) => {
            assert_eq!(pairs.len(), 1);
            assert!(matches!(
                pairs.next(),
                Some(Ok((ReadResult::UInt(Marker::FixPos(1), 1), ReadResult::Str(Marker::FixStr(2), Ok("ab")))))
            ));
            assert!(pairs.next().is_none());
        }
        other => panic!("unexpected {:?}", other),
    }
}

#[test]
fn round_trip_of_values() {
    let ints: [i64; 9] = [0, 1, -1, -32, -33, 127, 128, i64::MIN, i64::MAX];
    for v in ints {
        let bytes = encode(WriteRequest::I64(v));
        match Reader::new(&bytes).next() {
            Some(Ok(ReadResult::IInt(_, got))) => assert_eq!(got, v),
            Some(Ok(ReadResult::UInt(_, got))) => assert_eq!(got as i64, v),
            other => panic!("unexpected {:?}", other),
        }
    }
    let text = "h\u{e9}llo";
    let bytes = encode(WriteRequest::Str(text));
    assert!(matches!(Reader::new(&bytes).next(), Some(Ok(ReadResult::Str(_, Ok(t)))) if t == text));
    let blob = [0u8, 1, 255];
    let bytes = encode(WriteRequest::Bin(&blob));
    assert!(matches!(Reader::new(&bytes).next(), Some(Ok(ReadResult::Bin(_, b))) if b == &blob));
    let mut buf = ByteBuf::new();
    WriteRequest::Ext(-3, 2).write_request(&mut buf).unwrap();
    buf.write_bytes(&[7, 8]).unwrap();
    let bytes = buf.into_vec();
    assert!(matches!(
        Reader::new(&bytes).next(),
        Some(Ok(ReadResult::Ext(Marker::FixExt2, -3, d))) if d == &[7, 8]
    ));
}

#[test]
fn round_trip_of_array_with_span_redecoded() {
    let mut buf = ByteBuf::new();
    WriteRequest::Array(2).write_request(&mut buf).unwrap();
    WriteRequest::U16(500).write_request(&mut buf).unwrap();
    WriteRequest::Str("z").write_request(&mut buf).unwrap();
    let bytes = buf.into_vec();
    match Reader::new(&bytes).next() {
        Some(Ok(ReadResult::Array(Marker::FixArray(2), 2, span))) => {
            assert_eq!(span.len(), 3 + 2);
            let mut inner = Reader::new(span);
            assert!(matches!(inner.next(), Some(Ok(ReadResult::UInt(Marker::U16, 500)))));
            assert!(matches!(inner.next(), Some(Ok(ReadResult::Str(_, Ok("z"))))));
            assert!(inner.next().is_none());
        }
        other => panic!("unexpected {:?}", other),
    }
}

#[test]
fn fixed_buffer_refuses_overflow_whole() {
    let mut region = [0u8; 4];
    {
        let mut buf = fixed::ByteBuf::new(&mut region);
        assert!(buf.write(&[1, 2, 3]).is_ok());
        assert_eq!(buf.len(), 3);
        let err = buf.write(&[4, 5]);
        assert!(err.is_err());
        assert_eq!(err.unwrap_err().message(), FixedBufCapacityOverflow::new().message());
        assert_eq!(buf.len(), 3);
        assert_eq!(buf.as_slice(), &[1, 2, 3]);
        assert!(buf.write(&[6]).is_ok());
        assert_eq!(buf.as_slice(), &[1, 2, 3, 6]);
        assert!(buf.write(&[]).is_ok());
    }
    assert_eq!(region, [1, 2, 3, 6]);
}

#[test]
fn fixed_buffer_reports_marker_and_data_errors() {
    let mut region = [0u8; 2];
    let mut buf = fixed::ByteBuf::new(&mut region);
    assert_eq!(WriteRequest::U16(300).write_request(&mut buf), Err(Error::DataWriteError));
    assert_eq!(buf.as_slice(), &[0xcd]);
    assert_eq!(WriteRequest::Null.write_request(&mut buf), Ok(()));
    assert_eq!(WriteRequest::Null.write_request(&mut buf), Err(Error::MarkerWriteError));
    assert_eq!(buf.as_slice(), &[0xcd, 0xc0]);
}

#[test]
fn fixed_buffer_takes_a_whole_map() {
    let mut region = [0u8; 5];
    let mut buf = fixed::ByteBuf::new(&mut region);
    write_map(&mut buf, &[(WriteRequest::U8(1), WriteRequest::Str("ab"))]).unwrap();
    assert_eq!(buf.as_slice(), &[0x81, 0x01, 0xa2, 0x61, 0x62]);
    let mut small = [0u8; 3];
    let mut buf = fixed::ByteBuf::new(&mut small);
    assert!(write_map(&mut buf, &[(WriteRequest::U8(1), WriteRequest::Str("ab"))]).is_err());
    assert_eq!(buf.as_slice(), &[0x81, 0x01, 0xa2]);
}

#[test]
fn growable_buffer_accessors() {
    let mut b = ByteBuf::with_capacity(8);
    assert!(b.as_slice().is_empty());
    b.write_u8(1).unwrap();
    b.as_mut_vec().push(2);
    assert_eq!(b.as_vec(), &vec![1, 2]);
    let c = ByteBuf::from_vec(vec![1, 2]);
    assert_eq!(b, c);
    let v: Vec<u8> = c.into();
    assert_eq!(v, vec![1, 2]);
    let d: ByteBuf = vec![3].into();
    assert_eq!(d.into_vec(), vec![3]);
}
