use rmp::buffer::ByteBuf;
use rmp::errors::Error;
use rmp::marker::Marker;
use rmp::reader::{MapReader, ReadResult, Reader};
use rmp::writer::{write_map, WriteRequest};

fn encode(req: WriteRequest) -> Vec<u8> {
    let mut buf = ByteBuf::new();
    let mut req = req;
    req.write_request(&mut buf).unwrap();
    buf.into_vec()
}

#[test]
fn map_with_one_pair_encodes_minimally() {
    let mut buf = ByteBuf::new();
    let entries = [(WriteRequest::U8(1), WriteRequest::Str("ab"))];
    write_map(&mut buf, &entries).unwrap();
    assert_eq!(buf.as_slice(), &[0x81, 0x01, 0xa2, 0x61, 0x62]);
}

#[test]
fn map_with_one_pair_decodes_back() {
    let bytes = [0x81u8, 0x01, 0xa2, 0x61, 0x62];
    let mut reader = Reader::new(&bytes);
    match reader.next() {
        Some(Ok(ReadResult::MapEntries(m, mut pairs))) => {
            assert_eq!(m, Marker::FixMap(1));
            assert_eq!(pairs.len(), 1);
            match pairs.next() {
                Some(Ok((ReadResult::UInt(km, k), ReadResult::Str(vm, Ok(v))))) => {
                    assert_eq!(km, Marker::FixPos(1));
                    assert_eq!(k, 1);
                    assert_eq!(vm, Marker::FixStr(2));
                    assert_eq!(v, "ab");
                }
                other => panic!("unexpected pair {:?}", other),
            }
            assert!(pairs.next().is_none());
        }
        other => panic!("unexpected value {:?}", other),
    }
    assert!(reader.next().is_none());
}

#[test]
fn empty_input_has_no_value() {
    let bytes: [u8; 0] = [];
    let mut reader = Reader::new(&bytes);
    assert!(matches!(reader.read(), Ok(None)));
}

#[test]
fn marker_without_payload_is_a_shortfall() {
    let bytes = [0xcdu8];
    let mut reader = Reader::new(&bytes);
    assert!(matches!(reader.read(), Err(Error::InsufficientBytes)));
}

#[test]
fn map_with_missing_pair_stops_after_error() {
    // two pairs: {1: 2, 3: 4}, declared as three
    let span = [0x01u8, 0x02, 0x03, 0x04];
    let mut pairs = MapReader::new(3, &span);
    assert!(matches!(pairs.next(), Some(Ok((ReadResult::UInt(_, 1), ReadResult::UInt(_, 2))))));
    assert!(matches!(pairs.next(), Some(Ok((ReadResult::UInt(_, 3), ReadResult::UInt(_, 4))))));
    assert!(matches!(pairs.next(), Some(Err(Error::MapMissingElementsError))));
    assert!(pairs.next().is_none());
}

#[test]
fn uint_round_trips() {
    for v in [0u64, 1, 127, 128, 255, 256, 65535, 65536, 0xffff_ffff, 0x1_0000_0000, u64::MAX] {
        let bytes = encode(WriteRequest::U64(v));
        let mut reader = Reader::new(&bytes);
        match reader.next() {
            Some(Ok(ReadResult::UInt(_, got))) => assert_eq!(got, v),
            other => panic!("unexpected {:?}", other),
        }
    }
}
