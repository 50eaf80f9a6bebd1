use disk_codec::assoc::DiskMap;
use disk_codec::codec::{DiskError, DiskSer};
use disk_codec::file_input::FileInput;
use disk_codec::stream::ByteSource;
use std::sync::Arc;

fn encode<T: DiskSer>(v: &T) -> Vec<u8> {
    let mut sink: Vec<u8> = Vec::new();
    let n = v.disk_serialize(&mut sink);
    assert_eq!(n, sink.len());
    sink
}

fn decode<T: DiskSer>(bytes: Vec<u8>) -> Result<Option<T>, DiskError> {
    let mut source = ByteSource::new(bytes);
    T::disk_deserialize(&mut source)
}

#[test]
fn u8_round_trip() {
    for v in [0u8, 1, 7, 127, 128, 255] {
        let bytes = encode(&v);
        assert_eq!(bytes, vec![v]);
        assert_eq!(decode::<u8>(bytes), Ok(Some(v)));
    }
}

#[test]
fn u8_clean_end() {
    assert_eq!(decode::<u8>(Vec::new()), Ok(None));
}

#[test]
fn u128_round_trip() {
    for v in [0u128, 1, 0xff, 0x1234_5678_9abc_def0, u128::MAX] {
        let bytes = encode(&v);
        assert_eq!(bytes.len(), 16);
        assert_eq!(decode::<u128>(bytes), Ok(Some(v)));
    }
}

#[test]
fn u128_little_endian_layout() {
    let bytes = encode(&0x0102_0304_0506_0708_090a_0b0c_0d0e_0f10u128);
    assert_eq!(
        bytes,
        vec![0x10, 0x0f, 0x0e, 0x0d, 0x0c, 0x0b, 0x0a, 0x09, 0x08, 0x07, 0x06, 0x05, 0x04, 0x03, 0x02, 0x01]
    );
}

#[test]
fn i128_round_trip() {
    for v in [0i128, 1, -1, 42, -42, i128::MIN, i128::MAX] {
        let bytes = encode(&v);
        assert_eq!(bytes.len(), 16);
        assert_eq!(decode::<i128>(bytes), Ok(Some(v)));
    }
}

#[test]
fn u128_truncation_is_an_error() {
    let bytes = encode(&u128::MAX);
    for k in 1..16 {
        let cut: Vec<u8> = bytes[..k].to_vec();
        assert_eq!(decode::<u128>(cut), Err(DiskError::Truncated));
    }
    let empty: Vec<u8> = bytes[..0].to_vec();
    assert_eq!(decode::<u128>(empty), Ok(None));
}

#[test]
fn i128_truncation_is_an_error() {
    let bytes = encode(&(-7i128));
    for k in 1..16 {
        let cut: Vec<u8> = bytes[..k].to_vec();
        assert_eq!(decode::<i128>(cut), Err(DiskError::Truncated));
    }
}

#[test]
fn list_round_trip_empty() {
    let v: Vec<u128> = Vec::new();
    let bytes = encode(&v);
    assert_eq!(bytes.len(), 0);
    assert_eq!(decode::<Vec<u128>>(bytes), Ok(Some(Vec::new())));
}

#[test]
fn list_round_trip_one() {
    let v: Vec<u128> = vec![99];
    let bytes = encode(&v);
    assert_eq!(decode::<Vec<u128>>(bytes), Ok(Some(vec![99u128])));
}

#[test]
fn list_round_trip_many() {
    let v: Vec<u128> = vec![0, 1, 2, u128::MAX, 5, 5, 7];
    let bytes = encode(&v);
    assert_eq!(decode::<Vec<u128>>(bytes), Ok(Some(v)));
}

#[test]
fn list_round_trip_bytes() {
    let v: Vec<u8> = vec![3, 1, 4, 1, 5, 9, 2, 6];
    let bytes = encode(&v);
    assert_eq!(bytes, v);
    assert_eq!(decode::<Vec<u8>>(bytes), Ok(Some(v)));
}

#[test]
fn list_owns_the_rest_of_its_stream() {
    // The list is terminated only by the end of the stream, so two lists
    // written back to back decode as one list, not two: one stream holds
    // one top-level value.
    let a: Vec<u128> = vec![1, 2];
    let b: Vec<u128> = vec![3];
    let mut bytes = encode(&a);
    bytes.extend_from_slice(&encode(&b));
    assert_eq!(decode::<Vec<u128>>(bytes), Ok(Some(vec![1u128, 2, 3])));
}

#[test]
fn list_aborts_on_truncated_element() {
    let v: Vec<u128> = vec![1, 2];
    let mut bytes = encode(&v);
    bytes.truncate(20);
    assert_eq!(decode::<Vec<u128>>(bytes), Err(DiskError::Truncated));
}

fn map_123(order: [u128; 3]) -> DiskMap<u128, u128> {
    let mut m: DiskMap<u128, u128> = DiskMap::new();
    for k in order {
        m.insert(k, 1000 + k);
    }
    m
}

#[test]
fn map_round_trip_any_order() {
    for order in [[1u128, 2, 3], [3, 1, 2], [2, 3, 1]] {
        let m = map_123(order);
        let bytes = encode(&m);
        let decoded: DiskMap<u128, u128> = decode(bytes).unwrap().unwrap();
        assert_eq!(decoded.len(), 3);
        for k in [1u128, 2, 3] {
            assert_eq!(decoded.get(&k), Some(&(1000 + k)));
        }
        assert_eq!(decoded.get(&4), None);
    }
}

#[test]
fn map_round_trip_empty() {
    let m: DiskMap<u128, u128> = DiskMap::new();
    let bytes = encode(&m);
    assert_eq!(bytes.len(), 0);
    let decoded: DiskMap<u128, u128> = decode(bytes).unwrap().unwrap();
    assert_eq!(decoded.get(&1), None);
}

#[test]
fn map_insert_overwrites() {
    let mut m: DiskMap<u128, u128> = DiskMap::new();
    m.insert(5, 10);
    m.insert(5, 20);
    assert_eq!(m.len(), 1);
    assert_eq!(m.get(&5), Some(&20));
}

#[test]
fn map_later_stream_pair_overwrites() {
    // Two pairs with the same key written on the stream: the later one
    // wins in the decoded mapping.
    let mut bytes = Vec::new();
    bytes.extend_from_slice(&encode(&7u128));
    bytes.extend_from_slice(&encode(&1u128));
    bytes.extend_from_slice(&encode(&7u128));
    bytes.extend_from_slice(&encode(&2u128));
    let decoded: DiskMap<u128, u128> = decode(bytes).unwrap().unwrap();
    assert_eq!(decoded.len(), 1);
    assert_eq!(decoded.get(&7), Some(&2));
}

#[test]
fn map_key_without_value_is_truncation() {
    let bytes = encode(&7u128);
    assert!(matches!(
        decode::<DiskMap<u128, u128>>(bytes),
        Err(DiskError::Truncated)
    ));
}

#[test]
fn map_truncated_value_is_truncation() {
    let mut bytes = Vec::new();
    bytes.extend_from_slice(&encode(&7u128));
    bytes.extend_from_slice(&encode(&1u128)[..5]);
    assert!(matches!(
        decode::<DiskMap<u128, u128>>(bytes),
        Err(DiskError::Truncated)
    ));
}

#[test]
fn map_mixed_key_value_widths() {
    let mut m: DiskMap<u8, i128> = DiskMap::new();
    m.insert(1, -1);
    m.insert(2, i128::MIN);
    let bytes = encode(&m);
    let decoded: DiskMap<u8, i128> = decode(bytes).unwrap().unwrap();
    assert_eq!(decoded.get(&1), Some(&-1));
    assert_eq!(decoded.get(&2), Some(&i128::MIN));
}

#[test]
fn shared_handle_round_trip() {
    let v: Arc<u128> = Arc::new(77);
    let bytes = encode(&v);
    let decoded: Arc<u128> = decode(bytes).unwrap().unwrap();
    assert_eq!(*decoded, 77);
}

#[test]
fn shared_handle_is_transparent() {
    // Decoding through the wrapper and dereferencing is observationally
    // the same as decoding the inner value directly.
    let bytes = encode(&123456u128);
    let direct: u128 = decode(bytes.clone()).unwrap().unwrap();
    let wrapped: Arc<u128> = decode(bytes).unwrap().unwrap();
    assert_eq!(*wrapped, direct);
    // The wrapper writes the same bytes the inner value writes.
    assert_eq!(encode(&Arc::new(123456u128)), encode(&123456u128));
}

#[test]
fn shared_handle_is_fresh() {
    let original = Arc::new(9u128);
    let decoded: Arc<u128> = decode(encode(&original)).unwrap().unwrap();
    assert!(!Arc::ptr_eq(&original, &decoded));
}

#[test]
fn file_input_from_str() {
    let f = FileInput::from_str("-");
    assert!(matches!(f, FileInput::Stdin));
    assert_eq!(f.describe(), "<stdin>");
    let g = FileInput::from_str("state.bin");
    match &g {
        FileInput::Path { path } => assert_eq!(path, "state.bin"),
        FileInput::Stdin => panic!("a path token must not classify as stdin"),
    }
    assert_eq!(g.describe(), "state.bin");
    assert!(matches!(
        FileInput::from_str("--"),
        FileInput::Path { .. }
    ));
}
