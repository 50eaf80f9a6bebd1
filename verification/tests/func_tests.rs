use disk_codec::codec::{DiskError, DiskSer};
use disk_codec::funcs::{DiskFunc, FuncSlot};
use disk_codec::opcode::{OpFunc, RawOps, FUNC_TAG};
use disk_codec::stream::ByteSource;

fn encode<T: DiskSer>(v: &T) -> Vec<u8> {
    let mut sink: Vec<u8> = Vec::new();
    v.disk_serialize(&mut sink);
    sink
}

fn decode<T: DiskSer>(bytes: Vec<u8>) -> Result<Option<T>, DiskError> {
    let mut source = ByteSource::new(bytes);
    T::disk_deserialize(&mut source)
}

fn compiled(ops: Vec<u8>) -> OpFunc {
    OpFunc::compile(&RawOps { ops }).expect("the opcodes are valid")
}

/// A function-slot stream whose length prefix promises `len` bytes and
/// whose payload is `payload`.
fn slot_stream(len: u128, payload: &[u8]) -> Vec<u8> {
    let mut bytes = encode(&len);
    bytes.extend_from_slice(payload);
    bytes
}

#[test]
fn compiler_accepts_and_rejects() {
    assert!(OpFunc::compile(&RawOps { ops: vec![0, 1, 15] }).is_some());
    // an empty body is rejected
    assert!(OpFunc::compile(&RawOps { ops: Vec::new() }).is_none());
    // an unknown opcode is rejected
    assert!(OpFunc::compile(&RawOps { ops: vec![1, 16] }).is_none());
}

#[test]
fn func_slot_round_trip() {
    let slot = FuncSlot::new(compiled(vec![1, 2, 3, 15]));
    let bytes = encode(&slot);
    // length prefix (16 bytes) + tag byte + the four opcodes
    assert_eq!(bytes.len(), 16 + 1 + 4);
    let decoded: FuncSlot<OpFunc> = decode(bytes).unwrap().unwrap();
    assert_eq!(decoded.func().ops(), &vec![1, 2, 3, 15]);
}

#[test]
fn func_slot_wire_layout() {
    let slot = FuncSlot::new(compiled(vec![5]));
    let bytes = encode(&slot);
    // little-endian length 2, then the packed payload: tag, opcode
    assert_eq!(bytes[0], 2);
    assert!(bytes[1..16].iter().all(|b| *b == 0));
    assert_eq!(bytes[16], FUNC_TAG);
    assert_eq!(bytes[17], 5);
}

#[test]
fn func_slot_clean_end() {
    assert!(matches!(decode::<FuncSlot<OpFunc>>(Vec::new()), Ok(None)));
}

#[test]
fn func_slot_short_payload_is_truncation() {
    // the prefix promises five bytes, only three follow
    let bytes = slot_stream(5, &[FUNC_TAG, 1, 2]);
    assert!(matches!(
        decode::<FuncSlot<OpFunc>>(bytes),
        Err(DiskError::Truncated)
    ));
}

#[test]
fn func_slot_truncated_prefix_is_truncation() {
    let bytes = encode(&2u128)[..7].to_vec();
    assert!(matches!(
        decode::<FuncSlot<OpFunc>>(bytes),
        Err(DiskError::Truncated)
    ));
}

#[test]
fn func_slot_unpackable_payload_is_invalid_data() {
    // exactly the promised number of bytes, but the packed form is
    // malformed: it does not open with the format tag
    let bytes = slot_stream(2, &[0x00, 1]);
    assert!(matches!(
        decode::<FuncSlot<OpFunc>>(bytes),
        Err(DiskError::InvalidData)
    ));
}

#[test]
fn func_slot_uncompilable_payload_is_invalid_data() {
    // validly packed (the tag is right), but the compiler rejects the
    // unknown opcode
    let bytes = slot_stream(2, &[FUNC_TAG, 0xff]);
    assert!(matches!(
        decode::<FuncSlot<OpFunc>>(bytes),
        Err(DiskError::InvalidData)
    ));
    // validly packed, but the body is empty, which the compiler rejects
    let bytes = slot_stream(1, &[FUNC_TAG]);
    assert!(matches!(
        decode::<FuncSlot<OpFunc>>(bytes),
        Err(DiskError::InvalidData)
    ));
}

#[test]
fn func_slot_stream_of_slots() {
    // Slots are length-prefixed, so a list of them can sit in one stream;
    // the clean end at a length prefix terminates the list.
    let slots: Vec<FuncSlot<OpFunc>> = vec![
        FuncSlot::new(compiled(vec![1])),
        FuncSlot::new(compiled(vec![2, 3])),
    ];
    let bytes = encode(&slots);
    let decoded: Vec<FuncSlot<OpFunc>> = decode(bytes).unwrap().unwrap();
    assert_eq!(decoded.len(), 2);
    assert_eq!(decoded[0].func().ops(), &vec![1]);
    assert_eq!(decoded[1].func().ops(), &vec![2, 3]);
}
