use jsonpb::proto::{
    proto_key, split_key, unzigzag, zigzag, Decoder, Encoder, WireError, WIRE_32BIT,
    WIRE_LEN_DELIM, WIRE_VARINT,
};

#[test]
fn test_proto_encode() {
    let mut enc = Encoder::new();
    enc.emit_varint(1, 233);
    enc.emit_len_delim(2, "test".as_bytes());
    enc.emit_u32(3, 987);
    enc.emit_zigzag(4, -233);
    assert_eq!(
        enc.as_bytes(),
        &[8u8, 233, 1, 18, 4, 116, 101, 115, 116, 29, 219, 3, 0, 0, 32, 209, 3]
    )
}

#[test]
fn test_proto_decode() {
    let mut enc = Encoder::new();
    enc.emit_varint(1, 233);
    enc.emit_len_delim(2, "test".as_bytes());
    enc.emit_u32(3, 987);
    enc.emit_zigzag(4, -233);
    let mut dec = Decoder::new(enc.as_bytes());
    assert_eq!(dec.read_key().unwrap(), (1, WIRE_VARINT));
    assert_eq!(dec.read_varint().unwrap(), 233);
    assert_eq!(dec.read_key().unwrap(), (2, WIRE_LEN_DELIM));
    assert_eq!(dec.read_data().unwrap(), "test".as_bytes());
    assert_eq!(dec.read_key().unwrap(), (3, WIRE_32BIT));
    assert_eq!(dec.read_32bit().unwrap(), 987);
    assert_eq!(dec.read_key().unwrap(), (4, WIRE_VARINT));
    assert_eq!(dec.read_zigzag().unwrap(), -233);
}

#[test]
fn test_proto_bad_decode() {
    let mut dec = Decoder::new(&[
        255, 255, 255, 255, 255, 255, 255, 255, 255, 0, 255, 255, 255, 255, 255, 255, 255, 255,
        255, 1, 255, 255, 255, 255, 255, 255, 255, 255, 255, 2,
    ]);
    assert_eq!(dec.read_varint().ok(), Some(u64::MAX >> 1));
    assert_eq!(dec.read_varint().ok(), Some(u64::MAX));
    assert_eq!(dec.read_varint().err().unwrap(), WireError::InvalidData);
}

#[test]
fn test_varint_roundtrip_values() {
    for &v in &[0u64, 1, 127, 128, 300, 0xFFFF_FFFF, u64::MAX - 1, u64::MAX] {
        let mut enc = Encoder::new();
        enc.write_varint(v);
        assert!(enc.as_bytes().len() <= 10);
        let mut dec = Decoder::new(enc.as_bytes());
        assert_eq!(dec.read_varint().unwrap(), v);
        assert!(dec.eof());
    }
}

#[test]
fn test_varint_rejects_eleven_bytes() {
    let mut dec = Decoder::new(&[255, 255, 255, 255, 255, 255, 255, 255, 255, 255, 0]);
    assert_eq!(dec.read_varint().err().unwrap(), WireError::InvalidData);
    let mut dec2 = Decoder::new(&[255, 255, 255]);
    assert_eq!(dec2.read_varint().err().unwrap(), WireError::UnexpectedEof);
}

#[test]
fn test_zigzag_values() {
    assert_eq!(zigzag(0), 0);
    assert_eq!(zigzag(-1), 1);
    assert_eq!(zigzag(1), 2);
    assert_eq!(zigzag(-2), 3);
    assert_eq!(zigzag(i64::MAX), u64::MAX - 1);
    assert_eq!(zigzag(i64::MIN), u64::MAX);
    for &n in &[0i64, 1, -1, 42, -233, i64::MAX, i64::MIN] {
        assert_eq!(unzigzag(zigzag(n)), n);
        assert_eq!(zigzag(n) & 1, if n < 0 { 1 } else { 0 });
    }
}

#[test]
fn test_key_roundtrip() {
    for &(tag, wire) in &[(1u32, 0u32), (2, 2), (3, 5), (99, 2), (0x1FFFFFFF, 1)] {
        let key = proto_key(tag, wire);
        assert_eq!(split_key(key), (tag, wire));
    }
}

#[test]
fn test_fixed_width_emits() {
    let mut enc = Encoder::new();
    enc.emit_u64(1, 0x1122334455667788);
    assert_eq!(
        enc.as_bytes(),
        &[9u8, 0x88, 0x77, 0x66, 0x55, 0x44, 0x33, 0x22, 0x11]
    );
    let mut dec = Decoder::new(enc.as_bytes());
    assert_eq!(dec.read_key().unwrap(), (1, 1));
    assert_eq!(dec.read_64bit().unwrap(), 0x1122334455667788);
}
