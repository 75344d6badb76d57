use redis_lite::rdb::{decode_length, decode_object, RDBFileObject, RDBObject, SnapshotError};

fn snapshot(count: u8, entries: &[u8]) -> Vec<u8> {
    let mut d = b"REDIS0011".to_vec();
    d.push(0xFA);
    d.push(9);
    d.extend_from_slice(b"redis-ver");
    d.push(5);
    d.extend_from_slice(b"7.2.0");
    d.push(0xFA);
    d.push(10);
    d.extend_from_slice(b"redis-bits");
    d.extend_from_slice(&[0xC0, 64]);
    d.extend_from_slice(&[0xFE, 0x00, 0xFB, count, 0x00]);
    d.extend_from_slice(entries);
    d.push(0xFF);
    d.extend_from_slice(&[0; 8]);
    d
}

#[test]
fn reads_length_forms() {
    assert_eq!(decode_length(&[0x05]), Ok((5, 1)));
    assert_eq!(decode_length(&[0x41, 0x02]), Ok((258, 2)));
    assert_eq!(decode_length(&[0xC0, 0x80]), Ok((128, 2)));
    assert_eq!(decode_length(&[0xC1, 0x01, 0x00]), Ok((256, 3)));
    assert_eq!(decode_length(&[0xC2, 0, 0, 1, 0]), Ok((256, 5)));
    assert_eq!(decode_length(&[0x80]), Err(SnapshotError::Unsupported));
    assert_eq!(decode_length(&[0xC3]), Err(SnapshotError::Unsupported));
    assert_eq!(decode_length(&[0x41]), Err(SnapshotError::Malformed));
    assert_eq!(decode_length(&[]), Err(SnapshotError::Malformed));
}

#[test]
fn reads_strings_and_signed_integers() {
    assert!(matches!(decode_object(b"\x03abcdef"), Ok((RDBFileObject::Str(ref s), 4)) if s == b"abc"));
    assert!(matches!(decode_object(&[0xC0, 0xFF]), Ok((RDBFileObject::Integer(-1), 2))));
    assert!(matches!(decode_object(&[0xC0, 0x40]), Ok((RDBFileObject::Integer(64), 2))));
    assert!(matches!(decode_object(&[0xC1, 0x80, 0x00]), Ok((RDBFileObject::Integer(-32768), 3))));
    assert!(matches!(decode_object(&[0xC2, 0x00, 0x01, 0x00, 0x00]), Ok((RDBFileObject::Integer(65536), 5))));
    assert!(matches!(decode_object(&[0x05, b'a']), Err(SnapshotError::Malformed)));
    assert!(matches!(decode_object(&[0x80, 0]), Err(SnapshotError::Unsupported)));
}

#[test]
fn loads_one_key_without_expiry() {
    let data = snapshot(1, b"\x00\x03abc\x03123");
    let mut o = RDBObject::from_bytes(&data).unwrap();
    assert_eq!(o.storage.len(), 1);
    assert_eq!(o.storage.get(b"abc", u64::MAX), Some(b"123".to_vec()));
    assert_eq!(o.metadata, vec![
        (b"redis-ver".to_vec(), b"7.2.0".to_vec()),
        (b"redis-bits".to_vec(), b"64".to_vec()),
    ]);
}

#[test]
fn loads_expiry_in_milliseconds_and_seconds() {
    let mut entries = b"\x00\x01a\x01x\xFC".to_vec();
    entries.extend_from_slice(&1000u64.to_be_bytes());
    entries.extend_from_slice(b"\x00\x01b\x01y\xFD");
    entries.extend_from_slice(&3u32.to_be_bytes());
    entries.extend_from_slice(b"\x00\x01c\x01z");
    let mut data = b"REDIS0011\xFA\x01k\x01v\xFE\x00\xFB\x03\x02".to_vec();
    data.extend_from_slice(&entries);
    let mut o = RDBObject::from_bytes(&data).unwrap();
    assert_eq!(o.storage.len(), 3);
    assert_eq!(o.storage.get(b"a", 999), Some(b"x".to_vec()));
    assert_eq!(o.storage.get(b"a", 1000), None);
    assert_eq!(o.storage.get(b"b", 2999), Some(b"y".to_vec()));
    assert_eq!(o.storage.get(b"b", 3000), None);
    assert_eq!(o.storage.get(b"c", u64::MAX), Some(b"z".to_vec()));
}

#[test]
fn rejects_bad_snapshots() {
    assert!(matches!(RDBObject::from_bytes(b"REDIX0011\xFA"), Err(SnapshotError::BadHeader)));
    assert!(matches!(RDBObject::from_bytes(b"RED"), Err(SnapshotError::BadHeader)));
    assert!(matches!(RDBObject::from_bytes(b"REDIS0011\xFE"), Err(SnapshotError::Malformed)));
    assert!(matches!(RDBObject::from_bytes(&snapshot(1, b"\x05\x03abc\x03123")), Err(SnapshotError::Unsupported)));
    assert!(matches!(RDBObject::from_bytes(&snapshot(1, b"\x00\x03abc\x20123")), Err(SnapshotError::Malformed)));
    assert!(matches!(RDBObject::from_bytes(b"REDIS0011\xFA\x01k\x01v\xFE\x00\xFC\x01\x00"),
        Err(SnapshotError::Malformed)));
    assert!(matches!(RDBObject::from_bytes(&snapshot(2, b"\x00\x03abc\x03123")), Err(SnapshotError::Unsupported)));
}
