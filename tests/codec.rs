use redis_lite::decimal::{decimal_bytes, parse_i32, parse_u64, parse_usize};
use redis_lite::resp::{
    decode_frame, error_reply, null_bulk_string, serialize_to_array, serialize_to_bulk_string,
    serialize_to_simple_string, split_by_line, DataType, DecodeError, RESPParser, RedisObject,
};

fn bulk_payload(o: &RedisObject) -> Vec<u8> {
    match o {
        RedisObject::BulkString(n, p) => {
            assert_eq!(*n, p.len());
            p.clone()
        }
        other => panic!("not a bulk string: {:?}", other),
    }
}

#[test]
fn parses_decimal_numbers() {
    assert_eq!(parse_u64(b"0"), Some(0));
    assert_eq!(parse_u64(b"+42"), Some(42));
    assert_eq!(parse_u64(b"007"), Some(7));
    assert_eq!(parse_u64(b"18446744073709551615"), Some(u64::MAX));
    assert_eq!(parse_u64(b"18446744073709551616"), None);
    assert_eq!(parse_u64(b""), None);
    assert_eq!(parse_u64(b"+"), None);
    assert_eq!(parse_u64(b"-1"), None);
    assert_eq!(parse_u64(b"12a"), None);
    assert_eq!(parse_usize(b"3"), Some(3));
    assert_eq!(parse_i32(b"-2147483648"), Some(i32::MIN));
    assert_eq!(parse_i32(b"2147483647"), Some(i32::MAX));
    assert_eq!(parse_i32(b"2147483648"), None);
    assert_eq!(parse_i32(b"-+1"), None);
    assert_eq!(parse_i32(b"-"), None);
    assert_eq!(parse_i32(b"+17"), Some(17));
}

#[test]
fn writes_decimal_numbers() {
    assert_eq!(decimal_bytes(0), b"0".to_vec());
    assert_eq!(decimal_bytes(9), b"9".to_vec());
    assert_eq!(decimal_bytes(1024), b"1024".to_vec());
    assert_eq!(decimal_bytes(u64::MAX), b"18446744073709551615".to_vec());
}

#[test]
fn reads_type_tags() {
    assert_eq!(DataType::from_byte(b'+'), Some(DataType::SimpleString));
    assert_eq!(DataType::from_byte(b'-'), Some(DataType::SimpleErr));
    assert_eq!(DataType::from_byte(b':'), Some(DataType::Integer));
    assert_eq!(DataType::from_byte(b'$'), Some(DataType::BulkString));
    assert_eq!(DataType::from_byte(b'*'), Some(DataType::Array));
    assert_eq!(DataType::from_byte(b'!'), None);
}

#[test]
fn decodes_line_frames() {
    let (o, c) = decode_frame(b"+OK\r\n").unwrap();
    assert!(matches!(o, RedisObject::SimpleString(ref s) if s == b"OK"));
    assert_eq!(c, 5);
    let (o, c) = decode_frame(b"-Error\r\n").unwrap();
    assert!(matches!(o, RedisObject::SimpleErr(ref s) if s == b"Error"));
    assert_eq!(c, 8);
    let (o, c) = decode_frame(b":-123\r\n").unwrap();
    assert!(matches!(o, RedisObject::Integer(-123)));
    assert_eq!(c, 7);
}

#[test]
fn decodes_bulk_string_with_delimiter_inside() {
    let (o, c) = decode_frame(b"$5\r\nhe\r\ny\r\n").unwrap();
    assert_eq!(bulk_payload(&o), b"he\r\ny".to_vec());
    assert_eq!(c, 11);
    let (o, c) = decode_frame(b"$0\r\n\r\n").unwrap();
    assert_eq!(bulk_payload(&o), Vec::<u8>::new());
    assert_eq!(c, 6);
}

#[test]
fn decodes_nested_arrays_and_skips_stray_delimiters() {
    let buf = b"*2\r\n*1\r\n:1\r\n\r\n$3\r\nhey\r\ntrailing";
    let (o, c) = decode_frame(buf).unwrap();
    assert_eq!(c, buf.len() - 8);
    match o {
        RedisObject::Array(items) => {
            assert_eq!(items.len(), 2);
            assert!(matches!(&items[0], RedisObject::Array(inner) if inner.len() == 1
                && matches!(inner[0], RedisObject::Integer(1))));
            assert_eq!(bulk_payload(&items[1]), b"hey".to_vec());
        }
        other => panic!("not an array: {:?}", other),
    }
    let (o, c) = decode_frame(b"\r\n+PONG\r\n").unwrap();
    assert!(matches!(o, RedisObject::SimpleString(ref s) if s == b"PONG"));
    assert_eq!(c, 9);
    let (o, c) = decode_frame(b"*0\r\n").unwrap();
    assert!(matches!(o, RedisObject::Array(ref v) if v.is_empty()));
    assert_eq!(c, 4);
}

#[test]
fn reports_each_decode_error() {
    assert_eq!(decode_frame(b"").unwrap_err(), DecodeError::Incomplete);
    assert_eq!(decode_frame(b"+OK").unwrap_err(), DecodeError::Incomplete);
    assert_eq!(decode_frame(b"\r\n").unwrap_err(), DecodeError::Incomplete);
    assert_eq!(decode_frame(b"!x\r\n").unwrap_err(), DecodeError::UnknownType);
    assert_eq!(decode_frame(b":12x\r\n").unwrap_err(), DecodeError::BadInteger);
    assert_eq!(decode_frame(b":2147483648\r\n").unwrap_err(), DecodeError::BadInteger);
    assert_eq!(decode_frame(b"$-1\r\n").unwrap_err(), DecodeError::BadLength);
    assert_eq!(decode_frame(b"*x\r\n").unwrap_err(), DecodeError::BadLength);
    assert_eq!(decode_frame(b"*2\r\n$1\r\na\r\n").unwrap_err(), DecodeError::Incomplete);
}

#[test]
fn bulk_string_with_wrong_declared_length_fails() {
    assert_eq!(decode_frame(b"$2\r\nhey\r\n").unwrap_err(), DecodeError::LengthMismatch);
    assert_eq!(decode_frame(b"$4\r\nhey\r\n").unwrap_err(), DecodeError::Incomplete);
    assert_eq!(decode_frame(b"$9\r\nhey\r\n").unwrap_err(), DecodeError::Incomplete);
    assert_eq!(decode_frame(b"$0\r\nhey\r\n").unwrap_err(), DecodeError::LengthMismatch);
}

#[test]
fn encodes_replies() {
    assert_eq!(serialize_to_simple_string(b"OK"), b"+OK\r\n".to_vec());
    assert_eq!(serialize_to_bulk_string(b"hey"), b"$3\r\nhey\r\n".to_vec());
    assert_eq!(serialize_to_bulk_string(b""), b"$0\r\n\r\n".to_vec());
    assert_eq!(serialize_to_array(&[b"dir".as_slice(), b"/tmp".as_slice()]), b"*2\r\n$3\r\ndir\r\n$4\r\n/tmp\r\n".to_vec());
    assert_eq!(serialize_to_array(&[]), b"*0\r\n".to_vec());
    assert_eq!(null_bulk_string(), b"$-1\r\n".to_vec());
    assert_eq!(error_reply(), b"-Error\r\n".to_vec());
}

#[test]
fn encoded_values_decode_back() {
    let payload = b"a\r\nb\x00\xff".to_vec();
    let bytes = serialize_to_bulk_string(&payload);
    let (o, c) = decode_frame(&bytes).unwrap();
    assert_eq!(bulk_payload(&o), payload);
    assert_eq!(c, bytes.len());

    let bytes = serialize_to_simple_string(b"PONG");
    let (o, c) = decode_frame(&bytes).unwrap();
    assert!(matches!(o, RedisObject::SimpleString(ref s) if s == b"PONG"));
    assert_eq!(c, bytes.len());

    let items: [&[u8]; 3] = [b"SET", b"", b"v"];
    let bytes = serialize_to_array(&items);
    let (o, c) = decode_frame(&bytes).unwrap();
    assert_eq!(c, bytes.len());
    match o {
        RedisObject::Array(v) => {
            assert_eq!(v.len(), 3);
            for (i, item) in v.iter().enumerate() {
                assert_eq!(bulk_payload(item), items[i].to_vec());
            }
        }
        other => panic!("not an array: {:?}", other),
    }

    let bytes = error_reply();
    let (o, c) = decode_frame(&bytes).unwrap();
    assert!(matches!(o, RedisObject::SimpleErr(ref s) if s == b"Error"));
    assert_eq!(c, 8);
}

#[test]
fn pipelined_commands_decode_one_after_another() {
    let first = serialize_to_array(&[b"SET".as_slice(), b"k".as_slice(), b"v".as_slice()]);
    let second = serialize_to_array(&[b"GET".as_slice(), b"k".as_slice()]);
    let mut buf = first.clone();
    buf.extend_from_slice(&second);

    let (_, c) = decode_frame(&buf).unwrap();
    assert_eq!(c, first.len());
    let (o, c2) = decode_frame(&buf[c..]).unwrap();
    assert_eq!(c2, second.len());
    assert!(matches!(o, RedisObject::Array(ref v) if v.len() == 2 && bulk_payload(&v[0]) == b"GET"));

    let mut p = RESPParser::new(&buf);
    assert!(matches!(p.parse().unwrap(), RedisObject::Array(ref v) if v.len() == 3));
    assert_eq!(p.consumed(), first.len());
    assert!(matches!(p.parse().unwrap(), RedisObject::Array(ref v) if v.len() == 2));
    assert_eq!(p.consumed(), buf.len());
    assert_eq!(p.parse().unwrap_err(), DecodeError::Incomplete);
    assert_eq!(p.consumed(), buf.len());
}

#[test]
fn parser_pieces_decode_items() {
    let (o, c) = RESPParser::parse_object(b"\r\n+x\r\n").unwrap();
    assert!(o.is_none());
    assert_eq!(c, 2);
    let (o, c) = RESPParser::parse_array(b"1\r\n$1\r\nx\r\nrest").unwrap();
    assert!(matches!(o, RedisObject::Array(ref v) if v.len() == 1));
    assert_eq!(c, 10);
}

#[test]
fn splits_lines_and_drops_empty_ones() {
    let lines = split_by_line(b"$3\r\nhey\r\n\r\nyo");
    assert_eq!(lines, vec![b"$3".to_vec(), b"hey".to_vec(), b"yo".to_vec()]);
    assert_eq!(split_by_line(b"no delimiter"), vec![b"no delimiter".to_vec()]);
    assert_eq!(split_by_line(b"\r\n\r\n"), Vec::<Vec<u8>>::new());
    assert_eq!(split_by_line(b""), Vec::<Vec<u8>>::new());
}
