use redis_lite::command::{Command, ParseError};
use redis_lite::resp::{serialize_to_array, DecodeError};

fn request(words: &[&[u8]]) -> Vec<u8> {
    serialize_to_array(words)
}

#[test]
fn ping_resolves_whatever_its_case() {
    for word in [b"ping", b"PING", b"PiNg"] {
        let cmd = Command::from_buffer(&request(&[word.as_slice()]));
        assert!(matches!(cmd, Ok(Command::Ping)), "{:?}", cmd);
    }
    assert!(matches!(Command::from_buffer(b"*1\r\n$4\r\nPING\r\n"), Ok(Command::Ping)));
}

#[test]
fn resolves_each_command() {
    assert!(matches!(Command::from_buffer(&request(&[b"echo", b"hey"])),
        Ok(Command::Echo(ref s)) if s == b"hey"));
    assert!(matches!(Command::from_buffer(&request(&[b"Keys", b"*"])),
        Ok(Command::Keys(ref s)) if s == b"*"));
    assert!(matches!(Command::from_buffer(&request(&[b"get", b"foo"])),
        Ok(Command::Get(ref s)) if s == b"foo"));
    assert!(matches!(Command::from_buffer(&request(&[b"set", b"foo", b"bar"])),
        Ok(Command::SetKey(ref k, ref v, None)) if k == b"foo" && v == b"bar"));
    assert!(matches!(Command::from_buffer(&request(&[b"SET", b"foo", b"bar", b"px", b"100"])),
        Ok(Command::SetKey(ref k, ref v, Some(100))) if k == b"foo" && v == b"bar"));
    assert!(matches!(Command::from_buffer(&request(&[b"config", b"get", b"dir"])),
        Ok(Command::ConfigGet(ref p)) if p == b"dir"));
}

#[test]
fn rejects_what_is_no_command() {
    assert_eq!(Command::from_buffer(b"+PING\r\n").unwrap_err(), ParseError::NotCommandFrame);
    assert_eq!(Command::from_buffer(b"*1\r\n:1\r\n").unwrap_err(), ParseError::NotCommandFrame);
    assert_eq!(Command::from_buffer(b"*1\r\n$4\r\nPIN").unwrap_err(),
        ParseError::Malformed(DecodeError::Incomplete));
    assert_eq!(Command::from_buffer(b"*0\r\n").unwrap_err(), ParseError::UnknownCommand);
    assert_eq!(Command::from_buffer(&request(&[b"FLUSHALL"])).unwrap_err(), ParseError::UnknownCommand);
    assert_eq!(Command::from_buffer(&request(&[b"\xffING"])).unwrap_err(), ParseError::UnknownCommand);
    assert_eq!(Command::from_buffer(&request(&[b"PING", b"x"])).unwrap_err(), ParseError::WrongArity);
    assert_eq!(Command::from_buffer(&request(&[b"GET"])).unwrap_err(), ParseError::WrongArity);
    assert_eq!(Command::from_buffer(&request(&[b"SET", b"k"])).unwrap_err(), ParseError::WrongArity);
    assert_eq!(Command::from_buffer(&request(&[b"SET", b"k", b"v", b"EX", b"1"])).unwrap_err(),
        ParseError::Syntax);
    assert_eq!(Command::from_buffer(&request(&[b"SET", b"k", b"v", b"PX", b"-1"])).unwrap_err(),
        ParseError::Syntax);
    assert_eq!(Command::from_buffer(&request(&[b"CONFIG", b"SET", b"dir"])).unwrap_err(),
        ParseError::UnknownCommand);
    assert_eq!(Command::from_buffer(&request(&[b"FOO", b"GET", b"dir"])).unwrap_err(),
        ParseError::UnknownCommand);
    assert_eq!(Command::from_buffer(&request(&[b"CONFIG", b"GET"])).unwrap_err(), ParseError::WrongArity);
}

#[test]
fn resolves_from_given_upper_case_forms() {
    let words = vec![b"whatever".to_vec(), b"k".to_vec()];
    let upper = vec![Some("GET".to_string()), Some("K".to_string())];
    assert!(matches!(Command::from_parts(&words, &upper), Ok(Command::Get(ref k)) if k == b"k"));
    let upper = vec![None, Some("K".to_string())];
    assert_eq!(Command::from_parts(&words, &upper).unwrap_err(), ParseError::UnknownCommand);
}
