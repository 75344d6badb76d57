use redis_lite::config::{init_config, Config};
use redis_lite::rdb::RDBObject;
use redis_lite::server::{config_reply, respond, respond_next};
use redis_lite::store::Store;

#[test]
fn ping_gets_pong() {
    let mut s = Store::new();
    let c = Config::new();
    assert_eq!(respond(&mut s, &c, b"*1\r\n$4\r\nPING\r\n", 0), b"+PONG\r\n".to_vec());
}

#[test]
fn echo_gets_its_argument() {
    let mut s = Store::new();
    let c = Config::new();
    assert_eq!(respond(&mut s, &c, b"*2\r\n$4\r\nECHO\r\n$3\r\nhey\r\n", 0), b"$3\r\nhey\r\n".to_vec());
}

#[test]
fn set_then_get_returns_the_value() {
    let mut s = Store::new();
    let c = Config::new();
    assert_eq!(respond(&mut s, &c, b"*3\r\n$3\r\nSET\r\n$3\r\nfoo\r\n$3\r\nbar\r\n", 0), b"+OK\r\n".to_vec());
    assert_eq!(respond(&mut s, &c, b"*2\r\n$3\r\nGET\r\n$3\r\nfoo\r\n", 1), b"$3\r\nbar\r\n".to_vec());
}

#[test]
fn set_with_zero_px_then_get_is_absent() {
    let mut s = Store::new();
    let c = Config::new();
    assert_eq!(respond(&mut s, &c, b"*5\r\n$3\r\nSET\r\n$3\r\nfoo\r\n$3\r\nbar\r\n$2\r\nPX\r\n$1\r\n0\r\n", 7),
        b"+OK\r\n".to_vec());
    assert_eq!(respond(&mut s, &c, b"*2\r\n$3\r\nGET\r\n$3\r\nfoo\r\n", 7), b"$-1\r\n".to_vec());
    assert_eq!(s.len(), 0);
    assert_eq!(respond(&mut s, &c, b"*2\r\n$3\r\nGET\r\n$3\r\nfoo\r\n", 8), b"$-1\r\n".to_vec());
}

#[test]
fn get_of_missing_key_is_null() {
    let mut s = Store::new();
    let c = Config::new();
    assert_eq!(respond(&mut s, &c, b"*2\r\n$3\r\nGET\r\n$7\r\nmissing\r\n", 0), b"$-1\r\n".to_vec());
}

#[test]
fn snapshot_key_is_served_without_set() {
    let mut data = b"REDIS0011\xFA\x09redis-ver\x057.2.0\xFE\x00\xFB\x01\x00".to_vec();
    data.extend_from_slice(b"\x00\x03abc\x03123\xFF");
    data.extend_from_slice(&[0; 8]);
    let loaded = RDBObject::from_bytes(&data).unwrap();
    let mut s = loaded.storage;
    let c = Config::new();
    assert_eq!(respond(&mut s, &c, b"*2\r\n$3\r\nGET\r\n$3\r\nabc\r\n", 0), b"$3\r\n123\r\n".to_vec());
}

#[test]
fn keys_star_lists_keys() {
    let mut s = Store::new();
    let c = Config::new();
    respond(&mut s, &c, b"*3\r\n$3\r\nSET\r\n$3\r\nfoo\r\n$3\r\nbar\r\n", 0);
    assert_eq!(respond(&mut s, &c, b"*2\r\n$4\r\nKEYS\r\n$1\r\n*\r\n", 0), b"*1\r\n$3\r\nfoo\r\n".to_vec());
    assert_eq!(respond(&mut s, &c, b"*2\r\n$4\r\nKEYS\r\n$3\r\nfoo\r\n", 0), b"*0\r\n".to_vec());
}

#[test]
fn config_get_answers_known_settings() {
    let mut s = Store::new();
    let mut c = Config::new();
    assert_eq!(respond(&mut s, &c, b"*3\r\n$6\r\nCONFIG\r\n$3\r\nGET\r\n$3\r\ndir\r\n", 0), b"-Error\r\n".to_vec());
    init_config(&mut c, Some("/tmp/redis".to_string()), Some("dump.rdb".to_string()));
    assert_eq!(c.dir, Some("/tmp/redis".to_string()));
    assert_eq!(respond(&mut s, &c, b"*3\r\n$6\r\nconfig\r\n$3\r\nget\r\n$3\r\ndir\r\n", 0),
        b"*2\r\n$3\r\ndir\r\n$10\r\n/tmp/redis\r\n".to_vec());
    assert_eq!(config_reply(&c, b"dbfilename"), b"*2\r\n$10\r\ndbfilename\r\n$8\r\ndump.rdb\r\n".to_vec());
    assert_eq!(config_reply(&c, b"port"), b"-Error\r\n".to_vec());
}

#[test]
fn unparseable_input_gets_the_error_reply() {
    let mut s = Store::new();
    let c = Config::new();
    assert_eq!(respond(&mut s, &c, b"hello\r\n", 0), b"-Error\r\n".to_vec());
    assert_eq!(respond(&mut s, &c, b"*1\r\n$4\r\nPONG\r\n", 0), b"-Error\r\n".to_vec());
    assert_eq!(respond(&mut s, &c, b"*2\r\n$4\r\nPING\r\n$1\r\nx\r\n", 0), b"-Error\r\n".to_vec());
}

#[test]
fn back_to_back_requests_are_answered_in_turn() {
    let mut s = Store::new();
    let c = Config::new();
    let buf = b"*3\r\n$3\r\nSET\r\n$1\r\nk\r\n$1\r\nv\r\n*2\r\n$3\r\nGET\r\n$1\r\nk\r\n";
    let (first, used) = respond_next(&mut s, &c, buf, 0);
    assert_eq!(first, b"+OK\r\n".to_vec());
    assert_eq!(used, 27);
    let (second, used2) = respond_next(&mut s, &c, &buf[used..], 0);
    assert_eq!(second, b"$1\r\nv\r\n".to_vec());
    assert_eq!(used + used2, buf.len());
    let (third, used3) = respond_next(&mut s, &c, b"garbage", 0);
    assert_eq!(third, b"-Error\r\n".to_vec());
    assert_eq!(used3, 7);
}
