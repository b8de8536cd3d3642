use redis_starter_rust::resp::{Array, Entry, RESPParser};

#[test]
fn encode_bulk_string() {
    let r = Entry::Text(b"bar".to_vec()).encode();
    assert_eq!(r, b"$3\r\nbar\r\n".to_vec());
}

#[test]
fn encode_empty_bulk_string() {
    let r = Entry::Text(Vec::new()).encode();
    assert_eq!(r, b"$0\r\n\r\n".to_vec());
}

#[test]
fn encode_simple_text() {
    let r = Entry::SimpleText(b"PONG".to_vec()).encode();
    assert_eq!(r, b"+PONG\r\n".to_vec());
}

#[test]
fn encode_int() {
    assert_eq!(Entry::Int(10).encode(), b":10\r\n".to_vec());
    assert_eq!(Entry::Int(0).encode(), b":0\r\n".to_vec());
    assert_eq!(Entry::Int(-5).encode(), b":-5\r\n".to_vec());
    assert_eq!(Entry::Int(i32::MIN).encode(), b":-2147483648\r\n".to_vec());
    assert_eq!(Entry::Int(i32::MAX).encode(), b":2147483647\r\n".to_vec());
}

#[test]
fn encode_nil() {
    assert_eq!(Entry::Nil.encode(), b"$-1\r\n".to_vec());
}

#[test]
fn encode_array_of_entries() {
    let group = Array(vec![
        Entry::Text(b"dir".to_vec()),
        Entry::Text(b"/tmp".to_vec()),
    ]);
    assert_eq!(group.encode(), b"*2\r\n$3\r\ndir\r\n$4\r\n/tmp\r\n".to_vec());
}

#[test]
fn encode_empty_array() {
    assert_eq!(Array(Vec::new()).encode(), b"*0\r\n".to_vec());
}

#[test]
fn parse_single_bulk_frame() {
    let r = RESPParser::parse(b"*1\r\n$4\r\nPING\r\n").unwrap();
    assert_eq!(r, vec![Entry::Text(b"PING".to_vec())]);
}

#[test]
fn parse_two_bulk_frame() {
    let r = RESPParser::parse(b"*2\r\n$4\r\nECHO\r\n$3\r\nhey\r\n").unwrap();
    assert_eq!(
        r,
        vec![Entry::Text(b"ECHO".to_vec()), Entry::Text(b"hey".to_vec())]
    );
}

#[test]
fn parse_integer_element() {
    let r = RESPParser::parse(b"*2\r\n:42\r\n:-7\r\n").unwrap();
    assert_eq!(r, vec![Entry::Int(42), Entry::Int(-7)]);
}

#[test]
fn parse_ignores_trailing_bytes() {
    let r = RESPParser::parse(b"*1\r\n$4\r\nPING\r\n\0\0\0garbage").unwrap();
    assert_eq!(r, vec![Entry::Text(b"PING".to_vec())]);
}

#[test]
fn parse_round_trips_an_encoded_array() {
    let group = Array(vec![
        Entry::Int(3),
        Entry::Text(b"foo".to_vec()),
        Entry::Text(b"".to_vec()),
    ]);
    let bytes = group.encode();
    let reparsed = RESPParser::parse(&bytes).unwrap();
    assert_eq!(reparsed, group.0);
}

#[test]
fn parse_rejects_wrong_sigil() {
    assert!(RESPParser::parse(b"+PING\r\n").is_err());
    assert!(RESPParser::parse(b"PING\r\n").is_err());
    assert!(RESPParser::parse(b"").is_err());
}

#[test]
fn parse_rejects_length_mismatch() {
    assert!(RESPParser::parse(b"*1\r\n$5\r\nhey\r\n").is_err());
    assert!(RESPParser::parse(b"*1\r\n$2\r\nhey\r\n").is_err());
}

#[test]
fn parse_rejects_truncated_frame() {
    assert!(RESPParser::parse(b"*2\r\n$4\r\nECHO\r\n").is_err());
    assert!(RESPParser::parse(b"*1\r\n$4\r\nPI").is_err());
    assert!(RESPParser::parse(b"*1\r\n").is_err());
}

#[test]
fn parse_rejects_non_numeric_fields() {
    assert!(RESPParser::parse(b"*x\r\n").is_err());
    assert!(RESPParser::parse(b"*1\r\n$y\r\nhey\r\n").is_err());
    assert!(RESPParser::parse(b"*1\r\n:4a2\r\n").is_err());
}

#[test]
fn parse_rejects_integer_out_of_range() {
    assert!(RESPParser::parse(b"*1\r\n:2147483648\r\n").is_err());
    assert!(RESPParser::parse(b"*1\r\n:-2147483649\r\n").is_err());
    let r = RESPParser::parse(b"*1\r\n:-2147483648\r\n").unwrap();
    assert_eq!(r, vec![Entry::Int(i32::MIN)]);
}

#[test]
fn parse_non_positive_count_is_empty_command() {
    assert_eq!(RESPParser::parse(b"*0\r\n").unwrap(), Vec::<Entry>::new());
    assert_eq!(RESPParser::parse(b"*-1\r\n").unwrap(), Vec::<Entry>::new());
}
