use redis_starter_rust::command::{parse_arg, CommandParser, ParsedCommand};
use redis_starter_rust::resp::{Entry, RESPParser};
use redis_starter_rust::server::{error_reply, FrameResult, Server};
use redis_starter_rust::storage::{InMemoryStorage, RdbStorage, Storage};

const NOW: u64 = 1_700_000_000_000;

fn reply_of(result: FrameResult) -> Vec<u8> {
    match result {
        FrameResult::Reply(out) => out.reply,
        FrameResult::Malformed => panic!("expected a reply, frame was judged malformed"),
    }
}

#[test]
fn test_if_ping_gets_pong() {
    let mut server = Server::new(InMemoryStorage::new());
    let r = reply_of(server.handle_frame(b"*1\r\n$4\r\nPING\r\n", NOW));
    assert_eq!(r, b"+PONG\r\n".to_vec());
}

#[test]
fn test_if_multiple_pings_get_pongs() {
    let mut server = Server::new(InMemoryStorage::new());
    for _ in 0..3 {
        let r = reply_of(server.handle_frame(b"*1\r\n$4\r\nPING\r\n", NOW));
        assert_eq!(r, b"+PONG\r\n".to_vec());
    }
}

#[test]
fn test_reply_to_echo() {
    let mut server = Server::new(InMemoryStorage::new());
    let r = reply_of(server.handle_frame(b"*2\r\n$4\r\nECHO\r\n$3\r\nhey\r\n", NOW));
    assert_eq!(r, b"+hey\r\n".to_vec());
}

#[test]
fn echo_joins_arguments_with_line_terminator() {
    let mut server = Server::new(InMemoryStorage::new());
    let r = reply_of(server.handle_frame(b"*3\r\n$4\r\nECHO\r\n$1\r\na\r\n$1\r\nb\r\n", NOW));
    assert_eq!(r, b"+a\r\nb\r\n".to_vec());
}

#[test]
fn set_then_get_round_trips_on_the_wire() {
    let mut server = Server::new(InMemoryStorage::new());
    let r1 = reply_of(server.handle_frame(b"*3\r\n$3\r\nSET\r\n$3\r\nfoo\r\n$3\r\nbar\r\n", NOW));
    assert_eq!(r1, b"+OK\r\n".to_vec());
    let r2 = reply_of(server.handle_frame(b"*2\r\n$3\r\nGET\r\n$3\r\nfoo\r\n", NOW));
    assert_eq!(r2, b"$3\r\nbar\r\n".to_vec());
}

#[test]
fn get_of_never_set_key_is_nil() {
    let mut server = Server::new(InMemoryStorage::new());
    let r = reply_of(server.handle_frame(b"*2\r\n$3\r\nGET\r\n$5\r\nnever\r\n", NOW));
    assert_eq!(r, b"$-1\r\n".to_vec());
}

#[test]
fn unknown_command_gets_error_and_connection_stays_usable() {
    let mut server = Server::new(InMemoryStorage::new());
    let r = server.handle_frame(b"*1\r\n$4\r\nFOOX\r\n", NOW);
    match r {
        FrameResult::Reply(out) => {
            assert_eq!(out.reply, b"-ERR unknown command\r\n".to_vec());
            assert!(out.save.is_none());
        }
        FrameResult::Malformed => panic!("an unknown command must not close the connection"),
    }
    let again = reply_of(server.handle_frame(b"*1\r\n$4\r\nPING\r\n", NOW));
    assert_eq!(again, b"+PONG\r\n".to_vec());
}

#[test]
fn malformed_frame_closes_connection() {
    let mut server = Server::new(InMemoryStorage::new());
    let r = server.handle_frame(b"GET foo\r\n", NOW);
    assert!(matches!(r, FrameResult::Malformed));
}

#[test]
fn set_with_expiry_argument() {
    let mut server = Server::new(InMemoryStorage::new());
    let frame = b"*5\r\n$3\r\nSET\r\n$1\r\nk\r\n$1\r\nv\r\n$2\r\nPX\r\n$5\r\n10000\r\n";
    let r = reply_of(server.handle_frame(frame, NOW));
    assert_eq!(r, b"+OK\r\n".to_vec());
    let live = reply_of(server.handle_frame(b"*2\r\n$3\r\nGET\r\n$1\r\nk\r\n", NOW + 5_000));
    assert_eq!(live, b"$1\r\nv\r\n".to_vec());
    let gone = reply_of(server.handle_frame(b"*2\r\n$3\r\nGET\r\n$1\r\nk\r\n", NOW + 10_001));
    assert_eq!(gone, b"$-1\r\n".to_vec());
}

#[test]
fn set_with_non_numeric_expiry_is_recoverable() {
    let mut server = Server::new(InMemoryStorage::new());
    let frame = b"*5\r\n$3\r\nSET\r\n$1\r\nk\r\n$1\r\nv\r\n$2\r\nPX\r\n$3\r\nabc\r\n";
    let r = reply_of(server.handle_frame(frame, NOW));
    assert_eq!(r, b"-ERR unknown command\r\n".to_vec());
    let again = reply_of(server.handle_frame(b"*1\r\n$4\r\nPING\r\n", NOW));
    assert_eq!(again, b"+PONG\r\n".to_vec());
}

#[test]
fn config_get_dir_and_dbfilename() {
    let storage = RdbStorage::new(b"/tmp".to_vec(), b"dump.rdb".to_vec());
    let mut server = Server::new(storage);
    let dir = reply_of(server.handle_frame(b"*3\r\n$6\r\nCONFIG\r\n$3\r\nGET\r\n$3\r\ndir\r\n", NOW));
    assert_eq!(dir, b"*2\r\n$3\r\ndir\r\n$4\r\n/tmp\r\n".to_vec());
    let name = reply_of(server.handle_frame(
        b"*3\r\n$6\r\nCONFIG\r\n$3\r\nGET\r\n$10\r\ndbfilename\r\n",
        NOW,
    ));
    assert_eq!(name, b"*2\r\n$10\r\ndbfilename\r\n$8\r\ndump.rdb\r\n".to_vec());
    let other = reply_of(server.handle_frame(
        b"*3\r\n$6\r\nCONFIG\r\n$3\r\nGET\r\n$4\r\nwhat\r\n",
        NOW,
    ));
    assert_eq!(other, b"$-1\r\n".to_vec());
}

#[test]
fn keys_star_replies_with_every_key() {
    let mut server = Server::new(InMemoryStorage::new());
    reply_of(server.handle_frame(b"*3\r\n$3\r\nSET\r\n$3\r\nfoo\r\n$1\r\n1\r\n", NOW));
    reply_of(server.handle_frame(b"*3\r\n$3\r\nSET\r\n$3\r\nbar\r\n$1\r\n2\r\n", NOW));
    let r = reply_of(server.handle_frame(b"*2\r\n$4\r\nKEYS\r\n$1\r\n*\r\n", NOW));
    // Two keys, in either order.
    let a = b"*2\r\n$3\r\nfoo\r\n$3\r\nbar\r\n".to_vec();
    let b = b"*2\r\n$3\r\nbar\r\n$3\r\nfoo\r\n".to_vec();
    assert!(r == a || r == b, "unexpected KEYS reply: {:?}", r);
}

#[test]
fn keys_literal_pattern_on_the_wire() {
    let mut server = Server::new(InMemoryStorage::new());
    reply_of(server.handle_frame(b"*3\r\n$3\r\nSET\r\n$3\r\nabc\r\n$1\r\n1\r\n", NOW));
    let hit = reply_of(server.handle_frame(b"*2\r\n$4\r\nKEYS\r\n$3\r\nabc\r\n", NOW));
    assert_eq!(hit, b"*1\r\n$3\r\nabc\r\n".to_vec());
    let miss = reply_of(server.handle_frame(b"*2\r\n$4\r\nKEYS\r\n$4\r\nnope\r\n", NOW));
    assert_eq!(miss, b"*0\r\n".to_vec());
}

#[test]
fn save_on_durable_server_requests_a_snapshot_write() {
    let storage = RdbStorage::new(b"/data".to_vec(), b"dump.rdb".to_vec());
    let mut server = Server::new(storage);
    reply_of(server.handle_frame(b"*3\r\n$3\r\nSET\r\n$3\r\nfoo\r\n$3\r\nbar\r\n", NOW));
    match server.handle_frame(b"*1\r\n$4\r\nSAVE\r\n", NOW) {
        FrameResult::Reply(out) => {
            assert_eq!(out.reply, b"+OK\r\n".to_vec());
            let request = out.save.expect("a durable SAVE must hand back snapshot bytes");
            assert_eq!(request.path, b"/data/dump.rdb".to_vec());
            // The bytes read back as the key space that was saved.
            let mut restored = RdbStorage::new(b"/data".to_vec(), b"dump.rdb".to_vec());
            restored.load(&request.data).unwrap();
            assert_eq!(restored.get(b"foo", NOW).unwrap().value, b"bar".to_vec());
        }
        FrameResult::Malformed => panic!("SAVE is a well-formed command"),
    }
}

#[test]
fn save_on_volatile_server_requests_nothing() {
    let mut server = Server::new(InMemoryStorage::new());
    match server.handle_frame(b"*1\r\n$4\r\nSAVE\r\n", NOW) {
        FrameResult::Reply(out) => {
            assert_eq!(out.reply, b"+OK\r\n".to_vec());
            assert!(out.save.is_none());
        }
        FrameResult::Malformed => panic!("SAVE is a well-formed command"),
    }
}

#[test]
fn error_reply_bytes() {
    assert_eq!(error_reply(), b"-ERR unknown command\r\n".to_vec());
}

#[test]
fn commands_are_case_sensitive() {
    let mut server = Server::new(InMemoryStorage::new());
    let r = reply_of(server.handle_frame(b"*1\r\n$4\r\nping\r\n", NOW));
    assert_eq!(r, b"-ERR unknown command\r\n".to_vec());
}

#[test]
fn parser_rejects_unknown_and_missing_arguments() {
    // An empty command, an unknown keyword, and a GET without its key all
    // fail to parse.
    assert!(CommandParser::new(&[], NOW).is_err());
    assert!(CommandParser::new(&[Entry::Text(b"FOOX".to_vec())], NOW).is_err());
    assert!(CommandParser::new(&[Entry::Text(b"GET".to_vec())], NOW).is_err());
    assert!(CommandParser::new(&[Entry::Int(7)], NOW).is_err());
    assert!(CommandParser::new(&[Entry::Text(b"PING".to_vec())], NOW).is_ok());
}

#[test]
fn parsed_command_executes_against_storage() {
    let entries = RESPParser::parse(b"*3\r\n$3\r\nSET\r\n$1\r\nk\r\n$1\r\nv\r\n").unwrap();
    let command: ParsedCommand = CommandParser::new(&entries, NOW).unwrap();
    let mut storage = InMemoryStorage::new();
    let out = command.execute(&mut storage, NOW).unwrap();
    assert_eq!(out.reply, b"+OK\r\n".to_vec());
    assert_eq!(storage.get(b"k", NOW).unwrap().value, b"v".to_vec());
}

#[test]
fn parse_arg_takes_only_bulk_strings() {
    let args = vec![Entry::Text(b"GET".to_vec()), Entry::Text(b"key".to_vec()), Entry::Int(1)];
    assert_eq!(parse_arg(&args, 1).unwrap(), b"key".to_vec());
    assert!(parse_arg(&args, 2).is_err());
    assert!(parse_arg(&args, 9).is_err());
}

#[test]
fn echo_with_non_text_arguments_drops_them() {
    let mut server = Server::new(InMemoryStorage::new());
    let r = reply_of(server.handle_frame(b"*3\r\n$4\r\nECHO\r\n:42\r\n$2\r\nhi\r\n", NOW));
    assert_eq!(r, b"+hi\r\n".to_vec());
}
