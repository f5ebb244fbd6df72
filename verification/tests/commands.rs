//! Command-grammar and store tests: parsing request arrays into typed
//! commands, every rejection mode, and dispatch against the backend.

use rust_redis_server::backend::Backend;
use rust_redis_server::cmd::{
    extract_args, handle_request, resp_ok, validate_command, Command, CommandError, Get, HGet,
    HGetAll, HSet, SetCmd,
};
use rust_redis_server::decode::{decode, DecodeOutcome};
use rust_redis_server::resp::{BulkString, RespArray, RespFrame, RespNull, SimpleString};

fn bulk(s: &[u8]) -> RespFrame {
    RespFrame::BulkString(BulkString::new(s.to_vec()))
}

fn decode_array(buf: &[u8]) -> RespArray {
    match decode(&buf.to_vec()) {
        DecodeOutcome::Parsed(RespFrame::Array(a), _) => a,
        other => panic!("expected an array frame, got {:?}", other),
    }
}

fn decode_frame(buf: &[u8]) -> RespFrame {
    match decode(&buf.to_vec()) {
        DecodeOutcome::Parsed(f, _) => f,
        other => panic!("expected a frame, got {:?}", other),
    }
}

#[test]
fn test_get_from_resp_array() {
    let frame = decode_array(b"*2\r\n$3\r\nget\r\n$5\r\nhello\r\n");
    let result: Get = Get::try_from_array(frame).unwrap();
    assert_eq!(result.key, b"hello".to_vec());
}

#[test]
fn test_set_from_resp_array() {
    let frame = decode_array(b"*3\r\n$3\r\nset\r\n$5\r\nhello\r\n$5\r\nworld\r\n");
    let result: SetCmd = SetCmd::try_from_array(frame).unwrap();

    assert_eq!(result.key, b"hello".to_vec());
    assert_eq!(result.value, bulk(b"world"));
}

#[test]
fn test_set_get_command() {
    let mut backend = Backend::new();
    let cmd = SetCmd {
        key: b"hello".to_vec(),
        value: bulk(b"world"),
    };
    let result = Command::SetCmd(cmd).execute(&mut backend);
    assert_eq!(result, resp_ok());

    let cmd = Get {
        key: b"hello".to_vec(),
    };
    let result = Command::Get(cmd).execute(&mut backend);
    assert_eq!(result, bulk(b"world"));
}

#[test]
fn test_extract_args() {
    let array = RespArray(vec![
        bulk(b"HSET"),
        bulk(b"key"),
        bulk(b"field"),
        bulk(b"value"),
    ]);
    let args = extract_args(array, 1).unwrap();
    assert_eq!(args, vec![bulk(b"key"), bulk(b"field"), bulk(b"value")]);
}

#[test]
fn test_command() {
    let frame = decode_array(b"*2\r\n$3\r\nget\r\n$5\r\nhello\r\n");
    let cmd: Command = Command::try_from_array(frame).unwrap();
    let mut backend = Backend::new();
    let ret = cmd.execute(&mut backend);
    assert_eq!(ret, RespFrame::Null(RespNull));
}

// ---------------------------------------------------------------------------
// Grammar rejection
// ---------------------------------------------------------------------------

#[test]
fn test_first_element_not_bulk_is_invalid_command() {
    let array = RespArray(vec![
        RespFrame::SimpleString(SimpleString::new(b"get".to_vec())),
        bulk(b"hello"),
    ]);
    assert_eq!(
        Command::try_from_array(array),
        Err(CommandError::InvalidCommand(
            b"Command must have a BulkString as the first argument".to_vec()
        ))
    );
}

#[test]
fn test_unknown_token_is_invalid_command() {
    let array = RespArray(vec![bulk(b"flush"), bulk(b"hello")]);
    assert_eq!(
        Command::try_from_array(array),
        Err(CommandError::InvalidCommand(
            b"Invalid command: flush".to_vec()
        ))
    );
    // The top-level match is exact lowercase: an upper-case name does not
    // select a command.
    let array = RespArray(vec![bulk(b"GET"), bulk(b"hello")]);
    assert_eq!(
        Command::try_from_array(array),
        Err(CommandError::InvalidCommand(b"Invalid command: GET".to_vec()))
    );
}

#[test]
fn test_wrong_arity_is_invalid_arguments() {
    let array = RespArray(vec![bulk(b"get")]);
    assert_eq!(
        Command::try_from_array(array),
        Err(CommandError::InvalidArguments(
            b"get command must have exactly 1 argument".to_vec()
        ))
    );
    let array = RespArray(vec![bulk(b"set"), bulk(b"k")]);
    assert_eq!(
        Command::try_from_array(array),
        Err(CommandError::InvalidArguments(
            b"set command must have exactly 2 argument".to_vec()
        ))
    );
    let array = RespArray(vec![bulk(b"hset"), bulk(b"k"), bulk(b"f")]);
    assert_eq!(
        Command::try_from_array(array),
        Err(CommandError::InvalidArguments(
            b"hset command must have exactly 3 argument".to_vec()
        ))
    );
}

#[test]
fn test_validate_command_arity_message() {
    let array = RespArray(vec![bulk(b"get")]);
    assert_eq!(
        validate_command(&array, &b"get".to_vec(), 1),
        Err(CommandError::InvalidArguments(
            b"get command must have exactly 1 argument".to_vec()
        ))
    );
}

#[test]
fn test_mismatched_token_message() {
    // A per-command parser handed the wrong command names both tokens.
    let array = RespArray(vec![bulk(b"set"), bulk(b"k")]);
    assert_eq!(
        Get::try_from_array(array),
        Err(CommandError::InvalidCommand(
            b"Invalid command: expected get, got set".to_vec()
        ))
    );
}

#[test]
fn test_non_bulk_key_is_invalid_arguments() {
    let array = RespArray(vec![bulk(b"get"), RespFrame::Integer(5)]);
    assert_eq!(
        Command::try_from_array(array),
        Err(CommandError::InvalidArguments(b"Invalid key".to_vec()))
    );
}

#[test]
fn test_non_utf8_key_is_text_decode_error() {
    let array = RespArray(vec![bulk(b"get"), bulk(&[0xff, 0xfe])]);
    let mut msg = b"Utf8 error: ".to_vec();
    msg.extend_from_slice(&[0xff, 0xfe]);
    assert_eq!(
        Command::try_from_array(array),
        Err(CommandError::TextDecodeError(msg))
    );
}

#[test]
fn test_hget_hset_hgetall_parse() {
    let frame = decode_array(b"*4\r\n$4\r\nhset\r\n$3\r\nmap\r\n$5\r\nhello\r\n$5\r\nworld\r\n");
    let h = HSet::try_from_array(frame).unwrap();
    assert_eq!(h.key, b"map".to_vec());
    assert_eq!(h.field, b"hello".to_vec());
    assert_eq!(h.value, bulk(b"world"));

    let frame = decode_array(b"*3\r\n$4\r\nhget\r\n$3\r\nmap\r\n$5\r\nhello\r\n");
    let h = HGet::try_from_array(frame).unwrap();
    assert_eq!(h.key, b"map".to_vec());
    assert_eq!(h.field, b"hello".to_vec());

    let frame = decode_array(b"*2\r\n$7\r\nhgetall\r\n$3\r\nmap\r\n");
    let h = HGetAll::try_from_array(frame).unwrap();
    assert_eq!(h.key, b"map".to_vec());
}

// ---------------------------------------------------------------------------
// Store behavior through dispatch
// ---------------------------------------------------------------------------

#[test]
fn test_absent_keys_yield_null() {
    let mut backend = Backend::new();
    let r = Command::Get(Get { key: b"nope".to_vec() }).execute(&mut backend);
    assert_eq!(r, RespFrame::Null(RespNull));
    let r = Command::HGet(HGet {
        key: b"nope".to_vec(),
        field: b"f".to_vec(),
    })
    .execute(&mut backend);
    assert_eq!(r, RespFrame::Null(RespNull));
    let r = Command::HGetAll(HGetAll { key: b"nope".to_vec() }).execute(&mut backend);
    assert_eq!(r, RespFrame::Null(RespNull));
}

#[test]
fn test_set_overwrites() {
    let mut backend = Backend::new();
    backend.set(b"k".to_vec(), bulk(b"one"));
    backend.set(b"k".to_vec(), bulk(b"two"));
    assert_eq!(backend.get(&b"k".to_vec()), Some(bulk(b"two")));
}

#[test]
fn test_hash_fields_are_independent() {
    let mut backend = Backend::new();
    backend.hset(b"h".to_vec(), b"f1".to_vec(), bulk(b"x"));
    backend.hset(b"h".to_vec(), b"f2".to_vec(), bulk(b"y"));
    assert_eq!(backend.hget(&b"h".to_vec(), &b"f1".to_vec()), Some(bulk(b"x")));
    assert_eq!(backend.hget(&b"h".to_vec(), &b"f2".to_vec()), Some(bulk(b"y")));
    assert_eq!(backend.hget(&b"h".to_vec(), &b"f3".to_vec()), None);

    let all = backend.hgetall(&b"h".to_vec()).unwrap();
    assert_eq!(
        all.0,
        vec![
            (b"f1".to_vec(), bulk(b"x")),
            (b"f2".to_vec(), bulk(b"y")),
        ]
    );
}

#[test]
fn test_hgetall_encodes_sorted_map() {
    let mut backend = Backend::new();
    backend.hset(b"h".to_vec(), b"zz".to_vec(), bulk(b"2"));
    backend.hset(b"h".to_vec(), b"aa".to_vec(), bulk(b"1"));
    let r = Command::HGetAll(HGetAll { key: b"h".to_vec() }).execute(&mut backend);
    assert_eq!(
        rust_redis_server::encode::encode(&r),
        b"%2\r\n+aa\r\n$1\r\n1\r\n+zz\r\n$1\r\n2\r\n"
    );
}

#[test]
fn test_full_request_cycle() {
    // Decode a request, run it, encode the reply: one hop of the server's
    // per-connection loop.
    let mut backend = Backend::new();

    let set = decode_frame(b"*3\r\n$3\r\nset\r\n$5\r\nhello\r\n$5\r\nworld\r\n");
    let reply = handle_request(set, &mut backend).unwrap();
    assert_eq!(rust_redis_server::encode::encode(&reply), b"+OK\r\n");

    let get = decode_frame(b"*2\r\n$3\r\nget\r\n$5\r\nhello\r\n");
    let reply = handle_request(get, &mut backend).unwrap();
    assert_eq!(rust_redis_server::encode::encode(&reply), b"$5\r\nworld\r\n");
}

#[test]
fn test_handle_request_rejects_non_array_envelope() {
    let mut backend = Backend::new();
    assert_eq!(
        handle_request(bulk(b"get"), &mut backend),
        Err(CommandError::InvalidCommand(
            b"Command must be an Array".to_vec()
        ))
    );
}
