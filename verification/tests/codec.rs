//! Wire-format tests: every encoder variant against its exact bytes, and the
//! streaming decoder on whole frames, prefixes, and malformed input.

use rust_redis_server::decode::{decode, DecodeOutcome};
use rust_redis_server::encode::{encode, RespEncode};
use rust_redis_server::resp::{
    BulkString, RespArray, RespDouble, RespFrame, RespMap, RespNull, RespNullArray,
    RespNullBulkString, RespSet, SimpleError, SimpleString,
};

fn simple(s: &[u8]) -> RespFrame {
    RespFrame::SimpleString(SimpleString::new(s.to_vec()))
}

fn bulk(s: &[u8]) -> RespFrame {
    RespFrame::BulkString(BulkString::new(s.to_vec()))
}

fn integer(i: i64) -> RespFrame {
    RespFrame::Integer(i)
}

fn double(repr: &[u8]) -> RespFrame {
    RespFrame::Double(RespDouble::new(repr.to_vec()))
}

#[test]
fn test_simple_string_encode() {
    let frame: RespFrame = simple(b"hello");
    assert_eq!(encode(&frame), b"+hello\r\n");
}

#[test]
fn test_error_encode() {
    let frame: RespFrame = RespFrame::Error(SimpleError::new(b"hello".to_vec()));
    assert_eq!(encode(&frame), b"-hello\r\n");
}

#[test]
fn test_integer_encode() {
    let frame: RespFrame = integer(123);
    assert_eq!(encode(&frame), b":+123\r\n");

    let frame: RespFrame = integer(-123);
    assert_eq!(encode(&frame), b":-123\r\n");
}

#[test]
fn test_bulk_string_encode() {
    let frame: RespFrame = bulk(b"hello");
    assert_eq!(encode(&frame), b"$5\r\nhello\r\n");
}

#[test]
fn test_null_bulk_string_encode() {
    let frame: RespFrame = RespFrame::NullBulkString(RespNullBulkString);
    assert_eq!(encode(&frame), b"$-1\r\n");
}

#[test]
fn test_array_encode() {
    let frame: RespFrame = RespFrame::Array(RespArray::new(vec![integer(1), integer(2), integer(3)]));
    assert_eq!(encode(&frame), b"*3\r\n:+1\r\n:+2\r\n:+3\r\n");
    let frame: RespFrame = RespFrame::Array(RespArray::new(vec![]));
    assert_eq!(encode(&frame), b"*0\r\n");
    let frame: RespFrame = RespFrame::Array(RespArray::new(vec![
        simple(b"set"),
        simple(b"hello"),
        simple(b"world"),
    ]));
    assert_eq!(encode(&frame), b"*3\r\n+set\r\n+hello\r\n+world\r\n");

    let frame: RespFrame = RespFrame::Array(RespArray::new(vec![
        bulk(b"set"),
        bulk(b"hello"),
        bulk(b"world"),
    ]));
    assert_eq!(encode(&frame), b"*3\r\n$3\r\nset\r\n$5\r\nhello\r\n$5\r\nworld\r\n");
}

#[test]
fn test_null_array_encode() {
    let frame: RespFrame = RespFrame::NullArray(RespNullArray);
    assert_eq!(encode(&frame), b"*-1\r\n");
}

#[test]
fn test_null_encode() {
    let frame: RespFrame = RespFrame::Null(RespNull);
    assert_eq!(encode(&frame), b"_\r\n");
}

#[test]
fn test_boolean_encode() {
    let frame: RespFrame = RespFrame::Boolean(true);
    assert_eq!(encode(&frame), b"#t\r\n");
    let frame: RespFrame = RespFrame::Boolean(false);
    assert_eq!(encode(&frame), b"#f\r\n");
}

#[test]
fn test_double_encode() {
    let frame: RespFrame = double(b"+123.456");
    assert_eq!(encode(&frame), b",+123.456\r\n");

    let frame: RespFrame = double(b"-123.456");
    assert_eq!(encode(&frame), b",-123.456\r\n");

    let frame: RespFrame = double(b"+1.23456e8");
    assert_eq!(encode(&frame), b",+1.23456e8\r\n");

    let frame: RespFrame = double(b"-1.23456e8");
    assert_eq!(encode(&frame), b",-1.23456e8\r\n");

    let frame: RespFrame = double(b"-1.23456e-9");
    assert_eq!(encode(&frame), b",-1.23456e-9\r\n");

    let frame: RespFrame = double(b"-0.0000000123456");
    assert_eq!(encode(&frame), b",-0.0000000123456\r\n");
}

#[test]
fn test_map_encode() {
    let mut map = RespMap::new();
    map.insert(b"hello".to_vec(), bulk(b"world"));
    map.insert(b"foo".to_vec(), double(b"-123456.789"));
    let frame: RespFrame = RespFrame::MapFrame(map);
    assert_eq!(
        encode(&frame),
        b"%2\r\n+foo\r\n,-123456.789\r\n+hello\r\n$5\r\nworld\r\n"
    );
}

#[test]
fn test_set_encode() {
    let frame: RespFrame = RespFrame::SetFrame(RespSet::new(vec![
        RespFrame::Array(RespArray::new(vec![integer(1234), RespFrame::Boolean(true)])),
        bulk(b"world"),
    ]));
    assert_eq!(encode(&frame), b"~2\r\n*2\r\n:+1234\r\n#t\r\n$5\r\nworld\r\n");
}

// ---------------------------------------------------------------------------
// Decoder
// ---------------------------------------------------------------------------

fn expect_parsed(buf: &[u8]) -> (RespFrame, usize) {
    match decode(&buf.to_vec()) {
        DecodeOutcome::Parsed(f, n) => (f, n),
        other => panic!("expected a parsed frame, got {:?}", other),
    }
}

#[test]
fn test_decode_scalars() {
    let (f, n) = expect_parsed(b"+OK\r\n");
    assert_eq!(f, simple(b"OK"));
    assert_eq!(n, 5);

    let (f, n) = expect_parsed(b":-123\r\n");
    assert_eq!(f, integer(-123));
    assert_eq!(n, 7);

    let (f, _) = expect_parsed(b":+0\r\n");
    assert_eq!(f, integer(0));

    let (f, n) = expect_parsed(b"$5\r\nhello\r\n");
    assert_eq!(f, bulk(b"hello"));
    assert_eq!(n, 11);

    let (f, _) = expect_parsed(b"#t\r\n");
    assert_eq!(f, RespFrame::Boolean(true));

    let (f, _) = expect_parsed(b"_\r\n");
    assert_eq!(f, RespFrame::Null(RespNull));

    let (f, _) = expect_parsed(b"$-1\r\n");
    assert_eq!(f, RespFrame::NullBulkString(RespNullBulkString));

    let (f, _) = expect_parsed(b"*-1\r\n");
    assert_eq!(f, RespFrame::NullArray(RespNullArray));

    let (f, _) = expect_parsed(b",-0.0000000123456\r\n");
    assert_eq!(f, double(b"-0.0000000123456"));
}

#[test]
fn test_decode_composites() {
    let (f, n) = expect_parsed(b"*2\r\n$3\r\nget\r\n$5\r\nhello\r\n");
    assert_eq!(
        f,
        RespFrame::Array(RespArray::new(vec![bulk(b"get"), bulk(b"hello")]))
    );
    assert_eq!(n, 24);

    let (f, _) = expect_parsed(b"%2\r\n+foo\r\n,-123456.789\r\n+hello\r\n$5\r\nworld\r\n");
    let mut map = RespMap::new();
    map.insert(b"foo".to_vec(), double(b"-123456.789"));
    map.insert(b"hello".to_vec(), bulk(b"world"));
    assert_eq!(f, RespFrame::MapFrame(map));

    let (f, _) = expect_parsed(b"~2\r\n*2\r\n:+1234\r\n#t\r\n$5\r\nworld\r\n");
    assert_eq!(
        f,
        RespFrame::SetFrame(RespSet::new(vec![
            RespFrame::Array(RespArray::new(vec![integer(1234), RespFrame::Boolean(true)])),
            bulk(b"world"),
        ]))
    );
}

#[test]
fn test_decode_round_trip() {
    // Encoding then decoding yields the original frame and consumes the
    // whole encoding, even with more bytes already buffered behind it.
    let mut map = RespMap::new();
    map.insert(b"a".to_vec(), integer(-7));
    map.insert(b"b".to_vec(), bulk(b"x\r\ny"));
    let frame = RespFrame::Array(RespArray::new(vec![
        RespFrame::MapFrame(map),
        RespFrame::SetFrame(RespSet::new(vec![double(b"+1.5"), RespFrame::Boolean(false)])),
        RespFrame::NullBulkString(RespNullBulkString),
    ]));
    let mut bytes = encode(&frame);
    let full = bytes.len();
    bytes.extend_from_slice(b"+extra\r\n");
    match decode(&bytes) {
        DecodeOutcome::Parsed(f, n) => {
            assert_eq!(f, frame);
            assert_eq!(n, full);
        }
        other => panic!("round trip failed: {:?}", other),
    }
}

#[test]
fn test_decode_truncation_incomplete() {
    // Every strict prefix of a valid encoding is Incomplete, never Malformed.
    let frame = RespFrame::Array(RespArray::new(vec![
        bulk(b"set"),
        bulk(b"hello"),
        integer(42),
    ]));
    let bytes = encode(&frame);
    for cut in 0..bytes.len() {
        let prefix = bytes[..cut].to_vec();
        assert_eq!(decode(&prefix), DecodeOutcome::Incomplete, "cut at {}", cut);
    }
}

#[test]
fn test_decode_malformed() {
    // Unknown tag.
    assert_eq!(decode(&b"@oops\r\n".to_vec()), DecodeOutcome::Malformed);
    // Bare LF terminator.
    assert_eq!(decode(&b"+hi\n".to_vec()), DecodeOutcome::Malformed);
    // CR followed by something other than LF.
    assert_eq!(decode(&b"+hi\rX\r\n".to_vec()), DecodeOutcome::Malformed);
    // Integer without a sign.
    assert_eq!(decode(&b":123\r\n".to_vec()), DecodeOutcome::Malformed);
    // Integer with a leading zero.
    assert_eq!(decode(&b":+0123\r\n".to_vec()), DecodeOutcome::Malformed);
    // Bulk payload not closed by CRLF.
    assert_eq!(decode(&b"$3\r\nabcXY".to_vec()), DecodeOutcome::Malformed);
    // Boolean with a bad payload.
    assert_eq!(decode(&b"#x\r\n".to_vec()), DecodeOutcome::Malformed);
    // Double that is not a number.
    assert_eq!(decode(&b",abc\r\n".to_vec()), DecodeOutcome::Malformed);
    // Null with a payload.
    assert_eq!(decode(&b"_x\r\n".to_vec()), DecodeOutcome::Malformed);
    // Malformed is fatal: appending more bytes never repairs the stream.
    assert_eq!(decode(&b"+hi\nrest...\r\n".to_vec()), DecodeOutcome::Malformed);
    assert_eq!(
        decode(&b":+0123\r\n$3\r\nabc\r\n".to_vec()),
        DecodeOutcome::Malformed
    );
}

#[test]
fn test_decode_empty_is_incomplete() {
    assert_eq!(decode(&Vec::new()), DecodeOutcome::Incomplete);
    assert_eq!(decode(&b"$5\r\nhel".to_vec()), DecodeOutcome::Incomplete);
    assert_eq!(decode(&b"*2\r\n$3\r\nget\r\n".to_vec()), DecodeOutcome::Incomplete);
}

#[test]
fn test_trait_encode_matches_free_encode() {
    assert_eq!(SimpleString::new(b"hello".to_vec()).encode(), b"+hello\r\n");
    assert_eq!(123i64.encode(), b":+123\r\n");
    assert_eq!(true.encode(), b"#t\r\n");
    assert_eq!(BulkString::new(b"hello".to_vec()).encode(), b"$5\r\nhello\r\n");
    let frame = RespFrame::Array(RespArray::new(vec![integer(1), integer(2)]));
    assert_eq!(frame.encode(), b"*2\r\n:+1\r\n:+2\r\n");
}

#[test]
fn test_decode_strictness() {
    // Counts and integers must be canonical decimal.
    assert_eq!(decode(&b"$05\r\nhello\r\n".to_vec()), DecodeOutcome::Malformed);
    assert_eq!(decode(&b":-0\r\n".to_vec()), DecodeOutcome::Malformed);
    // A map key must be a simple string.
    assert_eq!(
        decode(&b"%1\r\n$3\r\nfoo\r\n+bar\r\n".to_vec()),
        DecodeOutcome::Malformed
    );
    // Empty composites are fine.
    let (f, _) = expect_parsed(b"*0\r\n");
    assert_eq!(f, RespFrame::Array(RespArray::new(vec![])));
    // Nested arrays decode all the way down.
    let (f, _) = expect_parsed(b"*1\r\n*1\r\n:+7\r\n");
    assert_eq!(
        f,
        RespFrame::Array(RespArray::new(vec![RespFrame::Array(RespArray::new(vec![
            integer(7)
        ]))]))
    );
}

#[test]
fn test_decode_integer_limits() {
    let (f, _) = expect_parsed(b":+9223372036854775807\r\n");
    assert_eq!(f, integer(i64::MAX));
    let (f, _) = expect_parsed(b":-9223372036854775808\r\n");
    assert_eq!(f, integer(i64::MIN));
    assert_eq!(
        decode(&b":+9223372036854775808\r\n".to_vec()),
        DecodeOutcome::Malformed
    );
    assert_eq!(
        decode(&b":-9223372036854775809\r\n".to_vec()),
        DecodeOutcome::Malformed
    );
}
