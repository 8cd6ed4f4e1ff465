use redis_clone::decode::{DecodeOutcome, MalformedKind};
use redis_clone::framer::Framer;
use redis_clone::resp::RESPValues;

#[test]
fn partial_array_is_incomplete_not_short() {
    // a declared count of two with only one element buffered must wait,
    // never pass as a one-element array
    let result = RESPValues::decode(b"*2\r\n:1\r\n");
    assert_eq!(result, Err(DecodeOutcome::Incomplete));
}

#[test]
fn split_frame_feeds_like_one_read() {
    let encoded = RESPValues::Array(vec![
        RESPValues::BulkString("caf\u{e9}".to_string()),
        RESPValues::Integer(42),
    ])
    .to_string();
    let whole = encoded.as_bytes();
    for split in 0..whole.len() {
        let mut framer = Framer::new();
        let (early, err) = framer.feed(&whole[..split]);
        assert_eq!(err, None);
        assert!(early.is_empty());
        let (frames, err) = framer.feed(&whole[split..]);
        assert_eq!(err, None);
        assert_eq!(
            frames,
            vec![RESPValues::Array(vec![
                RESPValues::BulkString("caf\u{e9}".to_string()),
                RESPValues::Integer(42),
            ])]
        );
    }
}

#[test]
fn pipelined_frames_come_out_in_order() {
    let mut framer = Framer::new();
    let (frames, err) = framer.feed(b"+ONE\r\n:2\r\n$5\r\nthree\r\n");
    assert_eq!(err, None);
    assert_eq!(
        frames,
        vec![
            RESPValues::SimpleString("ONE".to_string()),
            RESPValues::Integer(2),
            RESPValues::BulkString("three".to_string()),
        ]
    );
}

#[test]
fn two_concatenated_requests_yield_two_frames() {
    let one = RESPValues::Array(vec![RESPValues::BulkString("PING".to_string())]).to_string();
    let two = RESPValues::Array(vec![
        RESPValues::BulkString("ECHO".to_string()),
        RESPValues::BulkString("hi".to_string()),
    ])
    .to_string();
    let both = format!("{one}{two}");
    let mut framer = Framer::new();
    let (frames, err) = framer.feed(both.as_bytes());
    assert_eq!(err, None);
    assert_eq!(frames.len(), 2);
    assert_eq!(
        frames[0],
        RESPValues::Array(vec![RESPValues::BulkString("PING".to_string())])
    );
    assert_eq!(
        frames[1],
        RESPValues::Array(vec![
            RESPValues::BulkString("ECHO".to_string()),
            RESPValues::BulkString("hi".to_string()),
        ])
    );
}

#[test]
fn framer_keeps_partial_frame_across_feeds() {
    let mut framer = Framer::new();
    let (frames, err) = framer.feed(b":1\r\n:2");
    assert_eq!(err, None);
    assert_eq!(frames, vec![RESPValues::Integer(1)]);
    let (frames, err) = framer.feed(b"\r\n");
    assert_eq!(err, None);
    assert_eq!(frames, vec![RESPValues::Integer(2)]);
}

#[test]
fn framer_reports_malformed_buffer() {
    let mut framer = Framer::new();
    let (frames, err) = framer.feed(b":5\r\n?bad\r\n");
    assert_eq!(frames, vec![RESPValues::Integer(5)]);
    assert_eq!(err, Some(MalformedKind::UnknownTag));
}

#[test]
fn framer_emits_nothing_until_frame_completes() {
    let mut framer = Framer::new();
    let (frames, err) = framer.feed(b"$10\r\nabc");
    assert_eq!(err, None);
    assert!(frames.is_empty());
    let (frames, err) = framer.feed(b"defghij\r\n");
    assert_eq!(err, None);
    assert_eq!(frames, vec![RESPValues::BulkString("abcdefghij".to_string())]);
}
