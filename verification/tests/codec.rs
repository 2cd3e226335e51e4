use respq::frame::{Frame, FrameError};

fn bulk(b: &[u8]) -> Frame {
    Frame::Bulk(Some(b.to_vec()))
}

fn publish_wire() -> Vec<u8> {
    b"*3\r\n$7\r\nPUBLISH\r\n$3\r\nfoo\r\n$5\r\nhello\r\n".to_vec()
}

fn publish_array() -> Frame {
    Frame::Array(Some(vec![bulk(b"PUBLISH"), bulk(b"foo"), bulk(b"hello")]))
}

#[test]
fn encode_simple() {
    let f = Frame::Simple(b"OK".to_vec());
    assert_eq!(f.encode(), b"+OK\r\n".to_vec());
}

#[test]
fn encode_error() {
    let f = Frame::Error(b"ERR oops".to_vec());
    assert_eq!(f.encode(), b"-ERR oops\r\n".to_vec());
}

#[test]
fn encode_integer() {
    assert_eq!(Frame::Integer(0).encode(), b":0\r\n".to_vec());
    assert_eq!(Frame::Integer(1234).encode(), b":1234\r\n".to_vec());
    assert_eq!(Frame::Integer(-42).encode(), b":-42\r\n".to_vec());
    assert_eq!(
        Frame::Integer(i64::MIN).encode(),
        b":-9223372036854775808\r\n".to_vec()
    );
}

#[test]
fn encode_bulk() {
    assert_eq!(bulk(b"hello").encode(), b"$5\r\nhello\r\n".to_vec());
    assert_eq!(bulk(b"").encode(), b"$0\r\n\r\n".to_vec());
    assert_eq!(Frame::Bulk(None).encode(), b"$-1\r\n".to_vec());
}

#[test]
fn encode_array() {
    assert_eq!(publish_array().encode(), publish_wire());
    assert_eq!(Frame::Array(None).encode(), b"*-1\r\n".to_vec());
    assert_eq!(Frame::Array(Some(vec![])).encode(), b"*0\r\n".to_vec());
}

#[test]
fn check_reports_exact_end_and_ignores_trailing() {
    let mut wire = publish_wire();
    let frame_len = wire.len();
    wire.extend_from_slice(b"garbage after the frame");
    assert_eq!(Frame::check(&wire, 0), Ok(frame_len));
}

#[test]
fn check_every_strict_prefix_is_incomplete() {
    let wire = publish_wire();
    for cut in 0..wire.len() {
        let prefix = wire[..cut].to_vec();
        assert_eq!(
            Frame::check(&prefix, 0),
            Err(FrameError::Incomplete),
            "prefix of {} bytes",
            cut
        );
    }
}

#[test]
fn round_trip_all_variants() {
    let frames = vec![
        Frame::Simple(b"PONG".to_vec()),
        Frame::Error(b"ERR x".to_vec()),
        Frame::Integer(-7),
        Frame::Bulk(None),
        bulk(b"payload"),
        Frame::Array(None),
        Frame::Array(Some(vec![
            Frame::Integer(5),
            Frame::Array(Some(vec![bulk(b"nested")])),
            Frame::Bulk(None),
        ])),
        publish_array(),
    ];
    for f in frames {
        let wire = f.encode();
        let end = Frame::check(&wire, 0).expect("complete frame must check");
        assert_eq!(end, wire.len());
        let (parsed, consumed) = Frame::parse(&wire, 0);
        assert_eq!(consumed, wire.len());
        assert_eq!(parsed.encode(), wire);
    }
}

#[test]
fn unknown_tag_is_malformed_not_incomplete() {
    assert_eq!(Frame::check(&b"?".to_vec(), 0), Err(FrameError::Malformed));
    assert_eq!(
        Frame::check(&b"!whatever\r\n".to_vec(), 0),
        Err(FrameError::Malformed)
    );
}

#[test]
fn bulk_longer_than_available_is_incomplete_never_accepted() {
    assert_eq!(
        Frame::check(&b"$10\r\nabc".to_vec(), 0),
        Err(FrameError::Incomplete)
    );
    assert_eq!(
        Frame::check(&b"$3\r\nabcXY".to_vec(), 0),
        Err(FrameError::Malformed)
    );
}

#[test]
fn bad_length_lines_are_malformed() {
    assert_eq!(
        Frame::check(&b"$1x\r\na\r\n".to_vec(), 0),
        Err(FrameError::Malformed)
    );
    assert_eq!(
        Frame::check(&b"$-2\r\n".to_vec(), 0),
        Err(FrameError::Malformed)
    );
    assert_eq!(
        Frame::check(&b"$99999999999999999999999\r\n".to_vec(), 0),
        Err(FrameError::Malformed)
    );
    assert_eq!(
        Frame::check(&b":12x\r\n".to_vec(), 0),
        Err(FrameError::Malformed)
    );
    assert_eq!(
        Frame::check(&b":\r\n".to_vec(), 0),
        Err(FrameError::Malformed)
    );
}

#[test]
fn parse_frame_boundary() {
    let wire = publish_wire();
    match respq::conn::parse_frame(&wire) {
        Ok(Some(f)) => assert_eq!(f.encode(), wire),
        other => panic!("expected a complete frame, got {:?}", other.map(|o| o.is_some())),
    }
    assert!(matches!(
        respq::conn::parse_frame(&wire[..7].to_vec()),
        Ok(None)
    ));
    assert!(matches!(
        respq::conn::parse_frame(&b"?x\r\n".to_vec()),
        Err(respq::Error::Malformed)
    ));
}
