use respq::cmd::publish::Publish;
use respq::cmd::Command;
use respq::frame::Frame;
use respq::parse::{Parse, ParseError};

fn bulk(b: &[u8]) -> Frame {
    Frame::Bulk(Some(b.to_vec()))
}

fn array(elems: Vec<Frame>) -> Frame {
    Frame::Array(Some(elems))
}

#[test]
fn publish_with_no_args_fails() {
    let f = array(vec![bulk(b"PUBLISH")]);
    assert_eq!(
        Command::from_frame(f).err(),
        Some(ParseError::EndOfStream)
    );
}

#[test]
fn publish_with_one_arg_fails() {
    let f = array(vec![bulk(b"PUBLISH"), bulk(b"ch")]);
    assert_eq!(
        Command::from_frame(f).err(),
        Some(ParseError::EndOfStream)
    );
}

#[test]
fn publish_with_two_args_succeeds() {
    let f = array(vec![bulk(b"PUBLISH"), bulk(b"ch"), bulk(b"msg")]);
    match Command::from_frame(f) {
        Ok(Command::Publish(p)) => {
            assert_eq!(p.channel, "ch");
            assert_eq!(p.message, b"msg".to_vec());
        }
        Err(e) => panic!("decode failed: {:?}", e),
    }
}

#[test]
fn publish_name_is_case_insensitive() {
    let f = array(vec![bulk(b"publish"), bulk(b"ch"), bulk(b"msg")]);
    assert!(Command::from_frame(f).is_ok());
    let f = array(vec![bulk(b"PuBlIsH"), bulk(b"ch"), bulk(b"msg")]);
    assert!(Command::from_frame(f).is_ok());
}

#[test]
fn publish_channel_must_be_utf8() {
    let f = array(vec![bulk(b"PUBLISH"), bulk(&[0xff, 0xfe]), bulk(b"msg")]);
    assert_eq!(Command::from_frame(f).err(), Some(ParseError::NotUtf8));
    // the message, by contrast, may be arbitrary bytes
    let f = array(vec![bulk(b"PUBLISH"), bulk(b"ch"), bulk(&[0xff, 0xfe])]);
    match Command::from_frame(f) {
        Ok(Command::Publish(p)) => assert_eq!(p.message, vec![0xff, 0xfe]),
        Err(e) => panic!("decode failed: {:?}", e),
    }
}

#[test]
fn publish_with_extra_args_fails() {
    let f = array(vec![bulk(b"PUBLISH"), bulk(b"ch"), bulk(b"msg"), bulk(b"x")]);
    assert_eq!(Command::from_frame(f).err(), Some(ParseError::Trailing));
}

#[test]
fn unknown_command_fails() {
    let f = array(vec![bulk(b"NOPE"), bulk(b"ch"), bulk(b"msg")]);
    assert_eq!(
        Command::from_frame(f).err(),
        Some(ParseError::UnknownCommand)
    );
}

#[test]
fn non_array_frames_carry_no_command() {
    assert_eq!(
        Command::from_frame(Frame::Integer(3)).err(),
        Some(ParseError::NotArray)
    );
    assert_eq!(
        Command::from_frame(Frame::Array(None)).err(),
        Some(ParseError::NotArray)
    );
}

#[test]
fn wrong_argument_type_fails() {
    let f = array(vec![bulk(b"PUBLISH"), Frame::Integer(3), bulk(b"msg")]);
    assert_eq!(Command::from_frame(f).err(), Some(ParseError::WrongType));
    let f = array(vec![bulk(b"PUBLISH"), bulk(b"ch"), Frame::Bulk(None)]);
    assert_eq!(Command::from_frame(f).err(), Some(ParseError::WrongType));
}

#[test]
fn into_frame_encodes_the_command() {
    let p = Publish::new("ch".to_string(), b"msg".to_vec());
    let f = p.into_frame();
    assert_eq!(f.encode(), b"*3\r\n$7\r\npublish\r\n$2\r\nch\r\n$3\r\nmsg\r\n".to_vec());
}

#[test]
fn into_frame_then_from_frame_round_trips() {
    let p = Publish::new("news".to_string(), b"payload".to_vec());
    match Command::from_frame(p.into_frame()) {
        Ok(Command::Publish(q)) => {
            assert_eq!(q.channel, "news");
            assert_eq!(q.message, b"payload".to_vec());
        }
        Err(e) => panic!("decode failed: {:?}", e),
    }
}

#[test]
fn parse_cursor_reports_each_failure() {
    assert_eq!(
        Parse::new(Frame::Simple(b"x".to_vec())).err(),
        Some(ParseError::NotArray)
    );
    let mut p = Parse::new(array(vec![])).unwrap();
    assert_eq!(p.next_bytes().err(), Some(ParseError::EndOfStream));
    let p = Parse::new(array(vec![bulk(b"left over")])).unwrap();
    assert_eq!(p.finish().err(), Some(ParseError::Trailing));
    let mut p = Parse::new(array(vec![bulk(b"ok"), bulk(b"rest")])).unwrap();
    assert_eq!(p.next_string().unwrap(), "ok");
    assert_eq!(p.next_bytes().unwrap(), b"rest".to_vec());
    assert!(p.finish().is_ok());
}
