use respq::cmd::Command;
use respq::frame::Frame;
use respq::server::{clamp_file_limit, triage, Op, ReadStep, Server, Triage};
use respq::Error;

fn listening_server() -> (Server, u32) {
    let mut s = Server::new();
    s.set_capacity(clamp_file_limit(64));
    let slot = s.register_fd(100).unwrap();
    s.set_listen(slot);
    (s, slot)
}

fn publish_wire() -> Vec<u8> {
    b"*3\r\n$7\r\nPUBLISH\r\n$3\r\nfoo\r\n$5\r\nhello\r\n".to_vec()
}

#[test]
fn clamp_respects_the_ceiling() {
    assert_eq!(clamp_file_limit(5), 5);
    assert_eq!(clamp_file_limit(32768), 32768);
    assert_eq!(clamp_file_limit(1 << 20), 32768);
}

#[test]
fn register_fd_hands_out_increasing_slots() {
    let mut s = Server::new();
    s.set_capacity(clamp_file_limit(8));
    assert_eq!(s.register_fd(10).unwrap(), 0);
    assert_eq!(s.register_fd(11).unwrap(), 1);
    assert_eq!(s.register_fd(12).unwrap(), 2);
}

#[test]
fn register_fd_reports_exhaustion() {
    let mut s = Server::new();
    s.set_capacity(1);
    assert_eq!(s.register_fd(10).unwrap(), 0);
    assert_eq!(s.register_fd(11), Err(Error::Exhausted));
}

#[test]
fn accept_registers_rearms_and_reads() {
    let (mut s, _listen) = listening_server();
    let (slot, accept_id, read_id) = s.accept_conn(7).unwrap();
    assert_eq!(slot, 1);
    assert!(read_id == accept_id + 1);
    let actx = s.complete(accept_id).unwrap();
    assert_eq!(actx.op, Op::Accept);
    let rctx = s.complete(read_id).unwrap();
    assert_eq!(rctx.op, Op::Read);
    assert_eq!(rctx.fd, slot);
    assert!(rctx.rbuf.is_empty());
}

#[test]
fn unknown_completion_identifier_is_fatal() {
    let (mut s, _listen) = listening_server();
    assert_eq!(s.complete(999).err(), Some(Error::UnknownRequest));
}

#[test]
fn peer_close_closes_the_connection() {
    let (mut s, _listen) = listening_server();
    let (slot, _aid, _rid) = s.accept_conn(7).unwrap();
    match s.handle_read(slot, Vec::new(), &Vec::new()).unwrap() {
        ReadStep::Close => {}
        _ => panic!("an empty read must close the connection"),
    }
}

#[test]
fn malformed_stream_closes_the_connection() {
    let (mut s, _listen) = listening_server();
    let (slot, _aid, _rid) = s.accept_conn(7).unwrap();
    match s.handle_read(slot, Vec::new(), &b"?what\r\n".to_vec()).unwrap() {
        ReadStep::Malformed => {}
        _ => panic!("an unknown tag must close the connection"),
    }
}

#[test]
fn bad_command_answers_error_and_keeps_the_connection() {
    let (mut s, _listen) = listening_server();
    let (slot, _aid, _rid) = s.accept_conn(7).unwrap();
    let wire = b"*1\r\n$4\r\nNOPE\r\n".to_vec();
    match s.handle_read(slot, Vec::new(), &wire).unwrap() {
        ReadStep::Reject(write_id, bytes, read_id) => {
            assert_eq!(bytes, b"-ERR protocol error\r\n".to_vec());
            let wctx = s.complete(write_id).unwrap();
            assert_eq!(wctx.op, Op::Write);
            let rctx = s.complete(read_id).unwrap();
            assert_eq!(rctx.op, Op::Read);
            assert_eq!(rctx.fd, slot);
        }
        _ => panic!("a bad command must be answered, not dropped"),
    }
}

#[test]
fn split_read_accumulates_at_every_offset() {
    let wire = publish_wire();
    for cut in 1..wire.len() {
        let (mut s, _listen) = listening_server();
        let (slot, _aid, _rid) = s.accept_conn(7).unwrap();
        let first = wire[..cut].to_vec();
        let second = wire[cut..].to_vec();
        let read_id = match s.handle_read(slot, Vec::new(), &first).unwrap() {
            ReadStep::Pending(id) => id,
            _ => panic!("a strict prefix must leave the reactor waiting (cut {})", cut),
        };
        let ctx = s.complete(read_id).unwrap();
        assert_eq!(ctx.op, Op::Read);
        assert_eq!(ctx.rbuf, first, "the context must carry the unparsed bytes");
        match s.handle_read(slot, ctx.rbuf, &second).unwrap() {
            ReadStep::Dispatch(Command::Publish(p)) => {
                assert_eq!(p.channel, "foo");
                assert_eq!(p.message, b"hello".to_vec());
            }
            _ => panic!("the whole frame must decode exactly once (cut {})", cut),
        }
    }
}

#[test]
fn end_to_end_publish_in_one_write() {
    let (mut s, _listen) = listening_server();
    let (slot, _aid, _rid) = s.accept_conn(7).unwrap();
    let publish = match s.handle_read(slot, Vec::new(), &publish_wire()).unwrap() {
        ReadStep::Dispatch(Command::Publish(p)) => p,
        _ => panic!("the request must decode in one read"),
    };
    assert_eq!(publish.channel, "foo");
    assert_eq!(publish.message, b"hello".to_vec());
    // whatever frame the store produces is encoded and sent back, and a new
    // Read keeps the connection open
    let store_response = Frame::Integer(1);
    let (write_id, bytes, read_id) = s.respond(slot, &store_response).unwrap();
    assert_eq!(bytes, b":1\r\n".to_vec());
    let wctx = s.complete(write_id).unwrap();
    assert_eq!(wctx.op, Op::Write);
    assert_eq!(wctx.fd, slot);
    let rctx = s.complete(read_id).unwrap();
    assert_eq!(rctx.op, Op::Read);
    assert_eq!(rctx.fd, slot);
}

#[test]
fn triage_reads_result_codes_by_operation_kind() {
    // a Read returning zero or a negative code is the peer closing
    assert_eq!(triage(Op::Read, 0), Triage::PeerClosed);
    assert_eq!(triage(Op::Read, -104), Triage::PeerClosed);
    assert_eq!(triage(Op::Read, 37), Triage::Bytes(37));
    // for Accept and Write a negative code is a kernel fault, fatal here
    assert_eq!(triage(Op::Accept, -11), Triage::Fatal(-11));
    assert_eq!(triage(Op::Accept, 9), Triage::Done(9));
    assert_eq!(triage(Op::Write, -32), Triage::Fatal(-32));
    assert_eq!(triage(Op::Write, 4), Triage::Done(4));
}
