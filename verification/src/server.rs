//! The reactor's state and decisions: the fixed-descriptor table, the map
//! from correlation identifier to in-flight request context, and the
//! dispatch run on each completion event.
//!
//! The kernel submission/completion queue is outside this crate. Every
//! function here only decides: it creates or consumes request contexts and
//! tells the caller which operations to submit; the caller performs them and
//! reports each completion back.

use vstd::prelude::*;

use std::collections::HashMap;

use crate::cmd::{spec_from_frame, Command};
use crate::conn;
use crate::frame::{frame_enc, scan, Frame, FrameV, Scan};
use crate::parse::ParseError;
use crate::Error;

verus! {

broadcast use vstd::std_specs::hash::group_hash_axioms;

/// Ceiling on the process open-file soft limit: a design constant.
pub const FD_LIMIT_CEILING: u64 = 32768;

/// Clamp the process file-descriptor soft limit to the design ceiling before
/// that many descriptor slots are registered with the kernel poller.
pub fn clamp_file_limit(raw: u64) -> (r: u64)
    ensures
        r == if raw > FD_LIMIT_CEILING {
            FD_LIMIT_CEILING as u64
        } else {
            raw
        },
        r <= FD_LIMIT_CEILING,
{
    if raw > FD_LIMIT_CEILING {
        FD_LIMIT_CEILING
    } else {
        raw
    }
}

/// The kind of one outstanding kernel operation.
#[derive(Clone, Copy, Debug, PartialEq, Eq, Structural)]
pub enum Op {
    Accept,
    Read,
    Write,
}

/// One outstanding kernel operation: the correlation identifier handed to
/// the kernel and echoed in its completion, the operation kind, the
/// descriptor slot it targets, and, for a Read, the bytes of earlier reads
/// not yet consumed by a parse. A context is created just before
/// submission and consumed exactly once, by the completion that names it.
pub struct Ctx {
    pub id: u64,
    pub op: Op,
    pub fd: u32,
    pub rbuf: Vec<u8>,
}

/// The context's fields, as one statement.
pub open spec fn ctx_is(c: Ctx, id: u64, op: Op, fd: u32, buf: Seq<u8>) -> bool {
    c.id == id && c.op == op && c.fd == fd && c.rbuf@ == buf
}

/// The map gained exactly one context, under a key it did not hold.
pub open spec fn added(
    m0: Map<u64, Ctx>,
    m1: Map<u64, Ctx>,
    id: u64,
    op: Op,
    fd: u32,
    buf: Seq<u8>,
) -> bool {
    !m0.contains_key(id) && m1.contains_key(id) && ctx_is(m1[id], id, op, fd, buf) && m1.remove(id)
        =~= m0
}

/// The reactor's bookkeeping state.
pub struct Server {
    /// The fixed-descriptor table: dense slot index to raw descriptor,
    /// append-only; slots are never reused in this core.
    pub fds: Vec<i32>,
    /// How many slots were pre-registered with the kernel poller.
    pub fd_capacity: u64,
    /// Source of fresh correlation identifiers, monotonically increasing.
    pub ctx_id_gen: u64,
    /// Slot of the listening socket, once registered.
    pub listen_fd: Option<u32>,
    /// Every operation submitted and not yet completed, by identifier.
    pub inflight_reqs: HashMap<u64, Ctx>,
}

impl Server {
    /// Bookkeeping invariants: identifiers are fresh (every in-flight one is
    /// below the generator), each context sits under its own identifier and
    /// targets a registered slot, the listening slot is registered, and the
    /// table never outgrows the registered slots.
    pub open spec fn wf(self) -> bool {
        self.ctx_id_gen >= 1 && self.fd_capacity <= u32::MAX && self.fds@.len()
            <= self.fd_capacity && (forall|id: u64|
            self.inflight_reqs@.contains_key(id) ==> (#[trigger] self.inflight_reqs@[id]).id == id
                && id < self.ctx_id_gen && (self.inflight_reqs@[id].fd as int) < self.fds@.len())
            && (match self.listen_fd {
            Some(s) => (s as int) < self.fds@.len(),
            None => true,
        })
    }

    /// Everything but the identifier generator and the in-flight map is
    /// unchanged.
    pub open spec fn same_table(self, o: Server) -> bool {
        self.fds@ == o.fds@ && self.fd_capacity == o.fd_capacity && self.listen_fd == o.listen_fd
    }

    /// A fresh reactor: no slots, no outstanding operations, identifiers
    /// counting from one.
    pub fn new() -> (r: Server)
        ensures
            r.wf(),
            r.fds@.len() == 0,
            r.fd_capacity == 0,
            r.ctx_id_gen == 1,
            r.listen_fd is None,
            r.inflight_reqs@ =~= Map::<u64, Ctx>::empty(),
    {
        Server {
            fds: Vec::new(),
            fd_capacity: 0,
            ctx_id_gen: 1,
            listen_fd: None,
            inflight_reqs: HashMap::new(),
        }
    }

    /// Adopt the (already clamped) descriptor budget. Done once, before any
    /// registration.
    pub fn set_capacity(&mut self, capacity: u64)
        requires
            old(self).wf(),
            capacity <= FD_LIMIT_CEILING,
            old(self).fds@.len() == 0,
        ensures
            final(self).wf(),
            final(self).fd_capacity == capacity,
            final(self).fds@ == old(self).fds@,
            final(self).ctx_id_gen == old(self).ctx_id_gen,
            final(self).listen_fd == old(self).listen_fd,
            final(self).inflight_reqs@ == old(self).inflight_reqs@,
    {
        self.fd_capacity = capacity;
    }

    /// Append a raw descriptor to the fixed-descriptor table. Slots are
    /// dense and handed out in strictly increasing order, never reused;
    /// a full table is explicit backpressure, and the caller must close the
    /// descriptor it could not register.
    pub fn register_fd(&mut self, fd: i32) -> (r: Result<u32, Error>)
        requires
            old(self).wf(),
        ensures
            final(self).wf(),
            final(self).fd_capacity == old(self).fd_capacity,
            final(self).ctx_id_gen == old(self).ctx_id_gen,
            final(self).listen_fd == old(self).listen_fd,
            final(self).inflight_reqs@ == old(self).inflight_reqs@,
            match r {
                Ok(slot) => old(self).fds@.len() < old(self).fd_capacity && slot as int == old(self).fds@.len() && final(self).fds@ == old(self).fds@.push(fd),
                Err(e) => e == Error::Exhausted && old(self).fds@.len() >= old(self).fd_capacity
                    && final(self).fds@ == old(self).fds@,
            },
    {
        if self.fds.len() as u64 >= self.fd_capacity {
            return Err(Error::Exhausted);
        }
        self.fds.push(fd);
        Ok((self.fds.len() - 1) as u32)
    }

    /// Record which slot holds the listening socket.
    pub fn set_listen(&mut self, slot: u32)
        requires
            old(self).wf(),
            (slot as int) < old(self).fds@.len(),
        ensures
            final(self).wf(),
            final(self).listen_fd == Some(slot),
            final(self).fds@ == old(self).fds@,
            final(self).fd_capacity == old(self).fd_capacity,
            final(self).ctx_id_gen == old(self).ctx_id_gen,
            final(self).inflight_reqs@ == old(self).inflight_reqs@,
    {
        self.listen_fd = Some(slot);
    }

    /// Create the context for a fresh Accept on the listening socket, so the
    /// listener is always armed. The caller submits the matching kernel
    /// operation under the returned identifier.
    pub fn prepare_accept(&mut self) -> (r: Result<u64, Error>)
        requires
            old(self).wf(),
            old(self).listen_fd is Some,
        ensures
            final(self).wf(),
            final(self).same_table(*old(self)),
            match r {
                Ok(id) => id == old(self).ctx_id_gen && final(self).ctx_id_gen == old(self).ctx_id_gen + 1 && added(
                    old(self).inflight_reqs@,
                    final(self).inflight_reqs@,
                    id,
                    Op::Accept,
                    old(self).listen_fd.unwrap(),
                    Seq::empty(),
                ),
                Err(e) => e == Error::Exhausted && old(self).ctx_id_gen == u64::MAX && final(self).ctx_id_gen == old(self).ctx_id_gen && final(self).inflight_reqs@ == old(self).inflight_reqs@,
            },
    {
        let slot = match self.listen_fd {
            Some(s) => s,
            None => {
                proof {
                    assert(false);
                }
                0
            },
        };
        self.prepare_op(Op::Accept, slot, Vec::new())
    }

    /// Create the context for a Read on `slot` whose buffer already carries
    /// the bytes of earlier reads not yet consumed by a parse. The caller
    /// submits the kernel Read and, on completion, hands the carried bytes
    /// and the newly filled bytes to `handle_read`.
    pub fn prepare_read(&mut self, slot: u32, carry: Vec<u8>) -> (r: Result<u64, Error>)
        requires
            old(self).wf(),
            (slot as int) < old(self).fds@.len(),
        ensures
            final(self).wf(),
            final(self).same_table(*old(self)),
            match r {
                Ok(id) => id == old(self).ctx_id_gen && final(self).ctx_id_gen == old(self).ctx_id_gen + 1 && added(
                    old(self).inflight_reqs@,
                    final(self).inflight_reqs@,
                    id,
                    Op::Read,
                    slot,
                    carry@,
                ),
                Err(e) => e == Error::Exhausted && old(self).ctx_id_gen == u64::MAX && final(self).ctx_id_gen == old(self).ctx_id_gen && final(self).inflight_reqs@ == old(self).inflight_reqs@,
            },
    {
        self.prepare_op(Op::Read, slot, carry)
    }

    /// Insert one fresh context under a fresh identifier.
    fn prepare_op(&mut self, op: Op, slot: u32, buf: Vec<u8>) -> (r: Result<u64, Error>)
        requires
            old(self).wf(),
            (slot as int) < old(self).fds@.len(),
        ensures
            final(self).wf(),
            final(self).same_table(*old(self)),
            match r {
                Ok(id) => id == old(self).ctx_id_gen && final(self).ctx_id_gen == old(self).ctx_id_gen + 1 && added(
                    old(self).inflight_reqs@,
                    final(self).inflight_reqs@,
                    id,
                    op,
                    slot,
                    buf@,
                ),
                Err(e) => e == Error::Exhausted && old(self).ctx_id_gen == u64::MAX && final(self).ctx_id_gen == old(self).ctx_id_gen && final(self).inflight_reqs@ == old(self).inflight_reqs@,
            },
    {
        if self.ctx_id_gen == u64::MAX {
            return Err(Error::Exhausted);
        }
        let id = self.ctx_id_gen;
        self.ctx_id_gen = self.ctx_id_gen + 1;
        let ctx = Ctx { id, op, fd: slot, rbuf: buf };
        self.inflight_reqs.insert(id, ctx);
        proof {
            assert(final(self).inflight_reqs@.remove(id) =~= old(self).inflight_reqs@);
        }
        Ok(id)
    }

    /// Look up and consume the context of a completion event. A completion
    /// whose identifier is unknown is a reactor bug and fatal to the run.
    pub fn complete(&mut self, id: u64) -> (r: Result<Ctx, Error>)
        requires
            old(self).wf(),
        ensures
            final(self).wf(),
            final(self).same_table(*old(self)),
            final(self).ctx_id_gen == old(self).ctx_id_gen,
            match r {
                Ok(c) => old(self).inflight_reqs@.contains_key(id) && c == old(self).inflight_reqs@[id] && final(self).inflight_reqs@ == old(self).inflight_reqs@.remove(id),
                Err(e) => e == Error::UnknownRequest && !old(self).inflight_reqs@.contains_key(id)
                    && final(self).inflight_reqs@ == old(self).inflight_reqs@,
            },
    {
        match self.inflight_reqs.remove(&id) {
            Some(c) => Ok(c),
            None => {
                proof {
                    assert(old(self).inflight_reqs@.remove(id) =~= old(self).inflight_reqs@);
                }
                Err(Error::UnknownRequest)
            },
        }
    }
}


/// The map gained exactly two contexts with empty buffers, under two fresh
/// distinct keys.
pub open spec fn added2(
    m0: Map<u64, Ctx>,
    m2: Map<u64, Ctx>,
    id1: u64,
    op1: Op,
    fd1: u32,
    id2: u64,
    op2: Op,
    fd2: u32,
) -> bool {
    id1 != id2 && !m0.contains_key(id1) && !m0.contains_key(id2) && m2.contains_key(id1)
        && m2.contains_key(id2) && ctx_is(m2[id1], id1, op1, fd1, Seq::empty()) && ctx_is(
        m2[id2],
        id2,
        op2,
        fd2,
        Seq::empty(),
    ) && m2.remove(id1).remove(id2) =~= m0
}

/// The reply sent for a request that decodes into no command: the
/// connection stays open and serves the next request.
pub open spec fn err_text() -> Seq<u8> {
    seq![
        69u8,
        82u8,
        82u8,
        32u8,
        112u8,
        114u8,
        111u8,
        116u8,
        111u8,
        99u8,
        111u8,
        108u8,
        32u8,
        101u8,
        114u8,
        114u8,
        111u8,
        114u8,
    ]
}

/// The Error frame answering a request that decodes into no command.
pub fn error_frame() -> (r: Frame)
    ensures
        r.deep() == FrameV::Error(err_text()),
{
    let v: Vec<u8> = vec![
        69u8, 82u8, 82u8, 32u8, 112u8, 114u8, 111u8, 116u8, 111u8, 99u8, 111u8, 108u8, 32u8,
        101u8, 114u8, 114u8, 111u8, 114u8,
    ];
    proof {
        assert(v@ =~= err_text());
    }
    Frame::Error(v)
}

/// What one Read completion asks of the caller.
pub enum ReadStep {
    /// The peer closed the connection: release its slot, submit nothing.
    Close,
    /// No complete frame yet: a Read was prepared whose context carries the
    /// accumulated bytes; submit it on the same descriptor.
    Pending(u64),
    /// The bytes violate the frame grammar: close the connection.
    Malformed,
    /// A complete frame decoded into a command: apply it against the store,
    /// then hand the store's response frame to `respond`.
    Dispatch(Command),
    /// A complete frame that decodes into no command: an Error frame reply
    /// and the connection's next Read were prepared; submit the Write with
    /// the returned bytes, and the Read.
    Reject(u64, Vec<u8>, u64),
}

impl Server {
    /// On an Accept completion: register the new connection's descriptor,
    /// rearm the listener with a fresh Accept, and prepare the connection's
    /// first Read. The caller submits both operations. A full table is
    /// backpressure: the caller must close the descriptor it could not
    /// register.
    pub fn accept_conn(&mut self, conn_fd: i32) -> (r: Result<(u32, u64, u64), Error>)
        requires
            old(self).wf(),
            old(self).listen_fd is Some,
        ensures
            final(self).wf(),
            final(self).fd_capacity == old(self).fd_capacity,
            final(self).listen_fd == old(self).listen_fd,
            match r {
                Ok(out) => out.0 as int == old(self).fds@.len() && final(self).fds@ == old(self).fds@.push(conn_fd) && out.1 == old(self).ctx_id_gen && out.2 == old(self).ctx_id_gen + 1 && final(self).ctx_id_gen == old(self).ctx_id_gen + 2 && added2(
                    old(self).inflight_reqs@,
                    final(self).inflight_reqs@,
                    out.1,
                    Op::Accept,
                    old(self).listen_fd.unwrap(),
                    out.2,
                    Op::Read,
                    out.0,
                ),
                Err(e) => e == Error::Exhausted && final(self).fds@ == old(self).fds@ && final(self).ctx_id_gen == old(self).ctx_id_gen && final(self).inflight_reqs@ == old(self).inflight_reqs@ && (old(self).fds@.len() >= old(self).fd_capacity || old(self).ctx_id_gen >= u64::MAX - 1),
            },
    {
        if self.ctx_id_gen >= u64::MAX - 1 {
            return Err(Error::Exhausted);
        }
        let slot = match self.register_fd(conn_fd) {
            Ok(s) => s,
            Err(e) => {
                return Err(e);
            },
        };
        let aid = match self.prepare_accept() {
            Ok(i) => i,
            Err(_) => {
                proof {
                    assert(false);
                }
                return Err(Error::Exhausted);
            },
        };
        let rid = match self.prepare_read(slot, Vec::new()) {
            Ok(i) => i,
            Err(_) => {
                proof {
                    assert(false);
                }
                return Err(Error::Exhausted);
            },
        };
        Ok((slot, aid, rid))
    }

    /// On a complete request: encode the response frame, prepare the Write
    /// that sends it and the Read that keeps the connection alive for the
    /// next request. The caller submits both.
    pub fn respond(&mut self, slot: u32, resp: &Frame) -> (r: Result<(u64, Vec<u8>, u64), Error>)
        requires
            old(self).wf(),
            (slot as int) < old(self).fds@.len(),
        ensures
            final(self).wf(),
            final(self).same_table(*old(self)),
            match r {
                Ok(out) => out.0 == old(self).ctx_id_gen && out.2 == old(self).ctx_id_gen + 1
                    && final(self).ctx_id_gen == old(self).ctx_id_gen + 2 && out.1@ == frame_enc(
                    resp.deep(),
                ) && added2(
                    old(self).inflight_reqs@,
                    final(self).inflight_reqs@,
                    out.0,
                    Op::Write,
                    slot,
                    out.2,
                    Op::Read,
                    slot,
                ),
                Err(e) => e == Error::Exhausted && old(self).ctx_id_gen >= u64::MAX - 1 && final(self).ctx_id_gen == old(self).ctx_id_gen && final(self).inflight_reqs@ == old(self).inflight_reqs@,
            },
    {
        if self.ctx_id_gen >= u64::MAX - 1 {
            return Err(Error::Exhausted);
        }
        let bytes = resp.encode();
        let wid = match self.prepare_op(Op::Write, slot, Vec::new()) {
            Ok(i) => i,
            Err(_) => {
                proof {
                    assert(false);
                }
                return Err(Error::Exhausted);
            },
        };
        let rid = match self.prepare_read(slot, Vec::new()) {
            Ok(i) => i,
            Err(_) => {
                proof {
                    assert(false);
                }
                return Err(Error::Exhausted);
            },
        };
        Ok((wid, bytes, rid))
    }

    /// Drive one Read completion: `carried` is the preserved buffer of the
    /// completed Read's context, `fresh` the bytes the kernel filled. An
    /// empty `fresh` is the peer closing. Otherwise the accumulated bytes
    /// go to the codec: an incomplete frame is kept, whole, for the next
    /// Read; a malformed stream closes the connection; a complete frame is
    /// decoded into a command for the store, or answered with an Error frame
    /// while the connection stays open.
    pub fn handle_read(&mut self, slot: u32, carried: Vec<u8>, fresh: &Vec<u8>) -> (r: Result<
        ReadStep,
        Error,
    >)
        requires
            old(self).wf(),
            (slot as int) < old(self).fds@.len(),
        ensures
            final(self).wf(),
            final(self).same_table(*old(self)),
            ({
                let buf = carried@ + fresh@;
                match r {
                    Ok(step) => match step {
                        ReadStep::Close => fresh@.len() == 0 && final(self).ctx_id_gen == old(self).ctx_id_gen && final(self).inflight_reqs@ == old(self).inflight_reqs@,
                        ReadStep::Pending(id) => fresh@.len() > 0 && scan(buf, 0) is Partial && id
                            == old(self).ctx_id_gen && final(self).ctx_id_gen == old(self).ctx_id_gen + 1 && added(
                            old(self).inflight_reqs@,
                            final(self).inflight_reqs@,
                            id,
                            Op::Read,
                            slot,
                            buf,
                        ),
                        ReadStep::Malformed => fresh@.len() > 0 && scan(buf, 0) is Bad && final(self).ctx_id_gen == old(self).ctx_id_gen && final(self).inflight_reqs@ == old(self).inflight_reqs@,
                        ReadStep::Dispatch(c) => fresh@.len() > 0 && scan(buf, 0) is Found && (
                        match c {
                            Command::Publish(p) => spec_from_frame(scan(buf, 0)->Found_0) == Ok::<
                                (Seq<char>, Seq<u8>),
                                ParseError,
                            >((p.channel@, p.message@)),
                        }) && final(self).ctx_id_gen == old(self).ctx_id_gen && final(self).inflight_reqs@ == old(self).inflight_reqs@,
                        ReadStep::Reject(wid, bytes, rid) => fresh@.len() > 0 && scan(
                            buf,
                            0,
                        ) is Found && spec_from_frame(scan(buf, 0)->Found_0) is Err && bytes@
                            == frame_enc(FrameV::Error(err_text())) && wid == old(self).ctx_id_gen
                            && rid == old(self).ctx_id_gen + 1 && final(self).ctx_id_gen == old(self).ctx_id_gen + 2 && added2(
                            old(self).inflight_reqs@,
                            final(self).inflight_reqs@,
                            wid,
                            Op::Write,
                            slot,
                            rid,
                            Op::Read,
                            slot,
                        ),
                    },
                    Err(e) => e == Error::Exhausted && final(self).ctx_id_gen == old(self).ctx_id_gen && final(self).inflight_reqs@ == old(self).inflight_reqs@
                        && fresh@.len() > 0 && ((scan(buf, 0) is Partial && old(self).ctx_id_gen
                        == u64::MAX) || (scan(buf, 0) is Found && spec_from_frame(
                        scan(buf, 0)->Found_0,
                    ) is Err && old(self).ctx_id_gen >= u64::MAX - 1)),
                }
            }),
    {
        if fresh.len() == 0 {
            return Ok(ReadStep::Close);
        }
        let mut buf = carried;
        crate::frame::push_bytes(&mut buf, fresh);
        match conn::parse_frame(&buf) {
            Err(_) => Ok(ReadStep::Malformed),
            Ok(None) => {
                let id = match self.prepare_read(slot, buf) {
                    Ok(i) => i,
                    Err(e) => {
                        return Err(e);
                    },
                };
                Ok(ReadStep::Pending(id))
            },
            Ok(Some(frame)) => match Command::from_frame(frame) {
                Ok(c) => Ok(ReadStep::Dispatch(c)),
                Err(_) => {
                    let ef = error_frame();
                    match self.respond(slot, &ef) {
                        Ok(out) => Ok(ReadStep::Reject(out.0, out.1, out.2)),
                        Err(e) => Err(e),
                    }
                },
            },
        }
    }
}

/// Fixed-slot monotonicity: each registration returns the table's size as
/// the new slot, so successive registrations on one reactor return strictly
/// increasing slots, counting up from zero on a fresh table.
pub proof fn lemma_register_fd_monotonic(prev: Seq<i32>, next: Seq<i32>, r1: u32, r2: u32, a: i32)
    requires
        r1 as int == prev.len(),
        next == prev.push(a),
        r2 as int == next.len(),
    ensures
        r2 == r1 + 1,
        r2 > r1,
{
}


/// How a completion's raw result code is read, by operation kind.
#[derive(Clone, Copy, Debug, PartialEq, Eq, Structural)]
pub enum Triage {
    /// A Read that returned no bytes: the peer closed the connection.
    PeerClosed,
    /// A Read that filled this many bytes.
    Bytes(u32),
    /// A kernel fault (the negated error code): fatal to the run in this
    /// core, which isolates nothing beyond a connection.
    Fatal(i32),
    /// A successful completion carrying this non-negative result.
    Done(i32),
}

/// Read a completion's raw result by operation kind: for a Read, a zero or
/// negative count is the peer closing (the connection closes, the run goes
/// on); for an Accept or a Write, a negative result is a kernel fault, fatal
/// to the whole run.
pub fn triage(op: Op, result: i32) -> (r: Triage)
    ensures
        match op {
            Op::Read => r == (if result <= 0 {
                Triage::PeerClosed
            } else {
                Triage::Bytes(result as u32)
            }),
            _ => r == (if result < 0 {
                Triage::Fatal(result)
            } else {
                Triage::Done(result)
            }),
        },
{
    match op {
        Op::Read => {
            if result <= 0 {
                Triage::PeerClosed
            } else {
                Triage::Bytes(result as u32)
            }
        },
        _ => {
            if result < 0 {
                Triage::Fatal(result)
            } else {
                Triage::Done(result)
            }
        },
    }
}

} // verus!
