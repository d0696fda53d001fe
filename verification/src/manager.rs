//! The connection manager: the decision half of the interface
//! dispatcher, and the surface the application-facing calls go through.
//!
//! It owns every connection, keyed by `Quad`, and the per-port queues of
//! connections awaiting `accept`. The surrounding process feeds it
//! parsed segments and clock ticks and carries out what it returns:
//! frames to put on the wire and wake-ups for blocked readers and
//! acceptors.

use vstd::prelude::*;

use crate::conn::ConnModel;
use crate::conn::Connection;
use crate::conn::Route;
use crate::conn::State;
use crate::conn::TcpError;
use crate::conn::nmin;
use crate::conn::outs_match;
use crate::conn::seg_frame_ok;
use crate::conn::step_accept;
use crate::conn::step_close;
use crate::conn::step_packet;
use crate::conn::step_packet_ok;
use crate::conn::step_tick;
use crate::conn::wf;
use crate::segment::SegModel;
use crate::segment::SegmentHeader;
use crate::segment::SegmentOut;
use crate::segment::Quad;

verus! {

/// What one dispatched segment asks the surrounding process to do.
pub struct SegmentOutcome {
    /// Frames to put on the wire, in order.
    pub frames: Vec<SegmentOut>,
    /// A blocked reader of this connection could now make progress.
    pub read_ready: bool,
    /// A new connection reached the pending queue of its port.
    pub new_pending: bool,
}

/// A segment the state machine leaves undefined: a FIN arriving before
/// this side's own FIN has been acknowledged, a SYN carrying data, or
/// data starting more than one unit past RCV.NXT. The dispatcher
/// surfaces these instead of dispatching them.
#[derive(Clone, Copy, PartialEq, Eq, Structural, Debug)]
pub struct UndefinedSegment;

pub struct ConnectionManager {
    pub connections: Vec<(Quad, Connection)>,
    pub pending: Vec<(u16, Vec<Quad>)>,
    pub terminate: bool,
}

/// The route a connection keyed by `q` emits frames on: this endpoint
/// (the packet's destination) as source, the peer as destination.
pub open spec fn route_of(q: Quad) -> Route {
    Route {
        local_ip: q.dst_ip,
        local_port: q.dst_port,
        peer_ip: q.src_ip,
        peer_port: q.src_port,
    }
}

/// Connection keys are unique, every connection is well-formed, and each
/// emits on the route its key names; bound ports are unique.
pub open spec fn mgr_wf(m: ConnectionManager) -> bool {
    &&& forall|i: int, j: int|
        0 <= i < j < m.connections@.len() ==> (#[trigger] m.connections@[i]).0 != (
        #[trigger] m.connections@[j]).0
    &&& forall|i: int, j: int|
        0 <= i < j < m.pending@.len() ==> (#[trigger] m.pending@[i]).0 != (
        #[trigger] m.pending@[j]).0
    &&& forall|i: int|
        0 <= i < m.connections@.len() ==> wf((#[trigger] m.connections@[i]).1@)
            && m.connections@[i].1@.rt == route_of(m.connections@[i].0)
}

/// Whether a quad is present in the connection map.
pub open spec fn spec_has_quad(s: Seq<(Quad, Connection)>, q: Quad) -> bool {
    exists|i: int| 0 <= i < s.len() && (#[trigger] s[i]).0 == q
}

/// Whether a port has a pending queue (a listener).
pub open spec fn spec_port_bound(p: Seq<(u16, Vec<Quad>)>, port: u16) -> bool {
    exists|i: int| 0 <= i < p.len() && (#[trigger] p[i]).0 == port
}

impl ConnectionManager {
    pub fn new() -> (r: ConnectionManager)
        ensures
            r.connections@.len() == 0,
            r.pending@.len() == 0,
            !r.terminate,
            mgr_wf(r),
    {
        ConnectionManager { connections: Vec::new(), pending: Vec::new(), terminate: false }
    }

    /// The index of the connection keyed `q`, if any.
    fn find_conn(&self, q: &Quad) -> (r: Option<usize>)
        ensures
            match r {
                Some(i) => i < self.connections@.len() && self.connections@[i as int].0 == *q,
                None => !spec_has_quad(self.connections@, *q),
            },
    {
        let mut i: usize = 0;
        while i < self.connections.len()
            invariant
                i <= self.connections@.len(),
                forall|j: int| 0 <= j < i ==> (#[trigger] self.connections@[j]).0 != *q,
            decreases self.connections@.len() - i,
        {
            if self.connections[i].0 == *q {
                return Some(i);
            }
            i = i + 1;
        }
        None
    }

    /// The index of the pending queue for `port`, if any.
    fn find_port(&self, port: u16) -> (r: Option<usize>)
        ensures
            match r {
                Some(i) => i < self.pending@.len() && self.pending@[i as int].0 == port,
                None => !spec_port_bound(self.pending@, port),
            },
    {
        let mut i: usize = 0;
        while i < self.pending.len()
            invariant
                i <= self.pending@.len(),
                forall|j: int| 0 <= j < i ==> (#[trigger] self.pending@[j]).0 != port,
            decreases self.pending@.len() - i,
        {
            if self.pending[i].0 == port {
                return Some(i);
            }
            i = i + 1;
        }
        None
    }

    /// Whether `port` currently has a listener.
    pub fn port_bound(&self, port: u16) -> (r: bool)
        ensures
            r == spec_port_bound(self.pending@, port),
    {
        self.find_port(port).is_some()
    }

    /// Installs a pending queue for `port`; refused while one exists.
    pub fn bind(&mut self, port: u16) -> (r: Result<(), TcpError>)
        ensures
            final(self).connections == old(self).connections,
            final(self).terminate == old(self).terminate,
            match r {
                Ok(()) => {
                    &&& !spec_port_bound(old(self).pending@, port)
                    &&& final(self).pending@.len() == old(self).pending@.len() + 1
                    &&& final(self).pending@.last().0 == port
                    &&& final(self).pending@.last().1@.len() == 0
                    &&& forall|j: int|
                        0 <= j < old(self).pending@.len() ==> final(self).pending@[j] == old(self).pending@[j]
                },
                Err(e) => {
                    &&& e == TcpError::AddrInUse
                    &&& spec_port_bound(old(self).pending@, port)
                    &&& final(self).pending == old(self).pending
                },
            },
            mgr_wf(*old(self)) ==> mgr_wf(*final(self)),
    {
        if self.find_port(port).is_some() {
            return Err(TcpError::AddrInUse);
        }
        let fresh: Vec<Quad> = Vec::new();
        self.pending.push((port, fresh));
        Ok(())
    }

    /// Removes the pending queue for `port` (the listener going away),
    /// returning the quads that were still awaiting `accept`.
    pub fn unbind(&mut self, port: u16) -> (r: Option<Vec<Quad>>)
        ensures
            final(self).connections == old(self).connections,
            final(self).terminate == old(self).terminate,
            match r {
                Some(v) => {
                    &&& spec_port_bound(old(self).pending@, port)
                    &&& exists|i: int|
                        0 <= i < old(self).pending@.len() && (#[trigger] old(self).pending@[i]).0
                            == port && v == old(self).pending@[i].1 && final(self).pending@ == old(self).pending@.remove(i)
                },
                None => {
                    &&& !spec_port_bound(old(self).pending@, port)
                    &&& final(self).pending == old(self).pending
                },
            },
            mgr_wf(*old(self)) ==> mgr_wf(*final(self)),
    {
        match self.find_port(port) {
            Some(i) => {
                let (_p, v) = self.pending.remove(i);
                Some(v)
            },
            None => None,
        }
    }

    /// Pops the next connection awaiting `accept` on `port`, if any.
    pub fn accept_pop(&mut self, port: u16) -> (r: Option<Quad>)
        requires
            mgr_wf(*old(self)),
        ensures
            final(self).connections == old(self).connections,
            final(self).terminate == old(self).terminate,
            match r {
                Some(q) => exists|i: int|
                    {
                        &&& 0 <= i < old(self).pending@.len()
                        &&& (#[trigger] old(self).pending@[i]).0 == port
                        &&& old(self).pending@[i].1@.len() > 0
                        &&& q == old(self).pending@[i].1@[0]
                        &&& final(self).pending@.len() == old(self).pending@.len()
                        &&& final(self).pending@[i].0 == port
                        &&& final(self).pending@[i].1@ == old(self).pending@[i].1@.skip(1)
                        &&& forall|j: int|
                            0 <= j < old(self).pending@.len() && j != i ==> final(self).pending@[j] == old(self).pending@[j]
                    },
                None => {
                    &&& final(self).pending == old(self).pending
                    &&& (forall|i: int|
                        0 <= i < old(self).pending@.len() && (#[trigger] old(self).pending@[i]).0 == port ==> old(self).pending@[i].1@.len() == 0)
                },
            },
            mgr_wf(*old(self)) ==> mgr_wf(*final(self)),
    {
        let i = match self.find_port(port) {
            Some(i) => i,
            None => {
                return None;
            },
        };
        if self.pending[i].1.len() == 0 {
            return None;
        }
        let (p, mut v) = self.pending.remove(i);
        let q = v.remove(0);
        self.pending.insert(i, (p, v));
        proof {
            assert(self.pending@[i as int].1@ =~= old(self).pending@[i as int].1@.skip(1));
            assert forall|j: int|
                0 <= j < old(self).pending@.len() && j != i implies self.pending@[j] == old(self).pending@[j] by {}
            assert(mgr_wf(*old(self)) ==> mgr_wf(*self));
        }
        Some(q)
    }

    /// Dispatches one parsed segment: to the connection its quad names,
    /// or — for a SYN on a bound port — to a passive open that creates a
    /// new connection and queues it for `accept`. Anything else is
    /// dropped. A segment outside the machine's defined domain is
    /// surfaced as an error and changes nothing.
    #[verifier::rlimit(100)]
    #[verifier::spinoff_prover]
    pub fn on_segment(&mut self, q: &Quad, hdr: &SegmentHeader, data: &[u8], now: u64) -> (r:
        Result<SegmentOutcome, UndefinedSegment>)
        requires
            mgr_wf(*old(self)),
            data@.len() <= 1500,
        ensures
            mgr_wf(*final(self)),
            final(self).terminate == old(self).terminate,
            match r {
                Err(_) => {
                    &&& final(self).connections == old(self).connections
                    &&& final(self).pending == old(self).pending
                    &&& exists|i: int|
                        0 <= i < old(self).connections@.len() && (#[trigger] old(self).connections@[i]).0 == *q && !step_packet_ok(
                            old(self).connections@[i].1@,
                            *hdr,
                            data@,
                            now,
                        )
                },
                Ok(out) => {
                    if spec_has_quad(old(self).connections@, *q) {
                        exists|i: int|
                            {
                                &&& 0 <= i < old(self).connections@.len()
                                &&& (#[trigger] old(self).connections@[i]).0 == *q
                                &&& step_packet_ok(old(self).connections@[i].1@, *hdr, data@, now)
                                &&& final(self).connections@.len() == old(self).connections@.len()
                                &&& final(self).connections@[i].0 == *q
                                &&& final(self).connections@[i].1@ == step_packet(
                                    old(self).connections@[i].1@,
                                    *hdr,
                                    data@,
                                    now,
                                ).0
                                &&& forall|j: int|
                                    0 <= j < old(self).connections@.len() && j != i ==> final(self).connections@[j] == old(self).connections@[j]
                                &&& outs_match(
                                    route_of(*q),
                                    out.frames@,
                                    step_packet(old(self).connections@[i].1@, *hdr, data@, now).1,
                                )
                                &&& out.read_ready == {
                                    let c2 = step_packet(
                                        old(self).connections@[i].1@,
                                        *hdr,
                                        data@,
                                        now,
                                    ).0;
                                    c2.state == State::TimeWait || c2.incoming.len() > 0
                                }
                                &&& !out.new_pending
                            } && final(self).pending == old(self).pending
                    } else if hdr.syn && spec_port_bound(old(self).pending@, q.dst_port) {
                        &&& step_accept(route_of(*q), *hdr, now) matches Some(m)
                        &&& final(self).connections@.len() == old(self).connections@.len() + 1
                        &&& final(self).connections@.last().0 == *q
                        &&& final(self).connections@.last().1@ == m.0
                        &&& forall|j: int|
                            0 <= j < old(self).connections@.len() ==> final(self).connections@[j] == old(self).connections@[j]
                        &&& outs_match(route_of(*q), out.frames@, seq![m.1])
                        &&& exists|i: int|
                            {
                                &&& 0 <= i < old(self).pending@.len()
                                &&& (#[trigger] old(self).pending@[i]).0 == q.dst_port
                                &&& final(self).pending@.len() == old(self).pending@.len()
                                &&& final(self).pending@[i].0 == q.dst_port
                                &&& final(self).pending@[i].1@ == old(self).pending@[i].1@.push(*q)
                                &&& forall|j: int|
                                    0 <= j < old(self).pending@.len() && j != i ==> final(self).pending@[j] == old(self).pending@[j]
                            }
                        &&& !out.read_ready
                        &&& out.new_pending
                    } else {
                        &&& final(self).connections == old(self).connections
                        &&& final(self).pending == old(self).pending
                        &&& out.frames@.len() == 0
                        &&& !out.read_ready
                        &&& !out.new_pending
                    }
                },
            },
    {
        match self.find_conn(q) {
            Some(i) => {
                let ok = self.connections[i].1.packet_ok_check(hdr, data, now);
                if !ok {
                    return Err(UndefinedSegment);
                }
                let ghost c_old = self.connections@[i as int].1@;
                let pair = self.connections.remove(i);
                let qk = pair.0;
                let mut conn = pair.1;
                let frames = conn.on_packet(hdr, data, now);
                let avail = conn.availability();
                proof {
                    crate::conn::lemma_step_packet_wf(c_old, *hdr, data@, now);
                }
                self.connections.insert(i, (qk, conn));
                proof {
                    assert forall|j: int|
                        0 <= j < old(self).connections@.len() && j != i implies self.connections@[j]
                        == old(self).connections@[j] by {}
                    assert(mgr_wf(*self));
                }
                Ok(SegmentOutcome { frames, read_ready: avail.read, new_pending: false })
            },
            None => {
                let pi = match self.find_port(q.dst_port) {
                    Some(pi) => pi,
                    None => {
                        let frames: Vec<SegmentOut> = Vec::new();
                        return Ok(
                            SegmentOutcome { frames, read_ready: false, new_pending: false },
                        );
                    },
                };
                let rt = Route {
                    local_ip: q.dst_ip,
                    local_port: q.dst_port,
                    peer_ip: q.src_ip,
                    peer_port: q.src_port,
                };
                match Connection::accept(rt, hdr, now) {
                    Some((c, seg)) => {
                        self.connections.push((*q, c));
                        let (p, mut v) = self.pending.remove(pi);
                        v.push(*q);
                        self.pending.insert(pi, (p, v));
                        let mut frames: Vec<SegmentOut> = Vec::new();
                        frames.push(seg);
                        proof {
                            assert forall|j: int|
                                0 <= j < old(self).pending@.len() && j != pi implies self.pending@[j]
                                == old(self).pending@[j] by {}
                            assert(mgr_wf(*self));
                        }
                        Ok(SegmentOutcome { frames, read_ready: false, new_pending: true })
                    },
                    None => {
                        let frames: Vec<SegmentOut> = Vec::new();
                        Ok(SegmentOutcome { frames, read_ready: false, new_pending: false })
                    },
                }
            },
        }
    }
}

/// The per-connection emissions of one tick round, in connection order,
/// each with the route it is sent on.
pub open spec fn tick_outs(s: Seq<(Quad, Connection)>, now: u64) -> Seq<(Route, SegModel)>
    decreases s.len(),
{
    if s.len() == 0 {
        Seq::empty()
    } else {
        tick_outs(s.drop_last(), now) + (match step_tick(s.last().1@, now).1 {
            Some(m) => seq![(s.last().1@.rt, m)],
            None => Seq::empty(),
        })
    }
}

impl ConnectionManager {
    /// Runs one timer tick over every connection, collecting the frames
    /// to put on the wire.
    #[verifier::rlimit(100)]
    #[verifier::spinoff_prover]
    pub fn on_tick_all(&mut self, now: u64) -> (r: Vec<SegmentOut>)
        requires
            mgr_wf(*old(self)),
        ensures
            mgr_wf(*final(self)),
            final(self).pending == old(self).pending,
            final(self).terminate == old(self).terminate,
            final(self).connections@.len() == old(self).connections@.len(),
            forall|i: int|
                0 <= i < old(self).connections@.len() ==> (#[trigger] final(self).connections@[i]).0 == old(self).connections@[i].0 && final(self).connections@[i].1@ == step_tick(old(self).connections@[i].1@, now).0,
            r@.len() == tick_outs(old(self).connections@, now).len(),
            forall|k: int|
                0 <= k < r@.len() ==> ((#[trigger] r@[k])@ == tick_outs(
                    old(self).connections@,
                    now,
                )[k].1 && seg_frame_ok(tick_outs(old(self).connections@, now)[k].0, r@[k])),
    {
        let ghost conns0 = self.connections@;
        let mut out: Vec<SegmentOut> = Vec::new();
        let mut i: usize = 0;
        assert(tick_outs(conns0.take(0), now) =~= Seq::<(Route, SegModel)>::empty());
        while i < self.connections.len()
            invariant
                mgr_wf(*old(self)),
                conns0 == old(self).connections@,
                i <= conns0.len(),
                self.connections@.len() == conns0.len(),
                self.pending == old(self).pending,
                self.terminate == old(self).terminate,
                forall|j: int|
                    0 <= j < i ==> (#[trigger] self.connections@[j]).0 == conns0[j].0
                        && self.connections@[j].1@ == step_tick(conns0[j].1@, now).0 && wf(
                        self.connections@[j].1@,
                    ) && self.connections@[j].1@.rt == route_of(conns0[j].0),
                forall|j: int| i <= j < conns0.len() ==> self.connections@[j] == conns0[j],
                out@.len() == tick_outs(conns0.take(i as int), now).len(),
                forall|k: int|
                    0 <= k < out@.len() ==> ((#[trigger] out@[k])@ == tick_outs(
                        conns0.take(i as int),
                        now,
                    )[k].1 && seg_frame_ok(tick_outs(conns0.take(i as int), now)[k].0, out@[k])),
            decreases conns0.len() - i,
        {
            let ghost snap = self.connections@;
            let pair = self.connections.remove(i);
            let qk = pair.0;
            let mut conn = pair.1;
            let ghost c_old = conn@;
            proof {
                assert(old(self).connections@[i as int] == conns0[i as int]);
                assert(c_old == conns0[i as int].1@);
                assert(wf(old(self).connections@[i as int].1@) && old(self).connections@[i as int].1@.rt
                    == route_of(old(self).connections@[i as int].0));
            }
            let seg = conn.on_tick(now);
            proof {
                crate::conn::lemma_step_tick_wf(c_old, now);
            }
            self.connections.insert(i, (qk, conn));
            proof {
                assert forall|j: int| 0 <= j < conns0.len() && j != i implies self.connections@[j]
                    == snap[j] by {}
            }
            if let Some(s) = seg {
                out.push(s);
            }
            proof {
                assert(conns0.take(i + 1).drop_last() =~= conns0.take(i as int));
                assert(conns0.take(i + 1).last() == conns0[i as int]);
            }
            i = i + 1;
        }
        proof {
            assert(conns0.take(conns0.len() as int) =~= conns0);
            assert(mgr_wf(*self));
        }
        out
    }

    /// The application read path, under the dispatcher's lock: what a
    /// `read` call can do right now for the stream keyed `q`.
    /// `Ok(Some(bytes))` hands out and removes up to `limit` buffered
    /// bytes — an empty vector exactly when the peer's side is closed
    /// and everything has been read (end of stream). `Ok(None)` means
    /// the caller must wait. A quad no longer in the map is an error.
    pub fn read_from(&mut self, q: &Quad, limit: usize) -> (r: Result<Option<Vec<u8>>, TcpError>)
        requires
            mgr_wf(*old(self)),
        ensures
            mgr_wf(*final(self)),
            final(self).pending == old(self).pending,
            final(self).terminate == old(self).terminate,
            match r {
                Err(e) => {
                    &&& e == TcpError::ConnectionAborted
                    &&& !spec_has_quad(old(self).connections@, *q)
                    &&& final(self).connections == old(self).connections
                },
                Ok(opt) => exists|i: int|
                    {
                        &&& 0 <= i < old(self).connections@.len()
                        &&& (#[trigger] old(self).connections@[i]).0 == *q
                        &&& {
                            let c = old(self).connections@[i].1@;
                            match opt {
                                None => {
                                    &&& c.state != State::TimeWait
                                    &&& c.incoming.len() == 0
                                    &&& final(self).connections == old(self).connections
                                },
                                Some(bytes) => {
                                    &&& (c.state == State::TimeWait || c.incoming.len() > 0)
                                    &&& bytes@ == c.incoming.take(
                                        nmin(limit as nat, c.incoming.len()) as int,
                                    )
                                    &&& final(self).connections@.len() == old(self).connections@.len()
                                    &&& final(self).connections@[i].0 == *q
                                    &&& final(self).connections@[i].1@ == (ConnModel {
                                        incoming: c.incoming.skip(
                                            nmin(limit as nat, c.incoming.len()) as int,
                                        ),
                                        ..c
                                    })
                                    &&& forall|j: int|
                                        0 <= j < old(self).connections@.len() && j != i ==> final(self).connections@[j] == old(self).connections@[j]
                                },
                            }
                        }
                    },
            },
    {
        let i = match self.find_conn(q) {
            Some(i) => i,
            None => {
                return Err(TcpError::ConnectionAborted);
            },
        };
        let recv_closed = self.connections[i].1.is_recv_closed();
        let have = self.connections[i].1.incoming.len();
        if !recv_closed && have == 0 {
            return Ok(None);
        }
        let pair = self.connections.remove(i);
        let qk = pair.0;
        let mut conn = pair.1;
        let bytes = conn.take_incoming(limit);
        self.connections.insert(i, (qk, conn));
        proof {
            assert forall|j: int|
                0 <= j < old(self).connections@.len() && j != i implies self.connections@[j] == old(self).connections@[j] by {}
            assert(mgr_wf(*self));
        }
        Ok(Some(bytes))
    }

    /// The application write path: appends bytes to the send buffer of
    /// the stream keyed `q`, up to the buffer's capacity; a full buffer
    /// is refused. The buffer never exceeds its capacity on return.
    pub fn write_to(&mut self, q: &Quad, buf: &[u8]) -> (r: Result<usize, TcpError>)
        requires
            mgr_wf(*old(self)),
        ensures
            mgr_wf(*final(self)),
            final(self).pending == old(self).pending,
            final(self).terminate == old(self).terminate,
            match r {
                Err(TcpError::ConnectionAborted) => {
                    &&& !spec_has_quad(old(self).connections@, *q)
                    &&& final(self).connections == old(self).connections
                },
                Err(TcpError::WouldBlock) => {
                    &&& final(self).connections == old(self).connections
                    &&& exists|i: int|
                        0 <= i < old(self).connections@.len() && (#[trigger] old(self).connections@[i]).0 == *q && old(self).connections@[i].1@.unacked.len()
                            >= crate::conn::SENDQUEUE_SIZE
                },
                Err(_) => false,
                Ok(n) => exists|i: int|
                    {
                        &&& 0 <= i < old(self).connections@.len()
                        &&& (#[trigger] old(self).connections@[i]).0 == *q
                        &&& {
                            let c = old(self).connections@[i].1@;
                            &&& c.unacked.len() < crate::conn::SENDQUEUE_SIZE
                            &&& n == nmin(
                                buf@.len(),
                                (crate::conn::SENDQUEUE_SIZE - c.unacked.len()) as nat,
                            )
                            &&& final(self).connections@.len() == old(self).connections@.len()
                            &&& final(self).connections@[i].0 == *q
                            &&& final(self).connections@[i].1@ == (ConnModel {
                                unacked: c.unacked + buf@.take(n as int),
                                ..c
                            })
                            &&& final(self).connections@[i].1@.unacked.len()
                                <= crate::conn::SENDQUEUE_SIZE
                            &&& forall|j: int|
                                0 <= j < old(self).connections@.len() && j != i ==> final(self).connections@[j] == old(self).connections@[j]
                        }
                    },
            },
    {
        let i = match self.find_conn(q) {
            Some(i) => i,
            None => {
                return Err(TcpError::ConnectionAborted);
            },
        };
        if self.connections[i].1.unacked.len() >= crate::conn::SENDQUEUE_SIZE {
            return Err(TcpError::WouldBlock);
        }
        let pair = self.connections.remove(i);
        let qk = pair.0;
        let mut conn = pair.1;
        let res = conn.push_app_bytes(buf);
        self.connections.insert(i, (qk, conn));
        proof {
            assert forall|j: int|
                0 <= j < old(self).connections@.len() && j != i implies self.connections@[j] == old(self).connections@[j] by {}
            assert(mgr_wf(*self));
        }
        match res {
            Ok(n) => Ok(n),
            Err(e) => Err(e),
        }
    }

    /// `flush` semantics: succeeds exactly when the stream exists and
    /// every written byte has been acknowledged.
    pub fn flush_check(&self, q: &Quad) -> (r: Result<(), TcpError>)
        ensures
            match r {
                Ok(()) => exists|i: int|
                    0 <= i < self.connections@.len() && (#[trigger] self.connections@[i]).0 == *q
                        && self.connections@[i].1@.unacked.len() == 0,
                Err(e) => {
                    &&& e == TcpError::ConnectionAborted
                    &&& (!spec_has_quad(self.connections@, *q) || exists|i: int|
                        0 <= i < self.connections@.len() && (#[trigger] self.connections@[i]).0
                            == *q && self.connections@[i].1@.unacked.len() > 0)
                },
            },
    {
        match self.find_conn(q) {
            Some(i) => {
                if self.connections[i].1.unacked.len() == 0 {
                    Ok(())
                } else {
                    Err(TcpError::ConnectionAborted)
                }
            },
            None => Err(TcpError::ConnectionAborted),
        }
    }

    /// The application shutdown path: a local close of the stream keyed
    /// `q`.
    pub fn shutdown(&mut self, q: &Quad) -> (r: Result<(), TcpError>)
        requires
            mgr_wf(*old(self)),
        ensures
            mgr_wf(*final(self)),
            final(self).pending == old(self).pending,
            final(self).terminate == old(self).terminate,
            match r {
                Err(TcpError::ConnectionAborted) => {
                    &&& !spec_has_quad(old(self).connections@, *q)
                    &&& final(self).connections == old(self).connections
                },
                _ => exists|i: int|
                    {
                        &&& 0 <= i < old(self).connections@.len()
                        &&& (#[trigger] old(self).connections@[i]).0 == *q
                        &&& {
                            let st = step_close(old(self).connections@[i].1@);
                            &&& final(self).connections@.len() == old(self).connections@.len()
                            &&& final(self).connections@[i].0 == *q
                            &&& final(self).connections@[i].1@ == st.0
                            &&& (r is Ok <==> st.1)
                            &&& (r is Err ==> r == Result::<(), TcpError>::Err(
                                TcpError::NotConnected,
                            ))
                            &&& forall|j: int|
                                0 <= j < old(self).connections@.len() && j != i ==> final(self).connections@[j] == old(self).connections@[j]
                        }
                    },
            },
    {
        let i = match self.find_conn(q) {
            Some(i) => i,
            None => {
                return Err(TcpError::ConnectionAborted);
            },
        };
        let pair = self.connections.remove(i);
        let qk = pair.0;
        let mut conn = pair.1;
        let res = conn.close();
        self.connections.insert(i, (qk, conn));
        proof {
            assert forall|j: int|
                0 <= j < old(self).connections@.len() && j != i implies self.connections@[j] == old(self).connections@[j] by {}
            assert(mgr_wf(*self));
        }
        res
    }

    /// Records that the interface is going away; the dispatcher loop is
    /// expected to observe this and stop.
    pub fn set_terminate(&mut self)
        ensures
            final(self).connections == old(self).connections,
            final(self).pending == old(self).pending,
            final(self).terminate,
            mgr_wf(*old(self)) ==> mgr_wf(*final(self)),
    {
        self.terminate = true;
    }

    pub fn is_terminated(&self) -> (r: bool)
        ensures
            r == self.terminate,
    {
        self.terminate
    }
}

} // verus!