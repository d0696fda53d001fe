//! The per-connection TCP state machine.
//!
//! A `Connection` is created by a passive open when a SYN arrives for a
//! bound port, carries data in `Estab`, and is torn down locally through
//! `FinWait1`/`FinWait2` into `TimeWait`. Every transition is a pure
//! function of the connection, the segment (or the clock) handed in, and
//! is mirrored by a spec-level step function over `ConnModel`; the
//! executable methods are proved equal to those steps.
//!
//! Time is a microsecond counter supplied by the caller; the smoothed
//! round-trip estimate is held in microseconds. Subtractions of counts
//! that sequence-space units (SYN, FIN) may exceed saturate at zero.

use vstd::prelude::*;

use crate::segment::SegModel;
use crate::segment::SegmentHeader;
use crate::segment::SegmentOut;
use crate::segment::build_frame;
use crate::segment::spec_frame_bytes;
use crate::seqnum::is_between_wrapped;
use crate::seqnum::seq_add;
use crate::seqnum::seq_sub;
use crate::seqnum::spec_between;
use crate::seqnum::spec_wrapping_lt;
use crate::seqnum::wrapping_lt;

verus! {

/// Capacity of the send buffer; `write` never lets `unacked` grow past it.
pub const SENDQUEUE_SIZE: usize = 1024;

/// The receive window this endpoint advertises.
pub const RECV_WND: u16 = 1024;

/// Initial smoothed round-trip estimate: sixty seconds, in microseconds.
pub const INIT_SRTT_MICROS: u64 = 60_000_000;

/// A segment is never retransmitted before it is this old (one second).
pub const MIN_RETRANS_WAIT_MICROS: u64 = 1_000_000;

/// Most payload bytes one emitted frame can carry (1500-byte frame cap
/// minus the two 20-byte headers).
pub const MAX_SEGMENT_PAYLOAD: usize = 1460;

#[derive(Clone, Copy, PartialEq, Eq, Structural, Debug)]
pub enum State {
    SynRcvd,
    Estab,
    FinWait1,
    FinWait2,
    TimeWait,
}

/// What a wake-up should let blocked application threads do. Only the
/// read side is ever signalled by this core.
#[derive(Clone, Copy, PartialEq, Eq, Structural, Debug)]
pub struct Available {
    pub read: bool,
    pub write: bool,
}

/// The addresses and ports an emitted frame carries: this endpoint as
/// source, the peer as destination.
#[derive(Clone, Copy, PartialEq, Eq, Structural, Debug)]
pub struct Route {
    pub local_ip: u32,
    pub local_port: u16,
    pub peer_ip: u32,
    pub peer_port: u16,
}

/// SND.UNA / SND.NXT and the peer's advertised window.
pub struct SendSequenceSpace {
    pub iss: u32,
    pub una: u32,
    pub nxt: u32,
    pub wnd: u16,
}

/// RCV.NXT and the window this endpoint advertises.
pub struct RecvSequenceSpace {
    pub nxt: u32,
    pub wnd: u16,
}

/// Retransmission bookkeeping: for each emitted segment, its starting
/// sequence number and the time it was (last) sent, kept sorted by
/// sequence number; and the smoothed round-trip estimate in microseconds.
pub struct Timers {
    pub send_times: Vec<(u32, u64)>,
    pub srtt: u64,
}

pub struct Connection {
    pub state: State,
    pub send: SendSequenceSpace,
    pub recv: RecvSequenceSpace,
    pub route: Route,
    pub timers: Timers,
    pub unacked: Vec<u8>,
    pub incoming: Vec<u8>,
    pub closed: bool,
    pub closed_at: Option<u32>,
}

/// The mathematical value of a `Connection`.
#[verifier::ext_equal]
pub ghost struct ConnModel {
    pub state: State,
    pub iss: u32,
    pub una: u32,
    pub nxt: u32,
    pub wnd: u16,
    pub rcv_nxt: u32,
    pub rcv_wnd: u16,
    pub rt: Route,
    pub times: Seq<(u32, u64)>,
    pub srtt: u64,
    pub unacked: Seq<u8>,
    pub incoming: Seq<u8>,
    pub closed: bool,
    pub closed_at: Option<u32>,
}

impl View for Connection {
    type V = ConnModel;

    open spec fn view(&self) -> ConnModel {
        ConnModel {
            state: self.state,
            iss: self.send.iss,
            una: self.send.una,
            nxt: self.send.nxt,
            wnd: self.send.wnd,
            rcv_nxt: self.recv.nxt,
            rcv_wnd: self.recv.wnd,
            rt: self.route,
            times: self.timers.send_times@,
            srtt: self.timers.srtt,
            unacked: self.unacked@,
            incoming: self.incoming@,
            closed: self.closed,
            closed_at: self.closed_at,
        }
    }
}

pub open spec fn nmin(a: nat, b: nat) -> nat {
    if a <= b {
        a
    } else {
        b
    }
}

/// One sequence unit is pending for our SYN while it is unacknowledged.
pub open spec fn syn_pend(c: ConnModel) -> nat {
    if c.una == c.iss {
        1
    } else {
        0
    }
}

/// One sequence unit is pending for our FIN once it has been assigned a
/// sequence number.
pub open spec fn fin_pend(c: ConnModel) -> nat {
    if c.closed_at is Some {
        1
    } else {
        0
    }
}

/// Retransmission entries are sorted by sequence number with no
/// duplicates, as an ordered map.
pub open spec fn st_sorted(s: Seq<(u32, u64)>) -> bool {
    forall|i: int, j: int| 0 <= i < j < s.len() ==> s[i].0 < s[j].0
}

/// Well-formedness of a connection: the send buffer respects its cap;
/// SND.UNA is at most SND.NXT in wrapped order, and at most
/// `unacked.len()` data bytes plus one unit for a pending SYN and one
/// for a pending FIN separate them; the timer entries form an ordered
/// map; a FIN is only ever recorded after a local close.
pub open spec fn wf(c: ConnModel) -> bool {
    &&& c.unacked.len() <= SENDQUEUE_SIZE
    &&& seq_sub(c.nxt, c.una) as nat <= c.unacked.len() + syn_pend(c) + fin_pend(c)
    &&& st_sorted(c.times)
    &&& (c.closed_at is Some ==> c.closed)
}

// ---------------------------------------------------------------------
// Retransmission-timer operations
// ---------------------------------------------------------------------

/// Ordered-map insert: overwrites the timestamp if the key is present.
pub open spec fn st_insert(s: Seq<(u32, u64)>, k: u32, v: u64) -> Seq<(u32, u64)>
    decreases s.len(),
{
    if s.len() == 0 {
        seq![(k, v)]
    } else if s[0].0 < k {
        seq![s[0]] + st_insert(s.drop_first(), k, v)
    } else if s[0].0 == k {
        seq![(k, v)] + s.drop_first()
    } else {
        seq![(k, v)] + s
    }
}

/// The entry with the smallest key at or above `k`, if any: the oldest
/// send still relevant once everything below SND.UNA has been
/// acknowledged.
pub open spec fn st_first_at_or_after(s: Seq<(u32, u64)>, k: u32) -> Option<(u32, u64)>
    decreases s.len(),
{
    if s.len() == 0 {
        None
    } else if s[0].0 >= k {
        Some(s[0])
    } else {
        st_first_at_or_after(s.drop_first(), k)
    }
}

/// Microseconds from `t` to `now`; zero if `t` lies in the future.
pub open spec fn elapsed_since(now: u64, t: u64) -> u64 {
    if t <= now {
        (now - t) as u64
    } else {
        0
    }
}

/// One smoothing step of the round-trip estimator:
/// `srtt <- 0.8 * srtt + 0.2 * sample`, in integer microseconds.
pub open spec fn srtt_next(srtt: u64, sample: u64) -> u64 {
    ((4 * srtt + sample) / 5) as u64
}

/// Acknowledgment pruning: walking the entries in key order, every entry
/// strictly between `una` and `ackn` in wrapped order is removed and
/// folded into the round-trip estimate; the rest survive unchanged.
pub open spec fn st_prune(s: Seq<(u32, u64)>, una: u32, ackn: u32, srtt: u64, now: u64) -> (Seq<
    (u32, u64),
>, u64)
    decreases s.len(),
{
    if s.len() == 0 {
        (s, srtt)
    } else if spec_between(una, s[0].0, ackn) {
        st_prune(s.drop_first(), una, ackn, srtt_next(srtt, elapsed_since(now, s[0].1)), now)
    } else {
        let r = st_prune(s.drop_first(), una, ackn, srtt, now);
        (seq![s[0]] + r.0, r.1)
    }
}

/// Every key of `st_insert(s, k, v)` is `k` or a key of `s`.
proof fn lemma_st_insert_keys(s: Seq<(u32, u64)>, k: u32, v: u64)
    ensures
        forall|i: int|
            0 <= i < st_insert(s, k, v).len() ==> st_insert(s, k, v)[i].0 == k || exists|j: int|
                0 <= j < s.len() && s[j].0 == #[trigger] st_insert(s, k, v)[i].0,
    decreases s.len(),
{
    if s.len() == 0 {
    } else if s[0].0 < k {
        lemma_st_insert_keys(s.drop_first(), k, v);
        assert forall|i: int| 0 <= i < st_insert(s, k, v).len() implies st_insert(s, k, v)[i].0 == k
            || exists|j: int| 0 <= j < s.len() && s[j].0 == #[trigger] st_insert(s, k, v)[i].0 by {
            if i == 0 {
                assert(s[0].0 == st_insert(s, k, v)[0].0);
            } else {
                let t = st_insert(s.drop_first(), k, v);
                assert(st_insert(s, k, v)[i] == t[i - 1]);
                let ti = t[i - 1];
                if ti.0 != k {
                    let j = choose|j: int|
                        0 <= j < s.drop_first().len() && s.drop_first()[j].0 == ti.0;
                    assert(s[j + 1].0 == st_insert(s, k, v)[i].0);
                }
            }
        }
    } else {
    }
}

/// Inserting preserves sortedness.
proof fn lemma_st_insert_sorted(s: Seq<(u32, u64)>, k: u32, v: u64)
    requires
        st_sorted(s),
    ensures
        st_sorted(st_insert(s, k, v)),
    decreases s.len(),
{
    if s.len() == 0 {
    } else if s[0].0 < k {
        assert(st_sorted(s.drop_first()));
        lemma_st_insert_sorted(s.drop_first(), k, v);
        lemma_st_insert_keys(s.drop_first(), k, v);
        let r = st_insert(s, k, v);
        let t = st_insert(s.drop_first(), k, v);
        assert forall|i: int, j: int| 0 <= i < j < r.len() implies r[i].0 < r[j].0 by {
            if i == 0 {
                assert(r[j] == t[j - 1]);
                if t[j - 1].0 != k {
                    let m = choose|m: int|
                        0 <= m < s.drop_first().len() && s.drop_first()[m].0 == t[j - 1].0;
                    assert(s[0].0 < s[m + 1].0);
                }
            } else {
                assert(r[i] == t[i - 1] && r[j] == t[j - 1]);
            }
        }
    } else {
    }
}

/// Copies the entries from index `i` on.
fn st_suffix(v: &Vec<(u32, u64)>, i: usize) -> (r: Vec<(u32, u64)>)
    requires
        i <= v@.len(),
    ensures
        r@ == v@.skip(i as int),
{
    let mut r: Vec<(u32, u64)> = Vec::new();
    let mut j: usize = i;
    while j < v.len()
        invariant
            i <= j <= v@.len(),
            r@ == v@.subrange(i as int, j as int),
        decreases v@.len() - j,
    {
        r.push(v[j]);
        assert(v@.subrange(i as int, (j + 1) as int) == v@.subrange(i as int, j as int).push(
            v@[j as int],
        ));
        j = j + 1;
    }
    assert(v@.subrange(i as int, v@.len() as int) =~= v@.skip(i as int));
    r
}

/// Executable ordered-map insert, mirroring `st_insert` on the suffix
/// starting at `i`.
fn st_insert_from(v: &Vec<(u32, u64)>, i: usize, k: u32, val: u64) -> (r: Vec<(u32, u64)>)
    requires
        i <= v@.len(),
    ensures
        r@ == st_insert(v@.skip(i as int), k, val),
    decreases v@.len() - i,
{
    let ghost s = v@.skip(i as int);
    if i == v.len() {
        let mut r: Vec<(u32, u64)> = Vec::new();
        r.push((k, val));
        assert(r@ =~= st_insert(s, k, val));
        r
    } else {
        let (k0, t0) = v[i];
        assert(s[0] == (k0, t0));
        assert(s.drop_first() =~= v@.skip(i as int + 1));
        if k0 < k {
            let mut r = st_insert_from(v, i + 1, k, val);
            r.insert(0, (k0, t0));
            assert(r@ =~= seq![(k0, t0)] + st_insert(s.drop_first(), k, val));
            r
        } else if k0 == k {
            let mut r = st_suffix(v, i + 1);
            r.insert(0, (k, val));
            assert(r@ =~= seq![(k, val)] + s.drop_first());
            r
        } else {
            let mut r = st_suffix(v, i);
            r.insert(0, (k, val));
            assert(r@ =~= seq![(k, val)] + s);
            r
        }
    }
}

/// Executable search for the first entry with key at or above `k`.
fn st_first_exec(v: &Vec<(u32, u64)>, k: u32) -> (r: Option<(u32, u64)>)
    ensures
        r == st_first_at_or_after(v@, k),
{
    let mut i: usize = 0;
    assert(v@.skip(0) =~= v@);
    while i < v.len()
        invariant
            i <= v@.len(),
            st_first_at_or_after(v@, k) == st_first_at_or_after(v@.skip(i as int), k),
        decreases v@.len() - i,
    {
        let (k0, t0) = v[i];
        assert(v@.skip(i as int)[0] == (k0, t0));
        assert(v@.skip(i as int).drop_first() =~= v@.skip(i as int + 1));
        if k0 >= k {
            return Some((k0, t0));
        }
        i = i + 1;
    }
    assert(v@.skip(i as int).len() == 0);
    None
}

fn elapsed_exec(now: u64, t: u64) -> (r: u64)
    ensures
        r == elapsed_since(now, t),
{
    if t <= now {
        now - t
    } else {
        0
    }
}

fn srtt_next_exec(srtt: u64, sample: u64) -> (r: u64)
    ensures
        r == srtt_next(srtt, sample),
{
    let wide: u128 = 4u128 * (srtt as u128) + (sample as u128);
    let q: u128 = wide / 5;
    assert(q <= u64::MAX as u128);
    q as u64
}

/// Executable pruning, mirroring `st_prune` on the suffix starting at `i`.
fn st_prune_from(v: &Vec<(u32, u64)>, i: usize, una: u32, ackn: u32, srtt: u64, now: u64) -> (r: (
    Vec<(u32, u64)>,
    u64,
))
    requires
        i <= v@.len(),
    ensures
        (r.0@, r.1) == st_prune(v@.skip(i as int), una, ackn, srtt, now),
    decreases v@.len() - i,
{
    let ghost s = v@.skip(i as int);
    if i == v.len() {
        let r: Vec<(u32, u64)> = Vec::new();
        assert(r@ =~= s);
        (r, srtt)
    } else {
        let (k0, t0) = v[i];
        assert(s[0] == (k0, t0));
        assert(s.drop_first() =~= v@.skip(i as int + 1));
        if is_between_wrapped(una, k0, ackn) {
            let srtt2 = srtt_next_exec(srtt, elapsed_exec(now, t0));
            st_prune_from(v, i + 1, una, ackn, srtt2, now)
        } else {
            let (mut kept, srtt2) = st_prune_from(v, i + 1, una, ackn, srtt, now);
            kept.insert(0, (k0, t0));
            assert(kept@ =~= seq![(k0, t0)] + st_prune(s.drop_first(), una, ackn, srtt, now).0);
            (kept, srtt2)
        }
    }
}

// ---------------------------------------------------------------------
// Emission
// ---------------------------------------------------------------------

/// The payload of a segment emitted at `seqn` with byte budget `limit`:
/// the slice of `unacked` starting `seqn - una` bytes in, clipped by the
/// budget, the buffer end, and the frame cap. A segment addressed one
/// past a recorded FIN carries nothing.
pub open spec fn emit_payload(c: ConnModel, seqn: u32, limit: nat) -> Seq<u8> {
    let fin_only = match c.closed_at {
        Some(ca) => seqn == seq_add(ca, 1),
        None => false,
    };
    let offset = if fin_only {
        0nat
    } else {
        seq_sub(seqn, c.una) as nat
    };
    let lim = if fin_only {
        0nat
    } else {
        limit
    };
    if offset > c.unacked.len() {
        Seq::empty()
    } else {
        let n = nmin(nmin(lim, (c.unacked.len() - offset) as nat), MAX_SEGMENT_PAYLOAD as nat);
        c.unacked.subrange(offset as int, (offset + n) as int)
    }
}

/// Emitting a segment: the payload is drawn from `unacked`; SND.NXT
/// advances (in wrapped order) to just past the payload and any SYN or
/// FIN the segment carries; the send is recorded for retransmission.
/// The segment acknowledges RCV.NXT and advertises our window.
pub open spec fn step_emit(c: ConnModel, seqn: u32, limit: nat, syn: bool, fin: bool, now: u64) -> (
    ConnModel,
    SegModel,
) {
    let payload = emit_payload(c, seqn, limit);
    let units = payload.len() + (if syn {
        1nat
    } else {
        0nat
    }) + (if fin {
        1nat
    } else {
        0nat
    });
    let next_seq = seq_add(seqn, units as u32);
    let nxt2 = if spec_wrapping_lt(c.nxt, next_seq) {
        next_seq
    } else {
        c.nxt
    };
    let c2 = ConnModel { nxt: nxt2, times: st_insert(c.times, seqn, now), ..c };
    let seg = SegModel {
        seqn,
        ackn: c.rcv_nxt,
        syn,
        fin,
        wnd: c.rcv_wnd,
        payload,
    };
    (c2, seg)
}

/// The frame of an emitted segment is the serialized IPv4+TCP headers for
/// this route and the segment's fields, followed by its payload.
pub open spec fn seg_frame_ok(rt: Route, o: SegmentOut) -> bool {
    o.frame@ == spec_frame_bytes(
        rt.local_ip,
        rt.local_port,
        rt.peer_ip,
        rt.peer_port,
        o.seqn,
        o.ackn,
        o.syn,
        o.fin,
        o.wnd,
        o.payload@,
    )
}

// ---------------------------------------------------------------------
// Segment arrival
// ---------------------------------------------------------------------

/// Sequence-space length of a segment: its payload plus one unit for a
/// SYN and one for a FIN.
pub open spec fn spec_slen(hdr: SegmentHeader, data_len: nat) -> u32 {
    (data_len + (if hdr.syn {
        1nat
    } else {
        0nat
    }) + (if hdr.fin {
        1nat
    } else {
        0nat
    })) as u32
}

/// Segment acceptability: the segment's sequence range must
/// intersect the receive window.
pub open spec fn spec_acceptable(rcv_nxt: u32, rcv_wnd: u16, seqn: u32, slen: u32) -> bool {
    let wend = seq_add(rcv_nxt, rcv_wnd as u32);
    if slen == 0 {
        if rcv_wnd == 0 {
            seqn == rcv_nxt
        } else {
            spec_between(seq_sub(rcv_nxt, 1), seqn, wend)
        }
    } else {
        if rcv_wnd == 0 {
            false
        } else {
            spec_between(seq_sub(rcv_nxt, 1), seqn, wend) || spec_between(
                seq_sub(rcv_nxt, 1),
                seq_add(seqn, (slen - 1) as u32),
                wend,
            )
        }
    }
}

/// States in which acknowledgments are processed and data is accepted.
pub open spec fn data_phase_state(st: State) -> bool {
    st == State::Estab || st == State::FinWait1 || st == State::FinWait2
}

/// In SynRcvd, an ACK covering our SYN promotes the connection to Estab.
pub open spec fn step_syn_rcvd_ack(c: ConnModel, ackn: u32) -> ConnModel {
    if c.state == State::SynRcvd && spec_between(seq_sub(c.una, 1), ackn, seq_add(c.nxt, 1)) {
        ConnModel { state: State::Estab, ..c }
    } else {
        c
    }
}

/// Acknowledgment processing in Estab/FinWait1/FinWait2: an in-range ACK
/// refreshes the peer's advertised window; an ACK of new data drains the
/// acknowledged bytes from the front of `unacked` (skipping the SYN's
/// sequence unit while it is unacknowledged), prunes the acknowledged
/// retransmission entries into the round-trip estimate, and advances
/// SND.UNA.
pub open spec fn step_ack(c: ConnModel, hdr: SegmentHeader, now: u64) -> ConnModel {
    if data_phase_state(c.state) {
        let c1 = if spec_between(seq_sub(c.una, 1), hdr.ackn, seq_add(c.nxt, 1)) {
            ConnModel { wnd: hdr.wnd, ..c }
        } else {
            c
        };
        if spec_between(c1.una, hdr.ackn, seq_add(c1.nxt, 1)) {
            let c2 = if c1.unacked.len() > 0 {
                let data_start = if c1.una == c1.iss {
                    seq_add(c1.una, 1)
                } else {
                    c1.una
                };
                let acked = nmin(seq_sub(hdr.ackn, data_start) as nat, c1.unacked.len());
                let pr = st_prune(c1.times, c1.una, hdr.ackn, c1.srtt, now);
                ConnModel {
                    unacked: c1.unacked.skip(acked as int),
                    times: pr.0,
                    srtt: pr.1,
                    ..c1
                }
            } else {
                c1
            };
            ConnModel { una: hdr.ackn, ..c2 }
        } else {
            c1
        }
    } else {
        c
    }
}

/// In FinWait1, once SND.UNA has passed the sequence our FIN occupied,
/// the FIN is acknowledged and the connection moves to FinWait2.
pub open spec fn step_fw1(c: ConnModel) -> ConnModel {
    if c.state == State::FinWait1 && (c.closed_at matches Some(ca) && c.una == seq_add(ca, 1)) {
        ConnModel { state: State::FinWait2, ..c }
    } else {
        c
    }
}

/// Data reception in Estab/FinWait1/FinWait2: the bytes at or past
/// RCV.NXT are appended to `incoming`, RCV.NXT advances to just past the
/// segment, and an empty acknowledgment is emitted at once. A segment
/// lying entirely before RCV.NXT (a retransmission past a FIN already
/// consumed) is taken from its start.
pub open spec fn step_data(c: ConnModel, hdr: SegmentHeader, data: Seq<u8>, now: u64) -> (
    ConnModel,
    Seq<SegModel>,
) {
    if data.len() > 0 && data_phase_state(c.state) {
        let skip0 = seq_sub(c.rcv_nxt, hdr.seqn) as nat;
        let skipn = if skip0 > data.len() {
            0nat
        } else {
            skip0
        };
        let c1 = ConnModel {
            incoming: c.incoming + data.skip(skipn as int),
            rcv_nxt: seq_add(hdr.seqn, data.len() as u32),
            ..c
        };
        let e = step_emit(c1, c1.nxt, 0, false, false, now);
        (e.0, seq![e.1])
    } else {
        (c, Seq::empty())
    }
}

/// FIN processing, handled only in FinWait2: RCV.NXT steps over the FIN,
/// an acknowledgment is emitted, and the connection enters TimeWait.
pub open spec fn step_fin(c: ConnModel, hdr: SegmentHeader, now: u64) -> (ConnModel, Seq<SegModel>) {
    if hdr.fin && c.state == State::FinWait2 {
        let c1 = ConnModel { rcv_nxt: seq_add(c.rcv_nxt, 1), ..c };
        let e = step_emit(c1, c1.nxt, 0, false, false, now);
        (ConnModel { state: State::TimeWait, ..e.0 }, seq![e.1])
    } else {
        (c, Seq::empty())
    }
}

/// The whole effect of one arriving segment. An unacceptable segment
/// provokes an empty acknowledgment and changes nothing else; a segment
/// without an ACK flag at most refreshes RCV.NXT from a retransmitted
/// SYN; otherwise the ACK, FinWait1, data and FIN phases run in order.
pub open spec fn step_packet(c: ConnModel, hdr: SegmentHeader, data: Seq<u8>, now: u64) -> (
    ConnModel,
    Seq<SegModel>,
) {
    let slen = spec_slen(hdr, data.len());
    if !spec_acceptable(c.rcv_nxt, c.rcv_wnd, hdr.seqn, slen) {
        let e = step_emit(c, c.nxt, 0, false, false, now);
        (e.0, seq![e.1])
    } else if !hdr.ack {
        if hdr.syn {
            (ConnModel { rcv_nxt: seq_add(hdr.seqn, 1), ..c }, Seq::empty())
        } else {
            (c, Seq::empty())
        }
    } else {
        let c3 = step_fw1(step_ack(step_syn_rcvd_ack(c, hdr.ackn), hdr, now));
        let d = step_data(c3, hdr, data, now);
        let f = step_fin(d.0, hdr, now);
        (f.0, d.1 + f.1)
    }
}

/// The arriving segments on which the segment handler is defined. A
/// retransmitted SYN carries no data; received data never starts more
/// than one unit past RCV.NXT (one unit covers a FIN already consumed);
/// and a FIN only arrives once this side's own FIN has been acknowledged
/// (FinWait2) — passive close is outside this core.
pub open spec fn step_packet_ok(c: ConnModel, hdr: SegmentHeader, data: Seq<u8>, now: u64) -> bool {
    let slen = spec_slen(hdr, data.len());
    let okay = spec_acceptable(c.rcv_nxt, c.rcv_wnd, hdr.seqn, slen);
    &&& (okay && !hdr.ack && hdr.syn ==> data.len() == 0)
    &&& (okay && hdr.ack ==> {
        let c3 = step_fw1(step_ack(step_syn_rcvd_ack(c, hdr.ackn), hdr, now));
        &&& (data.len() > 0 && data_phase_state(c3.state) ==> seq_sub(c3.rcv_nxt, hdr.seqn) as nat
            <= data.len() + 1)
        &&& (hdr.fin ==> c3.state == State::FinWait2)
    })
}

/// The errors the application-facing surface can return.
#[derive(Clone, Copy, PartialEq, Eq, Structural, Debug)]
pub enum TcpError {
    /// `bind` on a port that already has a listener.
    AddrInUse,
    /// An operation on a connection that is no longer in the map.
    ConnectionAborted,
    /// `write` against a full send buffer.
    WouldBlock,
    /// `shutdown` on a connection that is already past closing.
    NotConnected,
}

/// Passive open: a SYN for a bound port creates a fresh connection in
/// SynRcvd (deterministic initial send sequence number zero, our fixed
/// receive window) and answers it with a SYN+ACK, after which SND.NXT has
/// consumed one unit for the SYN. A segment without SYN creates nothing.
pub open spec fn step_accept(rt: Route, hdr: SegmentHeader, now: u64) -> Option<
    (ConnModel, SegModel),
> {
    if !hdr.syn {
        None
    } else {
        let c = ConnModel {
            state: State::SynRcvd,
            iss: 0,
            una: 0,
            nxt: 0,
            wnd: hdr.wnd,
            rcv_nxt: seq_add(hdr.seqn, 1),
            rcv_wnd: RECV_WND,
            rt,
            times: Seq::empty(),
            srtt: INIT_SRTT_MICROS,
            unacked: Seq::empty(),
            incoming: Seq::empty(),
            closed: false,
            closed_at: None,
        };
        let e = step_emit(c, 0, 0, true, false, now);
        Some(e)
    }
}

/// A local close: the connection is marked closed; from SynRcvd or Estab
/// it enters FinWait1; in FinWait1/FinWait2 nothing more happens; in
/// TimeWait the close is refused.
pub open spec fn step_close(c: ConnModel) -> (ConnModel, bool) {
    let c1 = ConnModel { closed: true, ..c };
    match c.state {
        State::SynRcvd => (ConnModel { state: State::FinWait1, ..c1 }, true),
        State::Estab => (ConnModel { state: State::FinWait1, ..c1 }, true),
        State::FinWait1 => (c1, true),
        State::FinWait2 => (c1, true),
        State::TimeWait => (c1, false),
    }
}

/// The number of sequence units in flight: from SND.UNA up to the FIN if
/// one is recorded, else up to SND.NXT.
pub open spec fn tick_nunacked(c: ConnModel) -> nat {
    let base = match c.closed_at {
        Some(ca) => ca,
        None => c.nxt,
    };
    seq_sub(base, c.una) as nat
}

/// Buffered bytes not yet sent; saturates at zero while the SYN or FIN
/// unit makes the in-flight count exceed the buffer.
pub open spec fn tick_nunsent(c: ConnModel) -> nat {
    if c.unacked.len() >= tick_nunacked(c) {
        (c.unacked.len() - tick_nunacked(c)) as nat
    } else {
        0nat
    }
}

/// The retransmission decision: the oldest recorded send at or after
/// SND.UNA must be over a second old and older than one and a half times
/// the smoothed round-trip estimate.
pub open spec fn tick_retransmit(c: ConnModel, now: u64) -> bool {
    match st_first_at_or_after(c.times, c.una) {
        Some(e) => {
            let w = elapsed_since(now, e.1);
            w > MIN_RETRANS_WAIT_MICROS && 2 * w > 3 * c.srtt
        },
        None => false,
    }
}

/// One timer tick. FinWait2 and TimeWait do nothing. On retransmission,
/// the whole window is re-emitted from SND.UNA; otherwise any unsent
/// bytes the peer's window allows are emitted from SND.NXT. Either way,
/// when everything fits with room to spare and the application has
/// closed, the FIN is flagged and its sequence number recorded.
pub open spec fn step_tick(c: ConnModel, now: u64) -> (ConnModel, Option<SegModel>) {
    if c.state == State::FinWait2 || c.state == State::TimeWait {
        (c, None)
    } else {
        let nunacked = tick_nunacked(c);
        let nunsent = tick_nunsent(c);
        if tick_retransmit(c, now) {
            let resend = nmin(c.unacked.len(), c.wnd as nat);
            let setfin = resend < c.wnd as nat && c.closed && c.closed_at is None;
            let c1 = if setfin {
                ConnModel { closed_at: Some(seq_add(c.una, c.unacked.len() as u32)), ..c }
            } else {
                c
            };
            let e = step_emit(c1, c1.una, resend, false, setfin, now);
            (e.0, Some(e.1))
        } else {
            if nunsent == 0 && c.closed_at is Some {
                (c, None)
            } else {
                let allowed = if c.wnd as nat >= nunacked {
                    (c.wnd as nat - nunacked) as nat
                } else {
                    0nat
                };
                if allowed == 0 {
                    (c, None)
                } else {
                    let sendn = nmin(nunsent, allowed);
                    let setfin = sendn < allowed && c.closed && c.closed_at is None;
                    let c1 = if setfin {
                        ConnModel { closed_at: Some(seq_add(c.una, c.unacked.len() as u32)), ..c }
                    } else {
                        c
                    };
                    let e = step_emit(c1, c1.nxt, sendn, false, setfin, now);
                    (e.0, Some(e.1))
                }
            }
        }
    }
}

/// Emitted segments match their models and their frames are the
/// serialization of those models for this connection's route.
pub open spec fn outs_match(rt: Route, r: Seq<SegmentOut>, models: Seq<SegModel>) -> bool {
    &&& r.len() == models.len()
    &&& forall|i: int|
        0 <= i < r.len() ==> (#[trigger] r[i]@) == models[i] && seg_frame_ok(rt, r[i])
}

/// As `outs_match`, for a step that emits at most one segment.
pub open spec fn opt_out_match(rt: Route, r: Option<SegmentOut>, models: Seq<SegModel>) -> bool {
    match r {
        Some(o) => models.len() == 1 && o@ == models[0] && seg_frame_ok(rt, o),
        None => models.len() == 0,
    }
}

impl Connection {
    /// Emits one segment starting at `seqn` with byte budget `limit`.
    #[verifier::rlimit(50)]
    fn emit(&mut self, seqn: u32, limit: usize, syn: bool, fin: bool, now: u64) -> (r: SegmentOut)
        ensures
            final(self)@ == step_emit(old(self)@, seqn, limit as nat, syn, fin, now).0,
            r@ == step_emit(old(self)@, seqn, limit as nat, syn, fin, now).1,
            seg_frame_ok(old(self)@.rt, r),
    {
        let ghost c0 = self@;
        let mut offset = seqn.wrapping_sub(self.send.una) as usize;
        let mut lim = limit;
        if let Some(ca) = self.closed_at {
            if seqn == ca.wrapping_add(1) {
                offset = 0;
                lim = 0;
            }
        }
        let start = if offset <= self.unacked.len() {
            offset
        } else {
            self.unacked.len()
        };
        let avail = self.unacked.len() - start;
        let mut n = if lim < avail {
            lim
        } else {
            avail
        };
        if n > MAX_SEGMENT_PAYLOAD {
            n = MAX_SEGMENT_PAYLOAD;
        }
        let payload = crate::segment::subvec(self.unacked.as_slice(), start, start + n);
        assert(payload@ =~= emit_payload(c0, seqn, limit as nat));
        let ghost units = emit_payload(c0, seqn, limit as nat).len() + (if syn {
            1nat
        } else {
            0nat
        }) + (if fin {
            1nat
        } else {
            0nat
        });
        let mut next_seq = seqn.wrapping_add(payload.len() as u32);
        if syn {
            next_seq = next_seq.wrapping_add(1);
        }
        if fin {
            next_seq = next_seq.wrapping_add(1);
        }
        assert(next_seq == seq_add(seqn, units as u32));
        if wrapping_lt(self.send.nxt, next_seq) {
            self.send.nxt = next_seq;
        }
        let inserted = st_insert_from(&self.timers.send_times, 0, seqn, now);
        assert(self.timers.send_times@.skip(0) =~= c0.times);
        self.timers.send_times = inserted;
        proof {
            assert(self@ =~= step_emit(c0, seqn, limit as nat, syn, fin, now).0);
        }
        let frame = build_frame(
            self.route.local_ip,
            self.route.local_port,
            self.route.peer_ip,
            self.route.peer_port,
            seqn,
            self.recv.nxt,
            syn,
            fin,
            self.recv.wnd,
            &payload,
        );
        let r = SegmentOut {
            seqn,
            ackn: self.recv.nxt,
            syn,
            fin,
            wnd: self.recv.wnd,
            payload,
            frame,
        };
        proof {
            assert(r@ =~= step_emit(c0, seqn, limit as nat, syn, fin, now).1);
        }
        r
    }

    /// Handles one arriving segment for this connection, returning the
    /// segments to put on the wire in response.
    /// Whether an arriving segment is acceptable for the current
    /// receive window.
    fn seg_acceptable(&self, hdr: &SegmentHeader, data_len: usize) -> (r: bool)
        requires
            data_len <= 1500,
        ensures
            r == spec_acceptable(
                self@.rcv_nxt,
                self@.rcv_wnd,
                hdr.seqn,
                spec_slen(*hdr, data_len as nat),
            ),
    {
        let mut slen: u32 = data_len as u32;
        if hdr.syn {
            slen = slen + 1;
        }
        if hdr.fin {
            slen = slen + 1;
        }
        assert(slen == spec_slen(*hdr, data_len as nat));
        let wend = self.recv.nxt.wrapping_add(self.recv.wnd as u32);
        if slen == 0 {
            if self.recv.wnd == 0 {
                hdr.seqn == self.recv.nxt
            } else {
                is_between_wrapped(self.recv.nxt.wrapping_sub(1), hdr.seqn, wend)
            }
        } else {
            if self.recv.wnd == 0 {
                false
            } else {
                is_between_wrapped(self.recv.nxt.wrapping_sub(1), hdr.seqn, wend)
                    || is_between_wrapped(
                    self.recv.nxt.wrapping_sub(1),
                    hdr.seqn.wrapping_add(slen - 1),
                    wend,
                )
            }
        }
    }

    /// SynRcvd promotion, acknowledgment processing and the
    /// FinWait1-to-FinWait2 transition, in order.
    #[verifier::rlimit(50)]
    fn phase_ack(&mut self, hdr: &SegmentHeader, now: u64)
        ensures
            final(self)@ == step_fw1(step_ack(step_syn_rcvd_ack(old(self)@, hdr.ackn), *hdr, now)),
    {
        let ghost c0 = self@;
        let ghost c1 = step_syn_rcvd_ack(c0, hdr.ackn);
        if self.state == State::SynRcvd {
            if is_between_wrapped(
                self.send.una.wrapping_sub(1),
                hdr.ackn,
                self.send.nxt.wrapping_add(1),
            ) {
                self.state = State::Estab;
            }
        }
        assert(self@ =~= c1);
        let ghost c2 = step_ack(c1, *hdr, now);
        if self.state == State::Estab || self.state == State::FinWait1 || self.state
            == State::FinWait2 {
            if is_between_wrapped(
                self.send.una.wrapping_sub(1),
                hdr.ackn,
                self.send.nxt.wrapping_add(1),
            ) {
                self.send.wnd = hdr.wnd;
            }
            if is_between_wrapped(self.send.una, hdr.ackn, self.send.nxt.wrapping_add(1)) {
                if self.unacked.len() > 0 {
                    let data_start = if self.send.una == self.send.iss {
                        self.send.una.wrapping_add(1)
                    } else {
                        self.send.una
                    };
                    let acked_units = hdr.ackn.wrapping_sub(data_start) as usize;
                    let acked = if acked_units < self.unacked.len() {
                        acked_units
                    } else {
                        self.unacked.len()
                    };
                    let tail = self.unacked.split_off(acked);
                    self.unacked = tail;
                    let pruned = st_prune_from(
                        &self.timers.send_times,
                        0,
                        self.send.una,
                        hdr.ackn,
                        self.timers.srtt,
                        now,
                    );
                    assert(self.timers.send_times@.skip(0) =~= self.timers.send_times@);
                    self.timers.send_times = pruned.0;
                    self.timers.srtt = pruned.1;
                }
                self.send.una = hdr.ackn;
            }
        }
        assert(self@ =~= c2);
        if self.state == State::FinWait1 {
            if let Some(ca) = self.closed_at {
                if self.send.una == ca.wrapping_add(1) {
                    self.state = State::FinWait2;
                }
            }
        }
        assert(self@ =~= step_fw1(c2));
    }

    /// Data reception: appends the in-order bytes and acknowledges them.
    #[verifier::rlimit(50)]
    fn phase_data(&mut self, hdr: &SegmentHeader, data: &[u8], now: u64) -> (r: Option<SegmentOut>)
        requires
            data@.len() <= 1500,
        ensures
            final(self)@ == step_data(old(self)@, *hdr, data@, now).0,
            opt_out_match(old(self)@.rt, r, step_data(old(self)@, *hdr, data@, now).1),
    {
        let ghost c0 = self@;
        if data.len() > 0 && (self.state == State::Estab || self.state == State::FinWait1
            || self.state == State::FinWait2) {
            let skip0 = self.recv.nxt.wrapping_sub(hdr.seqn) as usize;
            let skipn = if skip0 > data.len() {
                0
            } else {
                skip0
            };
            let mut fresh = crate::segment::subvec(data, skipn, data.len());
            assert(fresh@ =~= data@.skip(skipn as int));
            self.incoming.append(&mut fresh);
            self.recv.nxt = hdr.seqn.wrapping_add(data.len() as u32);
            let sn = self.send.nxt;
            let seg = self.emit(sn, 0, false, false, now);
            proof {
                assert(self@ =~= step_data(c0, *hdr, data@, now).0);
            }
            Some(seg)
        } else {
            None
        }
    }

    /// FIN processing: only reached in FinWait2; consumes the FIN,
    /// acknowledges it and enters TimeWait.
    #[verifier::rlimit(50)]
    fn phase_fin(&mut self, hdr: &SegmentHeader, now: u64) -> (r: Option<SegmentOut>)
        ensures
            final(self)@ == step_fin(old(self)@, *hdr, now).0,
            opt_out_match(old(self)@.rt, r, step_fin(old(self)@, *hdr, now).1),
    {
        let ghost c0 = self@;
        if hdr.fin && self.state == State::FinWait2 {
            self.recv.nxt = self.recv.nxt.wrapping_add(1);
            let sn = self.send.nxt;
            let seg = self.emit(sn, 0, false, false, now);
            self.state = State::TimeWait;
            proof {
                assert(self@ =~= step_fin(c0, *hdr, now).0);
            }
            Some(seg)
        } else {
            None
        }
    }

    /// Handles one arriving segment for this connection, returning the
    /// segments to put on the wire in response.
    #[verifier::rlimit(50)]
    pub fn on_packet(&mut self, hdr: &SegmentHeader, data: &[u8], now: u64) -> (r: Vec<SegmentOut>)
        requires
            data@.len() <= 1500,
            step_packet_ok(old(self)@, *hdr, data@, now),
        ensures
            final(self)@ == step_packet(old(self)@, *hdr, data@, now).0,
            outs_match(old(self)@.rt, r@, step_packet(old(self)@, *hdr, data@, now).1),
    {
        let ghost c0 = self@;
        let mut out: Vec<SegmentOut> = Vec::new();
        let okay = self.seg_acceptable(hdr, data.len());
        if !okay {
            let sn = self.send.nxt;
            let seg = self.emit(sn, 0, false, false, now);
            out.push(seg);
            return out;
        }
        if !hdr.ack {
            if hdr.syn {
                self.recv.nxt = hdr.seqn.wrapping_add(1);
                proof {
                    assert(self@ =~= step_packet(c0, *hdr, data@, now).0);
                }
            }
            return out;
        }
        self.phase_ack(hdr, now);
        let ghost c3 = step_fw1(step_ack(step_syn_rcvd_ack(c0, hdr.ackn), *hdr, now));
        let ghost d = step_data(c3, *hdr, data@, now);
        let r_data = self.phase_data(hdr, data, now);
        if hdr.fin {
            assert(self.state == State::FinWait2);
        }
        let ghost f = step_fin(d.0, *hdr, now);
        let r_fin = self.phase_fin(hdr, now);
        if let Some(seg) = r_data {
            out.push(seg);
        }
        if let Some(seg) = r_fin {
            out.push(seg);
        }
        assert(out@.map_values(|o: SegmentOut| o@) =~= (d.1 + f.1));
        assert(outs_match(c0.rt, out@, d.1 + f.1));
        out
    }

    /// Whether an arriving segment lies inside the domain the machine
    /// defines (`step_packet_ok`): callers test this before dispatching
    /// and decide for themselves what to do with a segment outside it.
    pub fn packet_ok_check(&self, hdr: &SegmentHeader, data: &[u8], now: u64) -> (r: bool)
        requires
            data@.len() <= 1500,
        ensures
            r == step_packet_ok(self@, *hdr, data@, now),
    {
        let okay = self.seg_acceptable(hdr, data.len());
        if !okay {
            return true;
        }
        if !hdr.ack {
            return !hdr.syn || data.len() == 0;
        }
        let mut st = self.state;
        if st == State::SynRcvd && is_between_wrapped(
            self.send.una.wrapping_sub(1),
            hdr.ackn,
            self.send.nxt.wrapping_add(1),
        ) {
            st = State::Estab;
        }
        let una2 = if (st == State::Estab || st == State::FinWait1 || st == State::FinWait2)
            && is_between_wrapped(self.send.una, hdr.ackn, self.send.nxt.wrapping_add(1)) {
            hdr.ackn
        } else {
            self.send.una
        };
        if st == State::FinWait1 {
            if let Some(ca) = self.closed_at {
                if una2 == ca.wrapping_add(1) {
                    st = State::FinWait2;
                }
            }
        }
        proof {
            let c3 = step_fw1(step_ack(step_syn_rcvd_ack(self@, hdr.ackn), *hdr, now));
            assert(c3.state == st && c3.rcv_nxt == self@.rcv_nxt);
        }
        let cond_data = !(data.len() > 0 && (st == State::Estab || st == State::FinWait1 || st
            == State::FinWait2)) || (self.recv.nxt.wrapping_sub(hdr.seqn) as usize) <= data.len()
            + 1;
        let cond_fin = !hdr.fin || st == State::FinWait2;
        cond_data && cond_fin
    }

    /// Passive open: builds the connection a SYN for a bound port
    /// creates, together with the SYN+ACK answering it.
    pub fn accept(rt: Route, hdr: &SegmentHeader, now: u64) -> (r: Option<(Connection, SegmentOut)>)
        ensures
            match r {
                None => !hdr.syn,
                Some((c, s)) => {
                    &&& hdr.syn
                    &&& step_accept(rt, *hdr, now) matches Some(m)
                    &&& c@ == m.0
                    &&& s@ == m.1
                    &&& seg_frame_ok(rt, s)
                    &&& wf(c@)
                },
            },
    {
        if !hdr.syn {
            return None;
        }
        let mut c = Connection {
            state: State::SynRcvd,
            send: SendSequenceSpace { iss: 0, una: 0, nxt: 0, wnd: hdr.wnd },
            recv: RecvSequenceSpace { nxt: hdr.seqn.wrapping_add(1), wnd: RECV_WND },
            route: rt,
            timers: Timers { send_times: Vec::new(), srtt: INIT_SRTT_MICROS },
            unacked: Vec::new(),
            incoming: Vec::new(),
            closed: false,
            closed_at: None,
        };
        let ghost m0 = c@;
        let ghost spec_c = ConnModel {
            state: State::SynRcvd,
            iss: 0,
            una: 0,
            nxt: 0,
            wnd: hdr.wnd,
            rcv_nxt: seq_add(hdr.seqn, 1),
            rcv_wnd: RECV_WND,
            rt,
            times: Seq::empty(),
            srtt: INIT_SRTT_MICROS,
            unacked: Seq::empty(),
            incoming: Seq::empty(),
            closed: false,
            closed_at: None,
        };
        proof {
            assert(m0 =~= spec_c);
        }
        let s = c.emit(0, 0, true, false, now);
        proof {
            assert(step_accept(rt, *hdr, now) == Some(step_emit(spec_c, 0, 0, true, false, now)));
            assert(emit_payload(m0, 0, 0).len() == 0);
            assert(c@.times =~= seq![(0u32, now)]);
            assert(wf(c@));
        }
        Some((c, s))
    }

    /// A local shutdown request from the application.
    pub fn close(&mut self) -> (r: Result<(), TcpError>)
        ensures
            final(self)@ == step_close(old(self)@).0,
            r is Ok <==> step_close(old(self)@).1,
            r is Err ==> r == Result::<(), TcpError>::Err(TcpError::NotConnected),
            wf(old(self)@) ==> wf(final(self)@),
    {
        self.closed = true;
        match self.state {
            State::SynRcvd | State::Estab => {
                self.state = State::FinWait1;
                Ok(())
            },
            State::FinWait1 | State::FinWait2 => Ok(()),
            State::TimeWait => Err(TcpError::NotConnected),
        }
    }

    /// One timer tick: decides whether to retransmit from SND.UNA or to
    /// send fresh bytes (possibly flagging the FIN), and emits at most
    /// one segment.
    #[verifier::rlimit(100)]
    #[verifier::spinoff_prover]
    pub fn on_tick(&mut self, now: u64) -> (r: Option<SegmentOut>)
        ensures
            final(self)@ == step_tick(old(self)@, now).0,
            match (r, step_tick(old(self)@, now).1) {
                (Some(o), Some(m)) => o@ == m && seg_frame_ok(old(self)@.rt, o),
                (None, None) => true,
                _ => false,
            },
    {
        let ghost c0 = self@;
        if self.state == State::FinWait2 || self.state == State::TimeWait {
            return None;
        }
        let base = match self.closed_at {
            Some(ca) => ca,
            None => self.send.nxt,
        };
        let nunacked = base.wrapping_sub(self.send.una) as usize;
        let nunsent = if self.unacked.len() >= nunacked {
            self.unacked.len() - nunacked
        } else {
            0
        };
        assert(nunacked == tick_nunacked(c0) && nunsent == tick_nunsent(c0));
        let retrans = match st_first_exec(&self.timers.send_times, self.send.una) {
            Some((_k, t)) => {
                let w = elapsed_exec(now, t);
                w > MIN_RETRANS_WAIT_MICROS && 2u128 * (w as u128) > 3u128 * (
                self.timers.srtt as u128)
            },
            None => false,
        };
        assert(retrans == tick_retransmit(c0, now));
        if retrans {
            let wnd = self.send.wnd as usize;
            let resend = if self.unacked.len() < wnd {
                self.unacked.len()
            } else {
                wnd
            };
            let setfin = resend < wnd && self.closed && self.closed_at.is_none();
            if setfin {
                self.closed_at = Some(self.send.una.wrapping_add(self.unacked.len() as u32));
            }
            let sn = self.send.una;
            let seg = self.emit(sn, resend, false, setfin, now);
            proof {
                assert(self@ =~= step_tick(c0, now).0);
            }
            Some(seg)
        } else {
            if nunsent == 0 && self.closed_at.is_some() {
                return None;
            }
            let wnd = self.send.wnd as usize;
            let allowed = if wnd >= nunacked {
                wnd - nunacked
            } else {
                0
            };
            if allowed == 0 {
                return None;
            }
            let sendn = if nunsent < allowed {
                nunsent
            } else {
                allowed
            };
            let setfin = sendn < allowed && self.closed && self.closed_at.is_none();
            if setfin {
                self.closed_at = Some(self.send.una.wrapping_add(self.unacked.len() as u32));
            }
            let sn = self.send.nxt;
            let seg = self.emit(sn, sendn, false, setfin, now);
            proof {
                assert(self@ =~= step_tick(c0, now).0);
            }
            Some(seg)
        }
    }

    /// The receive side is closed once the peer's FIN has been consumed.
    pub fn is_recv_closed(&self) -> (r: bool)
        ensures
            r == (self@.state == State::TimeWait),
    {
        self.state == State::TimeWait
    }

    /// What a blocked application thread could now do with this
    /// connection: a read is available once data is buffered or the
    /// receive side is closed.
    pub fn availability(&self) -> (a: Available)
        ensures
            a.read == (self@.state == State::TimeWait || self@.incoming.len() > 0),
            !a.write,
    {
        Available { read: self.is_recv_closed() || self.incoming.len() > 0, write: false }
    }

    /// Appends application bytes to the send buffer, up to its capacity;
    /// refuses outright when the buffer is full. The buffer never
    /// exceeds its capacity afterwards.
    pub fn push_app_bytes(&mut self, buf: &[u8]) -> (r: Result<usize, TcpError>)
        requires
            old(self)@.unacked.len() <= SENDQUEUE_SIZE,
        ensures
            match r {
                Ok(n) => {
                    &&& old(self)@.unacked.len() < SENDQUEUE_SIZE
                    &&& n == nmin(buf@.len(), (SENDQUEUE_SIZE - old(self)@.unacked.len()) as nat)
                    &&& final(self)@ == (ConnModel {
                        unacked: old(self)@.unacked + buf@.take(n as int),
                        ..old(self)@
                    })
                },
                Err(e) => {
                    &&& e == TcpError::WouldBlock
                    &&& old(self)@.unacked.len() >= SENDQUEUE_SIZE
                    &&& final(self)@ == old(self)@
                },
            },
            final(self)@.unacked.len() <= SENDQUEUE_SIZE,
            wf(old(self)@) ==> wf(final(self)@),
    {
        if self.unacked.len() >= SENDQUEUE_SIZE {
            return Err(TcpError::WouldBlock);
        }
        let room = SENDQUEUE_SIZE - self.unacked.len();
        let n = if buf.len() < room {
            buf.len()
        } else {
            room
        };
        let mut chunk = crate::segment::subvec(buf, 0, n);
        assert(chunk@ =~= buf@.take(n as int));
        self.unacked.append(&mut chunk);
        proof {
            assert(self@ =~= (ConnModel { unacked: old(self)@.unacked + buf@.take(n as int), ..old(
                self,
            )@ }));
        }
        Ok(n)
    }

    /// Removes and returns up to `n` bytes from the front of the receive
    /// buffer, in order.
    pub fn take_incoming(&mut self, n: usize) -> (r: Vec<u8>)
        ensures
            r@ == old(self)@.incoming.take(nmin(n as nat, old(self)@.incoming.len()) as int),
            final(self)@ == (ConnModel {
                incoming: old(self)@.incoming.skip(
                    nmin(n as nat, old(self)@.incoming.len()) as int,
                ),
                ..old(self)@
            }),
            wf(old(self)@) ==> wf(final(self)@),
    {
        let m = if n < self.incoming.len() {
            n
        } else {
            self.incoming.len()
        };
        let head = crate::segment::subvec(self.incoming.as_slice(), 0, m);
        let rest = self.incoming.split_off(m);
        self.incoming = rest;
        assert(head@ =~= old(self)@.incoming.take(nmin(n as nat, old(self)@.incoming.len()) as int));
        proof {
            assert(self@ =~= (ConnModel {
                incoming: old(self)@.incoming.skip(
                    nmin(n as nat, old(self)@.incoming.len()) as int,
                ),
                ..old(self)@
            }));
        }
        head
    }
}

// ---------------------------------------------------------------------
// Invariant preservation
// ---------------------------------------------------------------------

/// Wrapped distances compose: stepping `d` forward from `a` moves the
/// distance from `b` up by `d`, as long as the sum does not wrap.
pub proof fn lemma_sub_add(a: u32, b: u32, d: u32)
    requires
        (seq_sub(a, b) as nat) + (d as nat) < 0x1_0000_0000,
    ensures
        seq_sub(seq_add(a, d), b) == seq_sub(a, b) + d,
{
}

/// An in-range acknowledgment splits the unacknowledged distance: the
/// acknowledged part and the remainder add up to the whole.
pub proof fn lemma_ack_chain(una: u32, ackn: u32, nxt: u32, s: nat)
    requires
        spec_between(una, ackn, seq_add(nxt, 1)),
        seq_sub(nxt, una) as nat <= s,
        s < 0x8000_0000,
    ensures
        1 <= seq_sub(ackn, una) as nat,
        seq_sub(ackn, una) as nat <= seq_sub(nxt, una) as nat,
        seq_sub(nxt, ackn) as nat == seq_sub(nxt, una) as nat - seq_sub(ackn, una) as nat,
{
}

/// Every entry kept by pruning is an entry of the map it started from.
proof fn lemma_st_prune_elems(s: Seq<(u32, u64)>, una: u32, ackn: u32, srtt: u64, now: u64)
    ensures
        forall|i: int|
            0 <= i < st_prune(s, una, ackn, srtt, now).0.len() ==> exists|j: int|
                0 <= j < s.len() && s[j] == #[trigger] st_prune(s, una, ackn, srtt, now).0[i],
    decreases s.len(),
{
    if s.len() == 0 {
    } else {
        let r = st_prune(s, una, ackn, srtt, now).0;
        if spec_between(una, s[0].0, ackn) {
            let srtt2 = srtt_next(srtt, elapsed_since(now, s[0].1));
            lemma_st_prune_elems(s.drop_first(), una, ackn, srtt2, now);
            assert forall|i: int| 0 <= i < r.len() implies exists|j: int|
                0 <= j < s.len() && s[j] == #[trigger] r[i] by {
                let t = st_prune(s.drop_first(), una, ackn, srtt2, now).0;
                assert(r[i] == t[i]);
                let j = choose|j: int| 0 <= j < s.drop_first().len() && s.drop_first()[j] == t[i];
                assert(s[j + 1] == r[i]);
            }
        } else {
            lemma_st_prune_elems(s.drop_first(), una, ackn, srtt, now);
            assert forall|i: int| 0 <= i < r.len() implies exists|j: int|
                0 <= j < s.len() && s[j] == #[trigger] r[i] by {
                if i == 0 {
                    assert(s[0] == r[0]);
                } else {
                    let t = st_prune(s.drop_first(), una, ackn, srtt, now).0;
                    assert(r[i] == t[i - 1]);
                    let j = choose|j: int|
                        0 <= j < s.drop_first().len() && s.drop_first()[j] == t[i - 1];
                    assert(s[j + 1] == r[i]);
                }
            }
        }
    }
}

/// Pruning preserves sortedness.
proof fn lemma_st_prune_sorted(s: Seq<(u32, u64)>, una: u32, ackn: u32, srtt: u64, now: u64)
    requires
        st_sorted(s),
    ensures
        st_sorted(st_prune(s, una, ackn, srtt, now).0),
    decreases s.len(),
{
    if s.len() == 0 {
    } else {
        assert(st_sorted(s.drop_first()));
        if spec_between(una, s[0].0, ackn) {
            lemma_st_prune_sorted(
                s.drop_first(),
                una,
                ackn,
                srtt_next(srtt, elapsed_since(now, s[0].1)),
                now,
            );
        } else {
            lemma_st_prune_sorted(s.drop_first(), una, ackn, srtt, now);
            lemma_st_prune_elems(s.drop_first(), una, ackn, srtt, now);
            let r = st_prune(s, una, ackn, srtt, now).0;
            let t = st_prune(s.drop_first(), una, ackn, srtt, now).0;
            assert forall|i: int, j: int| 0 <= i < j < r.len() implies r[i].0 < r[j].0 by {
                if i == 0 {
                    assert(r[j] == t[j - 1]);
                    let m = choose|m: int|
                        0 <= m < s.drop_first().len() && s.drop_first()[m] == t[j - 1];
                    assert(s[m + 1] == r[j]);
                } else {
                    assert(r[i] == t[i - 1] && r[j] == t[j - 1]);
                }
            }
        }
    }
}

/// An emission with a zero byte budget sent at SND.NXT (the immediate
/// acknowledgments of the ingress path) carries no payload and changes
/// nothing but the recorded send times.
pub proof fn lemma_step_emit_ack_only(c: ConnModel, now: u64)
    ensures
        step_emit(c, c.nxt, 0, false, false, now).0 == (ConnModel {
            times: st_insert(c.times, c.nxt, now),
            ..c
        }),
        step_emit(c, c.nxt, 0, false, false, now).1.payload.len() == 0,
        st_sorted(c.times) ==> st_sorted(step_emit(c, c.nxt, 0, false, false, now).0.times),
{
    assert(emit_payload(c, c.nxt, 0).len() == 0);
    assert(seq_add(c.nxt, 0) == c.nxt);
    assert(step_emit(c, c.nxt, 0, false, false, now).0 =~= (ConnModel {
        times: st_insert(c.times, c.nxt, now),
        ..c
    }));
    if st_sorted(c.times) {
        lemma_st_insert_sorted(c.times, c.nxt, now);
    }
}

/// The send-space invariant survives acknowledgment processing.
proof fn lemma_step_ack_wf(c: ConnModel, hdr: SegmentHeader, now: u64)
    requires
        wf(c),
    ensures
        wf(step_ack(c, hdr, now)),
        step_ack(c, hdr, now).state == c.state,
{
    if data_phase_state(c.state) {
        let c1 = if spec_between(seq_sub(c.una, 1), hdr.ackn, seq_add(c.nxt, 1)) {
            ConnModel { wnd: hdr.wnd, ..c }
        } else {
            c
        };
        if spec_between(c1.una, hdr.ackn, seq_add(c1.nxt, 1)) {
            let len = c1.unacked.len();
            lemma_ack_chain(c1.una, hdr.ackn, c1.nxt, (len + 2) as nat);
            let dist = seq_sub(hdr.ackn, c1.una) as nat;
            if c1.unacked.len() > 0 {
                let data_start = if c1.una == c1.iss {
                    seq_add(c1.una, 1)
                } else {
                    c1.una
                };
                let acked = nmin(seq_sub(hdr.ackn, data_start) as nat, c1.unacked.len());
                if c1.una == c1.iss {
                    lemma_sub_add(c1.una, c1.una, 1);
                    assert(seq_sub(hdr.ackn, data_start) as nat == dist - 1) by {
                        lemma_sub_shift(c1.una, hdr.ackn, dist);
                    }
                } else {
                    assert(seq_sub(hdr.ackn, data_start) as nat == dist);
                }
                lemma_st_prune_sorted(c1.times, c1.una, hdr.ackn, c1.srtt, now);
            }
        }
    }
}

/// Stepping the lower end of a wrapped distance forward by one reduces
/// the distance by one.
pub proof fn lemma_sub_shift(una: u32, ackn: u32, dist: nat)
    requires
        seq_sub(ackn, una) as nat == dist,
        1 <= dist,
    ensures
        seq_sub(ackn, seq_add(una, 1)) as nat == dist - 1,
{
}

/// In a well-formed connection SND.UNA is at most SND.NXT in wrapped
/// order: they are equal, or SND.UNA lies strictly below.
pub proof fn lemma_wf_una_le_nxt(c: ConnModel)
    requires
        wf(c),
    ensures
        c.una == c.nxt || spec_wrapping_lt(c.una, c.nxt),
{
}

/// The send-space invariant is preserved by every segment arrival the
/// handler is defined on.
pub proof fn lemma_step_packet_wf(c: ConnModel, hdr: SegmentHeader, data: Seq<u8>, now: u64)
    requires
        wf(c),
        data.len() <= 1500,
    ensures
        wf(step_packet(c, hdr, data, now).0),
{
    let slen = spec_slen(hdr, data.len());
    if !spec_acceptable(c.rcv_nxt, c.rcv_wnd, hdr.seqn, slen) {
        lemma_step_emit_ack_only(c, now);
    } else if !hdr.ack {
    } else {
        let c1 = step_syn_rcvd_ack(c, hdr.ackn);
        assert(wf(c1));
        lemma_step_ack_wf(c1, hdr, now);
        let c2 = step_ack(c1, hdr, now);
        let c3 = step_fw1(c2);
        assert(wf(c3));
        let d = step_data(c3, hdr, data, now);
        if data.len() > 0 && data_phase_state(c3.state) {
            let skip0 = seq_sub(c3.rcv_nxt, hdr.seqn) as nat;
            let skipn = if skip0 > data.len() {
                0nat
            } else {
                skip0
            };
            let c4 = ConnModel {
                incoming: c3.incoming + data.skip(skipn as int),
                rcv_nxt: seq_add(hdr.seqn, data.len() as u32),
                ..c3
            };
            assert(wf(c4));
            lemma_step_emit_ack_only(c4, now);
        }
        assert(wf(d.0));
        let f = step_fin(d.0, hdr, now);
        if hdr.fin && d.0.state == State::FinWait2 {
            let c5 = ConnModel { rcv_nxt: seq_add(d.0.rcv_nxt, 1), ..d.0 };
            assert(wf(c5));
            lemma_step_emit_ack_only(c5, now);
        }
        assert(wf(f.0));
    }
}

/// The send-space invariant is preserved by every timer tick.
#[verifier::rlimit(50)]
pub proof fn lemma_step_tick_wf(c: ConnModel, now: u64)
    requires
        wf(c),
    ensures
        wf(step_tick(c, now).0),
{
    if c.state == State::FinWait2 || c.state == State::TimeWait {
    } else {
        let nunacked = tick_nunacked(c);
        let nunsent = tick_nunsent(c);
        let len = c.unacked.len();
        if tick_retransmit(c, now) {
            let resend = nmin(len, c.wnd as nat);
            let setfin = resend < c.wnd as nat && c.closed && c.closed_at is None;
            let c1 = if setfin {
                ConnModel { closed_at: Some(seq_add(c.una, len as u32)), ..c }
            } else {
                c
            };
            assert(wf(c1));
            lemma_step_emit_wf(c1, c1.una, resend, setfin, now);
        } else {
            if nunsent == 0 && c.closed_at is Some {
            } else {
                let allowed = if c.wnd as nat >= nunacked {
                    (c.wnd as nat - nunacked) as nat
                } else {
                    0nat
                };
                if allowed == 0 {
                } else {
                    let sendn = nmin(nunsent, allowed);
                    let setfin = sendn < allowed && c.closed && c.closed_at is None;
                    let c1 = if setfin {
                        ConnModel { closed_at: Some(seq_add(c.una, len as u32)), ..c }
                    } else {
                        c
                    };
                    assert(wf(c1));
                    lemma_step_emit_wf(c1, c1.nxt, sendn, setfin, now);
                }
            }
        }
    }
}

/// An emission without a SYN preserves the send-space invariant: the
/// payload never reaches past the end of `unacked`, so SND.NXT stays
/// within the invariant's bound.
proof fn lemma_step_emit_wf(c: ConnModel, seqn: u32, limit: nat, fin: bool, now: u64)
    requires
        wf(c),
        fin ==> c.closed_at is Some && c.closed,
        fin ==> seq_sub(seqn, c.una) as nat <= c.unacked.len() + syn_pend(c),
        seqn == c.una || seqn == c.nxt,
    ensures
        wf(step_emit(c, seqn, limit, false, fin, now).0),
{
    lemma_st_insert_sorted(c.times, seqn, now);
    let payload = emit_payload(c, seqn, limit);
    let units = payload.len() + (if fin {
        1nat
    } else {
        0nat
    });
    let offset = seq_sub(seqn, c.una) as nat;
    assert(payload.len() == 0 || offset + payload.len() <= c.unacked.len());
    assert(((offset + units) as nat) < 0x1_0000_0000);
    lemma_sub_add(seqn, c.una, units as u32);
    let next_seq = seq_add(seqn, units as u32);
    assert(seq_sub(next_seq, c.una) as nat == offset + units);
    let bound = c.unacked.len() + syn_pend(c) + (if fin || c.closed_at is Some {
        1nat
    } else {
        0nat
    });
    assert(seq_sub(next_seq, c.una) as nat <= bound);
    let e0 = step_emit(c, seqn, limit, false, fin, now).0;
    assert(seq_sub(e0.nxt, c.una) as nat <= bound);
}

} // verus!
