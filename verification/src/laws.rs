//! Laws of the state machine, proved over the spec-level transitions
//! that every executable method is held to.

use vstd::prelude::*;

use crate::conn::ConnModel;
use crate::conn::State;
use crate::conn::data_phase_state;
use crate::conn::elapsed_since;
use crate::conn::emit_payload;
use crate::conn::spec_acceptable;
use crate::conn::spec_slen;
use crate::conn::srtt_next;
use crate::conn::st_prune;
use crate::conn::step_data;
use crate::conn::step_emit;
use crate::conn::step_packet;
use crate::conn::step_packet_ok;
use crate::conn::wf;
use crate::segment::SegmentHeader;
use crate::seqnum::seq_add;
use crate::seqnum::seq_sub;
use crate::seqnum::spec_between;
use crate::seqnum::spec_wrapping_lt;

verus! {

/// Acknowledgment idempotence: delivering the same acceptable pure
/// acknowledgment (no payload, no SYN, no FIN) a second time changes no
/// state and emits nothing, whatever the clock then reads.
pub proof fn lemma_ack_idempotent(c: ConnModel, hdr: SegmentHeader, now: u64, now2: u64)
    requires
        wf(c),
        hdr.ack,
        !hdr.syn,
        !hdr.fin,
        spec_acceptable(c.rcv_nxt, c.rcv_wnd, hdr.seqn, 0),
    ensures
        ({
            let c1 = step_packet(c, hdr, Seq::empty(), now).0;
            &&& step_packet(c1, hdr, Seq::empty(), now2).0 == c1
            &&& step_packet(c1, hdr, Seq::empty(), now2).1 =~= Seq::<
                crate::segment::SegModel,
            >::empty()
        }),
{
    let c1 = step_packet(c, hdr, Seq::empty(), now).0;
    assert(spec_slen(hdr, 0) == 0);
    assert(c1.rcv_nxt == c.rcv_nxt && c1.rcv_wnd == c.rcv_wnd);
    let c2 = step_packet(c1, hdr, Seq::empty(), now2).0;
    assert(c2 =~= c1);
}

/// The advertised receive edge never moves backward: one segment arrival
/// leaves RCV.WND unchanged and advances RCV.NXT forward in wrapped
/// order, by at most the segment's length in sequence units plus the
/// receive window.
pub proof fn lemma_recv_edge_monotone(c: ConnModel, hdr: SegmentHeader, data: Seq<u8>, now: u64)
    requires
        wf(c),
        data.len() <= 1500,
        step_packet_ok(c, hdr, data, now),
    ensures
        step_packet(c, hdr, data, now).0.rcv_wnd == c.rcv_wnd,
        (seq_sub(step_packet(c, hdr, data, now).0.rcv_nxt, c.rcv_nxt) as nat) <= data.len()
            + c.rcv_wnd + 2,
{
    let slen = spec_slen(hdr, data.len());
    let okay = spec_acceptable(c.rcv_nxt, c.rcv_wnd, hdr.seqn, slen);
    if !okay {
    } else if !hdr.ack {
        if hdr.syn {
            assert(data.len() == 0);
            let wend = seq_add(c.rcv_nxt, c.rcv_wnd as u32);
            assert(spec_between(seq_sub(c.rcv_nxt, 1), hdr.seqn, wend) || spec_between(
                seq_sub(c.rcv_nxt, 1),
                seq_add(hdr.seqn, (slen - 1) as u32),
                wend,
            ));
            assert((seq_sub(seq_add(hdr.seqn, 1), c.rcv_nxt) as nat) <= c.rcv_wnd + 2);
        }
    } else {
        let c3 = crate::conn::step_fw1(
            crate::conn::step_ack(crate::conn::step_syn_rcvd_ack(c, hdr.ackn), hdr, now),
        );
        assert(c3.rcv_nxt == c.rcv_nxt && c3.rcv_wnd == c.rcv_wnd);
        let d = step_data(c3, hdr, data, now);
        if data.len() > 0 && data_phase_state(c3.state) {
            let skip0 = seq_sub(c.rcv_nxt, hdr.seqn) as nat;
            assert(skip0 <= data.len() + 1);
            if skip0 <= data.len() {
                assert((seq_sub(d.0.rcv_nxt, c.rcv_nxt) as nat) <= data.len());
            } else {
                assert(hdr.fin);
            }
        }
        let f = crate::conn::step_fin(d.0, hdr, now);
        if hdr.fin && d.0.state == State::FinWait2 {
            assert(f.0.rcv_nxt == seq_add(d.0.rcv_nxt, 1));
        }
    }
}

/// Retransmission preserves the stream: replaying a data segment whose
/// bytes were all received before appends nothing to `incoming` and
/// leaves RCV.NXT where it was.
pub proof fn lemma_replay_is_noop(c: ConnModel, hdr: SegmentHeader, data: Seq<u8>, now: u64)
    requires
        data.len() > 0,
        seq_sub(c.rcv_nxt, hdr.seqn) as nat == data.len(),
    ensures
        step_data(c, hdr, data, now).0.incoming == c.incoming,
        step_data(c, hdr, data, now).0.rcv_nxt == c.rcv_nxt,
{
    if data_phase_state(c.state) {
        let d = step_data(c, hdr, data, now);
        assert(data.skip(data.len() as int) =~= Seq::<u8>::empty());
        assert(d.0.incoming =~= c.incoming);
        assert(seq_add(hdr.seqn, data.len() as u32) == c.rcv_nxt);
    }
}

/// Stream correspondence: reading the peer's transmitted bytes as one
/// stream starting just past its initial sequence number, suppose the
/// bytes consumed by reads so far followed by `incoming` form the prefix
/// of that stream up to RCV.NXT, and a data segment carries exactly the
/// stream slice its sequence numbers name, overlapping or abutting what
/// was already received. Then after the segment is processed the same
/// correspondence holds: nothing is duplicated, dropped or reordered.
pub proof fn lemma_data_preserves_stream(
    c: ConnModel,
    hdr: SegmentHeader,
    data: Seq<u8>,
    now: u64,
    stream: Seq<u8>,
    irs: u32,
    consumed: nat,
)
    requires
        data_phase_state(c.state),
        data.len() > 0,
        data.len() <= 1500,
        stream.len() < 0x1_0000_0000,
        seq_sub(c.rcv_nxt, seq_add(irs, 1)) as nat == consumed + c.incoming.len(),
        consumed + c.incoming.len() <= stream.len(),
        c.incoming == stream.subrange(
            consumed as int,
            (consumed + c.incoming.len()) as int,
        ),
        seq_sub(hdr.seqn, seq_add(irs, 1)) as nat + data.len() <= stream.len(),
        data == stream.subrange(
            seq_sub(hdr.seqn, seq_add(irs, 1)) as int,
            (seq_sub(hdr.seqn, seq_add(irs, 1)) as nat + data.len()) as int,
        ),
        seq_sub(c.rcv_nxt, hdr.seqn) as nat <= data.len(),
        seq_sub(hdr.seqn, seq_add(irs, 1)) as nat + (seq_sub(c.rcv_nxt, hdr.seqn) as nat) == (
        seq_sub(c.rcv_nxt, seq_add(irs, 1)) as nat),
    ensures
        ({
            let d0 = step_data(c, hdr, data, now).0;
            &&& seq_sub(d0.rcv_nxt, seq_add(irs, 1)) as nat == consumed + d0.incoming.len()
            &&& consumed + d0.incoming.len() <= stream.len()
            &&& d0.incoming == stream.subrange(
                consumed as int,
                (consumed + d0.incoming.len()) as int,
            )
        }),
{
    let pos = seq_sub(hdr.seqn, seq_add(irs, 1)) as nat;
    let skip0 = seq_sub(c.rcv_nxt, hdr.seqn) as nat;
    let d0 = step_data(c, hdr, data, now).0;
    assert(d0.incoming == c.incoming + data.skip(skip0 as int));
    assert(d0.rcv_nxt == seq_add(hdr.seqn, data.len() as u32));
    crate::conn::lemma_sub_add(hdr.seqn, seq_add(irs, 1), data.len() as u32);
    assert(seq_sub(d0.rcv_nxt, seq_add(irs, 1)) as nat == pos + data.len());
    assert(d0.incoming =~= stream.subrange(consumed as int, (pos + data.len()) as int)) by {
        assert(data.skip(skip0 as int) =~= stream.subrange(
            (pos + skip0) as int,
            (pos + data.len()) as int,
        ));
        assert(c.incoming =~= stream.subrange(consumed as int, (pos + skip0) as int));
    }
}

/// The companion of `lemma_data_preserves_stream` for the read side: a
/// read hands out the next bytes of the peer's stream, in order, and
/// the correspondence survives with the consumed count advanced.
/// Together the two say that successive reads, concatenated, are a
/// prefix of the peer's transmitted stream.
pub proof fn lemma_read_preserves_stream(
    c: ConnModel,
    n: nat,
    stream: Seq<u8>,
    irs: u32,
    consumed: nat,
)
    requires
        seq_sub(c.rcv_nxt, seq_add(irs, 1)) as nat == consumed + c.incoming.len(),
        consumed + c.incoming.len() <= stream.len(),
        c.incoming == stream.subrange(consumed as int, (consumed + c.incoming.len()) as int),
    ensures
        ({
            let k = crate::conn::nmin(n, c.incoming.len());
            &&& c.incoming.take(k as int) == stream.subrange(
                consumed as int,
                (consumed + k) as int,
            )
            &&& seq_sub(c.rcv_nxt, seq_add(irs, 1)) as nat == (consumed + k) + c.incoming.skip(
                k as int,
            ).len()
            &&& c.incoming.skip(k as int) == stream.subrange(
                (consumed + k) as int,
                ((consumed + k) + c.incoming.skip(k as int).len()) as int,
            )
        }),
{
    let k = crate::conn::nmin(n, c.incoming.len());
    assert(c.incoming.take(k as int) =~= stream.subrange(consumed as int, (consumed + k) as int));
    assert(c.incoming.skip(k as int) =~= stream.subrange(
        (consumed + k) as int,
        ((consumed + k) + c.incoming.skip(k as int).len()) as int,
    ));
}

/// Every entry that survives acknowledgment pruning is an entry of the
/// map it started from whose key is not strictly between SND.UNA and
/// the acknowledgment; every such entry survives. Pruning removes
/// exactly the acknowledged sends.
pub proof fn lemma_st_prune_exact(s: Seq<(u32, u64)>, una: u32, ackn: u32, srtt: u64, now: u64)
    ensures
        forall|i: int|
            0 <= i < st_prune(s, una, ackn, srtt, now).0.len() ==> (exists|j: int|
                0 <= j < s.len() && s[j] == #[trigger] st_prune(s, una, ackn, srtt, now).0[i])
                && !spec_between(una, st_prune(s, una, ackn, srtt, now).0[i].0, ackn),
        forall|j: int|
            0 <= j < s.len() && !spec_between(una, (#[trigger] s[j]).0, ackn) ==> exists|i: int|
                0 <= i < st_prune(s, una, ackn, srtt, now).0.len() && st_prune(
                    s,
                    una,
                    ackn,
                    srtt,
                    now,
                ).0[i] == s[j],
    decreases s.len(),
{
    if s.len() == 0 {
    } else {
        let r = st_prune(s, una, ackn, srtt, now).0;
        if spec_between(una, s[0].0, ackn) {
            let srtt2 = srtt_next(srtt, elapsed_since(now, s[0].1));
            lemma_st_prune_exact(s.drop_first(), una, ackn, srtt2, now);
            let t = st_prune(s.drop_first(), una, ackn, srtt2, now).0;
            assert forall|i: int| 0 <= i < r.len() implies (exists|j: int|
                0 <= j < s.len() && s[j] == #[trigger] r[i]) && !spec_between(una, r[i].0, ackn) by {
                assert(r[i] == t[i]);
                let j = choose|j: int| 0 <= j < s.drop_first().len() && s.drop_first()[j] == t[i];
                assert(s[j + 1] == r[i]);
            }
            assert forall|j: int|
                0 <= j < s.len() && !spec_between(una, (#[trigger] s[j]).0, ackn) implies exists|
                i: int,
            | 0 <= i < r.len() && r[i] == s[j] by {
                assert(j >= 1);
                assert(s.drop_first()[j - 1] == s[j]);
                let i = choose|i: int| 0 <= i < t.len() && t[i] == s.drop_first()[j - 1];
                assert(r[i] == s[j]);
            }
        } else {
            lemma_st_prune_exact(s.drop_first(), una, ackn, srtt, now);
            let t = st_prune(s.drop_first(), una, ackn, srtt, now).0;
            assert forall|i: int| 0 <= i < r.len() implies (exists|j: int|
                0 <= j < s.len() && s[j] == #[trigger] r[i]) && !spec_between(una, r[i].0, ackn) by {
                if i == 0 {
                    assert(s[0] == r[0]);
                } else {
                    assert(r[i] == t[i - 1]);
                    let j = choose|j: int|
                        0 <= j < s.drop_first().len() && s.drop_first()[j] == t[i - 1];
                    assert(s[j + 1] == r[i]);
                }
            }
            assert forall|j: int|
                0 <= j < s.len() && !spec_between(una, (#[trigger] s[j]).0, ackn) implies exists|
                i: int,
            | 0 <= i < r.len() && r[i] == s[j] by {
                if j == 0 {
                    assert(r[0] == s[0]);
                } else {
                    assert(s.drop_first()[j - 1] == s[j]);
                    let i = choose|i: int| 0 <= i < t.len() && t[i] == s.drop_first()[j - 1];
                    assert(r[i + 1] == s[j]);
                }
            }
        }
    }
}

/// Every emission that occupies sequence space — payload bytes, a SYN or
/// a FIN — records its send time at a sequence number at or above
/// SND.UNA and strictly below the SND.NXT it leaves behind. (An empty
/// acknowledgment records its time at exactly SND.NXT, one past that
/// range.)
pub proof fn lemma_send_time_recorded_in_window(
    c: ConnModel,
    seqn: u32,
    limit: nat,
    syn: bool,
    fin: bool,
    now: u64,
)
    requires
        wf(c),
        seqn == c.una || seqn == c.nxt,
    ensures
        ({
            let e = step_emit(c, seqn, limit, syn, fin, now);
            (emit_payload(c, seqn, limit).len() + (if syn {
                1nat
            } else {
                0nat
            }) + (if fin {
                1nat
            } else {
                0nat
            })) > 0 ==> spec_between(seq_sub(c.una, 1), seqn, e.0.nxt)
        }),
{
    let payload = emit_payload(c, seqn, limit);
    let units = payload.len() + (if syn {
        1nat
    } else {
        0nat
    }) + (if fin {
        1nat
    } else {
        0nat
    });
    if units > 0 {
        let offset = seq_sub(seqn, c.una) as nat;
        assert(payload.len() == 0 || offset + payload.len() <= c.unacked.len());
        crate::conn::lemma_sub_add(seqn, c.una, units as u32);
        let next_seq = seq_add(seqn, units as u32);
        assert(seq_sub(next_seq, c.una) as nat == offset + units);
        let e0 = step_emit(c, seqn, limit, syn, fin, now).0;
        assert(spec_wrapping_lt(seqn, e0.nxt));
        assert(spec_wrapping_lt(seq_sub(c.una, 1), seqn));
    }
}

} // verus!
