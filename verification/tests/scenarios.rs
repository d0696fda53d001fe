//! End-to-end scenarios driven through the connection state machine:
//! handshake, data transfer, retransmission, orderly close, flow control
//! and segment acceptability.

use trust::conn::Connection;
use trust::conn::Route;
use trust::conn::State;
use trust::segment::SegmentHeader;
use trust::segment::SegmentOut;

const SEC: u64 = 1_000_000;

fn route() -> Route {
    Route { local_ip: 0x0a00_0002, local_port: 9000, peer_ip: 0x0a00_0001, peer_port: 43000 }
}

fn hdr(seqn: u32, ackn: u32, wnd: u16, syn: bool, ack: bool, fin: bool) -> SegmentHeader {
    SegmentHeader {
        src_port: 43000,
        dst_port: 9000,
        seqn,
        ackn,
        wnd,
        syn,
        ack,
        fin,
    }
}

/// Performs the passive-open handshake: SYN seq=1000 win=`wnd`, then the
/// peer's ACK of our SYN+ACK.
fn establish(wnd: u16, now: u64) -> Connection {
    let syn = hdr(1000, 0, wnd, true, false, false);
    let (mut c, synack) = Connection::accept(route(), &syn, now).expect("SYN must open");
    assert_eq!(synack.seqn, 0);
    assert_eq!(synack.ackn, 1001);
    assert!(synack.syn);
    assert_eq!(synack.wnd, 1024);
    assert_eq!(c.state, State::SynRcvd);
    let ack = hdr(1001, 1, wnd, false, true, false);
    let frames = c.on_packet(&ack, &[], now + 1);
    assert!(frames.is_empty());
    assert_eq!(c.state, State::Estab);
    c
}

#[test]
fn handshake() {
    let c = establish(4096, 0);
    assert_eq!(c.state, State::Estab);
    assert_eq!(c.send.una, 1);
    assert_eq!(c.send.nxt, 1);
    assert_eq!(c.send.wnd, 4096);
    assert_eq!(c.recv.nxt, 1001);
    assert_eq!(c.recv.wnd, 1024);
}

#[test]
fn syn_without_flag_is_refused() {
    let not_syn = hdr(1000, 0, 4096, false, false, false);
    assert!(Connection::accept(route(), &not_syn, 0).is_none());
}

#[test]
fn data_and_ack() {
    let mut c = establish(4096, 0);
    let seg = hdr(1001, 1, 4096, false, true, false);
    let frames = c.on_packet(&seg, b"hello", 10);
    assert_eq!(frames.len(), 1);
    assert_eq!(frames[0].seqn, 1);
    assert_eq!(frames[0].ackn, 1006);
    assert!(frames[0].payload.is_empty());
    let bytes = c.take_incoming(512);
    assert_eq!(bytes, b"hello".to_vec());
    assert_eq!(c.recv.nxt, 1006);
}

#[test]
fn write_and_retransmit() {
    let mut c = establish(4096, 0);
    let seg = hdr(1001, 1, 4096, false, true, false);
    c.on_packet(&seg, b"hello", 10);
    assert_eq!(c.push_app_bytes(b"hi").unwrap(), 2);
    let t1 = 20;
    let first = c.on_tick(t1).expect("tick must send the fresh bytes");
    assert_eq!(first.seqn, 1);
    assert_eq!(first.ackn, 1006);
    assert_eq!(first.payload, b"hi".to_vec());
    // No acknowledgment arrives within max(1 s, 1.5 * srtt).
    let t2 = t1 + 91 * SEC;
    let again = c.on_tick(t2).expect("tick must retransmit");
    assert_eq!(again.seqn, 1);
    assert_eq!(again.payload, b"hi".to_vec());
}

#[test]
fn orderly_close_local() {
    let mut c = establish(4096, 0);
    let seg = hdr(1001, 1, 4096, false, true, false);
    c.on_packet(&seg, b"hello", 10);
    assert_eq!(c.take_incoming(512), b"hello".to_vec());
    c.push_app_bytes(b"hi").unwrap();
    c.on_tick(20);
    // Peer acknowledges the two bytes.
    let ack2 = hdr(1006, 3, 4096, false, true, false);
    c.on_packet(&ack2, &[], 30);
    assert_eq!(c.send.una, 3);
    // The application shuts down; the next tick emits the FIN.
    c.close().unwrap();
    assert_eq!(c.state, State::FinWait1);
    let fin = c.on_tick(40).expect("tick must emit the FIN");
    assert!(fin.fin);
    assert_eq!(fin.seqn, 3);
    assert_eq!(fin.ackn, 1006);
    // Peer acknowledges our FIN.
    let ack3 = hdr(1006, 4, 4096, false, true, false);
    c.on_packet(&ack3, &[], 50);
    assert_eq!(c.state, State::FinWait2);
    // Peer's own FIN arrives.
    let peer_fin = hdr(1006, 4, 4096, false, true, true);
    let frames = c.on_packet(&peer_fin, &[], 60);
    assert_eq!(frames.len(), 1);
    assert_eq!(frames[0].seqn, 4);
    assert_eq!(frames[0].ackn, 1007);
    assert_eq!(c.state, State::TimeWait);
    assert!(c.is_recv_closed());
    // End of stream: a read returns no bytes.
    assert!(c.take_incoming(512).is_empty());
}

#[test]
fn window_zero_blocks_send() {
    let mut c = establish(0, 0);
    assert_eq!(c.push_app_bytes(&[7u8; 10]).unwrap(), 10);
    assert!(c.on_tick(10).is_none(), "a zero window must gate the send");
    // Peer opens the window to five bytes.
    let open = hdr(1001, 1, 5, false, true, false);
    let frames = c.on_packet(&open, &[], 20);
    assert!(frames.is_empty());
    assert_eq!(c.send.wnd, 5);
    let seg = c.on_tick(30).expect("an open window must release bytes");
    assert_eq!(seg.seqn, 1);
    assert_eq!(seg.payload.len(), 5);
}

#[test]
fn unacceptable_segment_gets_empty_ack() {
    let mut c = establish(4096, 0);
    let seg = hdr(1001, 1, 4096, false, true, false);
    c.on_packet(&seg, b"hello", 10);
    c.take_incoming(512);
    // Far outside [1006, 1006 + 1024).
    let bad = hdr(9000, 1, 4096, false, true, false);
    let frames = c.on_packet(&bad, b"x", 20);
    assert_eq!(frames.len(), 1);
    assert_eq!(frames[0].ackn, 1006);
    assert!(frames[0].payload.is_empty());
    assert!(c.incoming.is_empty(), "an unacceptable segment must not deliver data");
    assert_eq!(c.recv.nxt, 1006);
}

#[test]
fn pure_ack_twice_changes_nothing() {
    let mut c = establish(4096, 0);
    let seg = hdr(1001, 1, 4096, false, true, false);
    c.on_packet(&seg, b"hello", 10);
    c.push_app_bytes(b"hey").unwrap();
    c.on_tick(20);
    let ack = hdr(1006, 4, 4096, false, true, false);
    let f1 = c.on_packet(&ack, &[], 30);
    assert!(f1.is_empty());
    let una = c.send.una;
    let nxt = c.send.nxt;
    let wnd = c.send.wnd;
    let unacked = c.unacked.clone();
    let incoming = c.incoming.clone();
    let times = c.timers.send_times.clone();
    let srtt = c.timers.srtt;
    let f2 = c.on_packet(&ack, &[], 40);
    assert!(f2.is_empty());
    assert_eq!(c.send.una, una);
    assert_eq!(c.send.nxt, nxt);
    assert_eq!(c.send.wnd, wnd);
    assert_eq!(c.unacked, unacked);
    assert_eq!(c.incoming, incoming);
    assert_eq!(c.timers.send_times, times);
    assert_eq!(c.timers.srtt, srtt);
    assert_eq!(c.state, State::Estab);
}

#[test]
fn replayed_data_segment_appends_nothing() {
    let mut c = establish(4096, 0);
    let seg = hdr(1001, 1, 4096, false, true, false);
    c.on_packet(&seg, b"hello", 10);
    // The same segment again: every byte is already below RCV.NXT.
    let frames = c.on_packet(&seg, b"hello", 20);
    assert_eq!(frames.len(), 1, "a duplicate still gets an acknowledgment");
    assert_eq!(frames[0].ackn, 1006);
    assert_eq!(c.incoming, b"hello".to_vec());
    assert_eq!(c.recv.nxt, 1006);
}

#[test]
fn overlapping_segment_appends_only_new_bytes() {
    let mut c = establish(4096, 0);
    let seg = hdr(1001, 1, 4096, false, true, false);
    c.on_packet(&seg, b"hel", 10);
    // Retransmission of the whole run: three old bytes, two new ones.
    let seg2 = hdr(1001, 1, 4096, false, true, false);
    c.on_packet(&seg2, b"hello", 20);
    assert_eq!(c.incoming, b"hello".to_vec());
    assert_eq!(c.recv.nxt, 1006);
}

#[test]
fn srtt_smoothing_uses_ack_timing() {
    let mut c = establish(4096, 0);
    assert_eq!(c.timers.srtt, 60 * SEC);
    // Two segments in flight; pruning is strict at SND.UNA, so the
    // round-trip sample comes from the second one.
    c.push_app_bytes(b"abc").unwrap();
    c.on_tick(100);
    c.push_app_bytes(b"def").unwrap();
    let sent_at = 200;
    let second = c.on_tick(sent_at).unwrap();
    assert_eq!(second.seqn, 4);
    let acked_at = sent_at + 2 * SEC;
    let ack = hdr(1001, 7, 4096, false, true, false);
    c.on_packet(&ack, &[], acked_at);
    // One smoothing step: (4 * 60 s + 2 s) / 5, in microseconds.
    assert_eq!(c.timers.srtt, (4 * 60 * SEC + 2 * SEC) / 5);
    assert!(c.unacked.is_empty());
    assert_eq!(c.send.una, 7);
}

#[test]
fn sendqueue_is_capped() {
    let mut c = establish(4096, 0);
    let big = vec![9u8; 2000];
    assert_eq!(c.push_app_bytes(&big).unwrap(), 1024);
    assert_eq!(c.unacked.len(), 1024);
    let err = c.push_app_bytes(b"more").unwrap_err();
    assert_eq!(err, trust::conn::TcpError::WouldBlock);
    assert_eq!(c.unacked.len(), 1024);
}

#[test]
fn close_in_time_wait_is_refused() {
    let mut c = establish(4096, 0);
    c.close().unwrap();
    c.on_tick(10);
    let ackfin = hdr(1001, 2, 4096, false, true, false);
    c.on_packet(&ackfin, &[], 20);
    assert_eq!(c.state, State::FinWait2);
    let fin = hdr(1001, 2, 4096, false, true, true);
    c.on_packet(&fin, &[], 30);
    assert_eq!(c.state, State::TimeWait);
    assert_eq!(c.close().unwrap_err(), trust::conn::TcpError::NotConnected);
}

#[test]
fn availability_reports_readable_data() {
    let mut c = establish(4096, 0);
    assert!(!c.availability().read);
    let seg = hdr(1001, 1, 4096, false, true, false);
    c.on_packet(&seg, b"x", 10);
    assert!(c.availability().read);
    assert!(!c.availability().write);
}

fn frame_fields(seg: &SegmentOut) -> (u32, u32, bool, bool, u16, Vec<u8>) {
    let ip = etherparse::Ipv4HeaderSlice::from_slice(&seg.frame).expect("emitted frame is IPv4");
    assert_eq!(ip.protocol(), etherparse::IpNumber::TCP);
    let rest = &seg.frame[ip.slice().len()..];
    let tcp = etherparse::TcpHeaderSlice::from_slice(rest).expect("emitted frame carries TCP");
    let payload = rest[tcp.slice().len()..].to_vec();
    (
        tcp.sequence_number(),
        tcp.acknowledgment_number(),
        tcp.syn(),
        tcp.fin(),
        tcp.window_size(),
        payload,
    )
}

#[test]
fn emitted_frames_carry_the_chosen_fields() {
    let syn = hdr(1000, 0, 4096, true, false, false);
    let (mut c, synack) = Connection::accept(route(), &syn, 0).unwrap();
    let (seqn, ackn, is_syn, is_fin, wnd, payload) = frame_fields(&synack);
    assert_eq!(seqn, 0);
    assert_eq!(ackn, 1001);
    assert!(is_syn && !is_fin);
    assert_eq!(wnd, 1024);
    assert!(payload.is_empty());
    let ack = hdr(1001, 1, 4096, false, true, false);
    c.on_packet(&ack, &[], 1);
    let seg = hdr(1001, 1, 4096, false, true, false);
    c.on_packet(&seg, b"hello", 10);
    c.push_app_bytes(b"hi").unwrap();
    let out = c.on_tick(20).unwrap();
    let (seqn, ackn, is_syn, is_fin, _wnd, payload) = frame_fields(&out);
    assert_eq!(seqn, 1);
    assert_eq!(ackn, 1006);
    assert!(!is_syn && !is_fin);
    assert_eq!(payload, b"hi".to_vec());
}

#[test]
fn emitted_checksum_is_valid() {
    let syn = hdr(1000, 0, 4096, true, false, false);
    let (mut c, _synack) = Connection::accept(route(), &syn, 0).unwrap();
    let ack = hdr(1001, 1, 4096, false, true, false);
    c.on_packet(&ack, &[], 1);
    c.push_app_bytes(b"payload bytes").unwrap();
    let out = c.on_tick(10).unwrap();
    let ip = etherparse::Ipv4HeaderSlice::from_slice(&out.frame).unwrap();
    let rest = &out.frame[ip.slice().len()..];
    let tcp = etherparse::TcpHeaderSlice::from_slice(rest).unwrap();
    let payload = &rest[tcp.slice().len()..];
    let expected = tcp
        .to_header()
        .calc_checksum_ipv4_raw(ip.source(), ip.destination(), payload)
        .unwrap();
    assert_eq!(tcp.checksum(), expected);
}
