//! The connection manager: binding, dispatch, the pending queue, and
//! the application-facing error cases.

use trust::conn::State;
use trust::conn::TcpError;
use trust::manager::ConnectionManager;
use trust::segment::Quad;
use trust::segment::SegmentHeader;

fn quad() -> Quad {
    Quad { src_ip: 0x0a00_0001, src_port: 43000, dst_ip: 0x0a00_0002, dst_port: 9000 }
}

fn hdr(seqn: u32, ackn: u32, wnd: u16, syn: bool, ack: bool, fin: bool) -> SegmentHeader {
    SegmentHeader {
        src_port: 43000,
        dst_port: 9000,
        seqn,
        ackn,
        wnd,
        syn,
        ack,
        fin,
    }
}

/// A manager with one established connection on port 9000.
fn established() -> (ConnectionManager, Quad) {
    let mut m = ConnectionManager::new();
    m.bind(9000).unwrap();
    let q = quad();
    let syn = hdr(1000, 0, 4096, true, false, false);
    let out = m.on_segment(&q, &syn, &[], 0).unwrap();
    assert!(out.new_pending);
    assert_eq!(out.frames.len(), 1);
    assert!(out.frames[0].syn);
    assert_eq!(m.accept_pop(9000), Some(q));
    let ack = hdr(1001, 1, 4096, false, true, false);
    let out = m.on_segment(&q, &ack, &[], 1).unwrap();
    assert!(out.frames.is_empty());
    assert!(!out.new_pending);
    (m, q)
}

#[test]
fn bind_twice_is_addr_in_use() {
    let mut m = ConnectionManager::new();
    m.bind(9000).unwrap();
    assert_eq!(m.bind(9000).unwrap_err(), TcpError::AddrInUse);
    assert!(m.bind(9001).is_ok());
}

#[test]
fn syn_for_unbound_port_is_dropped() {
    let mut m = ConnectionManager::new();
    let syn = hdr(1000, 0, 4096, true, false, false);
    let out = m.on_segment(&quad(), &syn, &[], 0).unwrap();
    assert!(out.frames.is_empty());
    assert!(!out.new_pending);
    assert!(m.accept_pop(9000).is_none());
}

#[test]
fn accept_flow_delivers_the_quad_once() {
    let (mut m, _q) = established();
    assert_eq!(m.accept_pop(9000), None, "the queue must hold each connection once");
}

#[test]
fn unknown_quad_operations_are_aborted() {
    let mut m = ConnectionManager::new();
    let q = quad();
    assert_eq!(m.read_from(&q, 16).unwrap_err(), TcpError::ConnectionAborted);
    assert_eq!(m.write_to(&q, b"x").unwrap_err(), TcpError::ConnectionAborted);
    assert_eq!(m.flush_check(&q).unwrap_err(), TcpError::ConnectionAborted);
    assert_eq!(m.shutdown(&q).unwrap_err(), TcpError::ConnectionAborted);
}

#[test]
fn read_write_roundtrip_through_manager() {
    let (mut m, q) = established();
    // No data yet: the reader would block.
    assert_eq!(m.read_from(&q, 64).unwrap(), None);
    let seg = hdr(1001, 1, 4096, false, true, false);
    let out = m.on_segment(&q, &seg, b"hello", 5).unwrap();
    assert!(out.read_ready);
    assert_eq!(out.frames.len(), 1);
    assert_eq!(out.frames[0].ackn, 1006);
    let bytes = m.read_from(&q, 64).unwrap().unwrap();
    assert_eq!(bytes, b"hello".to_vec());
    // Writes go out on the next tick round.
    assert_eq!(m.write_to(&q, b"hi").unwrap(), 2);
    assert_eq!(m.flush_check(&q).unwrap_err(), TcpError::ConnectionAborted);
    let frames = m.on_tick_all(10);
    assert_eq!(frames.len(), 1);
    assert_eq!(frames[0].payload, b"hi".to_vec());
    let ack = hdr(1006, 3, 4096, false, true, false);
    m.on_segment(&q, &ack, &[], 20).unwrap();
    assert!(m.flush_check(&q).is_ok());
}

#[test]
fn partial_read_keeps_the_rest_in_order() {
    let (mut m, q) = established();
    let seg = hdr(1001, 1, 4096, false, true, false);
    m.on_segment(&q, &seg, b"abcdef", 5).unwrap();
    assert_eq!(m.read_from(&q, 2).unwrap().unwrap(), b"ab".to_vec());
    assert_eq!(m.read_from(&q, 2).unwrap().unwrap(), b"cd".to_vec());
    assert_eq!(m.read_from(&q, 64).unwrap().unwrap(), b"ef".to_vec());
    assert_eq!(m.read_from(&q, 64).unwrap(), None);
}

#[test]
fn write_against_full_buffer_would_block() {
    let (mut m, q) = established();
    assert_eq!(m.write_to(&q, &[1u8; 4096]).unwrap(), 1024);
    assert_eq!(m.write_to(&q, b"x").unwrap_err(), TcpError::WouldBlock);
}

#[test]
fn fin_in_estab_is_surfaced_not_dispatched() {
    let (mut m, q) = established();
    let fin = hdr(1001, 1, 4096, false, true, true);
    assert!(m.on_segment(&q, &fin, &[], 5).is_err());
    // The connection is untouched: data can still arrive.
    let seg = hdr(1001, 1, 4096, false, true, false);
    let out = m.on_segment(&q, &seg, b"ok", 6).unwrap();
    assert!(out.read_ready);
}

#[test]
fn shutdown_then_teardown_through_manager() {
    let (mut m, q) = established();
    m.shutdown(&q).unwrap();
    let frames = m.on_tick_all(10);
    assert_eq!(frames.len(), 1);
    assert!(frames[0].fin);
    let ack = hdr(1001, 2, 4096, false, true, false);
    m.on_segment(&q, &ack, &[], 20).unwrap();
    let fin = hdr(1001, 2, 4096, false, true, true);
    let out = m.on_segment(&q, &fin, &[], 30).unwrap();
    assert!(out.read_ready, "a closed receive side wakes blocked readers");
    // End of stream: an empty read.
    assert_eq!(m.read_from(&q, 64).unwrap().unwrap(), Vec::<u8>::new());
}

#[test]
fn unbind_returns_unaccepted_connections() {
    let mut m = ConnectionManager::new();
    m.bind(9000).unwrap();
    let syn = hdr(1000, 0, 4096, true, false, false);
    m.on_segment(&quad(), &syn, &[], 0).unwrap();
    let left = m.unbind(9000).unwrap();
    assert_eq!(left, vec![quad()]);
    assert!(m.unbind(9000).is_none());
    assert!(!m.port_bound(9000));
}

#[test]
fn terminate_flag_is_sticky() {
    let mut m = ConnectionManager::new();
    assert!(!m.is_terminated());
    m.set_terminate();
    assert!(m.is_terminated());
}

#[test]
fn ticks_drive_every_connection() {
    let mut m = ConnectionManager::new();
    m.bind(9000).unwrap();
    let q1 = quad();
    let q2 = Quad { src_port: 43001, ..quad() };
    let syn1 = hdr(1000, 0, 4096, true, false, false);
    let syn2 = SegmentHeader { src_port: 43001, ..syn1 };
    m.on_segment(&q1, &syn1, &[], 0).unwrap();
    m.on_segment(&q2, &syn2, &[], 0).unwrap();
    let ack = hdr(1001, 1, 4096, false, true, false);
    m.on_segment(&q1, &ack, &[], 1).unwrap();
    m.on_segment(&q2, &SegmentHeader { src_port: 43001, ..ack }, &[], 1).unwrap();
    m.write_to(&q1, b"one").unwrap();
    m.write_to(&q2, b"two").unwrap();
    let frames = m.on_tick_all(10);
    assert_eq!(frames.len(), 2);
    assert_eq!(frames[0].payload, b"one".to_vec());
    assert_eq!(frames[1].payload, b"two".to_vec());
    // The state of each connection advanced independently.
    assert_eq!(m.connections.len(), 2);
    assert_eq!(m.connections[0].1.state, State::Estab);
    assert_eq!(m.connections[1].1.state, State::Estab);
}
