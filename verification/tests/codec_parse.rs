//! Frame parsing: raw IPv4+TCP frames built with `etherparse` go through
//! `parse_frame` and come back field for field; malformed, non-IPv4 and
//! non-TCP frames are refused.

use trust::conn::Connection;
use trust::conn::Route;
use trust::segment::parse_frame;
use trust::segment::SegmentHeader;

fn build_raw_frame(payload: &[u8]) -> Vec<u8> {
    let mut ip = etherparse::Ipv4Header::new(
        (20 + payload.len()) as u16,
        64,
        etherparse::IpNumber::TCP,
        [10, 0, 0, 1],
        [10, 0, 0, 2],
    )
    .unwrap();
    let mut tcp = etherparse::TcpHeader::new(43000, 9000, 7001, 2048);
    tcp.acknowledgment_number = 77;
    tcp.ack = true;
    tcp.fin = true;
    tcp.checksum = tcp.calc_checksum_ipv4(&ip, payload).unwrap();
    ip.header_checksum = ip.calc_header_checksum();
    let mut frame = Vec::new();
    ip.write(&mut frame).unwrap();
    tcp.write(&mut frame).unwrap();
    frame.extend_from_slice(payload);
    frame
}

#[test]
fn parse_frame_reads_every_field() {
    let frame = build_raw_frame(b"abc");
    let (q, h, payload) = parse_frame(&frame).expect("a well-formed frame parses");
    assert_eq!(q.src_ip, u32::from_be_bytes([10, 0, 0, 1]));
    assert_eq!(q.dst_ip, u32::from_be_bytes([10, 0, 0, 2]));
    assert_eq!(q.src_port, 43000);
    assert_eq!(q.dst_port, 9000);
    assert_eq!(h.seqn, 7001);
    assert_eq!(h.ackn, 77);
    assert_eq!(h.wnd, 2048);
    assert!(h.ack && h.fin && !h.syn);
    assert_eq!(payload, b"abc".to_vec());
}

#[test]
fn parse_frame_refuses_non_tcp() {
    let mut ip = etherparse::Ipv4Header::new(
        4,
        64,
        etherparse::IpNumber::UDP,
        [10, 0, 0, 1],
        [10, 0, 0, 2],
    )
    .unwrap();
    ip.header_checksum = ip.calc_header_checksum();
    let mut frame = Vec::new();
    ip.write(&mut frame).unwrap();
    frame.extend_from_slice(&[0, 0, 0, 0]);
    assert!(parse_frame(&frame).is_none());
}

#[test]
fn parse_frame_refuses_garbage() {
    assert!(parse_frame(&[0u8; 4]).is_none());
    assert!(parse_frame(&[0xffu8; 64]).is_none());
    assert!(parse_frame(&[]).is_none());
}

#[test]
fn parse_frame_refuses_truncated_tcp() {
    let frame = build_raw_frame(b"");
    // Cut into the TCP header.
    assert!(parse_frame(&frame[..25]).is_none());
}

#[test]
fn emitted_frame_parses_back() {
    let rt = Route { local_ip: 0x0a00_0002, local_port: 9000, peer_ip: 0x0a00_0001, peer_port: 43000 };
    let syn = SegmentHeader {
        src_port: 43000,
        dst_port: 9000,
        seqn: 5000,
        ackn: 0,
        wnd: 1024,
        syn: true,
        ack: false,
        fin: false,
    };
    let (_c, synack) = Connection::accept(rt, &syn, 0).unwrap();
    let (q, h, payload) = parse_frame(&synack.frame).expect("emitted frames parse");
    // The emitted frame travels the other way: its source is this endpoint.
    assert_eq!(q.src_ip, 0x0a00_0002);
    assert_eq!(q.src_port, 9000);
    assert_eq!(q.dst_ip, 0x0a00_0001);
    assert_eq!(q.dst_port, 43000);
    assert_eq!(h.seqn, 0);
    assert_eq!(h.ackn, 5001);
    assert!(h.syn && h.ack && !h.fin);
    assert!(payload.is_empty());
}
