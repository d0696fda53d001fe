//! The segment codec: building outgoing IPv4+TCP frames and parsing
//! incoming ones.
//!
//! Header serialization, header parsing and the TCP checksum are done by
//! the `etherparse` crate behind trusted wrappers; each such result is a
//! pure function of its arguments and carries an uninterpreted name so
//! that callers can state exactly how a frame is assembled. Everything
//! around those calls — frame assembly, protocol demultiplexing, payload
//! extraction — is verified.

use vstd::prelude::*;

verus! {

/// The connection key: peer address and port (`src`, as they appear in an
/// arriving packet) and local address and port (`dst`).
#[derive(Clone, Copy, PartialEq, Eq, Structural, Debug)]
pub struct Quad {
    pub src_ip: u32,
    pub src_port: u16,
    pub dst_ip: u32,
    pub dst_port: u16,
}

/// The fields of a received TCP header that the state machine reads.
/// `ack` is the ACK flag; `ackn` the acknowledgment number.
#[derive(Clone, Copy, PartialEq, Eq, Structural, Debug)]
pub struct SegmentHeader {
    pub src_port: u16,
    pub dst_port: u16,
    pub seqn: u32,
    pub ackn: u32,
    pub wnd: u16,
    pub syn: bool,
    pub ack: bool,
    pub fin: bool,
}

/// An outgoing segment: the header fields the state machine chose, the
/// payload bytes, and the serialized IPv4+TCP frame ready for the wire.
pub struct SegmentOut {
    pub seqn: u32,
    pub ackn: u32,
    pub syn: bool,
    pub fin: bool,
    pub wnd: u16,
    pub payload: Vec<u8>,
    pub frame: Vec<u8>,
}

/// The header fields and payload of an outgoing segment, as a ghost value.
#[verifier::ext_equal]
pub ghost struct SegModel {
    pub seqn: u32,
    pub ackn: u32,
    pub syn: bool,
    pub fin: bool,
    pub wnd: u16,
    pub payload: Seq<u8>,
}

impl View for SegmentOut {
    type V = SegModel;

    open spec fn view(&self) -> SegModel {
        SegModel {
            seqn: self.seqn,
            ackn: self.ackn,
            syn: self.syn,
            fin: self.fin,
            wnd: self.wnd,
            payload: self.payload@,
        }
    }
}

/// The 20-byte IPv4 header that `etherparse` serializes for the given
/// source, destination and payload length (TTL 64, protocol TCP, no
/// options, valid header checksum).
pub uninterp spec fn ipv4_header_bytes_of(src_ip: u32, dst_ip: u32, payload_len: u16) -> Seq<u8>;

/// The 20-byte TCP header that `etherparse` serializes for the given
/// fields (ACK flag always set, no options, the given checksum patched in).
pub uninterp spec fn tcp_header_bytes_of(
    src_port: u16,
    dst_port: u16,
    seqn: u32,
    ackn: u32,
    syn: bool,
    fin: bool,
    wnd: u16,
    checksum: u16,
) -> Seq<u8>;

/// The RFC 1071 checksum that `etherparse` computes over the IPv4
/// pseudo-header, the TCP header with a zero checksum field, and the
/// payload.
pub uninterp spec fn tcp_checksum_of(
    src_ip: u32,
    dst_ip: u32,
    src_port: u16,
    dst_port: u16,
    seqn: u32,
    ackn: u32,
    syn: bool,
    fin: bool,
    wnd: u16,
    payload: Seq<u8>,
) -> u16;

/// What `etherparse` reads out of the start of a buffer when it parses an
/// IPv4 header: source, destination, protocol number, header length.
/// `None` when the buffer does not start with a well-formed IPv4 header.
pub uninterp spec fn ipv4_parse(frame: Seq<u8>) -> Option<(u32, u32, u8, usize)>;

/// What `etherparse` reads out of the start of a buffer when it parses a
/// TCP header: source port, destination port, sequence number,
/// acknowledgment number, window, SYN, ACK, FIN, header length.
/// `None` when the buffer does not start with a well-formed TCP header.
pub uninterp spec fn tcp_parse(bytes: Seq<u8>) -> Option<(u16, u16, u32, u32, u16, bool, bool, bool, usize)>;

/// Relies on `etherparse::Ipv4Header::{new, write}`: serializes a 20-byte
/// IPv4 header (TTL 64, protocol TCP, no options) with its checksum; the
/// bytes depend only on the arguments. `new` only rejects payload lengths
/// above 65515, which the precondition rules out.
#[verifier::external_body]
fn build_ipv4_header(src_ip: u32, dst_ip: u32, payload_len: u16) -> (r: Vec<u8>)
    requires
        payload_len <= 1480,
    ensures
        r@ == ipv4_header_bytes_of(src_ip, dst_ip, payload_len),
        r@.len() == 20,
{
    let h = etherparse::Ipv4Header::new(
        payload_len,
        64,
        etherparse::IpNumber::TCP,
        src_ip.to_be_bytes(),
        dst_ip.to_be_bytes(),
    )
    .unwrap();
    let mut out: Vec<u8> = Vec::new();
    h.write(&mut out).unwrap();
    out
}

/// Relies on `etherparse::TcpHeader::{new, write}`: serializes a 20-byte
/// TCP header with no options, the ACK flag set, and the given checksum
/// written as-is; the bytes depend only on the arguments.
#[verifier::external_body]
fn build_tcp_header(
    src_port: u16,
    dst_port: u16,
    seqn: u32,
    ackn: u32,
    syn: bool,
    fin: bool,
    wnd: u16,
    checksum: u16,
) -> (r: Vec<u8>)
    ensures
        r@ == tcp_header_bytes_of(src_port, dst_port, seqn, ackn, syn, fin, wnd, checksum),
        r@.len() == 20,
{
    let mut h = etherparse::TcpHeader::new(src_port, dst_port, seqn, wnd);
    h.acknowledgment_number = ackn;
    h.ack = true;
    h.syn = syn;
    h.fin = fin;
    h.checksum = checksum;
    let mut out: Vec<u8> = Vec::new();
    h.write(&mut out).unwrap();
    out
}

/// Relies on `etherparse::TcpHeader::calc_checksum_ipv4_raw`: computes the
/// TCP checksum over the IPv4 pseudo-header, the header and the payload;
/// the result depends only on the arguments. It only rejects payloads
/// longer than 65515 bytes, which the precondition rules out.
#[verifier::external_body]
fn compute_tcp_checksum(
    src_ip: u32,
    dst_ip: u32,
    src_port: u16,
    dst_port: u16,
    seqn: u32,
    ackn: u32,
    syn: bool,
    fin: bool,
    wnd: u16,
    payload: &[u8],
) -> (r: u16)
    requires
        payload@.len() <= 1460,
    ensures
        r == tcp_checksum_of(src_ip, dst_ip, src_port, dst_port, seqn, ackn, syn, fin, wnd, payload@),
{
    let mut h = etherparse::TcpHeader::new(src_port, dst_port, seqn, wnd);
    h.acknowledgment_number = ackn;
    h.ack = true;
    h.syn = syn;
    h.fin = fin;
    h.calc_checksum_ipv4_raw(src_ip.to_be_bytes(), dst_ip.to_be_bytes(), payload)
        .unwrap()
}

/// Relies on `etherparse::Ipv4HeaderSlice::from_slice` and its accessors:
/// reads source, destination, protocol and header length from the start of
/// the buffer; the result depends on the bytes alone. On success the
/// header length is between 20 and 60 and never exceeds the buffer.
#[verifier::external_body]
fn parse_ipv4_header(frame: &[u8]) -> (r: Option<(u32, u32, u8, usize)>)
    ensures
        r == ipv4_parse(frame@),
        r matches Some(t) ==> 20 <= t.3 <= 60 && t.3 <= frame@.len(),
{
    match etherparse::Ipv4HeaderSlice::from_slice(frame) {
        Ok(h) => Some((
            u32::from_be_bytes(h.source()),
            u32::from_be_bytes(h.destination()),
            h.protocol().0,
            h.slice().len(),
        )),
        Err(_) => None,
    }
}

/// Relies on `etherparse::TcpHeaderSlice::from_slice` and its accessors:
/// reads the ports, sequence and acknowledgment numbers, window and flags
/// from the start of the buffer; the result depends on the bytes alone.
/// On success the header length is between 20 and 60 and never exceeds
/// the buffer.
#[verifier::external_body]
fn parse_tcp_header(bytes: &[u8]) -> (r: Option<(SegmentHeader, usize)>)
    ensures
        match r {
            Some((h, hl)) => {
                &&& tcp_parse(bytes@) == Some(
                    (h.src_port, h.dst_port, h.seqn, h.ackn, h.wnd, h.syn, h.ack, h.fin, hl),
                )
                &&& 20 <= hl <= 60
                &&& hl <= bytes@.len()
            },
            None => tcp_parse(bytes@) is None,
        },
{
    let h = match etherparse::TcpHeaderSlice::from_slice(bytes) {
        Ok(h) => h,
        Err(_) => return None,
    };
    let hdr = SegmentHeader {
        src_port: h.source_port(),
        dst_port: h.destination_port(),
        seqn: h.sequence_number(),
        ackn: h.acknowledgment_number(),
        wnd: h.window_size(),
        syn: h.syn(),
        ack: h.ack(),
        fin: h.fin(),
    };
    Some((hdr, h.slice().len()))
}

/// The full frame emitted for a segment: IPv4 header, TCP header with its
/// checksum, then the payload.
pub open spec fn spec_frame_bytes(
    local_ip: u32,
    local_port: u16,
    peer_ip: u32,
    peer_port: u16,
    seqn: u32,
    ackn: u32,
    syn: bool,
    fin: bool,
    wnd: u16,
    payload: Seq<u8>,
) -> Seq<u8> {
    ipv4_header_bytes_of(local_ip, peer_ip, (20 + payload.len()) as u16) + tcp_header_bytes_of(
        local_port,
        peer_port,
        seqn,
        ackn,
        syn,
        fin,
        wnd,
        tcp_checksum_of(
            local_ip,
            peer_ip,
            local_port,
            peer_port,
            seqn,
            ackn,
            syn,
            fin,
            wnd,
            payload,
        ),
    ) + payload
}

/// Copies `v[start..end]` into a fresh vector.
pub fn subvec(v: &[u8], start: usize, end: usize) -> (r: Vec<u8>)
    requires
        start <= end <= v@.len(),
    ensures
        r@ == v@.subrange(start as int, end as int),
{
    let mut r: Vec<u8> = Vec::new();
    let mut i: usize = start;
    while i < end
        invariant
            start <= i <= end <= v@.len(),
            r@ == v@.subrange(start as int, i as int),
        decreases end - i,
    {
        r.push(v[i]);
        assert(v@.subrange(start as int, (i + 1) as int) == v@.subrange(start as int, i as int).push(
            v@[i as int],
        ));
        i = i + 1;
    }
    r
}

/// Serializes one outgoing segment into a wire frame.
pub fn build_frame(
    local_ip: u32,
    local_port: u16,
    peer_ip: u32,
    peer_port: u16,
    seqn: u32,
    ackn: u32,
    syn: bool,
    fin: bool,
    wnd: u16,
    payload: &Vec<u8>,
) -> (r: Vec<u8>)
    requires
        payload@.len() <= 1460,
    ensures
        r@ == spec_frame_bytes(
            local_ip,
            local_port,
            peer_ip,
            peer_port,
            seqn,
            ackn,
            syn,
            fin,
            wnd,
            payload@,
        ),
{
    let checksum = compute_tcp_checksum(
        local_ip,
        peer_ip,
        local_port,
        peer_port,
        seqn,
        ackn,
        syn,
        fin,
        wnd,
        payload.as_slice(),
    );
    let mut frame = build_ipv4_header(local_ip, peer_ip, 20 + payload.len() as u16);
    let mut tcp = build_tcp_header(local_port, peer_port, seqn, ackn, syn, fin, wnd, checksum);
    frame.append(&mut tcp);
    frame.extend_from_slice(payload.as_slice());
    assert(frame@ =~= spec_frame_bytes(
        local_ip,
        local_port,
        peer_ip,
        peer_port,
        seqn,
        ackn,
        syn,
        fin,
        wnd,
        payload@,
    ));
    frame
}

/// Parses a raw frame into the connection key, the TCP header fields and
/// the payload. Returns `None` exactly when the frame is not IPv4, not
/// TCP, or its TCP header is malformed; such frames are dropped.
pub fn parse_frame(frame: &[u8]) -> (r: Option<(Quad, SegmentHeader, Vec<u8>)>)
    ensures
        match r {
            None => ({
                ||| ipv4_parse(frame@) is None
                ||| (ipv4_parse(frame@) matches Some(ip) && (ip.2 != 6 || tcp_parse(
                    frame@.skip(ip.3 as int),
                ) is None))
            }),
            Some((q, h, payload)) => ({
                &&& ipv4_parse(frame@) matches Some(ip)
                &&& ip.2 == 6
                &&& tcp_parse(frame@.skip(ip.3 as int)) matches Some(t)
                &&& q == (Quad {
                    src_ip: ip.0,
                    src_port: t.0,
                    dst_ip: ip.1,
                    dst_port: t.1,
                })
                &&& h == (SegmentHeader {
                    src_port: t.0,
                    dst_port: t.1,
                    seqn: t.2,
                    ackn: t.3,
                    wnd: t.4,
                    syn: t.5,
                    ack: t.6,
                    fin: t.7,
                })
                &&& payload@ == frame@.skip(ip.3 + t.8)
                &&& payload@.len() <= frame@.len()
            }),
        },
{
    let ip = match parse_ipv4_header(frame) {
        Some(ip) => ip,
        None => {
            return None;
        },
    };
    if ip.2 != 6 {
        return None;
    }
    let rest = subvec(frame, ip.3, frame.len());
    let (hdr, tcp_hlen) = match parse_tcp_header(rest.as_slice()) {
        Some(t) => t,
        None => {
            return None;
        },
    };
    assert(rest@ == frame@.skip(ip.3 as int));
    let data_start = ip.3 + tcp_hlen;
    let payload = subvec(frame, data_start, frame.len());
    assert(payload@ =~= frame@.skip(ip.3 + tcp_hlen));
    let quad = Quad { src_ip: ip.0, src_port: hdr.src_port, dst_ip: ip.1, dst_port: hdr.dst_port };
    Some((quad, hdr, payload))
}

} // verus!
