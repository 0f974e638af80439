//! Frame decoding: from the raw bytes of a link-layer frame to the flow it
//! belongs to and the payload it carries. The header layouts are read by the
//! `pnet` packet types; what is done with the fields is decided here.

use crate::flow::FlowKey;
use vstd::prelude::*;

verus! {

/// The EtherType of IPv4.
pub const ETHERTYPE_IPV4: u16 = 0x0800;

/// The IP protocol number of TCP.
pub const PROTOCOL_TCP: u8 = 6;

/// The IP protocol number of UDP.
pub const PROTOCOL_UDP: u8 = 17;

/// The 16-bit number that `bytes` holds at `at`, most significant byte first.
pub open spec fn be16(bytes: Seq<u8>, at: int) -> int {
    bytes[at] * 256 + bytes[at + 1]
}

/// The 32-bit number that `bytes` holds at `at`, most significant byte first.
pub open spec fn be32(bytes: Seq<u8>, at: int) -> int {
    ((bytes[at] * 256 + bytes[at + 1]) * 256 + bytes[at + 2]) * 256 + bytes[at + 3]
}

/// The length of an Ethernet header.
pub open spec fn ethernet_header_len() -> int {
    14
}

/// The least length of an IPv4 or a TCP header.
pub open spec fn basic_header_len() -> int {
    20
}

/// The length of a UDP header.
pub open spec fn udp_header_len() -> int {
    8
}

/// Where the payload of an IPv4 packet begins: after the header length that the
/// packet announces in 32-bit words, and never before the basic header's end.
pub open spec fn ipv4_payload_start(packet: Seq<u8>) -> int {
    let announced = (packet[0] % 16) * 4;
    if announced > basic_header_len() {
        announced
    } else {
        basic_header_len()
    }
}

/// The payload of an IPv4 packet: from the end of the header, as many bytes as
/// the announced total length leaves after the announced header length, cut off
/// at the end of the packet.
pub open spec fn ipv4_payload(packet: Seq<u8>) -> Seq<u8> {
    let start = ipv4_payload_start(packet);
    let announced_header = (packet[0] % 16) * 4;
    let announced = if be16(packet, 2) >= announced_header {
        be16(packet, 2) - announced_header
    } else {
        0
    };
    let end = if start + announced < packet.len() {
        start + announced
    } else {
        packet.len() as int
    };
    if packet.len() <= start {
        Seq::empty()
    } else {
        packet.subrange(start, end)
    }
}

/// The payload of a TCP segment: what follows the header, whose length the
/// segment announces in 32-bit words where that is more than the basic header.
pub open spec fn tcp_payload(segment: Seq<u8>) -> Seq<u8> {
    let words = segment[12] / 16;
    let start = if words > 5 {
        words * 4
    } else {
        basic_header_len()
    };
    if segment.len() <= start {
        Seq::empty()
    } else {
        segment.skip(start)
    }
}

/// The fields of an Ethernet frame that decoding reads.
pub struct EthernetFrame {
    pub ethertype: u16,
    pub payload: Vec<u8>,
}

/// The fields of an IPv4 packet that decoding reads.
pub struct Ipv4Packet {
    pub protocol: u8,
    pub source: u32,
    pub destination: u32,
    pub payload: Vec<u8>,
}

/// The fields of a TCP segment that decoding reads.
pub struct TcpSegment {
    pub source_port: u16,
    pub destination_port: u16,
    pub sequence: u32,
    pub payload: Vec<u8>,
}

/// The fields of a UDP datagram that decoding reads.
pub struct UdpDatagram {
    pub source_port: u16,
    pub destination_port: u16,
    pub payload: Vec<u8>,
}

/// Reads an Ethernet frame with `pnet::packet::ethernet::EthernetPacket`: `new`,
/// `get_ethertype` and `payload`. Trusted: a frame shorter than the 14-byte
/// header is refused; otherwise the EtherType is the 16-bit number at offset 12
/// and the payload is everything after the header.
#[verifier::external_body]
fn read_ethernet(frame: &[u8]) -> (r: Option<EthernetFrame>)
    ensures
        r is Some <==> frame@.len() >= ethernet_header_len(),
        r matches Some(f) ==> f.ethertype == be16(frame@, 12) && f.payload@ == frame@.skip(
            ethernet_header_len(),
        ),
{
    match pnet::packet::ethernet::EthernetPacket::new(frame) {
        Some(p) => Some(
            EthernetFrame {
                ethertype: p.get_ethertype().0,
                payload: pnet::packet::Packet::payload(&p).to_vec(),
            },
        ),
        None => None,
    }
}

/// Reads an IPv4 packet with `pnet::packet::ipv4::Ipv4Packet`: `new`,
/// `get_next_level_protocol`, `get_source`, `get_destination` and `payload`.
/// Trusted: a packet shorter than the 20-byte basic header is refused; otherwise
/// the protocol is the byte at offset 9, the addresses are the 32-bit numbers at
/// offsets 12 and 16, and the payload is as `ipv4_payload` says.
#[verifier::external_body]
fn read_ipv4(packet: &[u8]) -> (r: Option<Ipv4Packet>)
    ensures
        r is Some <==> packet@.len() >= basic_header_len(),
        r matches Some(p) ==> {
            &&& p.protocol == packet@[9]
            &&& p.source == be32(packet@, 12)
            &&& p.destination == be32(packet@, 16)
            &&& p.payload@ == ipv4_payload(packet@)
        },
{
    match pnet::packet::ipv4::Ipv4Packet::new(packet) {
        Some(p) => Some(
            Ipv4Packet {
                protocol: p.get_next_level_protocol().0,
                source: u32::from(p.get_source()),
                destination: u32::from(p.get_destination()),
                payload: pnet::packet::Packet::payload(&p).to_vec(),
            },
        ),
        None => None,
    }
}

/// Reads a TCP segment with `pnet::packet::tcp::TcpPacket`: `new`, `get_source`,
/// `get_destination`, `get_sequence` and `payload`. Trusted: a segment shorter
/// than the 20-byte basic header is refused; otherwise the ports are the 16-bit
/// numbers at offsets 0 and 2, the sequence number is the 32-bit number at
/// offset 4, and the payload is as `tcp_payload` says.
#[verifier::external_body]
fn read_tcp(segment: &[u8]) -> (r: Option<TcpSegment>)
    ensures
        r is Some <==> segment@.len() >= basic_header_len(),
        r matches Some(s) ==> {
            &&& s.source_port == be16(segment@, 0)
            &&& s.destination_port == be16(segment@, 2)
            &&& s.sequence == be32(segment@, 4)
            &&& s.payload@ == tcp_payload(segment@)
        },
{
    match pnet::packet::tcp::TcpPacket::new(segment) {
        Some(p) => Some(
            TcpSegment {
                source_port: p.get_source(),
                destination_port: p.get_destination(),
                sequence: p.get_sequence(),
                payload: pnet::packet::Packet::payload(&p).to_vec(),
            },
        ),
        None => None,
    }
}

/// Reads a UDP datagram with `pnet::packet::udp::UdpPacket`: `new`, `get_source`,
/// `get_destination` and `payload`. Trusted: a datagram shorter than the 8-byte
/// header is refused; otherwise the ports are the 16-bit numbers at offsets 0
/// and 2 and the payload is everything after the header.
#[verifier::external_body]
fn read_udp(datagram: &[u8]) -> (r: Option<UdpDatagram>)
    ensures
        r is Some <==> datagram@.len() >= udp_header_len(),
        r matches Some(d) ==> {
            &&& d.source_port == be16(datagram@, 0)
            &&& d.destination_port == be16(datagram@, 2)
            &&& d.payload@ == datagram@.skip(udp_header_len())
        },
{
    match pnet::packet::udp::UdpPacket::new(datagram) {
        Some(p) => Some(
            UdpDatagram {
                source_port: p.get_source(),
                destination_port: p.get_destination(),
                payload: pnet::packet::Packet::payload(&p).to_vec(),
            },
        ),
        None => None,
    }
}

/// The transport protocol of a decoded frame.
#[derive(Clone, Copy, Debug, PartialEq, Eq, Structural)]
pub enum Transport {
    Tcp,
    Udp,
}

/// What a frame carries for reassembly: the flow, the transport, the sequence
/// number where the transport has one, and the payload.
pub struct Segment {
    pub key: FlowKey,
    pub transport: Transport,
    pub sequence: Option<u32>,
    pub payload: Vec<u8>,
}

/// A `Segment` with its payload as a sequence of bytes.
pub struct SegmentModel {
    pub key: FlowKey,
    pub transport: Transport,
    pub sequence: Option<u32>,
    pub payload: Seq<u8>,
}

impl View for Segment {
    type V = SegmentModel;

    open spec fn view(&self) -> SegmentModel {
        SegmentModel {
            key: self.key,
            transport: self.transport,
            sequence: self.sequence,
            payload: self.payload@,
        }
    }
}

/// What the transport layer of an IPv4 packet decodes to: a TCP segment or a UDP
/// datagram with a complete header, between the addresses given.
pub open spec fn decoded_transport(
    source: u32,
    destination: u32,
    protocol: u8,
    body: Seq<u8>,
) -> Option<SegmentModel> {
    if protocol == PROTOCOL_TCP && body.len() >= basic_header_len() {
        Some(
            SegmentModel {
                key: FlowKey {
                    src_addr: source,
                    dst_addr: destination,
                    src_port: be16(body, 0) as u16,
                    dst_port: be16(body, 2) as u16,
                },
                transport: Transport::Tcp,
                sequence: Some(be32(body, 4) as u32),
                payload: tcp_payload(body),
            },
        )
    } else if protocol == PROTOCOL_UDP && body.len() >= udp_header_len() {
        Some(
            SegmentModel {
                key: FlowKey {
                    src_addr: source,
                    dst_addr: destination,
                    src_port: be16(body, 0) as u16,
                    dst_port: be16(body, 2) as u16,
                },
                transport: Transport::Udp,
                sequence: None,
                payload: body.skip(udp_header_len()),
            },
        )
    } else {
        None
    }
}

/// What a frame decodes to: an Ethernet frame of EtherType IPv4 that holds an
/// IPv4 packet that holds a TCP segment or a UDP datagram, each with a complete
/// header. Every other frame decodes to nothing.
pub open spec fn decoded(frame: Seq<u8>) -> Option<SegmentModel> {
    let packet = frame.skip(ethernet_header_len());
    if frame.len() >= ethernet_header_len() && be16(frame, 12) == ETHERTYPE_IPV4 && packet.len()
        >= basic_header_len() {
        decoded_transport(
            be32(packet, 12) as u32,
            be32(packet, 16) as u32,
            packet[9],
            ipv4_payload(packet),
        )
    } else {
        None
    }
}

/// Decodes one link-layer frame. A frame that does not decode at some layer gives
/// `None`: it is to be skipped, not reported.
pub fn decode_frame(frame: &[u8]) -> (r: Option<Segment>)
    ensures
        match r {
            Some(s) => decoded(frame@) == Some(s@),
            None => decoded(frame@) is None,
        },
{
    let ethernet = match read_ethernet(frame) {
        Some(f) => f,
        None => {
            return None;
        },
    };
    if ethernet.ethertype != ETHERTYPE_IPV4 {
        return None;
    }
    let ip = match read_ipv4(ethernet.payload.as_slice()) {
        Some(p) => p,
        None => {
            return None;
        },
    };
    if ip.protocol == PROTOCOL_TCP {
        match read_tcp(ip.payload.as_slice()) {
            Some(tcp) => Some(
                Segment {
                    key: FlowKey {
                        src_addr: ip.source,
                        dst_addr: ip.destination,
                        src_port: tcp.source_port,
                        dst_port: tcp.destination_port,
                    },
                    transport: Transport::Tcp,
                    sequence: Some(tcp.sequence),
                    payload: tcp.payload,
                },
            ),
            None => None,
        }
    } else if ip.protocol == PROTOCOL_UDP {
        match read_udp(ip.payload.as_slice()) {
            Some(udp) => Some(
                Segment {
                    key: FlowKey {
                        src_addr: ip.source,
                        dst_addr: ip.destination,
                        src_port: udp.source_port,
                        dst_port: udp.destination_port,
                    },
                    transport: Transport::Udp,
                    sequence: None,
                    payload: udp.payload,
                },
            ),
            None => None,
        }
    } else {
        None
    }
}

} // verus!
