//! The frame layout carried over the loopback device: a standard IPv4
//! header (20 bytes, no options) followed by a UDP header (8 bytes) and
//! the payload.
//!
//! The emitter always writes version 4 with a five-word header, no
//! fragmentation, TTL 64, protocol UDP, and a computed IPv4 header
//! checksum; the parser accepts exactly that shape and validates the
//! checksum by recomputation. The UDP checksum is emitted as zero — over
//! IPv4 a zero checksum means "not used" — and is not validated.

use vstd::prelude::*;
use crate::device::LOOPBACK_MTU;
use crate::socket::Endpoint;

verus! {

/// Bytes of IPv4 header in front of the UDP header.
pub const IP_HEADER_LEN: usize = 20;

/// Bytes of header in front of every payload: the IPv4 header and the
/// UDP header.
pub const HEADER_LEN: usize = 28;

/// The largest payload a single frame can carry.
pub const MAX_PAYLOAD: usize = LOOPBACK_MTU - HEADER_LEN;

/// Version 4, five-word header: the first byte of every frame.
pub const IP_VERSION_IHL: u8 = 0x45;

/// Time-to-live stamped on every emitted frame.
pub const IP_TTL: u8 = 64;

/// The IPv4 protocol number of UDP.
pub const IP_PROTO_UDP: u8 = 17;

/// Byte `k` of `x` in network order: byte 0 is the most significant.
pub open spec fn spec_u32_byte(x: u32, k: int) -> u8 {
    if k == 0 {
        (x >> 24) as u8
    } else if k == 1 {
        (x >> 16) as u8
    } else if k == 2 {
        (x >> 8) as u8
    } else {
        x as u8
    }
}

/// Byte `k` of `x` in network order: byte 0 is the most significant.
pub open spec fn spec_u16_byte(x: u16, k: int) -> u8 {
    if k == 0 {
        (x >> 8) as u8
    } else {
        x as u8
    }
}

/// The 32-bit value read, in network order, from four bytes.
pub open spec fn spec_u32_of(b0: u8, b1: u8, b2: u8, b3: u8) -> u32 {
    (((b0 as u32) << 24) | ((b1 as u32) << 16) | ((b2 as u32) << 8) | (b3 as u32)) as u32
}

/// The 16-bit value read, in network order, from two bytes.
pub open spec fn spec_u16_of(b0: u8, b1: u8) -> u16 {
    (((b0 as u16) << 8) | (b1 as u16)) as u16
}

/// The IPv4 header checksum of the header this module emits: the ones'
/// complement of the ones'-complement sum of the header's 16-bit words
/// (with the checksum field itself taken as zero). The identification,
/// flags and fragment-offset words are zero and drop out of the sum.
pub open spec fn spec_ip_checksum(src_addr: u32, dst_addr: u32, total_len: u16) -> u16 {
    let sum = (IP_VERSION_IHL as int) * 256 + (total_len as int) + (IP_TTL as int) * 256 + (
    IP_PROTO_UDP as int) + (src_addr as int) / 0x10000 + (src_addr as int) % 0x10000 + (
    dst_addr as int) / 0x10000 + (dst_addr as int) % 0x10000;
    let fold1 = sum % 0x10000 + sum / 0x10000;
    let fold2 = fold1 % 0x10000 + fold1 / 0x10000;
    (0xFFFF - fold2) as u16
}

/// The IPv4 header checksum, computed as `spec_ip_checksum` states it.
pub fn ip_header_checksum(src_addr: u32, dst_addr: u32, total_len: u16) -> (r: u16)
    ensures
        r == spec_ip_checksum(src_addr, dst_addr, total_len),
{
    let sum: u32 = (IP_VERSION_IHL as u32) * 256 + (total_len as u32) + (IP_TTL as u32) * 256
        + (IP_PROTO_UDP as u32) + src_addr / 0x10000 + src_addr % 0x10000 + dst_addr / 0x10000
        + dst_addr % 0x10000;
    let fold1: u32 = sum % 0x10000 + sum / 0x10000;
    let fold2: u32 = fold1 % 0x10000 + fold1 / 0x10000;
    (0xFFFF - fold2) as u16
}

/// The 28 header bytes for a datagram from `src` to `dst` carrying
/// `payload_len` payload bytes.
pub open spec fn spec_header(src: Endpoint, dst: Endpoint, payload_len: u16) -> Seq<u8> {
    let total = (HEADER_LEN + payload_len) as u16;
    let udp_len = (8 + payload_len) as u16;
    let ck = spec_ip_checksum(src.addr, dst.addr, total);
    seq![
        IP_VERSION_IHL,
        0u8,
        spec_u16_byte(total, 0),
        spec_u16_byte(total, 1),
        0u8,
        0u8,
        0u8,
        0u8,
        IP_TTL,
        IP_PROTO_UDP,
        spec_u16_byte(ck, 0),
        spec_u16_byte(ck, 1),
        spec_u32_byte(src.addr, 0),
        spec_u32_byte(src.addr, 1),
        spec_u32_byte(src.addr, 2),
        spec_u32_byte(src.addr, 3),
        spec_u32_byte(dst.addr, 0),
        spec_u32_byte(dst.addr, 1),
        spec_u32_byte(dst.addr, 2),
        spec_u32_byte(dst.addr, 3),
        spec_u16_byte(src.port, 0),
        spec_u16_byte(src.port, 1),
        spec_u16_byte(dst.port, 0),
        spec_u16_byte(dst.port, 1),
        spec_u16_byte(udp_len, 0),
        spec_u16_byte(udp_len, 1),
        0u8,
        0u8,
    ]
}

/// The complete frame for a datagram from `src` to `dst`.
pub open spec fn spec_frame(src: Endpoint, dst: Endpoint, payload: Seq<u8>) -> Seq<u8> {
    spec_header(src, dst, payload.len() as u16) + payload
}

/// What a frame means: `None` if it is truncated, not the IPv4+UDP shape
/// this module emits, inconsistent in its length fields, or wrong in its
/// header checksum; else the source endpoint, the destination endpoint
/// and the payload.
pub open spec fn spec_parse(f: Seq<u8>) -> Option<(Endpoint, Endpoint, Seq<u8>)> {
    if f.len() < HEADER_LEN {
        None
    } else {
        let src = Endpoint {
            addr: spec_u32_of(f[12], f[13], f[14], f[15]),
            port: spec_u16_of(f[20], f[21]),
        };
        let dst = Endpoint {
            addr: spec_u32_of(f[16], f[17], f[18], f[19]),
            port: spec_u16_of(f[22], f[23]),
        };
        let total = spec_u16_of(f[2], f[3]);
        let ck = spec_u16_of(f[10], f[11]);
        let udp_len = spec_u16_of(f[24], f[25]);
        if f[0] == IP_VERSION_IHL && f[1] == 0 && f[4] == 0 && f[5] == 0 && f[6] == 0 && f[7] == 0
            && f[8] == IP_TTL && f[9] == IP_PROTO_UDP && total as int == f.len() && udp_len as int
            + IP_HEADER_LEN == f.len() && ck == spec_ip_checksum(src.addr, dst.addr, total) {
            Some((src, dst, f.subrange(HEADER_LEN as int, f.len() as int)))
        } else {
            None
        }
    }
}

/// Splitting a 32-bit value into network-order bytes and reading them back
/// is the identity.
proof fn lemma_u32_round_trip(x: u32)
    ensures
        spec_u32_of(
            spec_u32_byte(x, 0),
            spec_u32_byte(x, 1),
            spec_u32_byte(x, 2),
            spec_u32_byte(x, 3),
        ) == x,
{
    assert((((((x >> 24) as u8) as u32) << 24) | ((((x >> 16) as u8) as u32) << 16) | ((((x >> 8)
        as u8) as u32) << 8) | (((x as u8)) as u32)) as u32 == x) by (bit_vector);
}

/// Splitting a 16-bit value into network-order bytes and reading them back
/// is the identity.
proof fn lemma_u16_round_trip(x: u16)
    ensures
        spec_u16_of(spec_u16_byte(x, 0), spec_u16_byte(x, 1)) == x,
{
    assert((((((x >> 8) as u8) as u16) << 8) | (((x as u8)) as u16)) as u16 == x) by (bit_vector);
}

/// Round trip of the wire layout: a frame built from a source, a
/// destination and a payload that fits always parses back to exactly that
/// source, destination and payload.
pub proof fn lemma_frame_parse_round_trip(src: Endpoint, dst: Endpoint, payload: Seq<u8>)
    requires
        payload.len() <= MAX_PAYLOAD,
    ensures
        spec_parse(spec_frame(src, dst, payload)) == Some((src, dst, payload)),
{
    let f = spec_frame(src, dst, payload);
    let plen = payload.len() as u16;
    let total = (HEADER_LEN + payload.len() as u16) as u16;
    let udp_len = (8 + payload.len() as u16) as u16;
    assert(plen == payload.len());
    lemma_u32_round_trip(src.addr);
    lemma_u16_round_trip(src.port);
    lemma_u32_round_trip(dst.addr);
    lemma_u16_round_trip(dst.port);
    lemma_u16_round_trip(total);
    lemma_u16_round_trip(udp_len);
    lemma_u16_round_trip(spec_ip_checksum(src.addr, dst.addr, total));
    assert(f.subrange(HEADER_LEN as int, f.len() as int) =~= payload);
}

/// Build the frame for a datagram from `src` to `dst`.
pub fn frame_datagram(src: Endpoint, dst: Endpoint, payload: &Vec<u8>) -> (r: Vec<u8>)
    requires
        payload@.len() <= MAX_PAYLOAD,
    ensures
        r@ == spec_frame(src, dst, payload@),
        r@.len() == HEADER_LEN + payload@.len(),
        r@.len() <= LOOPBACK_MTU,
{
    let plen: u16 = payload.len() as u16;
    let total: u16 = HEADER_LEN as u16 + plen;
    let udp_len: u16 = 8 + plen;
    let ck: u16 = ip_header_checksum(src.addr, dst.addr, total);
    let mut f: Vec<u8> = Vec::new();
    f.push(IP_VERSION_IHL);
    f.push(0);
    f.push((total >> 8) as u8);
    f.push(total as u8);
    f.push(0);
    f.push(0);
    f.push(0);
    f.push(0);
    f.push(IP_TTL);
    f.push(IP_PROTO_UDP);
    f.push((ck >> 8) as u8);
    f.push(ck as u8);
    f.push((src.addr >> 24) as u8);
    f.push((src.addr >> 16) as u8);
    f.push((src.addr >> 8) as u8);
    f.push(src.addr as u8);
    f.push((dst.addr >> 24) as u8);
    f.push((dst.addr >> 16) as u8);
    f.push((dst.addr >> 8) as u8);
    f.push(dst.addr as u8);
    f.push((src.port >> 8) as u8);
    f.push(src.port as u8);
    f.push((dst.port >> 8) as u8);
    f.push(dst.port as u8);
    f.push((udp_len >> 8) as u8);
    f.push(udp_len as u8);
    f.push(0);
    f.push(0);
    proof {
        assert(f@ =~= spec_header(src, dst, (payload@.len() as u16)));
    }
    let mut i: usize = 0;
    while i < payload.len()
        invariant
            i <= payload@.len(),
            f@ == spec_header(src, dst, (payload@.len() as u16)) + payload@.subrange(0, i as int),
        decreases payload@.len() - i,
    {
        f.push(payload[i]);
        proof {
            assert(f@ =~= spec_header(src, dst, (payload@.len() as u16)) + payload@.subrange(
                0,
                i + 1,
            ));
        }
        i = i + 1;
    }
    proof {
        assert(payload@.subrange(0, payload@.len() as int) =~= payload@);
        assert(f@ =~= spec_frame(src, dst, payload@));
    }
    f
}

/// Parse a frame: the source endpoint, the destination endpoint and the
/// payload, or `None` for a truncated, misshapen or inconsistent header.
/// A malformed frame is dropped by the caller; it is never fatal.
pub fn parse_datagram(f: &Vec<u8>) -> (r: Option<(Endpoint, Endpoint, Vec<u8>)>)
    ensures
        r is Some <==> spec_parse(f@) is Some,
        r matches Some(t) ==> spec_parse(f@) matches Some(s) && t.0 == s.0 && t.1 == s.1 && t.2@
            == s.2,
{
    if f.len() < HEADER_LEN {
        return None;
    }
    let src = Endpoint {
        addr: ((f[12] as u32) << 24) | ((f[13] as u32) << 16) | ((f[14] as u32) << 8) | (
        f[15] as u32),
        port: ((f[20] as u16) << 8) | (f[21] as u16),
    };
    let dst = Endpoint {
        addr: ((f[16] as u32) << 24) | ((f[17] as u32) << 16) | ((f[18] as u32) << 8) | (
        f[19] as u32),
        port: ((f[22] as u16) << 8) | (f[23] as u16),
    };
    let total: u16 = ((f[2] as u16) << 8) | (f[3] as u16);
    let ck: u16 = ((f[10] as u16) << 8) | (f[11] as u16);
    let udp_len: u16 = ((f[24] as u16) << 8) | (f[25] as u16);
    if !(f[0] == IP_VERSION_IHL && f[1] == 0 && f[4] == 0 && f[5] == 0 && f[6] == 0 && f[7] == 0
        && f[8] == IP_TTL && f[9] == IP_PROTO_UDP) {
        return None;
    }
    if total as usize != f.len() {
        return None;
    }
    if udp_len as usize + IP_HEADER_LEN != f.len() {
        return None;
    }
    if ck != ip_header_checksum(src.addr, dst.addr, total) {
        return None;
    }
    let mut payload: Vec<u8> = Vec::new();
    let mut i: usize = HEADER_LEN;
    while i < f.len()
        invariant
            HEADER_LEN <= i <= f@.len(),
            payload@ == f@.subrange(HEADER_LEN as int, i as int),
        decreases f@.len() - i,
    {
        payload.push(f[i]);
        proof {
            assert(payload@ =~= f@.subrange(HEADER_LEN as int, i + 1));
        }
        i = i + 1;
    }
    Some((src, dst, payload))
}

} // verus!
