use loopstack::socket::Endpoint;
use loopstack::wire::{
    frame_datagram, ip_header_checksum, parse_datagram, HEADER_LEN, IP_HEADER_LEN, MAX_PAYLOAD,
};

#[test]
fn header_and_payload_sizes_add_up() {
    assert_eq!(IP_HEADER_LEN, 20);
    assert_eq!(HEADER_LEN, 28);
    assert_eq!(MAX_PAYLOAD, 1500 - 28);
}

#[test]
fn frame_then_parse_returns_the_datagram() {
    let src = Endpoint { addr: 0x7F00_0001, port: 1234 };
    let dst = Endpoint { addr: 0x0A01_0203, port: 4321 };
    let payload: Vec<u8> = b"Hello, loopback!".to_vec();
    let frame = frame_datagram(src, dst, &payload);
    assert_eq!(frame.len(), HEADER_LEN + payload.len());
    let (psrc, pdst, ppayload) = parse_datagram(&frame).unwrap();
    assert_eq!(psrc, src);
    assert_eq!(pdst, dst);
    assert_eq!(ppayload, payload);
}

#[test]
fn frame_layout_is_ipv4_plus_udp() {
    let src = Endpoint { addr: 0x0102_0304, port: 0x0506 };
    let dst = Endpoint { addr: 0x0708_090A, port: 0x0B0C };
    let payload: Vec<u8> = vec![0xAA, 0xBB];
    let frame = frame_datagram(src, dst, &payload);
    let total: u16 = 28 + 2;
    let ck = ip_header_checksum(src.addr, dst.addr, total);
    let expected: Vec<u8> = vec![
        0x45, // version 4, header of five words
        0x00,
        0x00,
        0x1E, // total length 30
        0x00,
        0x00, // identification
        0x00,
        0x00, // flags, fragment offset
        64,   // time to live
        17,   // protocol: UDP
        (ck >> 8) as u8,
        ck as u8,
        1,
        2,
        3,
        4, // source address
        7,
        8,
        9,
        10, // destination address
        5,
        6, // source port
        11,
        12, // destination port
        0x00,
        0x0A, // UDP length 10
        0x00,
        0x00, // UDP checksum: unused
        0xAA,
        0xBB, // payload
    ];
    assert_eq!(frame, expected);
}

#[test]
fn checksum_words_sum_to_all_ones() {
    // the defining property of the IPv4 header checksum: the ones'-complement
    // sum of all header words, checksum included, is 0xFFFF
    let src: u32 = 0xC0A8_0001;
    let dst: u32 = 0xC0A8_0002;
    let total: u16 = 28 + 5;
    let ck = ip_header_checksum(src, dst, total);
    let mut sum: u32 = 0x4500
        + total as u32
        + 0x4011
        + (src >> 16)
        + (src & 0xFFFF)
        + (dst >> 16)
        + (dst & 0xFFFF)
        + ck as u32;
    while sum > 0xFFFF {
        sum = (sum & 0xFFFF) + (sum >> 16);
    }
    assert_eq!(sum, 0xFFFF);
}

#[test]
fn truncated_frame_is_malformed() {
    assert!(parse_datagram(&vec![]).is_none());
    assert!(parse_datagram(&vec![0u8; HEADER_LEN - 1]).is_none());
}

#[test]
fn wrong_version_is_malformed() {
    let src = Endpoint { addr: 1, port: 2 };
    let dst = Endpoint { addr: 3, port: 4 };
    let mut frame = frame_datagram(src, dst, &vec![9, 9, 9]);
    frame[0] = 0x46; // a six-word header is not the shape this codec emits
    assert!(parse_datagram(&frame).is_none());
}

#[test]
fn wrong_protocol_is_malformed() {
    let src = Endpoint { addr: 1, port: 2 };
    let dst = Endpoint { addr: 3, port: 4 };
    let mut frame = frame_datagram(src, dst, &vec![9, 9, 9]);
    frame[9] = 6; // TCP, not UDP
    assert!(parse_datagram(&frame).is_none());
}

#[test]
fn length_mismatch_is_malformed() {
    let src = Endpoint { addr: 1, port: 2 };
    let dst = Endpoint { addr: 3, port: 4 };
    let mut frame = frame_datagram(src, dst, &vec![9, 9, 9]);
    // declare one payload byte more than the frame carries
    frame[3] += 1;
    assert!(parse_datagram(&frame).is_none());
}

#[test]
fn corrupted_checksum_is_malformed() {
    let src = Endpoint { addr: 1, port: 2 };
    let dst = Endpoint { addr: 3, port: 4 };
    let mut frame = frame_datagram(src, dst, &vec![9, 9, 9]);
    frame[11] ^= 0x01;
    assert!(parse_datagram(&frame).is_none());
}

#[test]
fn empty_payload_round_trips() {
    let src = Endpoint { addr: 1, port: 2 };
    let dst = Endpoint { addr: 3, port: 4 };
    let frame = frame_datagram(src, dst, &vec![]);
    assert_eq!(frame.len(), HEADER_LEN);
    let (_, _, payload) = parse_datagram(&frame).unwrap();
    assert!(payload.is_empty());
}
