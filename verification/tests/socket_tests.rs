use loopstack::socket::{Endpoint, Socket, SocketError};
use loopstack::wire::MAX_PAYLOAD;

fn localhost(port: u16) -> Endpoint {
    Endpoint { addr: (127 << 24) | 1, port }
}

#[test]
fn bind_twice_fails_with_already_bound() {
    let mut sock = Socket::new(4, 4);
    assert_eq!(sock.bind(localhost(1234)), Ok(()));
    assert_eq!(sock.bind(localhost(5678)), Err(SocketError::AlreadyBound));
    assert_eq!(sock.local_endpoint(), Some(localhost(1234)));
}

#[test]
fn bind_to_unassignable_endpoint_fails() {
    let mut sock = Socket::new(4, 4);
    assert_eq!(
        sock.bind(Endpoint { addr: 0, port: 1234 }),
        Err(SocketError::InvalidEndpoint)
    );
    assert_eq!(
        sock.bind(Endpoint { addr: (127 << 24) | 1, port: 0 }),
        Err(SocketError::InvalidEndpoint)
    );
    assert_eq!(sock.local_endpoint(), None);
}

#[test]
fn send_on_unbound_socket_fails() {
    let mut sock = Socket::new(4, 4);
    assert_eq!(
        sock.send_slice(b"hi", localhost(9)),
        Err(SocketError::InvalidEndpoint)
    );
}

#[test]
fn oversize_send_fails_with_truncated() {
    let mut sock = Socket::new(4, 4);
    sock.bind(localhost(1234)).unwrap();
    // one byte more than the device MTU
    let oversize: Vec<u8> = vec![0u8; 1501];
    assert_eq!(
        sock.send_slice(&oversize, localhost(1234)),
        Err(SocketError::Truncated)
    );
    // the largest payload that still fits in one frame is accepted
    let largest: Vec<u8> = vec![0u8; MAX_PAYLOAD];
    assert_eq!(sock.send_slice(&largest, localhost(1234)), Ok(()));
    // and one byte more than that is again rejected
    let too_big: Vec<u8> = vec![0u8; MAX_PAYLOAD + 1];
    assert_eq!(
        sock.send_slice(&too_big, localhost(1234)),
        Err(SocketError::Truncated)
    );
}

#[test]
fn full_outbound_ring_fails_with_buffer_full() {
    let mut sock = Socket::new(4, 1);
    sock.bind(localhost(1234)).unwrap();
    assert_eq!(sock.send_slice(b"one", localhost(9)), Ok(()));
    assert_eq!(sock.send_slice(b"two", localhost(9)), Err(SocketError::BufferFull));
}

#[test]
fn recv_on_empty_inbound_ring_fails_with_exhausted() {
    let mut sock = Socket::new(4, 4);
    sock.bind(localhost(1234)).unwrap();
    assert!(matches!(sock.recv(), Err(SocketError::Exhausted)));
}

#[test]
fn fresh_socket_reports_no_drops() {
    let sock = Socket::new(1, 1);
    assert_eq!(sock.drop_count(), 0);
}
