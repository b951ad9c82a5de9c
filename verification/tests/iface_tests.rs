use loopstack::device::Loopback;
use loopstack::iface::{Instant, Interface, PollError};
use loopstack::neighbor::NeighborCache;
use loopstack::route::{Ipv4Cidr, RouteTable};
use loopstack::socket::{Endpoint, Socket, SocketError};

const LOCALHOST: u32 = (127 << 24) | 1;

fn loopback_iface() -> Interface {
    let device = Loopback::new();
    let mut routes = RouteTable::new();
    routes
        .add_route(
            Ipv4Cidr { address: 127 << 24, prefix_len: 8 },
            LOCALHOST,
        )
        .unwrap();
    let neighbors = NeighborCache::new(8);
    Interface::new(device, routes, neighbors, Instant { millis: 0 })
}

#[test]
fn socket_round_trip_within_one_poll() {
    let mut iface = loopback_iface();
    let mut sockets = vec![Socket::new(8, 8)];
    let endpoint = Endpoint { addr: LOCALHOST, port: 1234 };
    sockets[0].bind(endpoint).unwrap();
    sockets[0]
        .send_slice(b"Hello, loopback!", endpoint)
        .unwrap();
    let result = iface.poll(&mut sockets, Instant { millis: 1 });
    assert_eq!(result, Ok(true));
    let (data, from) = sockets[0].recv().unwrap();
    assert_eq!(data, b"Hello, loopback!".to_vec());
    assert_eq!(from, endpoint);
}

#[test]
fn round_trip_to_a_second_socket_bound_to_same_endpoint_order_decides() {
    // dispatch goes to the first socket, in collection order, bound to the
    // destination endpoint
    let mut iface = loopback_iface();
    let mut sockets = vec![Socket::new(8, 8), Socket::new(8, 8)];
    let endpoint = Endpoint { addr: LOCALHOST, port: 1234 };
    sockets[0].bind(endpoint).unwrap();
    sockets[1].bind(endpoint).unwrap();
    sockets[1].send_slice(b"ping", endpoint).unwrap();
    assert_eq!(iface.poll(&mut sockets, Instant { millis: 1 }), Ok(true));
    let (data, from) = sockets[0].recv().unwrap();
    assert_eq!(data, b"ping".to_vec());
    assert_eq!(from, endpoint);
    assert!(matches!(sockets[1].recv(), Err(SocketError::Exhausted)));
}

#[test]
fn poll_with_nothing_to_do_reports_no_change() {
    let mut iface = loopback_iface();
    let mut sockets = vec![Socket::new(8, 8)];
    sockets[0]
        .bind(Endpoint { addr: LOCALHOST, port: 1 })
        .unwrap();
    assert_eq!(iface.poll(&mut sockets, Instant { millis: 5 }), Ok(false));
}

#[test]
fn inbound_ring_overflow_keeps_oldest_and_counts_one_drop() {
    let mut iface = loopback_iface();
    let mut sockets = vec![Socket::new(1, 8)];
    let endpoint = Endpoint { addr: LOCALHOST, port: 7 };
    sockets[0].bind(endpoint).unwrap();
    sockets[0].send_slice(b"first", endpoint).unwrap();
    sockets[0].send_slice(b"second", endpoint).unwrap();
    // first cycle delivers "first"; second cycle finds the ring full and
    // drops "second", the newest
    assert_eq!(iface.poll(&mut sockets, Instant { millis: 1 }), Ok(true));
    assert_eq!(
        iface.poll(&mut sockets, Instant { millis: 2 }),
        Err(PollError::Dropped { malformed: 0, no_route: 0, rx_full: 1 })
    );
    assert_eq!(sockets[0].drop_count(), 1);
    let (data, _) = sockets[0].recv().unwrap();
    assert_eq!(data, b"first".to_vec());
    assert!(matches!(sockets[0].recv(), Err(SocketError::Exhausted)));
}

#[test]
fn unroutable_datagram_is_dropped_and_counted() {
    let mut iface = loopback_iface();
    let mut sockets = vec![Socket::new(8, 8)];
    let endpoint = Endpoint { addr: LOCALHOST, port: 7 };
    sockets[0].bind(endpoint).unwrap();
    // 192.168.0.1 matches no route and there is no default route
    let unroutable = Endpoint { addr: (192 << 24) | (168 << 16) | 1, port: 9 };
    sockets[0].send_slice(b"lost", unroutable).unwrap();
    assert_eq!(
        iface.poll(&mut sockets, Instant { millis: 1 }),
        Err(PollError::Dropped { malformed: 0, no_route: 1, rx_full: 0 })
    );
    // the datagram is gone: a further poll has nothing left to do
    assert_eq!(iface.poll(&mut sockets, Instant { millis: 2 }), Ok(false));
}

#[test]
fn truncated_send_leaves_outbound_ring_unchanged() {
    let mut iface = loopback_iface();
    let mut sockets = vec![Socket::new(8, 8)];
    let endpoint = Endpoint { addr: LOCALHOST, port: 7 };
    sockets[0].bind(endpoint).unwrap();
    let oversize: Vec<u8> = vec![0u8; 1501];
    assert_eq!(
        sockets[0].send_slice(&oversize, endpoint),
        Err(SocketError::Truncated)
    );
    // nothing was queued, so the poll cycle finds no work at all
    assert_eq!(iface.poll(&mut sockets, Instant { millis: 1 }), Ok(false));
    assert!(matches!(sockets[0].recv(), Err(SocketError::Exhausted)));
}

#[test]
fn frame_for_an_endpoint_nobody_listens_on_is_dropped_silently() {
    let mut iface = loopback_iface();
    let mut sockets = vec![Socket::new(8, 8)];
    sockets[0]
        .bind(Endpoint { addr: LOCALHOST, port: 7 })
        .unwrap();
    // routable, but no socket is bound to port 8
    sockets[0]
        .send_slice(b"void", Endpoint { addr: LOCALHOST, port: 8 })
        .unwrap();
    assert_eq!(iface.poll(&mut sockets, Instant { millis: 1 }), Ok(true));
    assert!(matches!(sockets[0].recv(), Err(SocketError::Exhausted)));
    assert_eq!(sockets[0].drop_count(), 0);
}

#[test]
fn routes_can_be_configured_after_construction() {
    let device = Loopback::new();
    let mut iface = Interface::new(
        device,
        RouteTable::new(),
        NeighborCache::new(4),
        Instant { millis: 0 },
    );
    iface
        .routes_mut()
        .add_route(Ipv4Cidr { address: 127 << 24, prefix_len: 8 }, LOCALHOST)
        .unwrap();
    let mut sockets = vec![Socket::new(8, 8)];
    let endpoint = Endpoint { addr: LOCALHOST, port: 80 };
    sockets[0].bind(endpoint).unwrap();
    sockets[0].send_slice(b"configured", endpoint).unwrap();
    assert_eq!(iface.poll(&mut sockets, Instant { millis: 1 }), Ok(true));
    let (data, _) = sockets[0].recv().unwrap();
    assert_eq!(data, b"configured".to_vec());
}

#[test]
fn malformed_pending_frame_is_dropped_and_counted() {
    // write a frame that is shorter than a header straight to the device,
    // then hand the device to an interface: the first cycle drops it
    let mut device = Loopback::new();
    let garbage: Vec<u8> = vec![1, 2, 3];
    let token = device.transmit().unwrap();
    token.consume(&mut device, &garbage);
    let mut routes = RouteTable::new();
    routes
        .add_route(Ipv4Cidr { address: 127 << 24, prefix_len: 8 }, LOCALHOST)
        .unwrap();
    let mut iface = Interface::new(
        device,
        routes,
        NeighborCache::new(4),
        Instant { millis: 0 },
    );
    let mut sockets = vec![Socket::new(8, 8)];
    sockets[0]
        .bind(Endpoint { addr: LOCALHOST, port: 7 })
        .unwrap();
    assert_eq!(
        iface.poll(&mut sockets, Instant { millis: 1 }),
        Err(PollError::Dropped { malformed: 1, no_route: 0, rx_full: 0 })
    );
    // the garbage is gone and the stack keeps working
    assert_eq!(iface.poll(&mut sockets, Instant { millis: 2 }), Ok(false));
}

#[test]
fn default_route_carries_the_egress_datagram() {
    let device = Loopback::new();
    let mut routes = RouteTable::new();
    routes.set_default_route(LOCALHOST);
    let mut iface = Interface::new(
        device,
        routes,
        NeighborCache::new(4),
        Instant { millis: 0 },
    );
    let mut sockets = vec![Socket::new(8, 8)];
    let endpoint = Endpoint { addr: LOCALHOST, port: 7 };
    sockets[0].bind(endpoint).unwrap();
    sockets[0].send_slice(b"via default", endpoint).unwrap();
    assert_eq!(iface.poll(&mut sockets, Instant { millis: 1 }), Ok(true));
    let (data, _) = sockets[0].recv().unwrap();
    assert_eq!(data, b"via default".to_vec());
}
