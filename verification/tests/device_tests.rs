use loopstack::device::{Loopback, Medium, LOOPBACK_MTU};

#[test]
fn capabilities_are_pure_ip_with_fixed_mtu() {
    let dev = Loopback::new();
    let caps = dev.capabilities();
    assert_eq!(caps.max_transmission_unit, 1500);
    assert_eq!(caps.max_transmission_unit, LOOPBACK_MTU);
    assert!(caps.medium == Medium::Ip);
}

#[test]
fn empty_device_has_nothing_to_receive() {
    let mut dev = Loopback::new();
    assert!(dev.receive().is_none());
}

#[test]
fn loopback_echo_small_payload() {
    let mut dev = Loopback::new();
    let data: Vec<u8> = vec![1, 2, 3, 4, 5];
    let tok = dev.transmit().unwrap();
    tok.consume(&mut dev, &data);
    let (rx, _reply) = dev.receive().unwrap();
    assert_eq!(rx.consume(), data);
}

#[test]
fn loopback_echo_full_mtu_payload() {
    let mut dev = Loopback::new();
    let data: Vec<u8> = (0..LOOPBACK_MTU).map(|i| (i % 251) as u8).collect();
    let tok = dev.transmit().unwrap();
    tok.consume(&mut dev, &data);
    let (rx, _reply) = dev.receive().unwrap();
    assert_eq!(rx.consume(), data);
}

#[test]
fn second_transmit_overwrites_pending_frame() {
    let mut dev = Loopback::new();
    let first: Vec<u8> = vec![1, 1, 1];
    let second: Vec<u8> = vec![2, 2];
    let tok = dev.transmit().unwrap();
    tok.consume(&mut dev, &first);
    let tok = dev.transmit().unwrap();
    tok.consume(&mut dev, &second);
    let (rx, _reply) = dev.receive().unwrap();
    assert_eq!(rx.consume(), second);
}

#[test]
fn receive_drains_the_device() {
    let mut dev = Loopback::new();
    let data: Vec<u8> = vec![9, 8, 7];
    let tok = dev.transmit().unwrap();
    tok.consume(&mut dev, &data);
    let (rx, _reply) = dev.receive().unwrap();
    assert_eq!(rx.consume(), data);
    assert!(dev.receive().is_none());
}
