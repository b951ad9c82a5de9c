use loopstack::route::{Ipv4Cidr, RouteError, RouteTable};

fn ip(a: u32, b: u32, c: u32, d: u32) -> u32 {
    (a << 24) | (b << 16) | (c << 8) | d
}

#[test]
fn longest_prefix_match_picks_the_most_specific_route() {
    let mut table = RouteTable::new();
    let hop_a = ip(10, 0, 0, 1);
    let hop_b = ip(10, 1, 0, 1);
    table
        .add_route(Ipv4Cidr { address: ip(10, 0, 0, 0), prefix_len: 8 }, hop_a)
        .unwrap();
    table
        .add_route(Ipv4Cidr { address: ip(10, 1, 0, 0), prefix_len: 16 }, hop_b)
        .unwrap();
    assert_eq!(table.lookup(ip(10, 1, 2, 3)), Ok(hop_b));
    assert_eq!(table.lookup(ip(10, 2, 2, 3)), Ok(hop_a));
    assert_eq!(table.lookup(ip(192, 168, 0, 1)), Err(RouteError::NoRoute));
}

#[test]
fn equal_length_prefixes_first_inserted_wins() {
    let mut table = RouteTable::new();
    table
        .add_route(Ipv4Cidr { address: ip(10, 0, 0, 0), prefix_len: 8 }, 111)
        .unwrap();
    table
        .add_route(Ipv4Cidr { address: ip(10, 0, 0, 1), prefix_len: 8 }, 222)
        .unwrap();
    assert_eq!(table.lookup(ip(10, 9, 9, 9)), Ok(111));
}

#[test]
fn duplicate_prefix_is_rejected_and_table_unchanged() {
    let mut table = RouteTable::new();
    let prefix = Ipv4Cidr { address: ip(10, 0, 0, 0), prefix_len: 8 };
    assert_eq!(table.add_route(prefix, 1), Ok(()));
    assert_eq!(table.add_route(prefix, 2), Err(RouteError::DuplicatePrefix));
    // the first entry is retained unchanged
    assert_eq!(table.lookup(ip(10, 5, 5, 5)), Ok(1));
}

#[test]
fn default_route_answers_when_no_prefix_contains_the_address() {
    let mut table = RouteTable::new();
    table
        .add_route(Ipv4Cidr { address: ip(10, 0, 0, 0), prefix_len: 8 }, 7)
        .unwrap();
    table.set_default_route(99);
    assert_eq!(table.lookup(ip(192, 168, 0, 1)), Ok(99));
    assert_eq!(table.lookup(ip(10, 0, 0, 5)), Ok(7));
}

#[test]
fn zero_length_prefix_contains_everything() {
    let mut table = RouteTable::new();
    table
        .add_route(Ipv4Cidr { address: 0, prefix_len: 0 }, 42)
        .unwrap();
    assert_eq!(table.lookup(ip(1, 2, 3, 4)), Ok(42));
    assert_eq!(table.lookup(0xFFFF_FFFF), Ok(42));
}

#[test]
fn host_prefix_matches_only_itself() {
    let mut table = RouteTable::new();
    table
        .add_route(Ipv4Cidr { address: ip(127, 0, 0, 1), prefix_len: 32 }, 5)
        .unwrap();
    assert_eq!(table.lookup(ip(127, 0, 0, 1)), Ok(5));
    assert_eq!(table.lookup(ip(127, 0, 0, 2)), Err(RouteError::NoRoute));
}
