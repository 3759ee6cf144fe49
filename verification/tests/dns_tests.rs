use peek::address::Ipv4Address;
use peek::dns::{first_ipv4, IpAddress};

#[test]
fn first_ipv4_skips_ipv6_addresses() {
    let a = Ipv4Address::new(142, 250, 120, 102);
    let b = Ipv4Address::new(10, 0, 0, 1);
    let addresses = vec![IpAddress::V6, IpAddress::V4(a), IpAddress::V4(b)];
    assert_eq!(first_ipv4(&addresses), Some(a));
}

#[test]
fn first_ipv4_of_none_is_none() {
    assert_eq!(first_ipv4(&vec![]), None);
    assert_eq!(first_ipv4(&vec![IpAddress::V6, IpAddress::V6]), None);
}
