use indexed_store::host_group::{AddrRange, HostAddr, HostNetworkGroup, NetAddr};

fn v4(a: u8, b: u8, c: u8, d: u8) -> HostAddr {
    HostAddr::V4(u32::from_be_bytes([a, b, c, d]))
}

#[test]
fn new_sorts_and_dedups() {
    let hosts = vec![v4(10, 0, 0, 9), v4(10, 0, 0, 1), v4(10, 0, 0, 9), HostAddr::V6(7)];
    let networks = vec![
        NetAddr { addr: v4(192, 168, 0, 0), prefix_len: 24 },
        NetAddr { addr: v4(10, 0, 0, 0), prefix_len: 8 },
        NetAddr { addr: v4(192, 168, 0, 0), prefix_len: 24 },
    ];
    let ranges = vec![
        AddrRange { start: v4(10, 0, 0, 5), end: v4(10, 0, 0, 7) },
        AddrRange { start: v4(10, 0, 0, 1), end: v4(10, 0, 0, 3) },
        AddrRange { start: v4(10, 0, 0, 1), end: v4(10, 0, 0, 3) },
    ];
    let g = HostNetworkGroup::new(hosts, networks, ranges);

    assert_eq!(g.hosts(), &vec![v4(10, 0, 0, 1), v4(10, 0, 0, 9), HostAddr::V6(7)]);
    assert_eq!(
        g.networks(),
        &vec![
            NetAddr { addr: v4(10, 0, 0, 0), prefix_len: 8 },
            NetAddr { addr: v4(192, 168, 0, 0), prefix_len: 24 },
        ]
    );
    assert_eq!(
        g.ip_ranges(),
        &vec![
            AddrRange { start: v4(10, 0, 0, 1), end: v4(10, 0, 0, 3) },
            AddrRange { start: v4(10, 0, 0, 5), end: v4(10, 0, 0, 7) },
        ]
    );
}

#[test]
fn contains_finds_every_input() {
    let hosts = vec![v4(10, 0, 0, 9), v4(10, 0, 0, 1)];
    let networks = vec![NetAddr { addr: v4(192, 168, 1, 0), prefix_len: 24 }];
    let ranges = vec![AddrRange { start: v4(172, 16, 0, 4), end: v4(172, 16, 0, 9) }];
    let g = HostNetworkGroup::new(hosts.clone(), networks.clone(), ranges.clone());

    for h in &hosts {
        assert!(g.contains(*h));
        assert!(g.contains_host(*h));
    }
    for n in &networks {
        assert!(g.contains_network(n));
    }
    for r in &ranges {
        assert!(g.contains_ip_range(r));
    }

    // Inside the network and inside the range.
    assert!(g.contains(v4(192, 168, 1, 200)));
    assert!(g.contains(v4(172, 16, 0, 6)));

    // In none of the three collections.
    assert!(!g.contains(v4(8, 8, 8, 8)));
    assert!(!g.contains_host(v4(192, 168, 1, 200)));
    assert!(!g.contains_network(&NetAddr { addr: v4(192, 168, 1, 0), prefix_len: 25 }));
    assert!(!g.contains_ip_range(&AddrRange { start: v4(172, 16, 0, 4), end: v4(172, 16, 0, 8) }));
}

#[test]
fn families_do_not_mix() {
    let g = HostNetworkGroup::new(
        vec![HostAddr::V4(77)],
        vec![NetAddr { addr: HostAddr::V4(0), prefix_len: 0 }],
        vec![],
    );
    // A prefix of length 0 covers its whole family, and only that family.
    assert!(g.contains(HostAddr::V4(123456)));
    assert!(!g.contains(HostAddr::V6(77)));
}
