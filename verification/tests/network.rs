use dns_test::host::{block_bounds, block_is_free, block_network, first_free, HostNetwork};
use dns_test::network::{
    checked_subnet, network_count, subnet, Allocation, AllocationError, Step, FIRST_COUNT,
    NUM_TRIES, SUBNET_MAX, SUBNET_SPLIT,
};

fn ip(a: u32, b: u32, c: u32, d: u32) -> u32 {
    (a << 24) | (b << 16) | (c << 8) | d
}

fn host(a: u32, b: u32, c: u32, d: u32, bits: u8) -> HostNetwork {
    HostNetwork::new(ip(a, b, c, d), bits).unwrap()
}

#[test]
fn subnet_works() {
    assert_eq!("172.18.0.0/24", subnet(0));
    assert_eq!("172.18.1.0/24", subnet(1));
    assert_eq!("172.31.255.0/24", subnet(14 * 256 - 1));
    assert_eq!("192.168.16.0/24", subnet(14 * 256));
    assert_eq!("192.168.17.0/24", subnet(14 * 256 + 1));
    assert_eq!("192.168.255.0/24", subnet(14 * 256 + 239));
}

#[test]
fn subnet_rejects_what_is_out_of_range() {
    assert_eq!(SUBNET_SPLIT, 14 * 256);
    assert_eq!(SUBNET_MAX, 14 * 256 + 240);
    assert_eq!(checked_subnet(14 * 256 + 239).as_deref(), Some("192.168.255.0/24"));
    assert_eq!(checked_subnet(14 * 256 + 240), None);
    assert_eq!(checked_subnet(u32::MAX), None);
}

#[test]
fn subnets_are_pairwise_distinct() {
    let mut seen = std::collections::HashSet::new();
    for n in 0..SUBNET_MAX {
        assert!(seen.insert(subnet(n)));
    }
    assert_eq!(seen.len(), 3824);
}

#[test]
fn network_count_moves_on_by_one() {
    let mut counter = FIRST_COUNT;
    assert_eq!(network_count(&mut counter), 1);
    assert_eq!(network_count(&mut counter), 2);
    assert_eq!(counter, 3);
    let mut counter = usize::MAX;
    assert_eq!(network_count(&mut counter), usize::MAX);
    assert_eq!(counter, 0);
}

#[test]
fn allocation_gives_up_after_three_refusals() {
    let mut allocation = Allocation::new(4242, "dns-test", 7);
    let mut tries = 0;
    loop {
        match allocation.next_with(tries) {
            Step::Try(attempt) => {
                assert_eq!(attempt.network_name(), "dns-test-4242-7");
                assert_eq!(attempt.subnet(), subnet(tries));
                tries += 1;
                allocation = attempt.refused();
            }
            Step::Exhausted(error) => {
                assert_eq!(error, AllocationError { tries: 3 });
                break;
            }
        }
    }
    assert_eq!(tries as usize, NUM_TRIES);
}

#[test]
fn allocation_makes_the_network_of_the_accepted_attempt() {
    let allocation = Allocation::new(1, "dns-test", 1);
    let Step::Try(first) = allocation.next_with(5) else {
        panic!("no try left");
    };
    let Step::Try(second) = first.refused().next_with(14 * 256) else {
        panic!("no try left");
    };
    let network = second.created();
    assert_eq!(network.name(), "dns-test-1-1");
    assert_eq!(network.netmask(), "192.168.16.0/24");
}

#[test]
fn allocation_picks_a_block_of_the_partition() {
    for _ in 0..64 {
        let Step::Try(attempt) = Allocation::new(1, "dns-test", 1).next() else {
            panic!("no try left");
        };
        let subnet_text = attempt.subnet().to_string();
        assert!((0..SUBNET_MAX).any(|n| subnet(n) == subnet_text));
    }
}

#[test]
fn exhaustion_message_names_the_ranges_and_the_tries() {
    let message = AllocationError { tries: NUM_TRIES }.message();
    assert_eq!(
        message,
        "failed to allocate a network in the address ranges
- 172.18.0.0/16 - 172.31.0.0/16 and
- 192.168.16.0/20 - 192.168.24.0/20

after 3 tries"
    );
}

#[test]
fn host_network_spans_what_its_netmask_leaves_open() {
    assert_eq!(host(172, 18, 3, 77, 24).bounds(), (ip(172, 18, 3, 0) as u64, ip(172, 18, 3, 255) as u64));
    assert_eq!(host(172, 18, 3, 77, 16).bounds(), (ip(172, 18, 0, 0) as u64, ip(172, 18, 255, 255) as u64));
    assert_eq!(host(10, 1, 2, 3, 8).bounds(), (ip(10, 0, 0, 0) as u64, ip(10, 255, 255, 255) as u64));
    assert_eq!(host(10, 1, 2, 3, 32).bounds(), (ip(10, 1, 2, 3) as u64, ip(10, 1, 2, 3) as u64));
    assert_eq!(host(10, 1, 2, 3, 0).bounds(), (0, u32::MAX as u64));
    assert_eq!(host(192, 168, 17, 130, 25).bounds(), (ip(192, 168, 17, 128) as u64, ip(192, 168, 17, 255) as u64));
    assert_eq!(host(192, 168, 17, 130, 20).bounds(), (ip(192, 168, 16, 0) as u64, ip(192, 168, 31, 255) as u64));
    assert!(HostNetwork::new(0, 33).is_none());
    assert!(HostNetwork::new(0, 255).is_none());
}

#[test]
fn block_bounds_are_those_of_its_cidr_text() {
    assert_eq!(block_bounds(0), (ip(172, 18, 0, 0) as u64, ip(172, 18, 0, 255) as u64));
    assert_eq!(block_bounds(257), (ip(172, 19, 1, 0) as u64, ip(172, 19, 1, 255) as u64));
    assert_eq!(block_bounds(14 * 256 - 1), (ip(172, 31, 255, 0) as u64, ip(172, 31, 255, 255) as u64));
    assert_eq!(block_bounds(14 * 256), (ip(192, 168, 16, 0) as u64, ip(192, 168, 16, 255) as u64));
    assert_eq!(block_bounds(SUBNET_MAX - 1), (ip(192, 168, 255, 0) as u64, ip(192, 168, 255, 255) as u64));
    assert_eq!(block_network(257).bounds(), block_bounds(257));
    assert_eq!(block_network(257), host(172, 19, 1, 0, 24));
}

#[test]
fn overlap_is_tested_across_netmask_widths() {
    // the block 172.18.1.0/24, against networks that are wider, as wide, and narrower
    assert!(!block_is_free(1, &vec![host(172, 18, 0, 1, 16)]));
    assert!(!block_is_free(1, &vec![host(172, 16, 0, 1, 12)]));
    assert!(!block_is_free(1, &vec![host(172, 18, 1, 1, 24)]));
    assert!(!block_is_free(1, &vec![host(172, 18, 1, 200, 30)]));
    assert!(!block_is_free(1, &vec![host(8, 8, 8, 8, 0)]));
    assert!(block_is_free(1, &vec![host(172, 18, 0, 1, 24)]));
    assert!(block_is_free(1, &vec![host(172, 18, 2, 0, 23)]));
    assert!(!block_is_free(1, &vec![host(172, 18, 0, 0, 23)]));
    assert!(block_is_free(1, &vec![host(172, 17, 0, 1, 16), host(172, 19, 0, 1, 16)]));
    assert!(block_is_free(1, &vec![host(10, 0, 0, 1, 8), host(192, 168, 0, 1, 16)]));
    assert!(block_is_free(1, &Vec::new()));
}

#[test]
fn scan_returns_the_first_free_block() {
    assert_eq!(first_free(&Vec::new()), Some(0));
    assert_eq!(first_free(&vec![host(172, 17, 0, 1, 16)]), Some(0));
    assert_eq!(first_free(&vec![host(172, 18, 0, 1, 24)]), Some(1));
    assert_eq!(first_free(&vec![host(172, 18, 0, 1, 16)]), Some(256));
    assert_eq!(
        first_free(&vec![host(172, 18, 0, 1, 24), host(172, 18, 2, 1, 24), host(172, 18, 1, 9, 24)]),
        Some(3)
    );
    assert_eq!(first_free(&vec![host(172, 16, 0, 1, 12)]), Some(14 * 256));
    assert_eq!(
        first_free(&vec![host(172, 16, 0, 1, 12), host(192, 168, 0, 1, 17)]),
        Some(14 * 256 + 128 - 16)
    );
    assert_eq!(first_free(&vec![host(172, 16, 0, 1, 12), host(192, 168, 0, 1, 16)]), None);
    assert_eq!(first_free(&vec![host(1, 1, 1, 1, 0)]), None);
}

#[test]
fn scanned_networks_are_pairwise_apart() {
    let mut in_use = vec![host(172, 18, 0, 1, 23), host(172, 18, 3, 1, 24)];
    let mut networks = Vec::new();
    for count in 1..=40 {
        let Step::Try(attempt) = Allocation::new(1, "dns-test", count).next_scanned(&in_use) else {
            panic!("no block is free");
        };
        let network = attempt.created();
        in_use.push(network.host_network());
        networks.push(network);
    }
    assert_eq!(networks[0].netmask(), "172.18.2.0/24");
    assert_eq!(networks[1].netmask(), "172.18.4.0/24");
    for (i, a) in networks.iter().enumerate() {
        for b in &networks[i + 1..] {
            let (low_a, high_a) = a.host_network().bounds();
            let (low_b, high_b) = b.host_network().bounds();
            assert!(high_a < low_b || high_b < low_a);
            assert_ne!(a.netmask(), b.netmask());
            assert_ne!(a.name(), b.name());
        }
    }
}

#[test]
fn scan_gives_up_where_nothing_is_free() {
    let everything = vec![host(0, 0, 0, 0, 0)];
    let Step::Exhausted(error) = Allocation::new(1, "dns-test", 1).next_scanned(&everything) else {
        panic!("a block is free");
    };
    assert_eq!(error, AllocationError { tries: 0 });
    assert!(error.message().ends_with("\n\nafter 0 tries"));
}

#[test]
fn blocks_lie_apart_in_the_order_of_their_indices() {
    let mut last = 0;
    for n in 0..SUBNET_MAX {
        let (low, high) = block_bounds(n);
        assert_eq!(high, low + 255);
        assert_eq!(low % 256, 0);
        assert!(last < low);
        last = high;
        let text = subnet(n);
        let octets: Vec<u64> = text
            .strip_suffix(".0/24")
            .unwrap()
            .split('.')
            .map(|octet| octet.parse().unwrap())
            .collect();
        assert_eq!(low, (octets[0] << 24) | (octets[1] << 16) | (octets[2] << 8));
        // none of them is in the range of the default bridge network
        assert!(!(octets[0] == 172 && octets[1] == 17));
    }
}
