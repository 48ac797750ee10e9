use dns_test::fqdn::{FqdnError, FQDN};
use dns_test::hierarchy::{
    plan_zones, BuildError, Hierarchy, Progress, SignedHierarchy, TrustAnchor,
};
use dns_test::name_server::{NameServer, Record, Signing};

fn fqdn(text: &str) -> FQDN {
    FQDN::new(text).unwrap()
}

fn texts(names: &[FQDN]) -> Vec<&str> {
    names.iter().map(|name| name.as_str()).collect()
}

fn server(zone: &str, number: usize, address: u32) -> NameServer {
    NameServer::new(fqdn(zone), FQDN::nameserver(number), address)
}

fn signing(zone: &str) -> Signing {
    Signing {
        ksk: format!("{zone} IN DNSKEY 257"),
        zsk: format!("{zone} IN DNSKEY 256"),
        ds: format!("digest of {zone}"),
        zone_file: format!("{zone} signed"),
    }
}

fn sign_all(mut hierarchy: Hierarchy) -> SignedHierarchy {
    loop {
        match hierarchy.next() {
            Progress::Sign(pending) => {
                let zone = pending.server().zone.as_str().to_string();
                hierarchy = pending.signed(signing(&zone));
            }
            Progress::Done(signed) => return signed,
        }
    }
}

#[test]
fn fqdn_takes_well_formed_names_only() {
    for name in [".", "com.", "example.com.", "a.b.c.d.", "primary0.nameservers.com.", "EXAMPLE.com."] {
        assert_eq!(FQDN::new(name).unwrap().as_str(), name);
    }
    assert_eq!(FQDN::new("").err(), Some(FqdnError::NoTrailingDot));
    assert_eq!(FQDN::new("com").err(), Some(FqdnError::NoTrailingDot));
    assert_eq!(FQDN::new("example.com").err(), Some(FqdnError::NoTrailingDot));
    assert_eq!(FQDN::new(".com.").err(), Some(FqdnError::EmptyLabel));
    assert_eq!(FQDN::new("..").err(), Some(FqdnError::EmptyLabel));
    assert_eq!(FQDN::new("a..b.").err(), Some(FqdnError::EmptyLabel));
    assert_eq!(FQDN::new("a.b..").err(), Some(FqdnError::EmptyLabel));
    assert_eq!(FQDN::new("caf\u{e9}.com.").err(), Some(FqdnError::NotAscii));
    assert_eq!(FQDN::new("caf\u{e9}").err(), Some(FqdnError::NotAscii));
}

#[test]
fn fqdn_knows_the_zone_above() {
    assert_eq!(fqdn("a.example.com.").parent(), Some(fqdn("example.com.")));
    assert_eq!(fqdn("example.com.").parent(), Some(fqdn("com.")));
    assert_eq!(fqdn("com.").parent(), Some(fqdn(".")));
    assert_eq!(fqdn(".").parent(), None);
    assert!(fqdn(".").is_root());
    assert!(!fqdn("com.").is_root());
    assert!(fqdn("com.").same_as(&fqdn("com.")));
    assert!(!fqdn("com.").same_as(&fqdn("org.")));
    assert_eq!(
        texts(&fqdn("a.example.com.").ancestors()),
        vec!["a.example.com.", "example.com.", "com.", "."]
    );
    assert_eq!(texts(&fqdn(".").ancestors()), vec!["."]);
}

#[test]
fn nameservers_are_named_by_their_number() {
    assert_eq!(FQDN::nameservers().as_str(), "nameservers.com.");
    assert_eq!(FQDN::nameserver(0).as_str(), "primary0.nameservers.com.");
    assert_eq!(FQDN::nameserver(14).as_str(), "primary14.nameservers.com.");
    assert_eq!(FQDN::nameserver(123456).as_str(), "primary123456.nameservers.com.");
    assert_eq!(
        dns_test::fixture::nameserver_hash(FQDN::nameserver(3).as_str()),
        Some("9JMUC5ADM6MUKUN4NTBMR19C1030SRM0")
    );
}

#[test]
fn plan_adds_the_zones_above_and_the_zone_of_the_nameservers() {
    assert_eq!(texts(&plan_zones(&fqdn("nameservers.com."))), vec!["nameservers.com.", "com.", "."]);
    assert_eq!(texts(&plan_zones(&fqdn("com."))), vec!["nameservers.com.", "com.", "."]);
    assert_eq!(texts(&plan_zones(&fqdn("."))), vec!["nameservers.com.", "com.", "."]);
    assert_eq!(
        texts(&plan_zones(&fqdn("example.com."))),
        vec!["example.com.", "nameservers.com.", "com.", "."]
    );
    assert_eq!(
        texts(&plan_zones(&fqdn("example.testing."))),
        vec!["example.testing.", "testing.", "nameservers.com.", "com.", "."]
    );
    assert_eq!(
        texts(&plan_zones(&fqdn("a.nameservers.com."))),
        vec!["a.nameservers.com.", "nameservers.com.", "com.", "."]
    );
}

#[test]
fn a_new_server_knows_itself() {
    let mut ns = server("example.com.", 7, 0x0a000001);
    assert_eq!(
        ns.records,
        vec![
            Record::NS { zone: fqdn("example.com."), nameserver: FQDN::nameserver(7) },
            Record::A { fqdn: FQDN::nameserver(7), address: 0x0a000001 },
        ]
    );
    ns.add(Record::A { fqdn: fqdn("a.example.com."), address: 0x01020304 });
    ns.referral(fqdn("b.example.com."), fqdn("ns.b.example.com."), 0x0a000002);
    assert_eq!(
        ns.records[2..],
        [
            Record::A { fqdn: fqdn("a.example.com."), address: 0x01020304 },
            Record::NS { zone: fqdn("b.example.com."), nameserver: fqdn("ns.b.example.com.") },
            Record::A { fqdn: fqdn("ns.b.example.com."), address: 0x0a000002 },
        ]
    );
    assert_eq!(ns.zone, fqdn("example.com."));
    assert_eq!(ns.address, 0x0a000001);
}

#[test]
fn build_wires_each_zone_to_the_zone_above() {
    let servers = vec![
        server("a.example.com.", 0, 10),
        server("b.example.com.", 1, 11),
        server("example.com.", 2, 12),
        server("com.", 3, 13),
        server(".", 4, 14),
    ];
    let hierarchy = Hierarchy::build(servers).unwrap();
    assert!(hierarchy.signed().is_empty());
    let wired = hierarchy.unsigned();
    assert_eq!(wired.len(), 5);
    assert_eq!(wired[0].records.len(), 2);
    assert_eq!(wired[1].records.len(), 2);
    assert_eq!(
        wired[2].records[2..],
        [
            Record::NS { zone: fqdn("a.example.com."), nameserver: FQDN::nameserver(0) },
            Record::A { fqdn: FQDN::nameserver(0), address: 10 },
            Record::NS { zone: fqdn("b.example.com."), nameserver: FQDN::nameserver(1) },
            Record::A { fqdn: FQDN::nameserver(1), address: 11 },
        ]
    );
    assert_eq!(
        wired[3].records[2..],
        [
            Record::NS { zone: fqdn("example.com."), nameserver: FQDN::nameserver(2) },
            Record::A { fqdn: FQDN::nameserver(2), address: 12 },
        ]
    );
    assert_eq!(
        wired[4].records[2..],
        [
            Record::NS { zone: fqdn("com."), nameserver: FQDN::nameserver(3) },
            Record::A { fqdn: FQDN::nameserver(3), address: 13 },
        ]
    );
}

#[test]
fn build_refuses_what_is_no_hierarchy() {
    assert_eq!(Hierarchy::build(Vec::new()).err(), Some(BuildError::Empty));
    assert_eq!(
        Hierarchy::build(vec![server("example.com.", 0, 1), server("com.", 1, 2)]).err(),
        Some(BuildError::NoRoot)
    );
    assert_eq!(
        Hierarchy::build(vec![server("com.", 0, 1), server("example.org.", 1, 2), server(".", 2, 3)]).err(),
        Some(BuildError::Orphan { index: 1 })
    );
    // the zone above must come later
    assert_eq!(
        Hierarchy::build(vec![server("com.", 0, 1), server("example.com.", 1, 2), server(".", 2, 3)]).err(),
        Some(BuildError::Orphan { index: 1 })
    );
    assert_eq!(
        Hierarchy::build(vec![server(".", 0, 1), server(".", 1, 2)]).err(),
        Some(BuildError::Orphan { index: 0 })
    );
    assert!(Hierarchy::build(vec![server(".", 0, 1)]).is_ok());
}

#[test]
fn signing_installs_each_ds_in_the_zone_above() {
    let servers = vec![
        server("a.example.com.", 0, 10),
        server("example.com.", 1, 11),
        server("nameservers.com.", 2, 12),
        server("com.", 3, 13),
        server(".", 4, 14),
    ];
    let mut hierarchy = Hierarchy::build(servers).unwrap();
    let mut order = Vec::new();
    let signed = loop {
        match hierarchy.next() {
            Progress::Sign(pending) => {
                let zone = pending.server().zone.as_str().to_string();
                // what is signed holds the DS of every zone below that was signed before
                let ds_count = pending
                    .server()
                    .records
                    .iter()
                    .filter(|record| matches!(record, Record::DS { .. }))
                    .count();
                order.push((zone.clone(), ds_count));
                hierarchy = pending.signed(signing(&zone));
            }
            Progress::Done(signed) => break signed,
        }
    };
    assert_eq!(
        order,
        vec![
            ("a.example.com.".to_string(), 0),
            ("example.com.".to_string(), 1),
            ("nameservers.com.".to_string(), 0),
            ("com.".to_string(), 2),
            (".".to_string(), 1),
        ]
    );
    let servers = signed.servers();
    assert_eq!(servers.len(), 5);
    let parents: Vec<_> = (0..5).map(|i| signed.parent(i)).collect();
    assert_eq!(parents, vec![Some(1), Some(3), Some(3), Some(4), None]);
    for (i, server) in servers.iter().enumerate() {
        let zone = server.server().zone.as_str();
        assert_eq!(
            server.ds(),
            &Record::DS { zone: fqdn(zone), digest: format!("digest of {zone}") }
        );
        assert_eq!(server.signing(), &signing(zone));
        if let Some(parent) = signed.parent(i) {
            assert!(servers[parent].server().records.contains(server.ds()));
            assert_eq!(servers[parent].server().zone, server.server().zone.parent().unwrap());
        }
    }
    assert_eq!(
        servers[3].server().records[6..],
        [
            Record::DS { zone: fqdn("example.com."), digest: "digest of example.com.".to_string() },
            Record::DS {
                zone: fqdn("nameservers.com."),
                digest: "digest of nameservers.com.".to_string()
            },
        ]
    );
    assert_eq!(
        signed.trust_anchor(),
        TrustAnchor { ksk: ". IN DNSKEY 257".to_string(), zsk: ". IN DNSKEY 256".to_string() }
    );
}

#[test]
fn hierarchy_around_the_leaf_of_the_fixture() {
    let mut leaf = NameServer::new(FQDN::nameservers(), FQDN::nameserver(0), 100);
    leaf.add(Record::A { fqdn: fqdn("alice.nameservers.com."), address: 0x01020304 });
    leaf.add(Record::A { fqdn: fqdn("charlie.nameservers.com."), address: 0x01020305 });
    let hierarchy = Hierarchy::around(leaf, &vec![101, 102], 1).unwrap();
    let servers = hierarchy.unsigned();
    assert_eq!(
        servers.iter().map(|s| (s.zone.as_str(), s.fqdn.as_str(), s.address)).collect::<Vec<_>>(),
        vec![
            ("nameservers.com.", "primary0.nameservers.com.", 100),
            ("com.", "primary1.nameservers.com.", 101),
            (".", "primary2.nameservers.com.", 102),
        ]
    );
    assert_eq!(
        servers[0].records[2..],
        [
            Record::A { fqdn: fqdn("alice.nameservers.com."), address: 0x01020304 },
            Record::A { fqdn: fqdn("charlie.nameservers.com."), address: 0x01020305 },
            Record::A { fqdn: FQDN::nameserver(1), address: 101 },
            Record::A { fqdn: FQDN::nameserver(2), address: 102 },
        ]
    );
    assert_eq!(
        servers[1].records[2..],
        [
            Record::NS { zone: FQDN::nameservers(), nameserver: FQDN::nameserver(0) },
            Record::A { fqdn: FQDN::nameserver(0), address: 100 },
        ]
    );
    let signed = sign_all(hierarchy);
    assert_eq!(signed.servers().len(), 3);
    assert_eq!(signed.trust_anchor().ksk, ". IN DNSKEY 257");
    // the names of the servers are those whose hashes the fixture knows
    let names: Vec<_> = signed.servers().iter().map(|s| s.server().fqdn.as_str()).collect();
    assert!(dns_test::fixture::reference_table(&vec!["7M2FCI51VUC2E5RIBDPTVJ6S08EMMR3O"], &names).is_ok());
}

#[test]
fn hierarchy_around_a_leaf_elsewhere() {
    let leaf = NameServer::new(fqdn("example.testing."), FQDN::nameserver(0), 100);
    let err = Hierarchy::around(leaf.clone(), &vec![101, 102, 103], 1).err();
    assert_eq!(err, Some(BuildError::TooFewAddresses));
    let hierarchy = Hierarchy::around(leaf, &vec![101, 102, 103, 104, 105], 1).unwrap();
    let servers = hierarchy.unsigned();
    assert_eq!(
        servers.iter().map(|s| (s.zone.as_str(), s.fqdn.as_str(), s.address)).collect::<Vec<_>>(),
        vec![
            ("example.testing.", "primary0.nameservers.com.", 100),
            ("testing.", "primary1.nameservers.com.", 101),
            ("nameservers.com.", "primary2.nameservers.com.", 102),
            ("com.", "primary3.nameservers.com.", 103),
            (".", "primary4.nameservers.com.", 104),
        ]
    );
    assert_eq!(servers[2].records.len(), 2 + 4);
    assert_eq!(servers[4].records.len(), 2 + 2 * 2);
}
