//! Whole scenarios: a zone, its NSEC3 chain, and the denial of a name that
//! the zone does not have. The hashes are computed here as RFC 5155 says.

use dns_test::fqdn::FQDN;
use dns_test::rfc5155::{verify_non_existence, Denial, DenialError, Role, NSEC3};
use dns_test::table::HashedNames;

fn sha1(message: &[u8]) -> [u8; 20] {
    let mut state: [u32; 5] = [0x67452301, 0xEFCDAB89, 0x98BADCFE, 0x10325476, 0xC3D2E1F0];
    let mut padded = message.to_vec();
    padded.push(0x80);
    while padded.len() % 64 != 56 {
        padded.push(0);
    }
    padded.extend_from_slice(&(message.len() as u64 * 8).to_be_bytes());
    for block in padded.chunks(64) {
        let mut w = [0u32; 80];
        for (i, word) in block.chunks(4).enumerate() {
            w[i] = u32::from_be_bytes([word[0], word[1], word[2], word[3]]);
        }
        for i in 16..80 {
            w[i] = (w[i - 3] ^ w[i - 8] ^ w[i - 14] ^ w[i - 16]).rotate_left(1);
        }
        let [mut a, mut b, mut c, mut d, mut e] = state;
        for (i, word) in w.iter().enumerate() {
            let (f, k) = match i / 20 {
                0 => ((b & c) | (!b & d), 0x5A827999),
                1 => (b ^ c ^ d, 0x6ED9EBA1),
                2 => ((b & c) | (b & d) | (c & d), 0x8F1BBCDC),
                _ => (b ^ c ^ d, 0xCA62C1D6),
            };
            let next = a
                .rotate_left(5)
                .wrapping_add(f)
                .wrapping_add(e)
                .wrapping_add(k)
                .wrapping_add(*word);
            e = d;
            d = c;
            c = b.rotate_left(30);
            b = a;
            a = next;
        }
        for (sum, part) in state.iter_mut().zip([a, b, c, d, e]) {
            *sum = sum.wrapping_add(part);
        }
    }
    let mut digest = [0u8; 20];
    for (i, word) in state.iter().enumerate() {
        digest[4 * i..4 * i + 4].copy_from_slice(&word.to_be_bytes());
    }
    digest
}

fn base32hex(bytes: &[u8]) -> String {
    let alphabet = b"0123456789ABCDEFGHIJKLMNOPQRSTUV";
    let mut text = String::new();
    let (mut buffer, mut bits) = (0u32, 0);
    for byte in bytes {
        buffer = (buffer << 8) | *byte as u32;
        bits += 8;
        while bits >= 5 {
            bits -= 5;
            text.push(alphabet[(buffer >> bits) as usize & 31] as char);
        }
    }
    if bits > 0 {
        text.push(alphabet[(buffer << (5 - bits)) as usize & 31] as char);
    }
    text
}

/// The NSEC3 hash of a name: SHA-1, no salt, `iterations` more rounds.
fn nsec3_hash(name: &str, iterations: u16) -> String {
    let mut wire = Vec::new();
    for label in name.to_ascii_lowercase().split('.').filter(|label| !label.is_empty()) {
        wire.push(label.len() as u8);
        wire.extend_from_slice(label.as_bytes());
    }
    wire.push(0);
    let mut digest = sha1(&wire);
    for _ in 0..iterations {
        digest = sha1(&digest);
    }
    base32hex(&digest)
}

/// The NSEC3 records of a zone with the given names: one for each name,
/// from its hash to the next hash in hash order.
fn chain(zone: &str, names: &[&str], iterations: u16) -> Vec<NSEC3> {
    let mut hashes: Vec<String> = names.iter().map(|name| nsec3_hash(name, iterations)).collect();
    hashes.sort();
    (0..hashes.len())
        .map(|i| NSEC3 {
            fqdn: FQDN::new(&format!("{}.{zone}", hashes[i].to_lowercase())).unwrap(),
            hash_alg: 1,
            iterations,
            salt: "-".to_string(),
            next_hashed_owner_name: hashes[(i + 1) % hashes.len()].clone(),
        })
        .collect()
}

/// What a resolver hands back for a name that the zone does not have: the
/// records of the chain that match or cover one of the three hashes.
fn response(chain: &[NSEC3], hashes: [&str; 3]) -> Vec<NSEC3> {
    chain
        .iter()
        .filter(|record| {
            let owner = record.fqdn.as_str()[..32].to_uppercase();
            let next = record.next_hashed_owner_name.as_str();
            hashes.iter().any(|hash| {
                owner == *hash
                    || (owner.as_str() < *hash && *hash < next)
                    || (next <= owner.as_str() && (owner.as_str() < *hash || *hash < next))
            })
        })
        .cloned()
        .collect()
}

#[test]
fn hashes_are_those_of_the_fixture() {
    assert_eq!(
        base32hex(&sha1(b"abc")),
        base32hex(&[
            0xA9, 0x99, 0x3E, 0x36, 0x47, 0x06, 0x81, 0x6A, 0xBA, 0x3E, 0x25, 0x71, 0x78, 0x50,
            0xC2, 0x6C, 0x9C, 0xD0, 0xD8, 0x9D
        ])
    );
    assert_eq!(nsec3_hash("bob.nameservers.com.", 1), "9AU9KOU2HVABPTPB7D3AQBH57QPLNDI6");
    assert_eq!(nsec3_hash("*.nameservers.com.", 1), "M417220KKVJDM7CHD6QVUV4TGHDU2N2K");
    assert_eq!(nsec3_hash("nameservers.com.", 1), "7M2FCI51VUC2E5RIBDPTVJ6S08EMMR3O");
    assert_eq!(nsec3_hash("charlie.nameservers.com.", 1), "8C538GR0B1FT11G01UI8THM4IPM64NUC");
    assert_eq!(nsec3_hash("alice.nameservers.com.", 1), "PQVTTO5UIDVCHKP34DDQ3LIIH7TQED20");
    for number in 0..15 {
        let name = FQDN::nameserver(number);
        assert_eq!(
            dns_test::fixture::nameserver_hash(name.as_str()),
            Some(nsec3_hash(name.as_str(), 1).as_str())
        );
    }
}

#[test]
fn denial_of_a_name_between_the_children_of_example_com() {
    let names = ["example.com.", "a.example.com.", "c.example.com.", "x.example.com."];
    let records = chain("example.com.", &names, 1);
    let hashes: Vec<String> = names.iter().map(|name| nsec3_hash(name, 1)).collect();
    let table = HashedNames::new(&hashes.iter().map(String::as_str).collect()).unwrap();

    let encloser = nsec3_hash("example.com.", 1);
    let next_closer = nsec3_hash("b.example.com.", 1);
    let wildcard = nsec3_hash("*.example.com.", 1);
    let answer = response(&records, [&encloser, &next_closer, &wildcard]);
    assert!(answer.len() <= 3);

    let denial =
        verify_non_existence(&answer, &table, &encloser, &next_closer, Some(&wildcard), 1).unwrap();
    let owner = |index: usize| answer[index].fqdn.as_str()[..32].to_uppercase();
    assert_eq!(owner(denial.closest_encloser), encloser);
    let entries = table.entries();
    for (index, hash) in [(denial.next_closer, &next_closer), (denial.wildcard.unwrap(), &wildcard)] {
        let at = entries.iter().position(|entry| *entry == owner(index)).unwrap();
        let next = answer[index].next_hashed_owner_name.as_str();
        assert_eq!(next, entries[(at + 1) % entries.len()]);
        assert!(!entries.contains(&hash.as_str()));
    }

    // a name that exists is not denied
    let existing = nsec3_hash("c.example.com.", 1);
    assert_eq!(
        verify_non_existence(&records, &table, &encloser, &existing, None, 1),
        Err(DenialError::Absent { role: Role::NextCloser })
    );
    // nor is anything, by records with other parameters
    let others = chain("example.com.", &names, 0);
    assert_eq!(
        verify_non_existence(&others, &table, &encloser, &next_closer, None, 1),
        Err(DenialError::Iterations { record: 0 })
    );
}

#[test]
fn denial_in_the_zone_of_the_nameservers() {
    let mut names = vec![
        "nameservers.com.".to_string(),
        "alice.nameservers.com.".to_string(),
        "charlie.nameservers.com.".to_string(),
    ];
    let servers: Vec<String> = (0..3).map(|n| FQDN::nameserver(n).as_str().to_string()).collect();
    names.extend(servers.iter().cloned());
    let names: Vec<&str> = names.iter().map(String::as_str).collect();
    let records = chain("nameservers.com.", &names, 1);

    let known = vec![
        "7M2FCI51VUC2E5RIBDPTVJ6S08EMMR3O",
        "8C538GR0B1FT11G01UI8THM4IPM64NUC",
        "PQVTTO5UIDVCHKP34DDQ3LIIH7TQED20",
    ];
    let servers: Vec<&str> = servers.iter().map(String::as_str).collect();
    let table = dns_test::fixture::reference_table(&known, &servers).unwrap();

    let answer = response(
        &records,
        [
            "7M2FCI51VUC2E5RIBDPTVJ6S08EMMR3O",
            "9AU9KOU2HVABPTPB7D3AQBH57QPLNDI6",
            "M417220KKVJDM7CHD6QVUV4TGHDU2N2K",
        ],
    );
    assert_eq!(answer.len(), 3);
    for record in &answer {
        assert_eq!(record.hash_alg, 1);
        assert_eq!(record.salt, "-");
        assert_eq!(record.iterations, 1);
    }
    let denial = verify_non_existence(
        &answer,
        &table,
        "7M2FCI51VUC2E5RIBDPTVJ6S08EMMR3O",
        "9AU9KOU2HVABPTPB7D3AQBH57QPLNDI6",
        Some("M417220KKVJDM7CHD6QVUV4TGHDU2N2K"),
        1,
    )
    .unwrap();
    let mut roles = vec![denial.closest_encloser, denial.next_closer, denial.wildcard.unwrap()];
    roles.sort();
    assert_eq!(roles, vec![0, 1, 2]);
}

#[test]
fn honest_answers_pass_and_forged_ones_do_not() {
    let names: Vec<String> = (0..12).map(|n| format!("host{n}.example.org.")).collect();
    let mut all: Vec<&str> = names.iter().map(String::as_str).collect();
    all.push("example.org.");
    let records = chain("example.org.", &all, 0);
    let hashes: Vec<String> = all.iter().map(|name| nsec3_hash(name, 0)).collect();
    let table = HashedNames::new(&hashes.iter().map(String::as_str).collect()).unwrap();
    let encloser = nsec3_hash("example.org.", 0);

    for query in 0..40 {
        let next_closer = nsec3_hash(&format!("missing{query}.example.org."), 0);
        let honest = verify_non_existence(&records, &table, &encloser, &next_closer, None, 0);
        let Ok(Denial { closest_encloser, next_closer: cover, wildcard: None }) = honest else {
            panic!("an honest answer was refused: {honest:?}");
        };

        // a cover that reaches one entry too far is no gap of the table
        let mut forged = records.clone();
        let next = forged[cover].next_hashed_owner_name.clone();
        let after = records.iter().find(|r| r.fqdn.as_str()[..32].to_uppercase() == next).unwrap();
        if after.next_hashed_owner_name < next {
            continue;
        }
        forged[cover].next_hashed_owner_name = after.next_hashed_owner_name.clone();
        let refused = verify_non_existence(&forged, &table, &encloser, &next_closer, None, 0);
        if cover == closest_encloser {
            assert!(matches!(refused, Err(DenialError::Next { role: Role::ClosestEncloser, .. })));
        } else {
            assert!(
                matches!(refused, Err(DenialError::Next { role: Role::NextCloser, record, .. }) if record == cover),
                "{refused:?}"
            );
        }
    }
}
