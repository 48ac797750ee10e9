//! The reference table of the fixture zone `nameservers.com.`.
//!
//! The zone's nameservers get their names when the servers are started, one
//! of `primary0.nameservers.com.` to `primary14.nameservers.com.`. Hashes
//! are not computed here: the hash of each of these names is written down,
//! for SHA-1 with no salt and one additional iteration.

use vstd::prelude::*;
use crate::canonical::same_text;
use crate::table::first_with_key;
use crate::table::keys;
use crate::table::HashedNames;

verus! {

/// The hash of the owner name `fqdn`, where it is the name of one of the
/// fixture's nameservers.
pub open spec fn known_hash(fqdn: Seq<char>) -> Option<&'static str> {
    if fqdn == "primary0.nameservers.com."@ {
        Some("E05P5R80N590NS9PP24QOOFHRT605T8A")
    } else if fqdn == "primary1.nameservers.com."@ {
        Some("C1JIVO7U1IH8JFK6BMU60V65S5FVEFT2")
    } else if fqdn == "primary2.nameservers.com."@ {
        Some("NJ1OLIA8A6HTNBMC20ATDDIDTA42AI8V")
    } else if fqdn == "primary3.nameservers.com."@ {
        Some("9JMUC5ADM6MUKUN4NTBMR19C1030SRM0")
    } else if fqdn == "primary4.nameservers.com."@ {
        Some("0RM17SJJI0C51PADDIFG9LI8K2S04EE9")
    } else if fqdn == "primary5.nameservers.com."@ {
        Some("546PPSKSPN8DOKTTA9MASB0TM06I72GD")
    } else if fqdn == "primary6.nameservers.com."@ {
        Some("40PTL9S01ERIF3E05RERHM419K0465GB")
    } else if fqdn == "primary7.nameservers.com."@ {
        Some("G8O54KH0MJNTDE1IFQOBSLNRA5G7PGJ0")
    } else if fqdn == "primary8.nameservers.com."@ {
        Some("FRMTGMJ1QH91I2QHU61BTJNFKS39UQ2D")
    } else if fqdn == "primary9.nameservers.com."@ {
        Some("6RJVT7UR167JB2296JTV2VG9P8LJK1KG")
    } else if fqdn == "primary10.nameservers.com."@ {
        Some("1CN3HD3QPK3R53P3L13FL91KSML0LT13")
    } else if fqdn == "primary11.nameservers.com."@ {
        Some("6TEE5C0TA2FU4T2KA9R3CT749IVDH0R2")
    } else if fqdn == "primary12.nameservers.com."@ {
        Some("0DJ0I4F1D7AANKJQ5RB9CLFSALMC636P")
    } else if fqdn == "primary13.nameservers.com."@ {
        Some("QBHIT7FBP5GM6K1NPK23KIKFRFLESB59")
    } else if fqdn == "primary14.nameservers.com."@ {
        Some("OAIN54SNHJ76M5ATNE9U21DMVC0QIU6L")
    } else {
        None
    }
}

/// Returns the hash of the owner name `fqdn`, where it is the name of one of
/// the fixture's nameservers.
pub fn nameserver_hash(fqdn: &str) -> (hash: Option<&'static str>)
    ensures
        hash == known_hash(fqdn@),
{
    if same_text(fqdn, "primary0.nameservers.com.") {
        Some("E05P5R80N590NS9PP24QOOFHRT605T8A")
    } else if same_text(fqdn, "primary1.nameservers.com.") {
        Some("C1JIVO7U1IH8JFK6BMU60V65S5FVEFT2")
    } else if same_text(fqdn, "primary2.nameservers.com.") {
        Some("NJ1OLIA8A6HTNBMC20ATDDIDTA42AI8V")
    } else if same_text(fqdn, "primary3.nameservers.com.") {
        Some("9JMUC5ADM6MUKUN4NTBMR19C1030SRM0")
    } else if same_text(fqdn, "primary4.nameservers.com.") {
        Some("0RM17SJJI0C51PADDIFG9LI8K2S04EE9")
    } else if same_text(fqdn, "primary5.nameservers.com.") {
        Some("546PPSKSPN8DOKTTA9MASB0TM06I72GD")
    } else if same_text(fqdn, "primary6.nameservers.com.") {
        Some("40PTL9S01ERIF3E05RERHM419K0465GB")
    } else if same_text(fqdn, "primary7.nameservers.com.") {
        Some("G8O54KH0MJNTDE1IFQOBSLNRA5G7PGJ0")
    } else if same_text(fqdn, "primary8.nameservers.com.") {
        Some("FRMTGMJ1QH91I2QHU61BTJNFKS39UQ2D")
    } else if same_text(fqdn, "primary9.nameservers.com.") {
        Some("6RJVT7UR167JB2296JTV2VG9P8LJK1KG")
    } else if same_text(fqdn, "primary10.nameservers.com.") {
        Some("1CN3HD3QPK3R53P3L13FL91KSML0LT13")
    } else if same_text(fqdn, "primary11.nameservers.com.") {
        Some("6TEE5C0TA2FU4T2KA9R3CT749IVDH0R2")
    } else if same_text(fqdn, "primary12.nameservers.com.") {
        Some("0DJ0I4F1D7AANKJQ5RB9CLFSALMC636P")
    } else if same_text(fqdn, "primary13.nameservers.com.") {
        Some("QBHIT7FBP5GM6K1NPK23KIKFRFLESB59")
    } else if same_text(fqdn, "primary14.nameservers.com.") {
        Some("OAIN54SNHJ76M5ATNE9U21DMVC0QIU6L")
    } else {
        None
    }
}

/// Why no reference table could be made.
#[derive(Clone, Copy, Debug, PartialEq, Eq, Structural)]
pub enum TableError {
    /// The nameserver at this index has a name whose hash is not known.
    UnknownNameserver { index: usize },
    /// There is no hash to make a table of.
    Empty,
}

/// The hashes of the nameservers `fqdns`, each of which is known.
pub open spec fn known_hashes(fqdns: Seq<&str>) -> Seq<&'static str> {
    Seq::new(fqdns.len(), |i: int| known_hash(fqdns[i]@).unwrap())
}

/// Makes the reference table of the hashes in `hashes` and the hashes of
/// the nameservers in `nameservers`, which come by their names. The first
/// nameserver whose hash is not known makes the whole table fail.
pub fn reference_table<'a>(hashes: &Vec<&'a str>, nameservers: &Vec<&str>) -> (r: Result<
    HashedNames<'a>,
    TableError,
>)
    ensures
        match r {
            Ok(table) => {
                &&& forall|i: int|
                    0 <= i < nameservers@.len() ==> known_hash(
                        (#[trigger] nameservers@[i])@,
                    ) is Some
                &&& table.wf()
                &&& keys(table@).to_set() == keys(hashes@ + known_hashes(nameservers@)).to_set()
                &&& forall|i: int|
                    0 <= i < table@.len() ==> first_with_key(
                        hashes@ + known_hashes(nameservers@),
                        #[trigger] table@[i],
                    )
            },
            Err(TableError::UnknownNameserver { index }) => {
                &&& index < nameservers@.len()
                &&& known_hash(nameservers@[index as int]@) is None
                &&& forall|i: int|
                    0 <= i < index ==> known_hash((#[trigger] nameservers@[i])@) is Some
            },
            Err(TableError::Empty) => {
                &&& hashes@.len() == 0
                &&& nameservers@.len() == 0
            },
        },
{
    let mut all: Vec<&'a str> = Vec::new();
    let mut i: usize = 0;
    while i < hashes.len()
        invariant
            i <= hashes@.len(),
            all@ == hashes@.take(i as int),
        decreases hashes@.len() - i,
    {
        all.push(hashes[i]);
        assert(hashes@.take(i + 1) =~= hashes@.take(i as int).push(hashes@[i as int]));
        i += 1;
    }
    assert(hashes@.take(i as int) =~= hashes@);
    let mut n: usize = 0;
    while n < nameservers.len()
        invariant
            n <= nameservers@.len(),
            forall|i: int| 0 <= i < n ==> known_hash((#[trigger] nameservers@[i])@) is Some,
            all@ == hashes@ + known_hashes(nameservers@.take(n as int)),
        decreases nameservers@.len() - n,
    {
        match nameserver_hash(nameservers[n]) {
            Some(hash) => {
                all.push(hash);
                assert(known_hashes(nameservers@.take(n + 1)) =~= known_hashes(
                    nameservers@.take(n as int),
                ).push(hash));
                assert(all@ =~= hashes@ + known_hashes(nameservers@.take(n + 1)));
            },
            None => {
                return Err(TableError::UnknownNameserver { index: n });
            },
        }
        n += 1;
    }
    assert(nameservers@.take(n as int) =~= nameservers@);
    match HashedNames::new(&all) {
        Some(table) => Ok(table),
        None => Err(TableError::Empty),
    }
}

} // verus!
