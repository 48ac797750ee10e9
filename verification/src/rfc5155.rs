//! Checks of NSEC3 denial-of-existence proofs against a reference table of the
//! hashed owner names that exist.
//!
//! The reference table is a circular list: it is sorted in canonical order and
//! the entry after the last one is the first one. An NSEC3 record names an
//! interval of that circle by its two ends, the hash in its owner name and its
//! next hashed owner name, and covers every hash strictly inside the interval.

use vstd::prelude::*;
use vstd::arithmetic::div_mod::lemma_mod_add_multiples_vanish;
use vstd::arithmetic::div_mod::lemma_mod_pos_bound;
use vstd::arithmetic::div_mod::lemma_mod_self_0;
use vstd::arithmetic::div_mod::lemma_small_mod;
use vstd::slice::slice_subrange;
use vstd::utf8::encode_utf8;
use crate::bytes::span;
use crate::bytes::span_from;
use crate::canonical::canonical_eq;
use crate::canonical::canonical_lt;
use crate::canonical::lemma_precedes_asymmetric;
use crate::canonical::lemma_precedes_irreflexive;
use crate::canonical::lemma_precedes_total;
use crate::canonical::precedes;
use crate::canonical::upper;
use crate::fqdn::FQDN;
use crate::table::ascending;
use crate::table::key;
use crate::table::keys;
use crate::table::lemma_ascending_is_sorted;
use crate::table::lemma_rank_bound;
use crate::table::lemma_rank_of_member;
use crate::table::lemma_rank_splits;
use crate::table::lower_bound;
use crate::table::rank;
use crate::table::sorted;
use crate::table::HashedNames;

verus! {

/// The index of the entry just before the place of `needle` in the circular
/// table: one less than its rank, and the last index where nothing comes
/// before `needle`.
pub open spec fn prev_index(keys: Seq<Seq<u8>>, needle: Seq<u8>) -> int {
    if rank(keys, needle) == 0 {
        keys.len() - 1
    } else {
        rank(keys, needle) - 1
    }
}

/// The index of the entry just after the place of `needle` in the circular
/// table: one more than its rank, counted round the circle.
pub open spec fn next_index(keys: Seq<Seq<u8>>, needle: Seq<u8>) -> int {
    (rank(keys, needle) + 1) as int % (keys.len() as int)
}

/// Finds the index of the entry immediately before `needle` in the circular
/// table `haystack`.
pub fn find_prev(needle: &str, haystack: &Vec<&str>) -> (index: usize)
    requires
        haystack@.len() > 0,
    ensures
        index < haystack@.len(),
        sorted(keys(haystack@)) ==> index == prev_index(keys(haystack@), key(needle)),
{
    let p = lower_bound(needle, haystack);
    if p == 0 {
        haystack.len() - 1
    } else {
        p - 1
    }
}

/// Finds the index of the entry immediately after `needle` in the circular
/// table `haystack`.
pub fn find_next(needle: &str, haystack: &Vec<&str>) -> (index: usize)
    requires
        haystack@.len() > 0,
    ensures
        index < haystack@.len(),
        sorted(keys(haystack@)) ==> index == next_index(keys(haystack@), key(needle)),
{
    let p = lower_bound(needle, haystack);
    let n = haystack.len();
    if p < n - 1 {
        proof {
            lemma_small_mod((p + 1) as nat, n as nat);
        }
        p + 1
    } else if p == n - 1 {
        proof {
            lemma_mod_self_0(n as int);
        }
        0
    } else {
        proof {
            lemma_mod_add_multiples_vanish(1, n as int);
        }
        1 % n
    }
}

/// Whatever the table and the needle, the two neighbours are indices of the
/// table.
pub proof fn law_neighbours_in_range(keys: Seq<Seq<u8>>, needle: Seq<u8>)
    requires
        keys.len() > 0,
    ensures
        0 <= prev_index(keys, needle) < keys.len(),
        0 <= next_index(keys, needle) < keys.len(),
{
    lemma_rank_bound(keys, needle);
    lemma_mod_pos_bound((rank(keys, needle) + 1) as int, keys.len() as int);
}

/// In a table without repeated keys the neighbours of an entry are the
/// entries at the indices next to its own, round the circle: before the
/// first entry comes the last one, and after the last one the first.
pub proof fn law_neighbours_of_entry(keys: Seq<Seq<u8>>, at: int)
    requires
        ascending(keys),
        0 <= at < keys.len(),
    ensures
        prev_index(keys, keys[at]) == if at == 0 {
            keys.len() - 1
        } else {
            at - 1
        },
        next_index(keys, keys[at]) == if at == keys.len() - 1 {
            0
        } else {
            at + 1
        },
{
    lemma_rank_of_member(keys, at);
    if at == keys.len() - 1 {
        lemma_mod_self_0(keys.len() as int);
    } else {
        lemma_small_mod((at + 1) as nat, keys.len());
    }
}

/// The first label of a domain name in presentation form: what stands
/// before its first dot, or the whole of a name without one.
pub open spec fn first_label(name: Seq<u8>) -> Seq<u8> {
    name.take(span(name, 46) as int)
}

/// Cuts the first label off a domain name in presentation form.
pub fn leading_label(name: &[u8]) -> (label: &[u8])
    ensures
        label@ == first_label(name@),
{
    let n = span_from(name, 0, 46);
    assert(name@.skip(0) =~= name@);
    slice_subrange(name, 0, n)
}

/// An NSEC3 record as it was observed in a response.
#[derive(Clone, Debug, PartialEq, Eq)]
pub struct NSEC3 {
    /// The owner name: the hash of a name of the zone as the first label,
    /// then the zone's name.
    pub fqdn: FQDN,
    /// The number of the hash algorithm.
    pub hash_alg: u8,
    /// The number of additional times the hash was applied.
    pub iterations: u16,
    /// The salt in presentation form: hexadecimal digits, or `-` for none.
    pub salt: String,
    /// The hash of the next owner name in the zone's hash order.
    pub next_hashed_owner_name: String,
}

impl NSEC3 {
    /// The key of the hash in the owner name.
    pub open spec fn owner_key(&self) -> Seq<u8> {
        upper(first_label(encode_utf8(self.fqdn@)))
    }

    /// The key of the next hashed owner name.
    pub open spec fn next_key(&self) -> Seq<u8> {
        upper(encode_utf8(self.next_hashed_owner_name@))
    }
}

/// `hash` lies strictly inside the interval of the circle that runs from
/// `owner` to `next`. Where `owner` comes before `next` these are the hashes
/// between the two. Otherwise the interval runs over the end of the table:
/// it holds what comes after `owner` and what comes before `next`.
pub open spec fn interval_covers(owner: Seq<u8>, next: Seq<u8>, hash: Seq<u8>) -> bool {
    if precedes(owner, next) {
        precedes(owner, hash) && precedes(hash, next)
    } else {
        precedes(owner, hash) || precedes(hash, next)
    }
}

/// Returns `true` if `record` covers `hash`: if `hash` falls in between the
/// hash in the owner name of `record` and its next hashed owner name.
pub fn covers(record: &NSEC3, hash: &str) -> (r: bool)
    ensures
        r == interval_covers(record.owner_key(), record.next_key(), key(hash)),
{
    let owner = leading_label(record.fqdn.as_str().as_bytes());
    let next = record.next_hashed_owner_name.as_str().as_bytes();
    let hash = hash.as_bytes();
    if canonical_lt(owner, next) {
        canonical_lt(owner, hash) && canonical_lt(hash, next)
    } else {
        canonical_lt(owner, hash) || canonical_lt(hash, next)
    }
}

/// In a table without repeated keys, the interval from one entry to the
/// next one round the circle covers exactly the hashes that the table does
/// not hold and that have the first of the two as their predecessor.
pub proof fn law_cover_is_gap(keys: Seq<Seq<u8>>, at: int, hash: Seq<u8>)
    requires
        ascending(keys),
        0 <= at < keys.len(),
    ensures
        interval_covers(keys[at], keys[(at + 1) % (keys.len() as int)], hash) <==> !keys.contains(
            hash,
        ) && prev_index(keys, hash) == at,
{
    let n = keys.len() as int;
    let r = rank(keys, hash) as int;
    let after = (at + 1) % n;
    lemma_ascending_is_sorted(keys);
    lemma_rank_splits(keys, hash);
    lemma_rank_bound(keys, hash);
    lemma_precedes_irreflexive(hash);
    if at == n - 1 {
        lemma_mod_self_0(n);
    } else {
        lemma_small_mod((at + 1) as nat, n as nat);
    }
    // An entry of the table that is `hash` stands at the rank of `hash`.
    if keys.contains(hash) {
        let m = choose|m: int| 0 <= m < n && keys[m] == hash;
        lemma_rank_of_member(keys, m);
        assert(r == m);
        assert(!precedes(keys[m], hash));
        if m > 0 {
            assert(precedes(keys[m - 1], keys[m]));
        }
        if m < n - 1 {
            assert(precedes(keys[m], keys[m + 1]));
        }
    }
    lemma_precedes_total(keys[at], hash);
    lemma_precedes_total(keys[after], hash);
    if precedes(keys[at], hash) && precedes(hash, keys[at]) {
        lemma_precedes_asymmetric(keys[at], hash);
    }
    if precedes(keys[after], hash) && precedes(hash, keys[after]) {
        lemma_precedes_asymmetric(keys[after], hash);
    }
    if at < n - 1 {
        assert(precedes(keys[at], keys[at + 1]));
        assert(keys[at] == hash ==> keys.contains(hash));
        assert(keys[at + 1] == hash ==> keys.contains(hash));
    } else {
        lemma_precedes_irreflexive(keys[at]);
        if n > 1 {
            assert(precedes(keys[0], keys[at]));
            lemma_precedes_asymmetric(keys[0], keys[at]);
        }
        assert(keys[at] == hash ==> keys.contains(hash));
        assert(keys[0] == hash ==> keys.contains(hash));
    }
}

/// The number of the SHA-1 hash algorithm, the only one that the records of a
/// response may name.
pub const SHA1: u8 = 1;

/// The parameters of `record` are the agreed ones: SHA-1, no salt, and the
/// given number of iterations.
pub open spec fn fits(record: NSEC3, iterations: u16) -> bool {
    &&& record.hash_alg == SHA1
    &&& record.salt@ == seq!['-']
    &&& record.iterations == iterations
}

/// The part that a record plays in a proof that a name does not exist.
#[derive(Clone, Copy, Debug, PartialEq, Eq, Structural)]
pub enum Role {
    /// It matches the closest encloser: the longest ancestor that exists.
    ClosestEncloser,
    /// It covers the next closer name: the name one label longer than the
    /// closest encloser.
    NextCloser,
    /// It covers the wildcard at the closest encloser.
    Wildcard,
}

/// Why a set of NSEC3 records is no proof. A `record` is an index into the
/// records, an `expected` an index into the reference table.
#[derive(Clone, Copy, Debug, PartialEq, Eq, Structural)]
pub enum DenialError {
    /// The record names another hash algorithm than SHA-1.
    HashAlgorithm { record: usize },
    /// The record has a salt.
    Salt { record: usize },
    /// The record has another number of iterations than the agreed one.
    Iterations { record: usize },
    /// No record plays the role.
    Absent { role: Role },
    /// The record covers the hash, but the reference table has the `expected`
    /// entry just before the hash, not the record's owner hash.
    Owner { role: Role, record: usize, expected: usize },
    /// The reference table has the `expected` entry just after the record's
    /// owner hash, not the record's next hashed owner name.
    Next { role: Role, record: usize, expected: usize },
}

/// The least index from `from` on whose record satisfies `wanted`; the number
/// of records where there is none.
pub open spec fn first_from(
    records: Seq<NSEC3>,
    wanted: spec_fn(NSEC3) -> bool,
    from: int,
) -> int
    decreases records.len() - from,
{
    if from < 0 || from >= records.len() {
        records.len() as int
    } else if wanted(records[from]) {
        from
    } else {
        first_from(records, wanted, from + 1)
    }
}

/// The records whose parameters are not the agreed ones.
pub open spec fn unfit(iterations: u16) -> spec_fn(NSEC3) -> bool {
    |record: NSEC3| !fits(record, iterations)
}

/// The records whose owner hash is `hash`.
pub open spec fn owned_by(hash: Seq<u8>) -> spec_fn(NSEC3) -> bool {
    |record: NSEC3| record.owner_key() == hash
}

/// The records that cover `hash`.
pub open spec fn covering(hash: Seq<u8>) -> spec_fn(NSEC3) -> bool {
    |record: NSEC3| interval_covers(record.owner_key(), record.next_key(), hash)
}

/// What is wrong with the parameters of the record at index `at`, which does
/// not fit: the first of algorithm, salt and iterations that differs.
pub open spec fn parameter_error(record: NSEC3, at: usize) -> DenialError {
    if record.hash_alg != SHA1 {
        DenialError::HashAlgorithm { record: at }
    } else if record.salt@ != seq!['-'] {
        DenialError::Salt { record: at }
    } else {
        DenialError::Iterations { record: at }
    }
}

/// The outcome of checking the parameters of all records: the fault of the
/// first record that does not fit, if there is one.
pub open spec fn parameters_checked(records: Seq<NSEC3>, iterations: u16) -> Result<
    (),
    DenialError,
> {
    let at = first_from(records, unfit(iterations), 0);
    if at < records.len() {
        Err(parameter_error(records[at], at as usize))
    } else {
        Ok(())
    }
}

/// Tells whether the parameters of `record` are the agreed ones, and if not,
/// which of them is the first that differs.
fn check_record(record: &NSEC3, at: usize, iterations: u16) -> (r: Result<(), DenialError>)
    ensures
        r is Ok <==> fits(*record, iterations),
        r is Err ==> r == Err::<(), DenialError>(parameter_error(*record, at)),
{
    if record.hash_alg != SHA1 {
        return Err(DenialError::HashAlgorithm { record: at });
    }
    let salt = record.salt.as_str();
    if salt.unicode_len() != 1 || salt.get_char(0) != '-' {
        return Err(DenialError::Salt { record: at });
    }
    assert(record.salt@ =~= seq!['-']);
    if record.iterations != iterations {
        return Err(DenialError::Iterations { record: at });
    }
    Ok(())
}

/// Checks that every record names SHA-1, has no salt and has the agreed
/// number of iterations. The error tells the first record that does not, and
/// the first of the three that it fails.
pub fn check_parameters(records: &Vec<NSEC3>, iterations: u16) -> (r: Result<
    (),
    DenialError,
>)
    ensures
        r == parameters_checked(records@, iterations),
{
    let mut i: usize = 0;
    while i < records.len()
        invariant
            i <= records@.len(),
            first_from(records@, unfit(iterations), 0) == first_from(
                records@,
                unfit(iterations),
                i as int,
            ),
        decreases records@.len() - i,
    {
        let checked = check_record(&records[i], i, iterations);
        if checked.is_err() {
            return checked;
        }
        i += 1;
    }
    Ok(())
}

/// The index of the first record whose owner hash is `hash`, or the number
/// of records where there is none.
fn first_owned_by(records: &Vec<NSEC3>, hash: &str) -> (at: usize)
    ensures
        at == first_from(records@, owned_by(key(hash)), 0),
{
    let mut i: usize = 0;
    while i < records.len()
        invariant
            i <= records@.len(),
            first_from(records@, owned_by(key(hash)), 0) == first_from(
                records@,
                owned_by(key(hash)),
                i as int,
            ),
        decreases records@.len() - i,
    {
        let owner = leading_label(records[i].fqdn.as_str().as_bytes());
        if canonical_eq(owner, hash.as_bytes()) {
            return i;
        }
        i += 1;
    }
    i
}

/// The index of the first record that covers `hash`, or the number of
/// records where there is none.
fn first_covering(records: &Vec<NSEC3>, hash: &str) -> (at: usize)
    ensures
        at == first_from(records@, covering(key(hash)), 0),
{
    let mut i: usize = 0;
    while i < records.len()
        invariant
            i <= records@.len(),
            first_from(records@, covering(key(hash)), 0) == first_from(
                records@,
                covering(key(hash)),
                i as int,
            ),
        decreases records@.len() - i,
    {
        if covers(&records[i], hash) {
            return i;
        }
        i += 1;
    }
    i
}

/// The outcome of the check of the closest encloser, whose hash is `hash`:
/// the index of the first record with that owner hash, if its next hashed
/// owner name is the entry of the table just after `hash`.
pub open spec fn closest_encloser_checked(
    records: Seq<NSEC3>,
    table: Seq<Seq<u8>>,
    hash: Seq<u8>,
) -> Result<usize, DenialError> {
    let at = first_from(records, owned_by(hash), 0);
    let expected = next_index(table, hash);
    if at >= records.len() {
        Err(DenialError::Absent { role: Role::ClosestEncloser })
    } else if records[at].next_key() != table[expected] {
        Err(
            DenialError::Next {
                role: Role::ClosestEncloser,
                record: at as usize,
                expected: expected as usize,
            },
        )
    } else {
        Ok(at as usize)
    }
}

/// The outcome of the check that `hash` is covered: the index of the first
/// record that covers it, if its owner hash is the entry of the table just
/// before `hash` and its next hashed owner name is the entry after that one.
pub open spec fn cover_checked(
    records: Seq<NSEC3>,
    table: Seq<Seq<u8>>,
    hash: Seq<u8>,
    role: Role,
) -> Result<usize, DenialError> {
    let at = first_from(records, covering(hash), 0);
    let before = prev_index(table, hash);
    let after = (before + 1) % (table.len() as int);
    if at >= records.len() {
        Err(DenialError::Absent { role })
    } else if records[at].owner_key() != table[before] {
        Err(DenialError::Owner { role, record: at as usize, expected: before as usize })
    } else if records[at].next_key() != table[after] {
        Err(DenialError::Next { role, record: at as usize, expected: after as usize })
    } else {
        Ok(at as usize)
    }
}

/// Looks for the record that matches the closest encloser, whose hash is
/// `hash`, and checks that its next hashed owner name is the entry of the
/// table that follows `hash`. Returns the record's index.
pub fn check_closest_encloser(records: &Vec<NSEC3>, table: &HashedNames, hash: &str) -> (r: Result<
    usize,
    DenialError,
>)
    requires
        table.wf(),
    ensures
        r == closest_encloser_checked(records@, keys(table@), key(hash)),
{
    let entries = table.entries();
    proof {
        lemma_ascending_is_sorted(keys(entries@));
    }
    let at = first_owned_by(records, hash);
    if at >= records.len() {
        return Err(DenialError::Absent { role: Role::ClosestEncloser });
    }
    let expected = find_next(hash, entries);
    let next = records[at].next_hashed_owner_name.as_str().as_bytes();
    if !canonical_eq(next, entries[expected].as_bytes()) {
        return Err(DenialError::Next { role: Role::ClosestEncloser, record: at, expected });
    }
    Ok(at)
}

/// Looks for the record that covers `hash`, and checks that it runs from the
/// entry of the table just before `hash` to the entry after that one.
/// Returns the record's index.
pub fn check_cover(records: &Vec<NSEC3>, table: &HashedNames, hash: &str, role: Role) -> (r: Result<
    usize,
    DenialError,
>)
    requires
        table.wf(),
    ensures
        r == cover_checked(records@, keys(table@), key(hash), role),
{
    let entries = table.entries();
    proof {
        lemma_ascending_is_sorted(keys(entries@));
    }
    let at = first_covering(records, hash);
    if at >= records.len() {
        return Err(DenialError::Absent { role });
    }
    let before = find_prev(hash, entries);
    let owner = leading_label(records[at].fqdn.as_str().as_bytes());
    if !canonical_eq(owner, entries[before].as_bytes()) {
        return Err(DenialError::Owner { role, record: at, expected: before });
    }
    let after = if before == entries.len() - 1 {
        0
    } else {
        before + 1
    };
    proof {
        if before == entries.len() - 1 {
            lemma_mod_self_0(entries@.len() as int);
        } else {
            lemma_small_mod((before + 1) as nat, entries@.len());
        }
    }
    let next = records[at].next_hashed_owner_name.as_str().as_bytes();
    if !canonical_eq(next, entries[after].as_bytes()) {
        return Err(DenialError::Next { role, record: at, expected: after });
    }
    Ok(at)
}

/// The records of a proof that a name does not exist, each by its index.
#[derive(Clone, Copy, Debug, PartialEq, Eq, Structural)]
pub struct Denial {
    /// The record that matches the closest encloser.
    pub closest_encloser: usize,
    /// The record that covers the next closer name.
    pub next_closer: usize,
    /// The record that covers the wildcard at the closest encloser, where
    /// one was asked for.
    pub wildcard: Option<usize>,
}

/// The outcome of the whole check: the parameters of all records, then the
/// closest encloser, then the next closer name, then the wildcard if there
/// is one to cover. The first check that fails gives the error.
pub open spec fn denial_checked(
    records: Seq<NSEC3>,
    table: Seq<Seq<u8>>,
    closest_encloser: Seq<u8>,
    next_closer: Seq<u8>,
    wildcard: Option<Seq<u8>>,
    iterations: u16,
) -> Result<Denial, DenialError> {
    let parameters = parameters_checked(records, iterations);
    let encloser = closest_encloser_checked(records, table, closest_encloser);
    let closer = cover_checked(records, table, next_closer, Role::NextCloser);
    if parameters is Err {
        Err(parameters->Err_0)
    } else if encloser is Err {
        Err(encloser->Err_0)
    } else if closer is Err {
        Err(closer->Err_0)
    } else if wildcard is None {
        Ok(Denial { closest_encloser: encloser->Ok_0, next_closer: closer->Ok_0, wildcard: None })
    } else {
        let wild = cover_checked(records, table, wildcard->Some_0, Role::Wildcard);
        if wild is Err {
            Err(wild->Err_0)
        } else {
            Ok(
                Denial {
                    closest_encloser: encloser->Ok_0,
                    next_closer: closer->Ok_0,
                    wildcard: Some(wild->Ok_0),
                },
            )
        }
    }
}

/// The key of the wildcard's hash, where there is one.
pub open spec fn wildcard_key(wildcard: Option<&str>) -> Option<Seq<u8>> {
    match wildcard {
        Some(hash) => Some(key(hash)),
        None => None,
    }
}

/// Checks that `records` prove that a name does not exist, against the
/// reference `table` of the hashes that do. The name's closest encloser,
/// its next closer name and, where a wildcard could have matched, the
/// wildcard at the closest encloser come by their hashes. Returns which
/// record plays which part, or the first fault found.
pub fn verify_non_existence(
    records: &Vec<NSEC3>,
    table: &HashedNames,
    closest_encloser: &str,
    next_closer: &str,
    wildcard: Option<&str>,
    iterations: u16,
) -> (r: Result<Denial, DenialError>)
    requires
        table.wf(),
    ensures
        r == denial_checked(
            records@,
            keys(table@),
            key(closest_encloser),
            key(next_closer),
            wildcard_key(wildcard),
            iterations,
        ),
{
    match check_parameters(records, iterations) {
        Err(e) => {
            return Err(e);
        },
        Ok(_) => {},
    }
    let encloser = match check_closest_encloser(records, table, closest_encloser) {
        Err(e) => {
            return Err(e);
        },
        Ok(at) => at,
    };
    let closer = match check_cover(records, table, next_closer, Role::NextCloser) {
        Err(e) => {
            return Err(e);
        },
        Ok(at) => at,
    };
    match wildcard {
        None => Ok(Denial { closest_encloser: encloser, next_closer: closer, wildcard: None }),
        Some(hash) => match check_cover(records, table, hash, Role::Wildcard) {
            Err(e) => Err(e),
            Ok(at) => Ok(
                Denial { closest_encloser: encloser, next_closer: closer, wildcard: Some(at) },
            ),
        },
    }
}

/// The first record that is wanted, where there is one, is wanted, and no
/// record before it is.
pub proof fn lemma_first_from(records: Seq<NSEC3>, wanted: spec_fn(NSEC3) -> bool, from: int)
    requires
        0 <= from,
    ensures
        from <= first_from(records, wanted, from) || records.len() < from,
        first_from(records, wanted, from) <= records.len() || records.len() < from,
        first_from(records, wanted, from) < records.len() ==> wanted(
            records[first_from(records, wanted, from)],
        ),
        forall|i: int| from <= i < first_from(records, wanted, from) ==> !wanted(records[i]),
    decreases records.len() - from,
{
    if from < records.len() && !wanted(records[from]) {
        lemma_first_from(records, wanted, from + 1);
    }
}

/// A hash that passes the check of its cover is the hash of no name that
/// exists: the record that was found covers it, and runs from one entry of
/// the table to the next, so that the hash lies in a gap of the table.
pub proof fn law_covered_is_absent(
    records: Seq<NSEC3>,
    table: Seq<Seq<u8>>,
    hash: Seq<u8>,
    role: Role,
)
    requires
        table.len() > 0,
        ascending(table),
        cover_checked(records, table, hash, role) is Ok,
    ensures
        !table.contains(hash),
        first_from(records, covering(hash), 0) < records.len(),
        covering(hash)(records[first_from(records, covering(hash), 0)]),
{
    let before = prev_index(table, hash);
    lemma_first_from(records, covering(hash), 0);
    law_neighbours_in_range(table, hash);
    law_cover_is_gap(table, before, hash);
}

} // verus!
