//! The reference table of the hashed owner names that exist.
//!
//! The table is sorted in canonical order, so that the place of any hash in
//! it, its rank, is found by bisection.

use vstd::prelude::*;
use vstd::string::StringSliceAdditionalSpecFns;
use crate::canonical::canonical_eq;
use crate::canonical::canonical_lt;
use crate::canonical::lemma_not_after_then_before;
use crate::canonical::lemma_precedes_asymmetric;
use crate::canonical::lemma_precedes_irreflexive;
use crate::canonical::lemma_precedes_total;
use crate::canonical::lemma_precedes_transitive;
use crate::canonical::precedes;
use crate::canonical::upper;

verus! {

/// The key by which a hashed name is ordered and found: its bytes, case-normalised.
pub open spec fn key(name: &str) -> Seq<u8> {
    upper(name.spec_bytes())
}

/// The keys of a table's entries, in the table's order.
pub open spec fn keys(table: Seq<&str>) -> Seq<Seq<u8>> {
    Seq::new(table.len(), |i: int| key(table[i]))
}

/// No entry comes before an earlier one.
pub open spec fn sorted(keys: Seq<Seq<u8>>) -> bool {
    forall|i: int, j: int|
        0 <= i < j < keys.len() ==> !precedes(#[trigger] keys[j], #[trigger] keys[i])
}

/// Every entry comes strictly before each later one: sorted, and no key twice.
pub open spec fn ascending(keys: Seq<Seq<u8>>) -> bool {
    forall|i: int, j: int|
        0 <= i < j < keys.len() ==> precedes(#[trigger] keys[i], #[trigger] keys[j])
}

/// The number of entries that come strictly before `needle`.
pub open spec fn rank(keys: Seq<Seq<u8>>, needle: Seq<u8>) -> nat
    decreases keys.len(),
{
    if keys.len() == 0 {
        0
    } else if precedes(keys.last(), needle) {
        rank(keys.drop_last(), needle) + 1
    } else {
        rank(keys.drop_last(), needle)
    }
}

/// The rank never exceeds the number of entries.
pub proof fn lemma_rank_bound(keys: Seq<Seq<u8>>, needle: Seq<u8>)
    ensures
        rank(keys, needle) <= keys.len(),
    decreases keys.len(),
{
    if keys.len() > 0 {
        lemma_rank_bound(keys.drop_last(), needle);
    }
}

/// Where the first `p` entries come before `needle` and no other does, the
/// rank of `needle` is `p`.
pub proof fn lemma_rank_of_split(keys: Seq<Seq<u8>>, needle: Seq<u8>, p: int)
    requires
        0 <= p <= keys.len(),
        forall|i: int| 0 <= i < p ==> precedes(#[trigger] keys[i], needle),
        forall|i: int| p <= i < keys.len() ==> !precedes(#[trigger] keys[i], needle),
    ensures
        rank(keys, needle) == p,
    decreases keys.len(),
{
    if keys.len() > 0 {
        let rest = keys.drop_last();
        assert(forall|i: int| 0 <= i < rest.len() ==> rest[i] == keys[i]);
        if p == keys.len() {
            assert(precedes(keys[p - 1], needle));
            lemma_rank_of_split(rest, needle, p - 1);
        } else {
            assert(!precedes(keys[keys.len() - 1], needle));
            lemma_rank_of_split(rest, needle, p);
        }
    }
}

/// In a table without repeated keys, the rank of an entry's key is its index.
pub proof fn lemma_rank_of_member(keys: Seq<Seq<u8>>, p: int)
    requires
        ascending(keys),
        0 <= p < keys.len(),
    ensures
        rank(keys, keys[p]) == p,
{
    assert forall|i: int| p <= i < keys.len() implies !precedes(#[trigger] keys[i], keys[p]) by {
        if i == p {
            lemma_precedes_irreflexive(keys[p]);
        } else {
            lemma_precedes_asymmetric(keys[p], keys[i]);
        }
    }
    lemma_rank_of_split(keys, keys[p], p);
}

/// In a sorted table the entries that come before `needle` are those whose
/// index is below its rank.
pub proof fn lemma_rank_splits(keys: Seq<Seq<u8>>, needle: Seq<u8>)
    requires
        sorted(keys),
    ensures
        forall|m: int|
            0 <= m < keys.len() ==> (precedes(#[trigger] keys[m], needle) <==> m < rank(
                keys,
                needle,
            )),
    decreases keys.len(),
{
    if keys.len() > 0 {
        let rest = keys.drop_last();
        let last = keys.len() - 1;
        assert(forall|m: int| 0 <= m < rest.len() ==> rest[m] == keys[m]);
        lemma_rank_splits(rest, needle);
        lemma_rank_bound(rest, needle);
        if precedes(keys[last], needle) {
            assert forall|m: int| 0 <= m < rest.len() implies precedes(
                #[trigger] rest[m],
                needle,
            ) by {
                lemma_not_after_then_before(keys[m], keys[last], needle);
            }
            if rest.len() > 0 {
                assert(precedes(rest[rest.len() - 1], needle));
            }
        }
        assert forall|m: int| 0 <= m < keys.len() implies (precedes(#[trigger] keys[m], needle)
            <==> m < rank(keys, needle)) by {
            if m < last {
                assert(rest[m] == keys[m]);
            }
        }
    }
}

/// A table without repeated keys is sorted.
pub proof fn lemma_ascending_is_sorted(keys: Seq<Seq<u8>>)
    requires
        ascending(keys),
    ensures
        sorted(keys),
{
    assert forall|i: int, j: int| 0 <= i < j < keys.len() implies !precedes(
        #[trigger] keys[j],
        #[trigger] keys[i],
    ) by {
        lemma_precedes_asymmetric(keys[i], keys[j]);
    }
}

/// The number of entries of `haystack` that come before `needle`, found by
/// bisection. On a table that is not sorted the result is only known to be
/// at most the table's length.
pub(crate) fn lower_bound(needle: &str, haystack: &Vec<&str>) -> (p: usize)
    ensures
        p <= haystack@.len(),
        sorted(keys(haystack@)) ==> p == rank(keys(haystack@), key(needle)),
        sorted(keys(haystack@)) ==> forall|i: int|
            0 <= i < p ==> precedes(#[trigger] keys(haystack@)[i], key(needle)),
        sorted(keys(haystack@)) ==> forall|i: int|
            p <= i < haystack@.len() ==> !precedes(#[trigger] keys(haystack@)[i], key(needle)),
{
    let ghost ks = keys(haystack@);
    let ghost k = key(needle);
    let mut lo: usize = 0;
    let mut hi: usize = haystack.len();
    while lo < hi
        invariant
            ks == keys(haystack@),
            k == key(needle),
            lo <= hi <= haystack@.len(),
            sorted(ks) ==> forall|i: int| 0 <= i < lo ==> precedes(#[trigger] ks[i], k),
            sorted(ks) ==> forall|i: int| hi <= i < ks.len() ==> !precedes(#[trigger] ks[i], k),
        decreases hi - lo,
    {
        let mid = lo + (hi - lo) / 2;
        if canonical_lt(haystack[mid].as_bytes(), needle.as_bytes()) {
            proof {
                if sorted(ks) {
                    assert forall|i: int| 0 <= i < mid + 1 implies precedes(
                        #[trigger] ks[i],
                        k,
                    ) by {
                        if i < mid {
                            lemma_not_after_then_before(ks[i], ks[mid as int], k);
                        }
                    }
                }
            }
            lo = mid + 1;
        } else {
            proof {
                if sorted(ks) {
                    assert forall|i: int| mid <= i < ks.len() implies !precedes(
                        #[trigger] ks[i],
                        k,
                    ) by {
                        if i > mid && precedes(ks[i], k) {
                            lemma_not_after_then_before(ks[mid as int], ks[i], k);
                        }
                    }
                }
            }
            hi = mid;
        }
    }
    proof {
        if sorted(ks) {
            lemma_rank_of_split(ks, k, lo as int);
        }
    }
    lo
}

/// The entry at index `at` has a key that no earlier entry has.
pub open spec fn occurs_first(hashes: Seq<&str>, at: int) -> bool {
    &&& 0 <= at < hashes.len()
    &&& forall|j: int| 0 <= j < at ==> key(#[trigger] hashes[j]) != key(hashes[at])
}

/// `hash` is an entry of `hashes`, the first one with its key.
pub open spec fn first_with_key(hashes: Seq<&str>, hash: &str) -> bool {
    exists|at: int| occurs_first(hashes, at) && #[trigger] hashes[at] == hash
}

/// The reference table of the hashed owner names that exist: not empty,
/// sorted in canonical order, and without a name twice.
pub struct HashedNames<'a> {
    hashes: Vec<&'a str>,
}

impl<'a> View for HashedNames<'a> {
    type V = Seq<&'a str>;

    closed spec fn view(&self) -> Seq<&'a str> {
        self.hashes@
    }
}

impl<'a> HashedNames<'a> {
    /// The table is not empty, and each entry comes strictly before the next.
    pub open spec fn wf(&self) -> bool {
        &&& self@.len() > 0
        &&& ascending(keys(self@))
    }

    /// Makes the table of the given hashes: sorts them and keeps, of the
    /// hashes that differ at most in case, the one that is given first.
    /// There is no table of no hashes.
    pub fn new(hashes: &Vec<&'a str>) -> (table: Option<Self>)
        ensures
            table is None <==> hashes@.len() == 0,
            table is Some ==> table.unwrap().wf(),
            table is Some ==> keys(table.unwrap()@).to_set() == keys(hashes@).to_set(),
            table is Some ==> forall|i: int|
                0 <= i < table.unwrap()@.len() ==> first_with_key(
                    hashes@,
                    #[trigger] table.unwrap()@[i],
                ),
    {
        if hashes.len() == 0 {
            return None;
        }
        let mut sorted: Vec<&'a str> = Vec::new();
        let mut n: usize = 0;
        while n < hashes.len()
            invariant
                n <= hashes@.len(),
                n > 0 ==> sorted@.len() > 0,
                ascending(keys(sorted@)),
                forall|k: Seq<u8>|
                    keys(sorted@).contains(k) <==> keys(hashes@.take(n as int)).contains(k),
                forall|i: int|
                    0 <= i < sorted@.len() ==> first_with_key(hashes@, #[trigger] sorted@[i]),
            decreases hashes@.len() - n,
        {
            let hash = hashes[n];
            let ghost before = sorted@;
            let ghost seen = hashes@.take(n as int);
            proof {
                lemma_ascending_is_sorted(keys(before));
            }
            let p = lower_bound(hash, &sorted);
            if p < sorted.len() && canonical_eq(sorted[p].as_bytes(), hash.as_bytes()) {
                proof {
                    assert(keys(before)[p as int] == key(hash));
                    assert forall|k: Seq<u8>| keys(before).contains(k) <==> keys(
                        hashes@.take(n + 1),
                    ).contains(k) by {
                        lemma_keys_of_longer_take(hashes@, n as int, k);
                    }
                }
            } else {
                sorted.insert(p, hash);
                proof {
                    assert(keys(sorted@) =~= keys(before).insert(p as int, key(hash)));
                    lemma_insert_ascending(keys(before), p as int, key(hash));
                    assert forall|k: Seq<u8>| keys(sorted@).contains(k) <==> keys(
                        hashes@.take(n + 1),
                    ).contains(k) by {
                        lemma_keys_of_longer_take(hashes@, n as int, k);
                        lemma_contains_after_insert(keys(before), p as int, key(hash), k);
                    }
                    assert(!keys(seen).contains(key(hash))) by {
                        if keys(before).contains(key(hash)) {
                            let at = choose|at: int|
                                0 <= at < before.len() && keys(before)[at] == key(hash);
                            lemma_precedes_irreflexive(key(hash));
                            if at > p {
                                lemma_precedes_asymmetric(keys(before)[p as int], keys(before)[at]);
                                lemma_precedes_total(keys(before)[p as int], key(hash));
                            }
                        }
                    }
                    assert forall|i: int| 0 <= i < sorted@.len() implies first_with_key(
                        hashes@,
                        #[trigger] sorted@[i],
                    ) by {
                        if i == p {
                            assert forall|j: int| 0 <= j < n implies key(hashes@[j]) != key(
                                hash,
                            ) by {
                                assert(keys(seen)[j] == key(hashes@[j]));
                            }
                            assert(occurs_first(hashes@, n as int));
                        } else if i < p {
                            assert(sorted@[i] == before[i]);
                        } else {
                            assert(sorted@[i] == before[i - 1]);
                        }
                    }
                }
            }
            n += 1;
        }
        proof {
            assert(hashes@.take(n as int) =~= hashes@);
            assert(keys(sorted@).to_set() =~= keys(hashes@).to_set());
        }
        Some(HashedNames { hashes: sorted })
    }

    /// Returns the entries of the table, in canonical order.
    pub fn entries(&self) -> (entries: &Vec<&'a str>)
        ensures
            entries@ == self@,
    {
        &self.hashes
    }
}

/// A key that is put at its rank into a table that does not have it leaves
/// the table without repeated keys.
proof fn lemma_insert_ascending(keys: Seq<Seq<u8>>, p: int, k: Seq<u8>)
    requires
        ascending(keys),
        0 <= p <= keys.len(),
        forall|i: int| 0 <= i < p ==> precedes(#[trigger] keys[i], k),
        forall|i: int| p <= i < keys.len() ==> !precedes(#[trigger] keys[i], k),
        p == keys.len() || keys[p] != k,
    ensures
        ascending(keys.insert(p, k)),
{
    let grown = keys.insert(p, k);
    assert forall|i: int, j: int| 0 <= i < j < grown.len() implies precedes(
        #[trigger] grown[i],
        #[trigger] grown[j],
    ) by {
        if j < p {
            assert(grown[i] == keys[i] && grown[j] == keys[j]);
        } else if j == p {
            assert(grown[i] == keys[i]);
        } else if i == p {
            assert(grown[j] == keys[j - 1]);
            lemma_precedes_total(k, keys[p]);
            if j - 1 > p {
                lemma_precedes_transitive(k, keys[p], keys[j - 1]);
            }
        } else if i < p {
            assert(grown[i] == keys[i] && grown[j] == keys[j - 1]);
        } else {
            assert(grown[i] == keys[i - 1] && grown[j] == keys[j - 1]);
        }
    }
}

/// The keys of the first `n + 1` hashes are the keys of the first `n` and
/// the key of the one after them.
proof fn lemma_keys_of_longer_take(hashes: Seq<&str>, n: int, k: Seq<u8>)
    requires
        0 <= n < hashes.len(),
    ensures
        keys(hashes.take(n + 1)).contains(k) <==> keys(hashes.take(n)).contains(k) || k == key(
            hashes[n],
        ),
{
    let shorter = keys(hashes.take(n));
    let longer = keys(hashes.take(n + 1));
    assert(longer =~= shorter.push(key(hashes[n])));
    if shorter.contains(k) {
        let at = choose|at: int| 0 <= at < shorter.len() && shorter[at] == k;
        assert(longer[at] == k);
    }
    if k == key(hashes[n]) {
        assert(longer[n] == k);
    }
}

/// A table into which a key was put holds that key and what it held.
proof fn lemma_contains_after_insert(keys: Seq<Seq<u8>>, p: int, new: Seq<u8>, k: Seq<u8>)
    requires
        0 <= p <= keys.len(),
    ensures
        keys.insert(p, new).contains(k) <==> keys.contains(k) || k == new,
{
    let grown = keys.insert(p, new);
    if keys.contains(k) {
        let at = choose|at: int| 0 <= at < keys.len() && keys[at] == k;
        if at < p {
            assert(grown[at] == k);
        } else {
            assert(grown[at + 1] == k);
        }
    }
    if k == new {
        assert(grown[p] == k);
    }
    if grown.contains(k) {
        let at = choose|at: int| 0 <= at < grown.len() && grown[at] == k;
        if at < p {
            assert(keys[at] == k);
        } else if at > p {
            assert(keys[at - 1] == k);
        }
    }
}

} // verus!
