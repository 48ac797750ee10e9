//! The hierarchy of authoritative nameservers, from the leaf zones up to the
//! root, and its signing from the leaves up.
//!
//! The servers of a hierarchy are signed in their order, each zone before
//! the zone above it, and the DS record that the signing of a zone gives is
//! put into the zone above before that zone is signed in turn.

use vstd::prelude::*;
use crate::bytes::lemma_span;
use crate::bytes::lemma_span_is_first;
use crate::bytes::span;
use crate::fqdn::all_well_formed;
use crate::fqdn::nameserver_fqdn;
use crate::fqdn::chain;
use crate::fqdn::lemma_chain;
use crate::fqdn::lemma_parent;
use crate::fqdn::lemma_nameservers_zone;
use crate::fqdn::names;
use crate::fqdn::nameservers_zone;
use crate::fqdn::parent_of;
use crate::fqdn::well_formed;
use crate::fqdn::FQDN;
use crate::name_server::all_wf;
use crate::name_server::ds_record;
use crate::name_server::glue;
use crate::name_server::referral_ns;
use crate::name_server::signed_as;
use crate::name_server::signed_views;
use crate::name_server::views;
use crate::name_server::NameServer;
use crate::name_server::NameServerView;
use crate::name_server::Record;
use crate::name_server::RecordView;
use crate::name_server::SignedNameServer;
use crate::name_server::SignedView;
use crate::name_server::Signing;
use crate::name_server::SigningView;

verus! {

/// What a hierarchy is to the contracts. Its servers are numbered from the
/// leaves up: first the signed ones, then the others, and the last one is
/// the server of the root. `parents` holds, for each server but the last,
/// the number of the server of the zone above.
pub struct HierarchyView {
    pub signed: Seq<SignedView>,
    pub unsigned: Seq<NameServerView>,
    pub parents: Seq<int>,
}

impl HierarchyView {
    /// The number of servers.
    pub open spec fn len(&self) -> int {
        (self.signed.len() + self.unsigned.len()) as int
    }

    /// The server with the number `i`.
    pub open spec fn server(&self, i: int) -> NameServerView {
        if i < self.signed.len() {
            self.signed[i].server
        } else {
            self.unsigned[i - self.signed.len()]
        }
    }

    /// The server `p` is the server of the zone above that of the server
    /// `i`, comes after it, and refers to it.
    pub open spec fn refers(&self, p: int, i: int) -> bool {
        &&& i < p < self.len()
        &&& parent_of(self.server(i).zone) == Some(self.server(p).zone)
        &&& self.server(p).records.contains(
            referral_ns(self.server(i).zone, self.server(i).fqdn),
        )
        &&& self.server(p).records.contains(glue(self.server(i).fqdn, self.server(i).address))
    }

    /// The hierarchy is whole: the last server is that of the root, and
    /// every other server has the server of the zone above after it, which
    /// refers to it.
    pub open spec fn wired(&self) -> bool {
        &&& self.len() > 0
        &&& self.parents.len() == self.len() - 1
        &&& self.server(self.len() - 1).zone == seq!['.']
        &&& forall|i: int| 0 <= i < self.len() ==> (#[trigger] self.server(i)).wf()
        &&& forall|i: int| 0 <= i < self.len() - 1 ==> self.refers(#[trigger] self.parents[i], i)
    }

    /// The chain of trust is not broken: the DS record of every signed
    /// server is the one that its signing gave, and unless it is the server
    /// of the root, the server of the zone above holds that record.
    pub open spec fn chain_of_trust(&self) -> bool {
        forall|i: int|
            0 <= i < self.signed.len() ==> {
                &&& (#[trigger] self.signed[i]).ds == ds_record(
                    self.signed[i].server.zone,
                    self.signed[i].signing,
                )
                &&& i < self.len() - 1 ==> self.server(self.parents[i]).records.contains(
                    self.signed[i].ds,
                )
            }
    }

    /// The hierarchy is whole and its chain of trust is not broken.
    pub open spec fn wf(&self) -> bool {
        self.wired() && self.chain_of_trust()
    }

    /// The hierarchy after the signing of its first unsigned server: the
    /// server is signed, and the server of the zone above, if there is one,
    /// has its DS record.
    pub open spec fn sign_next(self, signing: SigningView) -> HierarchyView {
        let at = self.signed.len() as int;
        let signed = signed_as(self.unsigned[0], signing);
        let rest = self.unsigned.skip(1);
        HierarchyView {
            signed: self.signed.push(signed),
            unsigned: if at == self.len() - 1 {
                rest
            } else {
                rest.update(
                    self.parents[at] - at - 1,
                    rest[self.parents[at] - at - 1].with(signed.ds),
                )
            },
            parents: self.parents,
        }
    }
}

/// The number of the first server from `from` on whose zone is the zone
/// above that of the server `i`; the number of servers where there is none.
pub open spec fn above(servers: Seq<NameServerView>, i: int, from: int) -> int
    decreases servers.len() - from,
{
    if from < 0 || from >= servers.len() {
        servers.len() as int
    } else if parent_of(servers[i].zone) == Some(servers[from].zone) {
        from
    } else {
        above(servers, i, from + 1)
    }
}

/// For each server but the last, the number of the first later server whose
/// zone is the zone above.
pub open spec fn parents_of(servers: Seq<NameServerView>) -> Seq<int> {
    Seq::new((servers.len() - 1) as nat, |i: int| above(servers, i, i + 1))
}

/// The number of the first server from `from` on, the last one apart, that
/// has no later server for the zone above; the number of the last server
/// where there is none.
pub open spec fn first_orphan(servers: Seq<NameServerView>, from: int) -> int
    decreases servers.len() - from,
{
    if from < 0 || from >= servers.len() - 1 {
        servers.len() - 1
    } else if above(servers, from, from + 1) >= servers.len() {
        from
    } else {
        first_orphan(servers, from + 1)
    }
}

/// Why a list of servers makes no hierarchy.
#[derive(Clone, Copy, Debug, PartialEq, Eq, Structural)]
pub enum BuildError {
    /// There are fewer addresses than servers to make.
    TooFewAddresses,
    /// There is no server.
    Empty,
    /// The last server is not the server of the root.
    NoRoot,
    /// No server after the one at this index serves the zone above.
    Orphan { index: usize },
}

/// Whether `servers` make a hierarchy, and if not, why not.
pub open spec fn build_checked(servers: Seq<NameServerView>) -> Result<(), BuildError> {
    if servers.len() == 0 {
        Err(BuildError::Empty)
    } else if servers.last().zone != seq!['.'] {
        Err(BuildError::NoRoot)
    } else if first_orphan(servers, 0) < servers.len() - 1 {
        Err(BuildError::Orphan { index: first_orphan(servers, 0) as usize })
    } else {
        Ok(())
    }
}

/// The servers after the first `k` of them were referred to, each by the
/// server of the zone above.
pub open spec fn wired_up(servers: Seq<NameServerView>, parents: Seq<int>, k: int) -> Seq<
    NameServerView,
>
    decreases k,
{
    if k <= 0 {
        servers
    } else {
        let before = wired_up(servers, parents, k - 1);
        before.update(parents[k - 1], before[parents[k - 1]].referring_to(servers[k - 1]))
    }
}

/// Referring changes the records of the servers only: it keeps the names
/// and addresses, and each server that was referred to is found in the
/// records of the server of the zone above.
proof fn lemma_wired_up(servers: Seq<NameServerView>, parents: Seq<int>, k: int)
    requires
        0 <= k <= parents.len(),
        parents.len() == servers.len() - 1,
        forall|i: int| 0 <= i < parents.len() ==> i < #[trigger] parents[i] < servers.len(),
    ensures
        wired_up(servers, parents, k).len() == servers.len(),
        forall|i: int|
            0 <= i < servers.len() ==> {
                let after = #[trigger] wired_up(servers, parents, k)[i];
                &&& after.zone == servers[i].zone
                &&& after.fqdn == servers[i].fqdn
                &&& after.address == servers[i].address
            },
        forall|i: int|
            0 <= i < k ==> {
                let above = wired_up(servers, parents, k)[#[trigger] parents[i]];
                &&& above.records.contains(referral_ns(servers[i].zone, servers[i].fqdn))
                &&& above.records.contains(glue(servers[i].fqdn, servers[i].address))
            },
    decreases k,
{
    if k > 0 {
        lemma_wired_up(servers, parents, k - 1);
        let before = wired_up(servers, parents, k - 1);
        let after = wired_up(servers, parents, k);
        let p = parents[k - 1];
        let child = servers[k - 1];
        let ns = referral_ns(child.zone, child.fqdn);
        let a = glue(child.fqdn, child.address);
        assert(after[p].records == before[p].records.push(ns).push(a));
        assert(after[p].records[before[p].records.len() as int] == ns);
        assert(after[p].records[before[p].records.len() as int + 1] == a);
        assert forall|i: int| 0 <= i < k implies {
            let above = after[#[trigger] parents[i]];
            &&& above.records.contains(referral_ns(servers[i].zone, servers[i].fqdn))
            &&& above.records.contains(glue(servers[i].fqdn, servers[i].address))
        } by {
            if i < k - 1 {
                let q = parents[i];
                if q == p {
                    assert(after[q].records.take(before[q].records.len() as int)
                        =~= before[q].records);
                } else {
                    assert(after[q].records.take(before[q].records.len() as int)
                        =~= before[q].records);
                }
                lemma_push_keeps(before[q].records, after[q].records, referral_ns(
                    servers[i].zone,
                    servers[i].fqdn,
                ));
                lemma_push_keeps(before[q].records, after[q].records, glue(
                    servers[i].fqdn,
                    servers[i].address,
                ));
            }
        }
    }
}

/// What a list of records holds it still holds after records were added to
/// its end.
proof fn lemma_push_keeps(before: Seq<RecordView>, after: Seq<RecordView>, record: RecordView)
    requires
        before.contains(record),
        before.len() <= after.len(),
        after.take(before.len() as int) == before,
    ensures
        after.contains(record),
{
    let at = choose|at: int| 0 <= at < before.len() && before[at] == record;
    assert(after.take(before.len() as int)[at] == after[at]);
}

/// A hierarchy of nameservers, on its way from unsigned to signed.
pub struct Hierarchy {
    signed: Vec<SignedNameServer>,
    unsigned: Vec<NameServer>,
    parents: Vec<usize>,
}

impl View for Hierarchy {
    type V = HierarchyView;

    closed spec fn view(&self) -> HierarchyView {
        HierarchyView {
            signed: signed_views(self.signed@),
            unsigned: views(self.unsigned@),
            parents: Seq::new(self.parents@.len(), |i: int| self.parents@[i] as int),
        }
    }
}

/// The number of the first later server whose zone is the zone above that
/// of the server `i`, or the number of servers where there is none.
fn find_above(servers: &Vec<NameServer>, i: usize) -> (p: usize)
    requires
        i < servers@.len(),
        servers@[i as int]@.wf(),
    ensures
        p == above(views(servers@), i as int, i + 1),
        i < p <= servers@.len(),
{
    let n: usize = servers.len();
    match servers[i].zone.parent() {
        None => {
            proof {
                lemma_no_zone_above(views(servers@), i as int, i + 1);
            }
            n
        },
        Some(up) => {
            let mut j: usize = i + 1;
            while j < n
                invariant
                    n == servers@.len(),
                    i < j <= n,
                    parent_of(servers@[i as int]@.zone) == Some(up@),
                    above(views(servers@), i as int, i + 1) == above(
                        views(servers@),
                        i as int,
                        j as int,
                    ),
                decreases n - j,
            {
                if servers[j].zone.same_as(&up) {
                    return j;
                }
                j += 1;
            }
            n
        },
    }
}

/// Nothing is above a zone that has no zone above.
proof fn lemma_no_zone_above(servers: Seq<NameServerView>, i: int, from: int)
    requires
        0 <= i < servers.len(),
        parent_of(servers[i].zone) is None,
    ensures
        above(servers, i, from) == servers.len(),
    decreases servers.len() - from,
{
    if 0 <= from < servers.len() {
        lemma_no_zone_above(servers, i, from + 1);
    }
}

/// What the zone above is found to be lies after the place from which it
/// was looked for.
proof fn lemma_above_bounds(servers: Seq<NameServerView>, i: int, from: int)
    requires
        0 <= from,
    ensures
        from <= above(servers, i, from) <= servers.len() || servers.len() < from,
        above(servers, i, from) < servers.len() ==> parent_of(servers[i].zone) == Some(
            servers[above(servers, i, from)].zone,
        ),
    decreases servers.len() - from,
{
    if from < servers.len() && parent_of(servers[i].zone) != Some(servers[from].zone) {
        lemma_above_bounds(servers, i, from + 1);
    }
}

impl Hierarchy {
    /// Makes the hierarchy of `servers`, which come from the leaves up; the
    /// last one serves the root. Each server but the last gets for parent
    /// the first later server of the zone above, which is made to refer to
    /// it. Nothing is signed yet.
    pub fn build(servers: Vec<NameServer>) -> (r: Result<Hierarchy, BuildError>)
        requires
            all_wf(servers@),
        ensures
            match r {
                Ok(hierarchy) => {
                    &&& build_checked(views(servers@)) is Ok
                    &&& hierarchy@.signed.len() == 0
                    &&& hierarchy@.parents == parents_of(views(servers@))
                    &&& hierarchy@.unsigned == wired_up(
                        views(servers@),
                        parents_of(views(servers@)),
                        servers@.len() - 1,
                    )
                    &&& hierarchy@.wf()
                },
                Err(e) => build_checked(views(servers@)) == Err::<(), BuildError>(e),
            },
    {
        let ghost given = views(servers@);
        let n: usize = servers.len();
        if n == 0 {
            return Err(BuildError::Empty);
        }
        if !servers[n - 1].zone.is_root() {
            return Err(BuildError::NoRoot);
        }
        let mut parents: Vec<usize> = Vec::new();
        let mut i: usize = 0;
        while i < n - 1
            invariant
                n == servers@.len(),
                n > 0,
                given == views(servers@),
                given.last().zone == seq!['.'],
                all_wf(servers@),
                i <= n - 1,
                parents@.len() == i,
                first_orphan(given, 0) == first_orphan(given, i as int),
                forall|k: int|
                    0 <= k < i ==> #[trigger] parents@[k] == above(given, k, k + 1) && k
                        < parents@[k] < n,
            decreases n - i,
        {
            let p = find_above(&servers, i);
            if p >= n {
                return Err(BuildError::Orphan { index: i });
            }
            parents.push(p);
            i += 1;
        }
        let ghost ups = parents_of(given);
        assert(ups =~= Seq::new(parents@.len(), |k: int| parents@[k] as int));
        assert forall|k: int| 0 <= k < n implies (#[trigger] given[k]).wf() by {
            assert(servers@[k]@.wf());
        }
        let mut servers = servers;
        let mut c: usize = 0;
        while c < n - 1
            invariant
                n == servers@.len(),
                n > 0,
                given.len() == n,
                c <= n - 1,
                parents@.len() == n - 1,
                ups == Seq::new(parents@.len(), |k: int| parents@[k] as int),
                forall|k: int| 0 <= k < n - 1 ==> k < #[trigger] ups[k] < n,
                views(servers@) == wired_up(given, ups, c as int),
            decreases n - c,
        {
            let p: usize = parents[c];
            proof {
                assert(ups[c as int] == p);
                lemma_wired_up(given, ups, c as int);
                assert(servers@[c as int]@ == wired_up(given, ups, c as int)[c as int]);
            }
            let zone = servers[c].zone.duplicate();
            let fqdn = servers[c].fqdn.duplicate();
            let address: u32 = servers[c].address;
            let ghost before = views(servers@);
            servers[p].referral(zone, fqdn, address);
            proof {
                assert(ups[c as int] == p);
                assert(views(servers@) =~= before.update(
                    p as int,
                    before[p as int].referring_to(given[c as int]),
                ));
            }
            c += 1;
        }
        let hierarchy = Hierarchy { signed: Vec::new(), unsigned: servers, parents };
        proof {
            lemma_wired_up(given, ups, n - 1);
            assert(hierarchy@.signed =~= Seq::<SignedView>::empty());
            assert(hierarchy@.parents =~= ups);
            let view = hierarchy@;
            assert forall|k: int| 0 <= k < view.len() implies (#[trigger] view.server(k)).wf() by {
                assert(given[k].wf());
                assert(view.server(k) == wired_up(given, ups, n - 1)[k]);
            }
            assert forall|k: int| 0 <= k < view.len() - 1 implies view.refers(
                #[trigger] view.parents[k],
                k,
            ) by {
                lemma_above_bounds(given, k, k + 1);
                assert(ups[k] == above(given, k, k + 1));
            }
        }
        Ok(hierarchy)
    }
}

/// A hierarchy whose next server waits for the signing of its zone.
pub struct Pending {
    hierarchy: Hierarchy,
}

/// A hierarchy all of whose servers are signed.
pub struct SignedHierarchy {
    hierarchy: Hierarchy,
}

/// How far the signing of a hierarchy has come.
pub enum Progress {
    /// There is a server to sign.
    Sign(Pending),
    /// Every server is signed.
    Done(SignedHierarchy),
}

/// The keys of the root, which a resolver is given to start from.
#[derive(Clone, Debug, PartialEq, Eq)]
pub struct TrustAnchor {
    pub ksk: String,
    pub zsk: String,
}

impl View for Pending {
    type V = HierarchyView;

    closed spec fn view(&self) -> HierarchyView {
        self.hierarchy@
    }
}

impl View for SignedHierarchy {
    type V = HierarchyView;

    closed spec fn view(&self) -> HierarchyView {
        self.hierarchy@
    }
}

impl Hierarchy {
    /// Returns the servers that are not signed, from the leaves up.
    pub fn unsigned(&self) -> (servers: &Vec<NameServer>)
        ensures
            views(servers@) == self@.unsigned,
    {
        &self.unsigned
    }

    /// Returns the servers that are signed, from the leaves up.
    pub fn signed(&self) -> (servers: &Vec<SignedNameServer>)
        ensures
            signed_views(servers@) == self@.signed,
    {
        &self.signed
    }

    /// Tells what is next: the signing of the first server that is not
    /// signed, or nothing more where all are signed.
    pub fn next(self) -> (progress: Progress)
        ensures
            match progress {
                Progress::Sign(pending) => self@.unsigned.len() > 0 && pending@ == self@,
                Progress::Done(done) => self@.unsigned.len() == 0 && done@ == self@,
            },
    {
        if self.unsigned.len() > 0 {
            Progress::Sign(Pending { hierarchy: self })
        } else {
            Progress::Done(SignedHierarchy { hierarchy: self })
        }
    }
}

impl Pending {
    /// There is a server to sign.
    pub open spec fn wf(&self) -> bool {
        self@.wf() && self@.unsigned.len() > 0
    }

    /// Returns the server to sign.
    pub fn server(&self) -> (server: &NameServer)
        requires
            self.wf(),
        ensures
            server@ == self@.unsigned[0],
    {
        &self.hierarchy.unsigned[0]
    }

    /// Takes what the signing of the server's zone gave: the server is
    /// signed, and its DS record goes to the server of the zone above.
    pub fn signed(self, signing: Signing) -> (hierarchy: Hierarchy)
        requires
            self.wf(),
        ensures
            hierarchy@ == self@.sign_next(signing@),
            hierarchy@.wf(),
    {
        let ghost before = self@;
        let mut hierarchy = self.hierarchy;
        let at: usize = hierarchy.signed.len();
        let server = hierarchy.unsigned.remove(0);
        let signed = server.sign(signing);
        if hierarchy.unsigned.len() > 0 {
            let p: usize = hierarchy.parents[at];
            proof {
                assert(before.refers(before.parents[at as int], at as int));
            }
            let ds = signed.ds().duplicate();
            hierarchy.unsigned[p - at - 1].add(ds);
        }
        hierarchy.signed.push(signed);
        proof {
            let after = hierarchy@;
            let expected = before.sign_next(signing@);
            assert(after.signed =~= expected.signed);
            assert(after.unsigned =~= expected.unsigned);
            assert(after.parents =~= expected.parents);
            lemma_sign_next(before, signing@);
        }
        hierarchy
    }
}

/// The signing of the next server keeps a hierarchy whole and its chain of
/// trust unbroken.
pub proof fn lemma_sign_next(before: HierarchyView, signing: SigningView)
    requires
        before.wf(),
        before.unsigned.len() > 0,
    ensures
        before.sign_next(signing).wf(),
        before.sign_next(signing).len() == before.len(),
{
    let after = before.sign_next(signing);
    let at = before.signed.len() as int;
    let n = before.len();
    let ds = ds_record(before.unsigned[0].zone, signing);
    assert(before.server(at) == before.unsigned[0]);
    if at < n - 1 {
        assert(before.refers(before.parents[at], at));
    }
    // Signing changes the records of one server at most, and only adds to them.
    assert forall|i: int| 0 <= i < n implies {
        &&& (#[trigger] after.server(i)).zone == before.server(i).zone
        &&& after.server(i).fqdn == before.server(i).fqdn
        &&& after.server(i).address == before.server(i).address
        &&& after.server(i).records.len() >= before.server(i).records.len()
        &&& after.server(i).records.take(before.server(i).records.len() as int)
            == before.server(i).records
    } by {
        assert(after.server(i).records.take(before.server(i).records.len() as int)
            =~= before.server(i).records);
    }
    assert forall|i: int| 0 <= i < after.len() implies (#[trigger] after.server(i)).wf() by {
        assert(before.server(i).wf());
    }
    assert forall|i: int| 0 <= i < after.len() - 1 implies after.refers(
        #[trigger] after.parents[i],
        i,
    ) by {
        let p = before.parents[i];
        assert(before.refers(p, i));
        assert(after.server(p).zone == before.server(p).zone);
        assert(after.server(i).zone == before.server(i).zone);
        lemma_push_keeps(
            before.server(p).records,
            after.server(p).records,
            referral_ns(before.server(i).zone, before.server(i).fqdn),
        );
        lemma_push_keeps(
            before.server(p).records,
            after.server(p).records,
            glue(before.server(i).fqdn, before.server(i).address),
        );
    }
    assert forall|i: int| 0 <= i < after.signed.len() implies {
        &&& (#[trigger] after.signed[i]).ds == ds_record(
            after.signed[i].server.zone,
            after.signed[i].signing,
        )
        &&& i < after.len() - 1 ==> after.server(after.parents[i]).records.contains(
            after.signed[i].ds,
        )
    } by {
        if i < at {
            assert(after.signed[i] == before.signed[i]);
            if i < n - 1 {
                let p = before.parents[i];
                assert(before.refers(p, i));
                assert(after.server(p).zone == before.server(p).zone);
                lemma_push_keeps(
                    before.server(p).records,
                    after.server(p).records,
                    before.signed[i].ds,
                );
            }
        } else if at < n - 1 {
            let p = before.parents[at];
            assert(after.server(p).records == before.server(p).records.push(ds));
            assert(after.server(p).records[before.server(p).records.len() as int] == ds);
        }
    }
}

impl SignedHierarchy {
    /// Every server is signed.
    pub open spec fn wf(&self) -> bool {
        self@.wf() && self@.unsigned.len() == 0
    }

    /// Returns the signed servers, from the leaves up; the last one is the
    /// server of the root.
    pub fn servers(&self) -> (servers: &Vec<SignedNameServer>)
        ensures
            signed_views(servers@) == self@.signed,
    {
        &self.hierarchy.signed
    }

    /// Returns the index of the server of the zone above that of the
    /// server at `index`, or nothing for the server of the root.
    pub fn parent(&self, index: usize) -> (parent: Option<usize>)
        requires
            self.wf(),
            index < self@.len(),
        ensures
            parent == if index == self@.len() - 1 {
                None
            } else {
                Some(self@.parents[index as int] as usize)
            },
    {
        if index < self.hierarchy.signed.len() - 1 {
            assert(self@.refers(self@.parents[index as int], index as int));
            Some(self.hierarchy.parents[index])
        } else {
            None
        }
    }

    /// Returns the keys of the root.
    pub fn trust_anchor(&self) -> (anchor: TrustAnchor)
        requires
            self.wf(),
        ensures
            anchor.ksk@ == self@.signed.last().signing.ksk,
            anchor.zsk@ == self@.signed.last().signing.zsk,
    {
        let root = &self.hierarchy.signed[self.hierarchy.signed.len() - 1];
        let signing = root.signing();
        TrustAnchor { ksk: signing.ksk.clone(), zsk: signing.zsk.clone() }
    }
}

/// In a signed hierarchy the DS record that the signing of a zone gave is
/// among the records that the zone above had when it was signed in turn.
pub proof fn law_chain_of_trust(hierarchy: HierarchyView, i: int)
    requires
        hierarchy.wf(),
        hierarchy.unsigned.len() == 0,
        0 <= i < hierarchy.len() - 1,
    ensures
        i < hierarchy.parents[i] < hierarchy.len(),
        parent_of(hierarchy.signed[i].server.zone) == Some(
            hierarchy.signed[hierarchy.parents[i]].server.zone,
        ),
        hierarchy.signed[i].ds == ds_record(
            hierarchy.signed[i].server.zone,
            hierarchy.signed[i].signing,
        ),
        hierarchy.signed[hierarchy.parents[i]].server.records.contains(hierarchy.signed[i].ds),
{
    assert(hierarchy.refers(hierarchy.parents[i], i));
    assert(hierarchy.signed[i].ds == ds_record(
        hierarchy.signed[i].server.zone,
        hierarchy.signed[i].signing,
    ));
}

/// The zones that are not the zone of the harness's nameservers nor a zone
/// above it.
pub open spec fn outside_infrastructure() -> spec_fn(Seq<char>) -> bool {
    |zone: Seq<char>| !chain(nameservers_zone()).contains(zone)
}

/// The zones of the hierarchy around the zone `leaf`, from the leaves up:
/// `leaf` and the zones above it, then the zone of the harness's
/// nameservers and the zones above that one, each zone once.
pub open spec fn plan(leaf: Seq<char>) -> Seq<Seq<char>> {
    chain(leaf).filter(outside_infrastructure()) + chain(nameservers_zone())
}

/// Tells whether `name` is among the names of `list`.
fn listed(list: &Vec<FQDN>, name: &FQDN) -> (found: bool)
    ensures
        found == names(list@).contains(name@),
{
    let mut i: usize = 0;
    while i < list.len()
        invariant
            i <= list@.len(),
            forall|k: int| 0 <= k < i ==> names(list@)[k] != name@,
        decreases list@.len() - i,
    {
        if list[i].same_as(name) {
            assert(names(list@)[i as int] == name@);
            return true;
        }
        i += 1;
    }
    false
}

/// Returns the zones of the hierarchy around the zone `leaf`.
pub fn plan_zones(leaf: &FQDN) -> (zones: Vec<FQDN>)
    requires
        leaf.wf(),
    ensures
        names(zones@) == plan(leaf@),
        all_well_formed(zones@),
{
    let infrastructure = FQDN::nameservers().ancestors();
    let mine = leaf.ancestors();
    let mut zones: Vec<FQDN> = Vec::new();
    let mut i: usize = 0;
    while i < mine.len()
        invariant
            i <= mine@.len(),
            names(infrastructure@) == chain(nameservers_zone()),
            all_well_formed(mine@),
            all_well_formed(zones@),
            names(zones@) == names(mine@.take(i as int)).filter(outside_infrastructure()),
        decreases mine@.len() - i,
    {
        let ghost before = names(mine@.take(i as int));
        let ghost after = names(mine@.take(i + 1));
        proof {
            reveal(Seq::filter);
            assert(after.drop_last() =~= before);
            assert(after.last() == mine@[i as int]@);
        }
        if !listed(&infrastructure, &mine[i]) {
            let ghost kept = names(zones@);
            zones.push(mine[i].duplicate());
            assert(names(zones@) =~= kept.push(mine@[i as int]@));
        }
        i += 1;
    }
    assert(mine@.take(i as int) =~= mine@);
    let ghost outside = names(zones@);
    let mut j: usize = 0;
    while j < infrastructure.len()
        invariant
            j <= infrastructure@.len(),
            all_well_formed(infrastructure@),
            all_well_formed(zones@),
            names(zones@) == outside + names(infrastructure@.take(j as int)),
        decreases infrastructure@.len() - j,
    {
        let ghost before = names(zones@);
        zones.push(infrastructure[j].duplicate());
        assert(names(zones@) =~= before.push(infrastructure@[j as int]@));
        assert(names(infrastructure@.take(j + 1)) =~= names(infrastructure@.take(j as int)).push(
            infrastructure@[j as int]@,
        ));
        assert(names(zones@) =~= outside + names(infrastructure@.take(j + 1)));
        j += 1;
    }
    assert(infrastructure@.take(j as int) =~= infrastructure@);
    zones
}

/// A new server of `zone`, as `NameServer::new` makes it.
pub open spec fn fresh(zone: Seq<char>, fqdn: Seq<char>, address: u32) -> NameServerView {
    NameServerView {
        zone,
        fqdn,
        address,
        records: seq![referral_ns(zone, fqdn), glue(fqdn, address)],
    }
}

/// The servers of `zones` where `leaf` is the server of its zone and every
/// other zone gets a new server: the new servers are numbered from `count`
/// on and take their addresses from `addresses`, both in the order of the
/// zones.
pub open spec fn staffed(
    leaf: NameServerView,
    zones: Seq<Seq<char>>,
    addresses: Seq<u32>,
    count: nat,
) -> Seq<NameServerView> {
    let at = span(zones, leaf.zone) as int;
    Seq::new(
        zones.len(),
        |i: int|
            if i == at {
                leaf
            } else if i < at {
                fresh(zones[i], nameserver_fqdn((count + i) as nat), addresses[i])
            } else {
                fresh(zones[i], nameserver_fqdn((count + i - 1) as nat), addresses[i - 1])
            },
    )
}

/// The servers after the server `host` was given the address records of
/// the first `k` servers, its own apart.
pub open spec fn with_glue(servers: Seq<NameServerView>, host: int, k: int) -> Seq<NameServerView>
    decreases k,
{
    if k <= 0 {
        servers
    } else if k - 1 == host {
        with_glue(servers, host, k - 1)
    } else {
        let before = with_glue(servers, host, k - 1);
        before.update(host, before[host].with(glue(servers[k - 1].fqdn, servers[k - 1].address)))
    }
}

/// The servers of the hierarchy around `leaf`, before they refer to each
/// other: a server for each zone of the plan, and in the zone of the
/// harness's nameservers the address of every server.
pub open spec fn provisioned(leaf: NameServerView, addresses: Seq<u32>, count: nat) -> Seq<
    NameServerView,
> {
    let zones = plan(leaf.zone);
    let servers = staffed(leaf, zones, addresses, count);
    with_glue(servers, span(zones, nameservers_zone()) as int, servers.len() as int)
}

/// Giving address records to one server keeps the number of servers, their
/// names and their addresses.
proof fn lemma_with_glue(servers: Seq<NameServerView>, host: int, k: int)
    requires
        0 <= host < servers.len(),
        0 <= k <= servers.len(),
    ensures
        with_glue(servers, host, k).len() == servers.len(),
        forall|i: int|
            0 <= i < servers.len() ==> {
                let after = #[trigger] with_glue(servers, host, k)[i];
                &&& after.zone == servers[i].zone
                &&& after.fqdn == servers[i].fqdn
                &&& after.address == servers[i].address
            },
    decreases k,
{
    if k > 0 {
        lemma_with_glue(servers, host, k - 1);
    }
}

/// The number of zones at the start of `zones` that are not among `inside`.
spec fn reach(zones: Seq<Seq<char>>, inside: Seq<Seq<char>>) -> nat
    decreases zones.len(),
{
    if zones.len() == 0 || inside.contains(zones[0]) {
        0
    } else {
        reach(zones.drop_first(), inside) + 1
    }
}

/// The reach ends at the first zone that is among `inside`.
proof fn lemma_reach(zones: Seq<Seq<char>>, inside: Seq<Seq<char>>)
    ensures
        reach(zones, inside) <= zones.len(),
        forall|k: int| 0 <= k < reach(zones, inside) ==> !inside.contains(#[trigger] zones[k]),
        reach(zones, inside) < zones.len() ==> inside.contains(zones[reach(zones, inside) as int]),
    decreases zones.len(),
{
    if zones.len() > 0 && !inside.contains(zones[0]) {
        let rest = zones.drop_first();
        lemma_reach(rest, inside);
        assert forall|k: int| 0 <= k < reach(zones, inside) implies !inside.contains(
            #[trigger] zones[k],
        ) by {
            if k > 0 {
                assert(zones[k] == rest[k - 1]);
            }
        }
        if reach(zones, inside) < zones.len() {
            assert(zones[reach(zones, inside) as int] == rest[reach(rest, inside) as int]);
        }
    }
}

/// A list all of whose items are wanted is kept whole by a filter.
proof fn lemma_filter_keeps(list: Seq<Seq<char>>, wanted: spec_fn(Seq<char>) -> bool)
    requires
        forall|k: int| 0 <= k < list.len() ==> wanted(#[trigger] list[k]),
    ensures
        list.filter(wanted) == list,
    decreases list.len(),
{
    reveal(Seq::filter);
    if list.len() > 0 {
        let rest = list.drop_last();
        assert(forall|k: int| 0 <= k < rest.len() ==> rest[k] == list[k]);
        lemma_filter_keeps(rest, wanted);
        assert(rest.push(list.last()) =~= list);
    }
}

/// A list none of whose items is wanted is dropped whole by a filter.
proof fn lemma_filter_drops(list: Seq<Seq<char>>, wanted: spec_fn(Seq<char>) -> bool)
    requires
        forall|k: int| 0 <= k < list.len() ==> !wanted(#[trigger] list[k]),
    ensures
        list.filter(wanted) == Seq::<Seq<char>>::empty(),
    decreases list.len(),
{
    reveal(Seq::filter);
    if list.len() > 0 {
        let rest = list.drop_last();
        assert(forall|k: int| 0 <= k < rest.len() ==> rest[k] == list[k]);
        lemma_filter_drops(rest, wanted);
    } else {
        assert(list =~= Seq::<Seq<char>>::empty());
    }
}

/// The number of zones of the chain of `leaf` that come before the first
/// one that is the zone of the harness's nameservers or a zone above it.
spec fn meeting(leaf: Seq<char>) -> int {
    reach(chain(leaf), chain(nameservers_zone())) as int
}

/// In the chain of a zone, what follows a zone that is in another chain is
/// in that chain too.
proof fn lemma_inside_from(mine: Seq<Seq<char>>, inside: Seq<Seq<char>>, m: int, k: int)
    requires
        0 <= m <= k < mine.len(),
        inside.contains(mine[m]),
        inside.len() > 0,
        forall|i: int|
            0 <= i < mine.len() - 1 ==> parent_of(#[trigger] mine[i]) == Some(mine[i + 1]),
        forall|i: int|
            0 <= i < inside.len() - 1 ==> parent_of(#[trigger] inside[i]) == Some(inside[i + 1]),
        parent_of(inside.last()) is None,
    ensures
        inside.contains(mine[k]),
    decreases k - m,
{
    if k > m {
        lemma_inside_from(mine, inside, m, k - 1);
        let at = choose|at: int| 0 <= at < inside.len() && inside[at] == mine[k - 1];
        assert(parent_of(mine[k - 1]) == Some(mine[k]));
        assert(at < inside.len() - 1);
        assert(inside[at + 1] == mine[k]);
    }
}

/// The chain of a zone meets the chain of the zone of the harness's
/// nameservers, and from there on lies in it.
proof fn lemma_meeting(leaf: Seq<char>)
    requires
        well_formed(leaf),
    ensures
        0 <= meeting(leaf) < chain(leaf).len(),
        forall|k: int|
            0 <= k < meeting(leaf) ==> !chain(nameservers_zone()).contains(
                #[trigger] chain(leaf)[k],
            ),
        forall|k: int|
            meeting(leaf) <= k < chain(leaf).len() ==> chain(nameservers_zone()).contains(
                #[trigger] chain(leaf)[k],
            ),
{
    let mine = chain(leaf);
    let inside = chain(nameservers_zone());
    let m = meeting(leaf);
    lemma_nameservers_zone();
    lemma_chain(leaf);
    lemma_chain(nameservers_zone());
    lemma_reach(mine, inside);
    lemma_parent(inside.last());
    assert(inside.contains(mine.last())) by {
        assert(inside[inside.len() - 1] == mine.last());
    }
    assert forall|k: int| m <= k < mine.len() implies inside.contains(#[trigger] mine[k]) by {
        lemma_inside_from(mine, inside, m, k);
    }
}

/// The plan of a zone is the start of the zone's chain, up to where it
/// meets the chain of the zone of the harness's nameservers, and that
/// chain.
proof fn lemma_plan(leaf: Seq<char>)
    requires
        well_formed(leaf),
    ensures
        plan(leaf) == chain(leaf).take(meeting(leaf)) + chain(nameservers_zone()),
{
    let mine = chain(leaf);
    let m = meeting(leaf);
    lemma_meeting(leaf);
    let head = mine.take(m);
    let tail = mine.skip(m);
    assert(mine =~= head + tail);
    assert forall|k: int| 0 <= k < head.len() implies outside_infrastructure()(
        #[trigger] head[k],
    ) by {
        assert(head[k] == mine[k]);
    }
    assert forall|k: int| 0 <= k < tail.len() implies !outside_infrastructure()(
        #[trigger] tail[k],
    ) by {
        assert(tail[k] == mine[m + k]);
    }
    lemma_filter_keeps(head, outside_infrastructure());
    lemma_filter_drops(tail, outside_infrastructure());
    Seq::filter_distributes_over_add(head, tail, outside_infrastructure());
    assert(head + Seq::<Seq<char>>::empty() =~= head);
}

/// In the chain of a well-formed name, each name but the last is followed
/// by the name of the zone above it.
proof fn lemma_chain_step(name: Seq<char>, k: int)
    requires
        well_formed(name),
        0 <= k < chain(name).len() - 1,
    ensures
        parent_of(chain(name)[k]) == Some(chain(name)[k + 1]),
{
    lemma_chain(name);
}

/// The plan of a zone holds, for each of its zones but the last, the zone
/// above it at a later place.
proof fn lemma_plan_parent(leaf: Seq<char>, i: int) -> (j: int)
    requires
        well_formed(leaf),
        0 <= i < plan(leaf).len() - 1,
    ensures
        i < j < plan(leaf).len(),
        parent_of(plan(leaf)[i]) == Some(plan(leaf)[j]),
{
    let mine = chain(leaf);
    let inside = chain(nameservers_zone());
    let m = meeting(leaf);
    let zones = plan(leaf);
    lemma_plan(leaf);
    lemma_meeting(leaf);
    lemma_nameservers_zone();
    assert(zones.len() == m + inside.len());
    if i < m - 1 {
        lemma_chain_step(leaf, i);
        assert(zones[i] == mine[i]);
        assert(zones[i + 1] == mine[i + 1]);
        i + 1
    } else if i == m - 1 {
        lemma_chain_step(leaf, i);
        assert(inside.contains(mine[m]));
        let at = choose|at: int| 0 <= at < inside.len() && inside[at] == mine[m];
        assert(zones[i] == mine[i]);
        assert(zones[m + at] == inside[at]);
        m + at
    } else {
        lemma_chain_step(nameservers_zone(), i - m);
        assert(zones[i] == inside[i - m]);
        assert(zones[i + 1] == inside[i - m + 1]);
        i + 1
    }
}

/// The plan of a zone holds that zone and the zone of the harness's
/// nameservers, and ends with the root.
proof fn lemma_plan_holds(leaf: Seq<char>)
    requires
        well_formed(leaf),
    ensures
        plan(leaf).len() > 0,
        plan(leaf).contains(leaf),
        plan(leaf).contains(nameservers_zone()),
        plan(leaf).last() == seq!['.'],
{
    let mine = chain(leaf);
    let inside = chain(nameservers_zone());
    let m = meeting(leaf);
    let zones = plan(leaf);
    lemma_plan(leaf);
    lemma_meeting(leaf);
    lemma_nameservers_zone();
    assert(mine.len() >= 1 && mine[0] == leaf) by {
        lemma_chain(leaf);
    }
    assert(inside.len() >= 1 && inside[0] == nameservers_zone() && inside.last() == seq!['.']) by {
        lemma_chain(nameservers_zone());
    }
    assert(zones.len() == m + inside.len());
    assert(zones[m] == inside[0]);
    assert(zones.last() == inside.last());
    if m == 0 {
        assert(inside.contains(mine[0]));
        let at = choose|at: int| 0 <= at < inside.len() && inside[at] == leaf;
        assert(zones[m + at] == leaf);
    } else {
        assert(zones[0] == mine[0]);
    }
}

/// Where a later server serves the zone above, one is found.
proof fn lemma_above_finds(servers: Seq<NameServerView>, i: int, from: int, j: int)
    requires
        0 <= from <= j < servers.len(),
        parent_of(servers[i].zone) == Some(servers[j].zone),
    ensures
        above(servers, i, from) <= j,
    decreases j - from,
{
    if parent_of(servers[i].zone) != Some(servers[from].zone) {
        lemma_above_finds(servers, i, from + 1, j);
    }
}

/// Where every server but the last has a later server for the zone above,
/// none is an orphan.
proof fn lemma_no_orphan(servers: Seq<NameServerView>, from: int)
    requires
        0 <= from,
        forall|i: int|
            from <= i < servers.len() - 1 ==> #[trigger] above(servers, i, i + 1) < servers.len(),
    ensures
        first_orphan(servers, from) == servers.len() - 1,
    decreases servers.len() - from,
{
    if from < servers.len() - 1 {
        assert(above(servers, from, from + 1) < servers.len());
        lemma_no_orphan(servers, from + 1);
    }
}

/// The servers of the hierarchy around a well-formed leaf make a hierarchy.
pub proof fn lemma_provisioned_builds(leaf: NameServerView, addresses: Seq<u32>, count: nat)
    requires
        leaf.wf(),
    ensures
        build_checked(provisioned(leaf, addresses, count)) is Ok,
{
    let zones = plan(leaf.zone);
    let n = zones.len() as int;
    let staff = staffed(leaf, zones, addresses, count);
    let host = span(zones, nameservers_zone()) as int;
    let servers = provisioned(leaf, addresses, count);
    lemma_plan_holds(leaf.zone);
    lemma_span_is_first(zones, nameservers_zone());
    lemma_span_is_first(zones, leaf.zone);
    assert(host < n) by {
        let at = choose|at: int| 0 <= at < n && zones[at] == nameservers_zone();
        if host >= n {
            assert(zones[at] != nameservers_zone());
        }
    }
    assert(span(zones, leaf.zone) < n) by {
        let at = choose|at: int| 0 <= at < n && zones[at] == leaf.zone;
        if span(zones, leaf.zone) >= n {
            assert(zones[at] != leaf.zone);
        }
    }
    lemma_with_glue(staff, host, n);
    assert forall|i: int| 0 <= i < n implies (#[trigger] servers[i]).zone == zones[i] by {
        assert(servers[i].zone == staff[i].zone);
    }
    assert forall|i: int| 0 <= i < n - 1 implies #[trigger] above(servers, i, i + 1) < n by {
        let j = lemma_plan_parent(leaf.zone, i);
        assert(servers[i].zone == zones[i] && servers[j].zone == zones[j]);
        lemma_above_finds(servers, i, i + 1, j);
    }
    lemma_no_orphan(servers, 0);
    assert(servers.last().zone == zones[n - 1]);
}

/// The index of the first zone of `zones` with the name `name`.
fn position(zones: &Vec<FQDN>, name: &FQDN) -> (at: usize)
    requires
        names(zones@).contains(name@),
    ensures
        at == span(names(zones@), name@),
        at < zones@.len(),
{
    let mut at: usize = 0;
    while at < zones.len() && !zones[at].same_as(name)
        invariant
            at <= zones@.len(),
            forall|k: int| 0 <= k < at ==> names(zones@)[k] != name@,
        decreases zones@.len() - at,
    {
        at += 1;
    }
    proof {
        if at < zones@.len() {
            assert(names(zones@)[at as int] == name@);
        }
        lemma_span(names(zones@), name@, at as int);
    }
    at
}

impl Hierarchy {
    /// Makes the hierarchy around the server `leaf`: a new server for every
    /// other zone of the plan of its zone, the address of every server in
    /// the zone of the harness's nameservers, and the referrals. The new
    /// servers are numbered from `count` on and take their addresses from
    /// `addresses`, of which there must be one for each.
    pub fn around(leaf: NameServer, addresses: &Vec<u32>, count: usize) -> (r: Result<
        Hierarchy,
        BuildError,
    >)
        requires
            leaf@.wf(),
            count + addresses@.len() <= usize::MAX,
        ensures
            match r {
                Ok(hierarchy) => {
                    let servers = provisioned(leaf@, addresses@, count as nat);
                    &&& addresses@.len() >= plan(leaf@.zone).len() - 1
                    &&& hierarchy@.signed.len() == 0
                    &&& hierarchy@.parents == parents_of(servers)
                    &&& hierarchy@.unsigned == wired_up(
                        servers,
                        parents_of(servers),
                        servers.len() - 1,
                    )
                    &&& hierarchy@.wf()
                },
                Err(e) => {
                    &&& addresses@.len() < plan(leaf@.zone).len() - 1
                    &&& e == BuildError::TooFewAddresses
                },
            },
    {
        let zones = plan_zones(&leaf.zone);
        let n: usize = zones.len();
        proof {
            lemma_plan_holds(leaf@.zone);
            lemma_provisioned_builds(leaf@, addresses@, count as nat);
        }
        if addresses.len() < n - 1 {
            return Err(BuildError::TooFewAddresses);
        }
        let at = position(&zones, &leaf.zone);
        let host = position(&zones, &FQDN::nameservers());
        let ghost wanted = staffed(leaf@, names(zones@), addresses@, count as nat);
        let mut servers: Vec<NameServer> = Vec::new();
        let mut i: usize = 0;
        while i < at
            invariant
                i <= at < n,
                n == zones@.len(),
                n - 1 <= addresses@.len(),
                count + addresses@.len() <= usize::MAX,
                all_well_formed(zones@),
                at == span(names(zones@), leaf@.zone),
                wanted == staffed(leaf@, names(zones@), addresses@, count as nat),
                all_wf(servers@),
                views(servers@) == wanted.take(i as int),
            decreases at - i,
        {
            let server = NameServer::new(
                zones[i].duplicate(),
                FQDN::nameserver(count + i),
                addresses[i],
            );
            let ghost before = views(servers@);
            servers.push(server);
            assert(views(servers@) =~= before.push(wanted[i as int]));
            assert(wanted.take(i + 1) =~= wanted.take(i as int).push(wanted[i as int]));
            i += 1;
        }
        let ghost before = views(servers@);
        servers.push(leaf);
        assert(views(servers@) =~= before.push(wanted[at as int]));
        assert(wanted.take(at + 1) =~= wanted.take(at as int).push(wanted[at as int]));
        i = at + 1;
        while i < n
            invariant
                at < i <= n,
                n == zones@.len(),
                n - 1 <= addresses@.len(),
                count + addresses@.len() <= usize::MAX,
                all_well_formed(zones@),
                at == span(names(zones@), leaf@.zone),
                wanted == staffed(leaf@, names(zones@), addresses@, count as nat),
                all_wf(servers@),
                views(servers@) == wanted.take(i as int),
            decreases n - i,
        {
            let server = NameServer::new(
                zones[i].duplicate(),
                FQDN::nameserver(count + i - 1),
                addresses[i - 1],
            );
            let ghost before = views(servers@);
            servers.push(server);
            assert(views(servers@) =~= before.push(wanted[i as int]));
            assert(wanted.take(i + 1) =~= wanted.take(i as int).push(wanted[i as int]));
            i += 1;
        }
        assert(wanted.take(n as int) =~= wanted);
        let mut k: usize = 0;
        while k < n
            invariant
                k <= n,
                host < n,
                n == servers@.len(),
                wanted.len() == n,
                forall|j: int| 0 <= j < n ==> (#[trigger] wanted[j]).wf(),
                views(servers@) == with_glue(wanted, host as int, k as int),
            decreases n - k,
        {
            proof {
                lemma_with_glue(wanted, host as int, k as int);
                assert(servers@[k as int]@ == with_glue(wanted, host as int, k as int)[k as int]);
            }
            if k != host {
                let record = Record::A {
                    fqdn: servers[k].fqdn.duplicate(),
                    address: servers[k].address,
                };
                let ghost before = views(servers@);
                servers[host].add(record);
                assert(views(servers@) =~= before.update(
                    host as int,
                    before[host as int].with(glue(wanted[k as int].fqdn, wanted[k as int].address)),
                ));
            }
            k += 1;
        }
        proof {
            lemma_with_glue(wanted, host as int, n as int);
            assert forall|j: int| 0 <= j < n implies (#[trigger] servers@[j])@.wf() by {
                assert(wanted[j].wf());
                assert(servers@[j]@ == with_glue(wanted, host as int, n as int)[j]);
            }
        }
        Hierarchy::build(servers)
    }
}

} // verus!
