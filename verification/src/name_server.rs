//! Nameservers and the records of their zones.
//!
//! A nameserver takes records while it is not signed. Its signing freezes
//! it: the signed server keeps the records that it had, and has no way to
//! take another.

use vstd::prelude::*;
use crate::fqdn::well_formed;
use crate::fqdn::FQDN;

verus! {

/// A resource record of a zone.
#[derive(Clone, Debug, PartialEq, Eq)]
pub enum Record {
    /// The address of a host.
    A { fqdn: FQDN, address: u32 },
    /// A nameserver of a zone.
    NS { zone: FQDN, nameserver: FQDN },
    /// The digest of the key-signing key of a zone, for the zone above.
    DS { zone: FQDN, digest: String },
}

/// What a record is to the contracts.
pub enum RecordView {
    A { fqdn: Seq<char>, address: u32 },
    NS { zone: Seq<char>, nameserver: Seq<char> },
    DS { zone: Seq<char>, digest: Seq<char> },
}

impl View for Record {
    type V = RecordView;

    open spec fn view(&self) -> RecordView {
        match self {
            Record::A { fqdn, address } => RecordView::A { fqdn: fqdn@, address: *address },
            Record::NS { zone, nameserver } => RecordView::NS {
                zone: zone@,
                nameserver: nameserver@,
            },
            Record::DS { zone, digest } => RecordView::DS { zone: zone@, digest: digest@ },
        }
    }
}

impl Record {
    /// Returns a copy of the record.
    pub fn duplicate(&self) -> (record: Record)
        ensures
            record@ == self@,
    {
        match self {
            Record::A { fqdn, address } => Record::A { fqdn: fqdn.duplicate(), address: *address },
            Record::NS { zone, nameserver } => Record::NS {
                zone: zone.duplicate(),
                nameserver: nameserver.duplicate(),
            },
            Record::DS { zone, digest } => Record::DS {
                zone: zone.duplicate(),
                digest: digest.clone(),
            },
        }
    }
}

/// The views of a list of records.
pub open spec fn record_views(records: Seq<Record>) -> Seq<RecordView> {
    Seq::new(records.len(), |i: int| records[i]@)
}

/// What the signing of a zone gives: the two keys, the digest of the
/// key-signing key, and the signed zone.
#[derive(Clone, Debug, PartialEq, Eq)]
pub struct Signing {
    pub ksk: String,
    pub zsk: String,
    pub ds: String,
    pub zone_file: String,
}

/// What a signing is to the contracts.
pub struct SigningView {
    pub ksk: Seq<char>,
    pub zsk: Seq<char>,
    pub ds: Seq<char>,
    pub zone_file: Seq<char>,
}

impl View for Signing {
    type V = SigningView;

    open spec fn view(&self) -> SigningView {
        SigningView {
            ksk: self.ksk@,
            zsk: self.zsk@,
            ds: self.ds@,
            zone_file: self.zone_file@,
        }
    }
}

/// A nameserver that is not signed: it still takes records.
#[derive(Clone, Debug, PartialEq, Eq)]
pub struct NameServer {
    /// The zone that the server is authoritative for.
    pub zone: FQDN,
    /// The name of the server.
    pub fqdn: FQDN,
    /// The address of the server.
    pub address: u32,
    /// The records of the zone.
    pub records: Vec<Record>,
}

/// What a nameserver is to the contracts.
pub struct NameServerView {
    pub zone: Seq<char>,
    pub fqdn: Seq<char>,
    pub address: u32,
    pub records: Seq<RecordView>,
}

impl View for NameServer {
    type V = NameServerView;

    open spec fn view(&self) -> NameServerView {
        NameServerView {
            zone: self.zone@,
            fqdn: self.fqdn@,
            address: self.address,
            records: record_views(self.records@),
        }
    }
}

impl NameServerView {
    /// The names of the server are well-formed.
    pub open spec fn wf(&self) -> bool {
        well_formed(self.zone) && well_formed(self.fqdn)
    }

    /// The server with one more record.
    pub open spec fn with(self, record: RecordView) -> NameServerView {
        NameServerView { records: self.records.push(record), ..self }
    }

    /// The server with the two records that refer to `child`, the server of
    /// a zone below.
    pub open spec fn referring_to(self, child: NameServerView) -> NameServerView {
        self.with(referral_ns(child.zone, child.fqdn)).with(glue(child.fqdn, child.address))
    }
}

/// The record by which a zone names the server of a zone below.
pub open spec fn referral_ns(zone: Seq<char>, nameserver: Seq<char>) -> RecordView {
    RecordView::NS { zone, nameserver }
}

/// The address record of a nameserver.
pub open spec fn glue(fqdn: Seq<char>, address: u32) -> RecordView {
    RecordView::A { fqdn, address }
}

/// The DS record of `zone` after a signing.
pub open spec fn ds_record(zone: Seq<char>, signing: SigningView) -> RecordView {
    RecordView::DS { zone, digest: signing.ds }
}

impl NameServer {
    /// A nameserver for `zone`, with its name and its address. Its zone
    /// starts with the record that names the server and the record of the
    /// server's address.
    pub fn new(zone: FQDN, fqdn: FQDN, address: u32) -> (server: NameServer)
        ensures
            server@ == (NameServerView {
                zone: zone@,
                fqdn: fqdn@,
                address,
                records: seq![referral_ns(zone@, fqdn@), glue(fqdn@, address)],
            }),
    {
        let mut records: Vec<Record> = Vec::new();
        records.push(Record::NS { zone: zone.duplicate(), nameserver: fqdn.duplicate() });
        records.push(Record::A { fqdn: fqdn.duplicate(), address });
        assert(record_views(records@) =~= seq![referral_ns(zone@, fqdn@), glue(fqdn@, address)]);
        NameServer { zone, fqdn, address, records }
    }

    /// Adds a record to the zone.
    pub fn add(&mut self, record: Record)
        ensures
            final(self)@ == old(self)@.with(record@),
    {
        self.records.push(record);
        assert(record_views(self.records@) =~= record_views(old(self).records@).push(record@));
    }

    /// Refers to the server of a zone below: adds the record that names the
    /// server of `zone`, and the record of that server's address.
    pub fn referral(&mut self, zone: FQDN, nameserver: FQDN, address: u32)
        ensures
            final(self)@ == old(self)@.with(referral_ns(zone@, nameserver@)).with(
                glue(nameserver@, address),
            ),
    {
        let name = nameserver.duplicate();
        self.add(Record::NS { zone, nameserver });
        self.add(Record::A { fqdn: name, address });
    }

    /// Freezes the server into its signed form, with what the signing of
    /// its zone gave.
    pub fn sign(self, signing: Signing) -> (signed: SignedNameServer)
        ensures
            signed@ == signed_as(self@, signing@),
    {
        let ds = Record::DS { zone: self.zone.duplicate(), digest: signing.ds.clone() };
        SignedNameServer { server: self, signing, ds }
    }
}

/// The signed form of `server` after a signing.
pub open spec fn signed_as(server: NameServerView, signing: SigningView) -> SignedView {
    SignedView { server, signing, ds: ds_record(server.zone, signing) }
}

/// What a signed nameserver is to the contracts.
pub struct SignedView {
    /// The server as it was when it was signed.
    pub server: NameServerView,
    /// What the signing gave.
    pub signing: SigningView,
    /// The DS record of the zone.
    pub ds: RecordView,
}

/// A nameserver that is signed: its records are what they were when it was
/// signed.
pub struct SignedNameServer {
    server: NameServer,
    signing: Signing,
    ds: Record,
}

impl View for SignedNameServer {
    type V = SignedView;

    closed spec fn view(&self) -> SignedView {
        SignedView { server: self.server@, signing: self.signing@, ds: self.ds@ }
    }
}

impl SignedNameServer {
    /// Returns the server as it was when it was signed.
    pub fn server(&self) -> (server: &NameServer)
        ensures
            server@ == self@.server,
    {
        &self.server
    }

    /// Returns what the signing gave.
    pub fn signing(&self) -> (signing: &Signing)
        ensures
            signing@ == self@.signing,
    {
        &self.signing
    }

    /// Returns the DS record of the zone, for the zone above.
    pub fn ds(&self) -> (ds: &Record)
        ensures
            ds@ == self@.ds,
    {
        &self.ds
    }
}

/// The views of a list of servers.
pub open spec fn views(servers: Seq<NameServer>) -> Seq<NameServerView> {
    Seq::new(servers.len(), |i: int| servers[i]@)
}

/// The views of a list of signed servers.
pub open spec fn signed_views(servers: Seq<SignedNameServer>) -> Seq<SignedView> {
    Seq::new(servers.len(), |i: int| servers[i]@)
}

/// The names of all the servers are well-formed.
pub open spec fn all_wf(servers: Seq<NameServer>) -> bool {
    forall|i: int| 0 <= i < servers.len() ==> (#[trigger] servers[i])@.wf()
}

} // verus!
