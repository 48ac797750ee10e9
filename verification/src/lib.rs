//! The verified core of a conformance harness for DNS resolvers and their
//! handling of NSEC3 denial of existence.
//!
//! - `network`, `host`: the subnet partition from which every sandbox
//!   network gets an address block of its own, and the allocation of a
//!   network by random choice or by scan of the networks in use.
//! - `fqdn`, `name_server`, `hierarchy`: domain names, nameservers, and
//!   the hierarchy of zones from the leaves up to the root with its
//!   signing.
//! - `canonical`, `table`, `rfc5155`, `fixture`: the canonical order of
//!   hashed owner names, the reference table of the names that exist, and
//!   the checks of the NSEC3 records of a response against it.
//! - `purge`: the removal of what the harness left behind on the host.
//! - `bytes`, `decimal`: scanning and decimal text.
//!
//! Nothing here touches the host. What runs a command or waits for one
//! hands its outcome to a function of this crate and is told what to do
//! next.

pub mod bytes;
pub mod canonical;
pub mod decimal;
pub mod fixture;
pub mod fqdn;
pub mod hierarchy;
pub mod host;
pub mod name_server;
pub mod network;
pub mod purge;
pub mod rfc5155;
pub mod table;
