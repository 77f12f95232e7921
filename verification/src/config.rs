//! Desired state: the configuration document and its tenant records.

use vstd::prelude::*;

verus! {

/// An IP address of either family, held as its big-endian integer value.
#[derive(Clone, Copy, Debug, PartialEq, Eq, Structural)]
pub enum IpAddress {
    V4(u32),
    V6(u128),
}

/// The public IPv4 addresses of a tenant: a single address or a list.
#[derive(Debug)]
pub enum V4Ip {
    One(u32),
    Many(Vec<u32>),
}

/// One tenant as the configuration describes it.
#[derive(Debug)]
pub struct VPS {
    pub vlan: u16,
    pub v4_addr: u32,
    pub v4_public: Option<V4Ip>,
    pub v6_prefix: u128,
}

/// The whole configuration document.
#[derive(Debug)]
pub struct Config {
    pub rt_proto: u8,
    pub interface: String,
    pub vps: Vec<VPS>,
}

/// Mathematical value of a tenant record: the public addresses are the
/// normalised list, empty where none is configured.
pub struct VpsView {
    pub vlan: u16,
    pub v4_addr: u32,
    pub v4_public: Seq<u32>,
    pub v6_prefix: u128,
}

/// `core::slice::from_ref`: a shared reference seen as a slice holding
/// exactly the referenced value.
pub assume_specification<T>[ core::slice::from_ref::<T> ](s: &T) -> (r: &[T])
    ensures
        r@ == seq![*s],
;

impl V4Ip {
    /// The addresses in configuration order, whichever form they were
    /// written in.
    pub open spec fn addresses(&self) -> Seq<u32> {
        match self {
            V4Ip::One(ip) => seq![*ip],
            V4Ip::Many(ips) => ips@,
        }
    }

    /// The addresses as a slice, whichever form they were written in.
    pub fn as_many(&self) -> (r: &[u32])
        ensures
            r@ == self.addresses(),
    {
        match self {
            V4Ip::One(ip) => core::slice::from_ref(ip),
            V4Ip::Many(ips) => ips.as_slice(),
        }
    }
}

impl View for VPS {
    type V = VpsView;

    open spec fn view(&self) -> VpsView {
        VpsView {
            vlan: self.vlan,
            v4_addr: self.v4_addr,
            v4_public: match self.v4_public {
                Some(p) => p.addresses(),
                None => Seq::empty(),
            },
            v6_prefix: self.v6_prefix,
        }
    }
}

impl VPS {
    /// The public addresses of this tenant, empty where none is configured.
    pub fn public_addresses(&self) -> (r: &[u32])
        ensures
            r@ == self@.v4_public,
    {
        match &self.v4_public {
            Some(p) => p.as_many(),
            None => &[],
        }
    }
}

/// Whether no two tenants share a VLAN.
pub open spec fn tenants_are_distinct(specs: Seq<VpsView>) -> bool {
    forall|t: int, u: int|
        0 <= t < u < specs.len() ==> (#[trigger] specs[t]).vlan != (#[trigger] specs[u]).vlan
}

} // verus!
