//! The backends the proxy forwards a service to.

use crate::reconcile::ServiceGroup;
use vstd::prelude::*;

verus! {

/// The port used for a replica that names no usable port.
pub const DEFAULT_UPSTREAM_PORT: u16 = 80;

/// The port the proxy listens on for a service.
pub const LISTEN_PORT: u16 = 80;

/// One backend address of a service.
#[derive(Debug, Clone, PartialEq, Eq)]
pub struct Upstream {
    pub address: String,
    pub port: u16,
    pub weight: u8,
}

/// The port a replica is reached on: its own when positive, else the default.
pub open spec fn upstream_port(port: Option<i16>) -> u16 {
    match port {
        Some(p) => if p > 0 {
            p as u16
        } else {
            DEFAULT_UPSTREAM_PORT
        },
        None => DEFAULT_UPSTREAM_PORT,
    }
}

/// One backend per replica of the group, in order, each with the given weight.
pub fn upstreams_of(group: &ServiceGroup, weight: u8) -> (r: Vec<Upstream>)
    ensures
        r@.len() == group.services@.len(),
        forall|i: int|
            0 <= i < r@.len() ==> (#[trigger] r@[i]).address@ == group.services@[i].host@
                && r@[i].port == upstream_port(group.services@[i].port) && r@[i].weight == weight,
{
    let mut out: Vec<Upstream> = Vec::new();
    let mut i: usize = 0;
    while i < group.services.len()
        invariant
            i <= group.services@.len(),
            out@.len() == i,
            forall|k: int|
                0 <= k < i ==> (#[trigger] out@[k]).address@ == group.services@[k].host@
                    && out@[k].port == upstream_port(group.services@[k].port) && out@[k].weight
                    == weight,
        decreases group.services.len() - i,
    {
        let s = &group.services[i];
        let port: u16 = match s.port {
            Some(p) => if p > 0 {
                p as u16
            } else {
                DEFAULT_UPSTREAM_PORT
            },
            None => DEFAULT_UPSTREAM_PORT,
        };
        out.push(Upstream { address: s.host.clone(), port, weight });
        i = i + 1;
    }
    out
}

} // verus!
