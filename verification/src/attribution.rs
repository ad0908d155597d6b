//! Pod-level attribution: map a flow to the local pod IP by testing its endpoints against
//! the node's pod CIDR(s). Keeps pod resolution in the agent while the OTel Collector's
//! `k8sattributes` processor turns `k8s.pod.ip` into pod/namespace/workload metadata.

use vstd::prelude::*;

use crate::address;
use crate::address::IpAddr;
use crate::text;
use crate::types::FlowKey;

verus! {

/// The longest prefix of an address.
pub open spec fn most_bits(ip: IpAddr) -> nat {
    match ip {
        IpAddr::V4(_) => 32,
        IpAddr::V6(_) => 128,
    }
}

/// The network that an entry of a CIDR list writes: an address, and a prefix no longer
/// than it.
pub open spec fn cidr_value(entry: Seq<char>) -> Option<(IpAddr, u32)> {
    match text::cut_first(text::trimmed(entry), '/') {
        Some((net, prefix)) => match (
            address::ip_value(text::trimmed(net)),
            text::unsigned_value(text::trimmed(prefix), u32::MAX as nat),
        ) {
            (Some(ip), Some(n)) => if n <= most_bits(ip) {
                Some((ip, n as u32))
            } else {
                None
            },
            _ => None,
        },
        None => None,
    }
}

/// The networks that the first `n` entries write, in order; invalid entries are skipped.
pub open spec fn cidr_values(entries: Seq<Seq<char>>, n: nat) -> Seq<(IpAddr, u32)>
    decreases n,
{
    if n == 0 {
        Seq::empty()
    } else {
        let before = cidr_values(entries, (n - 1) as nat);
        match cidr_value(entries[n - 1]) {
            Some(c) => before.push(c),
            None => before,
        }
    }
}

/// The networks of a comma-separated list.
pub open spec fn cidr_list(spec_text: Seq<char>) -> Seq<(IpAddr, u32)> {
    let entries = text::split_on(spec_text, ',');
    cidr_values(entries, entries.len())
}

/// The address lies in one of the networks.
pub open spec fn covered(cidrs: Seq<(IpAddr, u32)>, ip: IpAddr) -> bool {
    exists|i: int|
        0 <= i < cidrs.len() && address::in_network(
            (#[trigger] cidrs[i]).0,
            cidrs[i].1,
            ip,
        )
}

/// The endpoint address of a flow that lies in one of the networks, the low one first.
pub open spec fn pod_address(cidrs: Seq<(IpAddr, u32)>, key: FlowKey) -> Option<IpAddr> {
    if covered(cidrs, key.low.ip) {
        Some(key.low.ip)
    } else if covered(cidrs, key.high.ip) {
        Some(key.high.ip)
    } else {
        None
    }
}

/// The text of a flow's pod address.
pub open spec fn pod_text(cidrs: Seq<(IpAddr, u32)>, key: FlowKey) -> Option<Seq<char>> {
    match pod_address(cidrs, key) {
        Some(ip) => Some(ip.text()),
        None => None,
    }
}

/// Both directions of a conversation are attributed to the same pod.
pub proof fn law_attribution_is_direction_independent(
    cidrs: Seq<(IpAddr, u32)>,
    a: crate::types::Endpoint,
    b: crate::types::Endpoint,
    proto: crate::types::Protocol,
)
    ensures
        pod_address(cidrs, FlowKey::canonical_of(a, b, proto).0) == pod_address(
            cidrs,
            FlowKey::canonical_of(b, a, proto).0,
        ),
{
}

/// Without networks no flow is attributed.
pub proof fn law_no_cidrs_no_attribution(key: FlowKey)
    ensures
        pod_address(Seq::empty(), key) is None,
{
}

/// CIDR set for classifying "is this a local pod IP?".
pub struct PodMatcher {
    pub cidrs: Vec<(IpAddr, u32)>,
}

impl PodMatcher {
    /// Parse a comma-separated CIDR list, e.g. "10.244.0.0/16, fd00::/48". Invalid entries
    /// are skipped.
    pub fn new(spec_text: &str) -> (m: PodMatcher)
        ensures
            m.cidrs@ == cidr_list(spec_text@),
    {
        let chars = text::chars_of(spec_text);
        let entries = text::split(chars.as_slice(), ',');
        let ghost all = text::split_on(spec_text@, ',');
        let mut cidrs: Vec<(IpAddr, u32)> = Vec::new();
        let mut i: usize = 0;
        while i < entries.len()
            invariant
                i <= entries@.len(),
                text::texts(entries@) == all,
                cidrs@ == cidr_values(all, i as nat),
            decreases entries@.len() - i,
        {
            assert(text::texts(entries@)[i as int] == entries@[i as int]@);
            if let Some(c) = parse_cidr(entries[i]) {
                cidrs.push(c);
            }
            i = i + 1;
        }
        PodMatcher { cidrs }
    }

    pub fn is_empty(&self) -> (r: bool)
        ensures
            r == (self.cidrs@.len() == 0),
    {
        self.cidrs.len() == 0
    }

    /// Return the flow endpoint IP that lies within a pod CIDR, as a string.
    pub fn local_pod_ip(&self, key: &FlowKey) -> (r: Option<String>)
        ensures
            match r {
                Some(s) => pod_text(self.cidrs@, *key) == Some(s@),
                None => pod_text(self.cidrs@, *key) is None,
            },
    {
        if self.contains(key.low.ip) {
            Some(key.low.ip.to_text())
        } else if self.contains(key.high.ip) {
            Some(key.high.ip.to_text())
        } else {
            None
        }
    }

    fn contains(&self, ip: IpAddr) -> (r: bool)
        ensures
            r == covered(self.cidrs@, ip),
    {
        let mut i: usize = 0;
        while i < self.cidrs.len()
            invariant
                i <= self.cidrs@.len(),
                forall|j: int|
                    0 <= j < i ==> !address::in_network(
                        (#[trigger] self.cidrs@[j]).0,
                        self.cidrs@[j].1,
                        ip,
                    ),
            decreases self.cidrs@.len() - i,
        {
            let (net, prefix) = self.cidrs[i];
            if address::cidr_contains(net, prefix, ip) {
                assert(address::in_network(self.cidrs@[i as int].0, self.cidrs@[i as int].1, ip));
                return true;
            }
            i = i + 1;
        }
        false
    }
}

fn parse_cidr(entry: &[char]) -> (r: Option<(IpAddr, u32)>)
    ensures
        r == cidr_value(entry@),
{
    match text::split_once(text::trim(entry), '/') {
        Some((net, prefix)) => match (
            IpAddr::parse(text::trim(net)),
            text::parse_unsigned(text::trim(prefix), u32::MAX as u64),
        ) {
            (Some(ip), Some(n)) => {
                let most: u64 = match ip {
                    IpAddr::V4(_) => 32,
                    IpAddr::V6(_) => 128,
                };
                if n <= most {
                    Some((ip, n as u32))
                } else {
                    None
                }
            },
            _ => None,
        },
        None => None,
    }
}

} // verus!
