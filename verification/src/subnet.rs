//! The subnet of the VPC that the cluster runs in.

use vstd::prelude::*;
use vstd::arithmetic::power2::pow2;
use crate::error::GetPeersError;
use crate::ipv4::{decimal, dotted, dotted_text};

verus! {

/// An address with the length of its network prefix, such as `10.1.0.0/16`.
#[allow(inconsistent_fields)]
#[derive(Clone, Copy, PartialEq, Eq, Structural, Debug)]
pub enum Subnet {
    V4 { address: u32, prefix: u8 },
    V6 { address: u128, prefix: u8 },
}

/// The text of an IPv6 address, as the standard library displays it.
pub uninterp spec fn ipv6_text(address: u128) -> Seq<char>;

impl Subnet {
    /// The prefix is no longer than the address.
    pub open spec fn wf(self) -> bool {
        match self {
            Subnet::V4 { prefix, .. } => prefix <= 32,
            Subnet::V6 { prefix, .. } => prefix <= 128,
        }
    }

    /// Whether an IPv4 address lies in the subnet: it has the leading bits that
    /// the prefix covers. None lies in an IPv6 subnet.
    pub open spec fn covers(self, host: u32) -> bool {
        match self {
            Subnet::V4 { address, prefix } => {
                let block = pow2((32 - prefix) as nat);
                address as nat / block == host as nat / block
            },
            Subnet::V6 { .. } => false,
        }
    }

    /// The text of the subnet: the address, a slash and the length of the prefix.
    pub open spec fn text(self) -> Seq<char> {
        match self {
            Subnet::V4 { address, prefix } => dotted(address) + "/"@ + decimal(prefix as nat),
            Subnet::V6 { address, prefix } => ipv6_text(address) + "/"@ + decimal(prefix as nat),
        }
    }

    /// Whether an IPv4 address lies in the subnet.
    ///
    /// Asks `ipnet::IpNet::contains`, which holds the address against the first
    /// and the last address of the network. It is taken to be true exactly of the
    /// IPv4 addresses that share the leading bits of an IPv4 network, and false of
    /// every IPv4 address for an IPv6 network.
    #[verifier::external_body]
    pub(crate) fn contains(&self, host: u32) -> (inside: bool)
        requires
            self.wf(),
        ensures
            inside == self.covers(host),
    {
        let net = match *self {
            Subnet::V4 { address, prefix } => ipnet::IpNet::V4(
                ipnet::Ipv4Net::new_assert(address.into(), prefix),
            ),
            Subnet::V6 { address, prefix } => ipnet::IpNet::V6(
                ipnet::Ipv6Net::new_assert(address.into(), prefix),
            ),
        };
        net.contains(&ipnet::IpNet::V4(ipnet::Ipv4Net::new_assert(host.into(), 32)).addr())
    }

    /// The text of the subnet.
    ///
    /// Asks the `Display` of `ipnet::IpNet`, which writes the address, a slash and
    /// the length of the prefix in decimal. The address is taken to be in dotted
    /// decimal for IPv4, and as the standard library displays it for IPv6.
    #[verifier::external_body]
    fn to_text(&self) -> (text: String)
        requires
            self.wf(),
        ensures
            match *self {
                Subnet::V4 { address, prefix } => text@ == dotted(address) + "/"@ + decimal(
                    prefix as nat,
                ),
                Subnet::V6 { address, prefix } => text@ == ipv6_text(address) + "/"@ + decimal(
                    prefix as nat,
                ),
            },
    {
        let net = match *self {
            Subnet::V4 { address, prefix } => ipnet::IpNet::V4(
                ipnet::Ipv4Net::new_assert(address.into(), prefix),
            ),
            Subnet::V6 { address, prefix } => ipnet::IpNet::V6(
                ipnet::Ipv6Net::new_assert(address.into(), prefix),
            ),
        };
        net.to_string()
    }
}

/// What is said of a host outside the subnet.
pub open spec fn outside_text(subnet: Subnet, host: u32) -> Seq<char> {
    "Host address "@ + dotted(host) + " is not within specified VPC subnet ("@ + subnet.text()
        + "), no peers can be contacted"@
}

/// Checks that the host itself lies in the subnet.
pub fn validate_host_within_subnet(subnet: &Subnet, host_private_ipv4: u32) -> (checked: Result<
    (),
    GetPeersError,
>)
    requires
        subnet.wf(),
    ensures
        match checked {
            Ok(_) => subnet.covers(host_private_ipv4),
            Err(error) => {
                &&& !subnet.covers(host_private_ipv4)
                &&& error.0@ == outside_text(*subnet, host_private_ipv4)
            },
        },
{
    if !subnet.contains(host_private_ipv4) {
        let mut text = String::from_str("Host address ");
        text.append(dotted_text(host_private_ipv4).as_str());
        text.append(" is not within specified VPC subnet (");
        text.append(subnet.to_text().as_str());
        text.append("), no peers can be contacted");
        Err(GetPeersError(text))
    } else {
        Ok(())
    }
}

/// A host passes exactly where its address shares the leading bits of the subnet's
/// address that the prefix counts. No host passes an IPv6 subnet. What is said of any
/// other host names the host and the subnet.
pub proof fn law_validation(subnet: Subnet, host: u32, checked: Result<(), GetPeersError>)
    requires
        subnet.wf(),
        call_ensures(validate_host_within_subnet, (&subnet, host), checked),
    ensures
        match subnet {
            Subnet::V4 { address, prefix } => checked is Ok <==> address as nat / pow2(
                (32 - prefix) as nat,
            ) == host as nat / pow2((32 - prefix) as nat),
            Subnet::V6 { .. } => checked is Err,
        },
        checked matches Err(error) ==> error.0@ == "Host address "@ + dotted(host)
            + " is not within specified VPC subnet ("@ + match subnet {
            Subnet::V4 { address, prefix } => dotted(address) + "/"@ + decimal(prefix as nat),
            Subnet::V6 { address, prefix } => ipv6_text(address) + "/"@ + decimal(prefix as nat),
        } + "), no peers can be contacted"@,
{
}

} // verus!
