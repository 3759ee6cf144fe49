//! Picking the address to scan among those a host name resolves to.
use vstd::prelude::*;

use crate::address::Ipv4Address;

verus! {

/// An address that a host name resolved to. Only IPv4 addresses are scanned,
/// so an IPv6 one carries nothing.
#[derive(Clone, Copy, Debug, PartialEq, Eq, Structural)]
pub enum IpAddress {
    V4(Ipv4Address),
    V6,
}

/// The first IPv4 address of `addresses`, if any.
pub open spec fn spec_first_ipv4(addresses: Seq<IpAddress>) -> Option<Ipv4Address>
    decreases addresses.len(),
{
    if addresses.len() == 0 {
        None
    } else {
        match addresses[0] {
            IpAddress::V4(ip) => Some(ip),
            IpAddress::V6 => spec_first_ipv4(addresses.drop_first()),
        }
    }
}

/// The address picked is the first IPv4 one: when the address at `k` is
/// IPv4 and all before it are IPv6, it is the one picked; when none is
/// IPv4, none is picked.
pub proof fn lemma_first_ipv4_is_first(addresses: Seq<IpAddress>)
    ensures
        (forall|k: int| 0 <= k < addresses.len() ==> #[trigger] addresses[k] == IpAddress::V6)
            ==> spec_first_ipv4(addresses) is None,
        forall|k: int|
            0 <= k < addresses.len() && #[trigger] addresses[k] is V4 && (forall|j: int|
                0 <= j < k ==> addresses[j] == IpAddress::V6) ==> spec_first_ipv4(addresses) == Some(
                addresses[k]->0,
            ),
    decreases addresses.len(),
{
    if addresses.len() > 0 {
        let rest = addresses.drop_first();
        lemma_first_ipv4_is_first(rest);
        if addresses[0] == IpAddress::V6 {
            assert forall|k: int| 0 <= k < rest.len() && (forall|i: int|
                0 <= i < addresses.len() ==> #[trigger] addresses[i] == IpAddress::V6) implies #[trigger] rest[k]
                == IpAddress::V6 by {
                assert(rest[k] == addresses[k + 1]);
            }
            assert forall|k: int|
                0 <= k < addresses.len() && #[trigger] addresses[k] is V4 && (forall|j: int|
                    0 <= j < k ==> addresses[j] == IpAddress::V6) implies spec_first_ipv4(addresses)
                == Some(addresses[k]->0) by {
                assert(k > 0);
                assert(rest[k - 1] == addresses[k]);
                assert forall|j: int| 0 <= j < k - 1 implies rest[j] == IpAddress::V6 by {
                    assert(rest[j] == addresses[j + 1]);
                }
            }
        } else {
            assert forall|k: int|
                0 <= k < addresses.len() && #[trigger] addresses[k] is V4 && (forall|j: int|
                    0 <= j < k ==> addresses[j] == IpAddress::V6) implies spec_first_ipv4(addresses)
                == Some(addresses[k]->0) by {
                if k > 0 {
                    assert(addresses[0] == IpAddress::V6);
                }
            }
        }
    }
}

/// The first IPv4 address among those the host name resolved to, in the
/// order the resolver gave them; `None` when there is none.
pub fn first_ipv4(addresses: &Vec<IpAddress>) -> (ip: Option<Ipv4Address>)
    ensures
        ip == spec_first_ipv4(addresses@),
{
    let n = addresses.len();
    let mut i: usize = 0;
    proof {
        assert(addresses@.skip(0) == addresses@);
    }
    while i < n
        invariant
            n == addresses@.len(),
            i <= n,
            spec_first_ipv4(addresses@) == spec_first_ipv4(addresses@.skip(i as int)),
        decreases n - i,
    {
        proof {
            assert(addresses@.skip(i as int)[0] == addresses@[i as int]);
            assert(addresses@.skip(i as int).drop_first() == addresses@.skip(i + 1));
        }
        if let IpAddress::V4(ip) = addresses[i] {
            return Some(ip);
        }
        i += 1;
    }
    None
}

} // verus!
