//! Selecting the local address from an enumerated adapter list.
//!
//! The platform that exposes no stable text output reports its routing
//! choice as an interface index; a separate enumeration call yields every
//! adapter with its index and its bound addresses. The outside code
//! deserializes that native list into plain records up front, and the
//! selection here is ordinary sequence work: find the first adapter whose
//! index the route chose, then its first IPv4-bound address, filtering the
//! IPv6 entries out. No match is a hard failure naming the index looked
//! for, never a guessed address.

use vstd::prelude::*;

use crate::errors::{ParseError, ResolveError};
use crate::ipv4::{dotted_decimal, ipv4_to_bytes, is_dotted_decimal, Ipv4};

verus! {

/// One address bound to an adapter: a concrete IPv4 address, or an
/// IPv6-bound entry the selection must skip.
#[derive(Clone, Copy, Debug, PartialEq, Eq, Structural)]
pub enum AdapterAddress {
    V4(Ipv4),
    V6,
}

/// One enumerated adapter: its OS-assigned interface index and its bound
/// addresses in enumeration order.
#[derive(Debug)]
pub struct AdapterRecord {
    pub index: u32,
    pub addresses: Vec<AdapterAddress>,
}

/// The first IPv4-bound address of a list, skipping IPv6 entries.
pub open spec fn spec_first_v4(addrs: Seq<AdapterAddress>) -> Option<Ipv4>
    decreases addrs.len(),
{
    if addrs.len() == 0 {
        None
    } else {
        match addrs[0] {
            AdapterAddress::V4(ip) => Some(ip),
            AdapterAddress::V6 => spec_first_v4(addrs.subrange(1, addrs.len() as int)),
        }
    }
}

proof fn lemma_first_v4_skip(addrs: Seq<AdapterAddress>, i: int)
    requires
        0 <= i <= addrs.len(),
        forall|j: int| 0 <= j < i ==> addrs[j] is V6,
    ensures
        spec_first_v4(addrs) == spec_first_v4(addrs.subrange(i, addrs.len() as int)),
    decreases i,
{
    if i == 0 {
        assert(addrs.subrange(0, addrs.len() as int) =~= addrs);
    } else {
        lemma_first_v4_skip(addrs, i - 1);
        let s1 = addrs.subrange(i - 1, addrs.len() as int);
        assert(s1[0] == addrs[i - 1]);
        assert(s1.subrange(1, s1.len() as int) =~= addrs.subrange(i, addrs.len() as int));
    }
}

fn first_v4(addrs: &Vec<AdapterAddress>) -> (r: Option<Ipv4>)
    ensures
        r == spec_first_v4(addrs@),
{
    let mut i: usize = 0;
    while i < addrs.len()
        invariant
            i <= addrs@.len(),
            forall|j: int| 0 <= j < i ==> addrs@[j] is V6,
        decreases addrs@.len() - i,
    {
        match addrs[i] {
            AdapterAddress::V4(ip) => {
                proof {
                    lemma_first_v4_skip(addrs@, i as int);
                    let s1 = addrs@.subrange(i as int, addrs@.len() as int);
                    assert(s1[0] == addrs@[i as int]);
                }
                return Some(ip);
            },
            AdapterAddress::V6 => {},
        }
        i += 1;
    }
    proof {
        lemma_first_v4_skip(addrs@, i as int);
        assert(addrs@.subrange(i as int, addrs@.len() as int).len() == 0);
    }
    None
}

/// What the adapter list yields for the interface index the route chose:
/// the first IPv4-bound address of the first adapter carrying that index,
/// or the failure naming the index when no adapter or no IPv4 entry
/// matches.
pub open spec fn spec_adapter_ipv4(adapters: Seq<AdapterRecord>, index: u32) -> Result<
    Ipv4,
    ResolveError,
>
    decreases adapters.len(),
{
    if adapters.len() == 0 {
        Err(ResolveError::Parse(ParseError::AdapterNotFound(index)))
    } else if adapters[0].index == index {
        match spec_first_v4(adapters[0].addresses@) {
            Some(ip) => Ok(ip),
            None => Err(ResolveError::Parse(ParseError::NoAdapterIpv4(index))),
        }
    } else {
        spec_adapter_ipv4(adapters.subrange(1, adapters.len() as int), index)
    }
}

proof fn lemma_adapter_skip(adapters: Seq<AdapterRecord>, index: u32, i: int)
    requires
        0 <= i <= adapters.len(),
        forall|j: int| 0 <= j < i ==> (#[trigger] adapters[j]).index != index,
    ensures
        spec_adapter_ipv4(adapters, index) == spec_adapter_ipv4(
            adapters.subrange(i, adapters.len() as int),
            index,
        ),
    decreases i,
{
    if i == 0 {
        assert(adapters.subrange(0, adapters.len() as int) =~= adapters);
    } else {
        lemma_adapter_skip(adapters, index, i - 1);
        let s1 = adapters.subrange(i - 1, adapters.len() as int);
        assert(s1[0] == adapters[i - 1]);
        assert(s1.subrange(1, s1.len() as int) =~= adapters.subrange(i, adapters.len() as int));
    }
}

/// Finds the first adapter whose interface index matches and takes its
/// first IPv4-bound address, exactly as `spec_adapter_ipv4` describes.
pub fn ipv4_for_adapter(adapters: &Vec<AdapterRecord>, index: u32) -> (r: Result<
    Ipv4,
    ResolveError,
>)
    ensures
        r == spec_adapter_ipv4(adapters@, index),
{
    let mut i: usize = 0;
    while i < adapters.len()
        invariant
            i <= adapters@.len(),
            forall|j: int| 0 <= j < i ==> (#[trigger] adapters@[j]).index != index,
        decreases adapters@.len() - i,
    {
        if adapters[i].index == index {
            proof {
                lemma_adapter_skip(adapters@, index, i as int);
                let s1 = adapters@.subrange(i as int, adapters@.len() as int);
                assert(s1[0] == adapters@[i as int]);
            }
            let found = first_v4(&adapters[i].addresses);
            match found {
                Some(ip) => {
                    return Ok(ip);
                },
                None => {
                    return Err(ResolveError::Parse(ParseError::NoAdapterIpv4(index)));
                },
            }
        }
        i += 1;
    }
    proof {
        lemma_adapter_skip(adapters@, index, i as int);
        assert(adapters@.subrange(i as int, adapters@.len() as int).len() == 0);
    }
    Err(ResolveError::Parse(ParseError::AdapterNotFound(index)))
}

/// Selects the adapter's address and formats it as dotted-decimal text:
/// the whole selection stage of the native-API strategy.
pub fn local_ip_for_adapter(adapters: &Vec<AdapterRecord>, index: u32) -> (r: Result<
    Vec<u8>,
    ResolveError,
>)
    ensures
        match r {
            Ok(v) => spec_adapter_ipv4(adapters@, index) matches Ok(ip) && v@ == dotted_decimal(
                ip,
            ) && is_dotted_decimal(v@),
            Err(e) => spec_adapter_ipv4(adapters@, index) == Err::<Ipv4, ResolveError>(e),
        },
{
    match ipv4_for_adapter(adapters, index) {
        Ok(ip) => Ok(ipv4_to_bytes(&ip)),
        Err(e) => Err(e),
    }
}

/// For a fixed adapter list and interface index the selection has exactly
/// one answer: repeated lookups under an unchanged adapter state agree.
pub proof fn lemma_adapter_selection_deterministic(
    adapters: Seq<AdapterRecord>,
    index: u32,
    r1: Result<Ipv4, ResolveError>,
    r2: Result<Ipv4, ResolveError>,
)
    requires
        r1 == spec_adapter_ipv4(adapters, index),
        r2 == spec_adapter_ipv4(adapters, index),
    ensures
        r1 == r2,
{
}

/// Every address the selection stage can return is syntactically valid
/// dotted-decimal text: four octets, each 0 to 255, joined by dots.
pub proof fn lemma_selected_address_valid(adapters: Seq<AdapterRecord>, index: u32)
    requires
        spec_adapter_ipv4(adapters, index) is Ok,
    ensures
        is_dotted_decimal(dotted_decimal(spec_adapter_ipv4(adapters, index)->Ok_0)),
{
}

} // verus!
