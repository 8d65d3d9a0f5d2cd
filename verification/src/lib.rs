//! Resolve the local IPv4 address a machine would use to reach a remote host.
//!
//! The operating-system specific work (name resolution, route-query
//! processes, adapter enumeration) happens outside this crate; everything
//! here is the logic that interprets what the system reports: parsing the
//! text output of route and interface-configuration tools, selecting the
//! right adapter from an enumerated list, and converting IPv4 addresses
//! between their octet, integer and dotted-decimal forms.

pub mod adapters;
pub mod errors;
pub mod ipv4;
pub mod route;
pub mod text;

use vstd::prelude::*;

verus! {

/// Picks the first address a resolver returned, as the lookup uses only one.
/// An empty answer is a resolution failure, never a default address.
pub fn first_resolved(addresses: &Vec<Vec<u8>>) -> (r: Result<Vec<u8>, errors::ResolveError>)
    ensures
        match r {
            Ok(v) => addresses@.len() > 0 && v@ == addresses.deep_view()[0],
            Err(e) => addresses@.len() == 0 && e == errors::ResolveError::Resolution,
        },
{
    if addresses.len() == 0 {
        Err(errors::ResolveError::Resolution)
    } else {
        let first = vstd::slice::slice_to_vec(addresses[0].as_slice());
        Ok(first)
    }
}

} // verus!
