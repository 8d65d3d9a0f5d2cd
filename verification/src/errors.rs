//! Failure taxonomy of a lookup.
//!
//! Every stage fails fast: there is no fallback address and no retry, so a
//! single error value describes the first thing that went wrong, with enough
//! context (the adapter index looked for) to diagnose it.

use vstd::prelude::*;

verus! {

/// A marker token, line, field or adapter expected in otherwise successful
/// output was absent or unusable.
#[derive(Clone, Copy, Debug, PartialEq, Eq, Structural)]
pub enum ParseError {
    /// No line of the route output starts with `interface:`.
    NoRouteForHost,
    /// The `interface:` line has no second field to name the interface.
    NoInterfaceName,
    /// No line of the interface-configuration output starts with `inet `.
    NoIpv4Address,
    /// The `inet ` line has no second field carrying the address.
    NoAddressToken,
    /// The route output has no `src` token, or `src` is its last token.
    NoRouteInformation,
    /// No enumerated adapter carries the interface index the route chose.
    AdapterNotFound(u32),
    /// The matched adapter (by index) has no IPv4-bound address.
    NoAdapterIpv4(u32),
    /// The destination is not representable as a dotted-decimal IPv4 literal.
    InvalidIpv4,
}

/// What a whole lookup can report instead of an address.
#[derive(Clone, Copy, Debug, PartialEq, Eq, Structural)]
pub enum ResolveError {
    /// The host could not be resolved to any address.
    Resolution,
    /// A route or interface-configuration process failed to run, or its
    /// output was not text.
    Process,
    /// Expected content was missing from otherwise successful output.
    Parse(ParseError),
    /// A native routing or adapter API signalled failure.
    SystemCall,
}

} // verus!
