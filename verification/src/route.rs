//! Parsers for the text that route and interface-configuration tools print.
//!
//! One platform family reports routes in two stages: a route query whose
//! output names the outbound interface on a line starting with
//! `interface:`, then an interface-configuration query whose output carries
//! the bound address on a line starting with `inet ` (the trailing space
//! keeps `inet6` lines out). The other family reports the chosen source
//! address directly, as the token following `src` in the route output.
//! Every parser fails hard when the expected marker is absent: no default
//! or zero address is ever produced.

use vstd::prelude::*;

use crate::errors::{ParseError, ResolveError};
use crate::text::{
    is_prefix, split_at_sep, starts_with, split_bytes, tokenize, tokens_of, trim_bytes,
    trim_spec, bytes_eq,
};

verus! {

/// The view of a parse result: what the caller's bytes say.
pub open spec fn result_view(r: Result<Vec<u8>, ResolveError>) -> Result<Seq<u8>, ResolveError> {
    match r {
        Ok(v) => Ok(v@),
        Err(e) => Err(e),
    }
}

/// The bytes of the line marker `interface:`.
pub open spec fn interface_prefix() -> Seq<u8> {
    seq![105u8, 110u8, 116u8, 101u8, 114u8, 102u8, 97u8, 99u8, 101u8, 58u8]
}

fn interface_prefix_bytes() -> (r: Vec<u8>)
    ensures
        r@ == interface_prefix(),
{
    let mut v: Vec<u8> = Vec::new();
    v.push(105);
    v.push(110);
    v.push(116);
    v.push(101);
    v.push(114);
    v.push(102);
    v.push(97);
    v.push(99);
    v.push(101);
    v.push(58);
    proof {
        assert(v@ =~= interface_prefix());
    }
    v
}

/// The bytes of the line marker `inet ` whose trailing space keeps
/// `inet6` lines from matching.
pub open spec fn inet_prefix() -> Seq<u8> {
    seq![105u8, 110u8, 101u8, 116u8, 32u8]
}

fn inet_prefix_bytes() -> (r: Vec<u8>)
    ensures
        r@ == inet_prefix(),
{
    let mut v: Vec<u8> = Vec::new();
    v.push(105);
    v.push(110);
    v.push(101);
    v.push(116);
    v.push(32);
    proof {
        assert(v@ =~= inet_prefix());
    }
    v
}

/// The bytes of the route attribute marker `src`.
pub open spec fn src_marker() -> Seq<u8> {
    seq![115u8, 114u8, 99u8]
}

fn src_marker_bytes() -> (r: Vec<u8>)
    ensures
        r@ == src_marker(),
{
    let mut v: Vec<u8> = Vec::new();
    v.push(115);
    v.push(114);
    v.push(99);
    proof {
        assert(v@ =~= src_marker());
    }
    v
}

/// The first line whose trimmed content starts with `p`, already trimmed;
/// `None` when no line matches.
pub open spec fn first_line_with_prefix(lines: Seq<Seq<u8>>, p: Seq<u8>) -> Option<Seq<u8>>
    decreases lines.len(),
{
    if lines.len() == 0 {
        None
    } else if is_prefix(p, trim_spec(lines[0])) {
        Some(trim_spec(lines[0]))
    } else {
        first_line_with_prefix(lines.subrange(1, lines.len() as int), p)
    }
}

proof fn lemma_first_line_skip(lines: Seq<Seq<u8>>, p: Seq<u8>, i: int)
    requires
        0 <= i <= lines.len(),
        forall|j: int| 0 <= j < i ==> !is_prefix(p, trim_spec(lines[j])),
    ensures
        first_line_with_prefix(lines, p) == first_line_with_prefix(
            lines.subrange(i, lines.len() as int),
            p,
        ),
    decreases i,
{
    if i == 0 {
        assert(lines.subrange(0, lines.len() as int) =~~= lines);
    } else {
        lemma_first_line_skip(lines, p, i - 1);
        let s1 = lines.subrange(i - 1, lines.len() as int);
        assert(s1[0] == lines[i - 1]);
        assert(s1.subrange(1, s1.len() as int) =~~= lines.subrange(i, lines.len() as int));
    }
}

fn find_line_with_prefix(lines: &Vec<Vec<u8>>, p: &[u8]) -> (r: Option<Vec<u8>>)
    ensures
        match r {
            Some(v) => first_line_with_prefix(lines.deep_view(), p@) == Some(v@),
            None => first_line_with_prefix(lines.deep_view(), p@) is None,
        },
{
    let ghost lsv = lines.deep_view();
    let mut i: usize = 0;
    while i < lines.len()
        invariant
            i <= lines@.len(),
            lsv == lines.deep_view(),
            lsv.len() == lines@.len(),
            forall|j: int| 0 <= j < i ==> !is_prefix(p@, trim_spec(lsv[j])),
        decreases lines@.len() - i,
    {
        proof {
            assert(lsv[i as int] =~= lines@[i as int]@);
        }
        let trimmed = trim_bytes(lines[i].as_slice());
        if starts_with(trimmed.as_slice(), p) {
            proof {
                lemma_first_line_skip(lsv, p@, i as int);
                let s1 = lsv.subrange(i as int, lsv.len() as int);
                assert(s1[0] == lsv[i as int]);
            }
            return Some(trimmed);
        }
        i += 1;
    }
    proof {
        lemma_first_line_skip(lsv, p@, i as int);
        assert(lsv.subrange(i as int, lsv.len() as int).len() == 0);
    }
    None
}

fn second_token(line: &[u8]) -> (r: Option<Vec<u8>>)
    ensures
        match r {
            Some(v) => tokens_of(line@).len() >= 2 && v@ == tokens_of(line@)[1],
            None => tokens_of(line@).len() < 2,
        },
{
    let toks = tokenize(line);
    proof {
        assert(toks.deep_view().len() == toks@.len());
    }
    if toks.len() >= 2 {
        let t = vstd::slice::slice_to_vec(toks[1].as_slice());
        proof {
            assert(toks.deep_view()[1] =~= toks@[1]@);
        }
        Some(t)
    } else {
        None
    }
}

/// What the route-query output of the two-stage strategy names as the
/// outbound interface: the second whitespace-delimited field of the first
/// line whose trimmed content starts with `interface:`.
pub open spec fn spec_interface_name(out: Seq<u8>) -> Result<Seq<u8>, ResolveError> {
    match first_line_with_prefix(split_at_sep(out, 10), interface_prefix()) {
        None => Err(ResolveError::Parse(ParseError::NoRouteForHost)),
        Some(line) => if tokens_of(line).len() >= 2 {
            Ok(tokens_of(line)[1])
        } else {
            Err(ResolveError::Parse(ParseError::NoInterfaceName))
        },
    }
}

/// Extracts the outbound interface name from route-query output, exactly as
/// `spec_interface_name` describes, failing rather than guessing.
pub fn interface_from_route_output(out: &[u8]) -> (r: Result<Vec<u8>, ResolveError>)
    ensures
        result_view(r) == spec_interface_name(out@),
{
    let lines = split_bytes(out, 10);
    let prefix = interface_prefix_bytes();
    match find_line_with_prefix(&lines, prefix.as_slice()) {
        None => Err(ResolveError::Parse(ParseError::NoRouteForHost)),
        Some(line) => match second_token(line.as_slice()) {
            Some(tok) => Ok(tok),
            None => Err(ResolveError::Parse(ParseError::NoInterfaceName)),
        },
    }
}

/// What the interface-configuration output carries as the bound IPv4
/// address: the second whitespace-delimited field of the first line whose
/// trimmed content starts with `inet ` (never an `inet6` line).
pub open spec fn spec_inet_address(out: Seq<u8>) -> Result<Seq<u8>, ResolveError> {
    match first_line_with_prefix(split_at_sep(out, 10), inet_prefix()) {
        None => Err(ResolveError::Parse(ParseError::NoIpv4Address)),
        Some(line) => if tokens_of(line).len() >= 2 {
            Ok(tokens_of(line)[1])
        } else {
            Err(ResolveError::Parse(ParseError::NoAddressToken))
        },
    }
}

/// Extracts the bound IPv4 address from interface-configuration output,
/// exactly as `spec_inet_address` describes.
pub fn address_from_ifconfig_output(out: &[u8]) -> (r: Result<Vec<u8>, ResolveError>)
    ensures
        result_view(r) == spec_inet_address(out@),
{
    let lines = split_bytes(out, 10);
    let prefix = inet_prefix_bytes();
    match find_line_with_prefix(&lines, prefix.as_slice()) {
        None => Err(ResolveError::Parse(ParseError::NoIpv4Address)),
        Some(line) => match second_token(line.as_slice()) {
            Some(tok) => Ok(tok),
            None => Err(ResolveError::Parse(ParseError::NoAddressToken)),
        },
    }
}

/// The token immediately following the first `src` token, or `None` when
/// `src` is absent or is the last token.
pub open spec fn token_after_src(toks: Seq<Seq<u8>>) -> Option<Seq<u8>>
    decreases toks.len(),
{
    if toks.len() == 0 {
        None
    } else if toks[0] == src_marker() {
        if toks.len() >= 2 {
            Some(toks[1])
        } else {
            None
        }
    } else {
        token_after_src(toks.subrange(1, toks.len() as int))
    }
}

proof fn lemma_token_after_src_skip(toks: Seq<Seq<u8>>, i: int)
    requires
        0 <= i <= toks.len(),
        forall|j: int| 0 <= j < i ==> toks[j] != src_marker(),
    ensures
        token_after_src(toks) == token_after_src(toks.subrange(i, toks.len() as int)),
    decreases i,
{
    if i == 0 {
        assert(toks.subrange(0, toks.len() as int) =~~= toks);
    } else {
        lemma_token_after_src_skip(toks, i - 1);
        let s1 = toks.subrange(i - 1, toks.len() as int);
        assert(s1[0] == toks[i - 1]);
        assert(s1.subrange(1, s1.len() as int) =~~= toks.subrange(i, toks.len() as int));
    }
}

/// What the single-command strategy's route output reports as the source
/// address: the token immediately after `src`, over the whole output
/// tokenized by whitespace with newlines insignificant.
pub open spec fn spec_source_address(out: Seq<u8>) -> Result<Seq<u8>, ResolveError> {
    match token_after_src(tokens_of(out)) {
        Some(t) => Ok(t),
        None => Err(ResolveError::Parse(ParseError::NoRouteInformation)),
    }
}

/// Extracts the source address from route output, exactly as
/// `spec_source_address` describes.
pub fn source_from_route_output(out: &[u8]) -> (r: Result<Vec<u8>, ResolveError>)
    ensures
        result_view(r) == spec_source_address(out@),
{
    let toks = tokenize(out);
    let ghost tsv = toks.deep_view();
    let marker = src_marker_bytes();
    let mut i: usize = 0;
    while i < toks.len()
        invariant
            i <= toks@.len(),
            tsv == toks.deep_view(),
            tsv.len() == toks@.len(),
            tsv == tokens_of(out@),
            marker@ == src_marker(),
            forall|j: int| 0 <= j < i ==> tsv[j] != src_marker(),
        decreases toks@.len() - i,
    {
        proof {
            assert(tsv[i as int] =~= toks@[i as int]@);
        }
        if bytes_eq(toks[i].as_slice(), marker.as_slice()) {
            proof {
                lemma_token_after_src_skip(tsv, i as int);
                let s1 = tsv.subrange(i as int, tsv.len() as int);
                assert(s1[0] == tsv[i as int]);
            }
            if i + 1 < toks.len() {
                proof {
                    let s1 = tsv.subrange(i as int, tsv.len() as int);
                    assert(s1[1] == tsv[i + 1]);
                    assert(tsv[i + 1] =~= toks@[i + 1]@);
                }
                let t = vstd::slice::slice_to_vec(toks[i + 1].as_slice());
                return Ok(t);
            } else {
                return Err(ResolveError::Parse(ParseError::NoRouteInformation));
            }
        }
        i += 1;
    }
    proof {
        lemma_token_after_src_skip(tsv, i as int);
        assert(tsv.subrange(i as int, tsv.len() as int).len() == 0);
    }
    Err(ResolveError::Parse(ParseError::NoRouteInformation))
}

/// The whole two-stage strategy over the texts its two processes printed:
/// the interface lookup must succeed before the address lookup is read.
pub open spec fn spec_two_stage_address(
    route_out: Seq<u8>,
    ifconfig_out: Seq<u8>,
) -> Result<Seq<u8>, ResolveError> {
    match spec_interface_name(route_out) {
        Err(e) => Err(e),
        Ok(_) => spec_inet_address(ifconfig_out),
    }
}

proof fn lemma_token_after_src_is_element(toks: Seq<Seq<u8>>)
    ensures
        token_after_src(toks) matches Some(t) ==> exists|i: int|
            0 <= i < toks.len() && toks[i] == t,
    decreases toks.len(),
{
    if toks.len() == 0 {
    } else if toks[0] == src_marker() {
        if toks.len() >= 2 {
            assert(toks[1] == token_after_src(toks)->Some_0);
        }
    } else {
        let rest = toks.subrange(1, toks.len() as int);
        lemma_token_after_src_is_element(rest);
        if token_after_src(toks) is Some {
            let t = token_after_src(toks)->Some_0;
            let i = choose|i: int| 0 <= i < rest.len() && rest[i] == t;
            assert(toks[i + 1] == t);
        }
    }
}

/// A successful parse never yields an empty address or interface name:
/// every extracted field is a whitespace-delimited token, and tokens are
/// maximal non-empty runs. A missing field is always a hard failure, never
/// an empty result.
pub proof fn lemma_parsed_fields_nonempty(out: Seq<u8>)
    ensures
        spec_interface_name(out) matches Ok(name) ==> name.len() > 0,
        spec_inet_address(out) matches Ok(addr) ==> addr.len() > 0,
        spec_source_address(out) matches Ok(src) ==> src.len() > 0,
{
    if spec_interface_name(out) is Ok {
        let line = first_line_with_prefix(split_at_sep(out, 10), interface_prefix())->Some_0;
        crate::text::lemma_tokens_are_nonempty(line);
    }
    if spec_inet_address(out) is Ok {
        let line = first_line_with_prefix(split_at_sep(out, 10), inet_prefix())->Some_0;
        crate::text::lemma_tokens_are_nonempty(line);
    }
    if spec_source_address(out) is Ok {
        lemma_token_after_src_is_element(tokens_of(out));
        crate::text::lemma_tokens_are_nonempty(out);
    }
}

/// For a fixed pair of tool outputs the two-stage strategy has exactly one
/// answer: two results that both satisfy the parsers' contracts are equal,
/// so repeated lookups under an unchanged routing state agree.
pub proof fn lemma_two_stage_deterministic(
    route_out: Seq<u8>,
    ifconfig_out: Seq<u8>,
    r1: Result<Seq<u8>, ResolveError>,
    r2: Result<Seq<u8>, ResolveError>,
)
    requires
        r1 == spec_two_stage_address(route_out, ifconfig_out),
        r2 == spec_two_stage_address(route_out, ifconfig_out),
    ensures
        r1 == r2,
{
}

/// For a fixed route output the single-command strategy has exactly one
/// answer: repeated lookups under an unchanged routing state agree.
pub proof fn lemma_source_address_deterministic(
    out: Seq<u8>,
    r1: Result<Seq<u8>, ResolveError>,
    r2: Result<Seq<u8>, ResolveError>,
)
    requires
        r1 == spec_source_address(out),
        r2 == spec_source_address(out),
    ensures
        r1 == r2,
{
}

} // verus!
