//! IPv4 addresses as four octets, and their two external shapes: the
//! dotted-decimal text form and the packed 32-bit form the native routing
//! API takes (octet four in the most significant byte, octet one in the
//! least).
//!
//! The text parser is strict: it accepts exactly the strings the formatter
//! produces — four decimal octets, each 0 to 255 without leading zeros,
//! joined by dots — and its contract says so in both directions.

use vstd::prelude::*;

use crate::errors::{ParseError, ResolveError};
use crate::text::{
    join_with, lemma_split_append_no_sep, lemma_split_append_sep, lemma_split_join,
    split_at_sep, split_bytes,
};
use vstd::arithmetic::div_mod::lemma_fundamental_div_mod;
use vstd::arithmetic::div_mod::lemma_fundamental_div_mod_converse;

verus! {

/// A concrete IPv4 address, `a.b.c.d` in dotted-decimal order.
#[derive(Clone, Copy, Debug, PartialEq, Eq, Structural)]
pub struct Ipv4 {
    pub a: u8,
    pub b: u8,
    pub c: u8,
    pub d: u8,
}

/// The shortest decimal digits of one octet: no leading zeros, `0` itself
/// one digit.
pub open spec fn dec_digits(n: u8) -> Seq<u8> {
    if n < 10 {
        seq![(48 + n) as u8]
    } else if n < 100 {
        seq![(48 + n / 10) as u8, (48 + n % 10) as u8]
    } else {
        seq![(48 + n / 100) as u8, (48 + (n / 10) % 10) as u8, (48 + n % 10) as u8]
    }
}

/// Every byte of a decimal run is a digit, so never a dot.
pub proof fn lemma_dec_digits_no_dot(n: u8)
    ensures
        forall|i: int|
            0 <= i < dec_digits(n).len() ==> 48 <= (#[trigger] dec_digits(n)[i]) && dec_digits(
                n,
            )[i] <= 57,
{
}

fn push_dec(out: &mut Vec<u8>, n: u8)
    ensures
        final(out)@ == old(out)@ + dec_digits(n),
{
    if n < 10 {
        out.push(48 + n);
    } else if n < 100 {
        out.push(48 + n / 10);
        out.push(48 + n % 10);
    } else {
        out.push(48 + n / 100);
        out.push(48 + (n / 10) % 10);
        out.push(48 + n % 10);
    }
    proof {
        assert(out@ =~= old(out)@ + dec_digits(n));
    }
}

/// The dotted-decimal text of an address: the four octets' shortest decimal
/// digits joined by dots.
pub open spec fn dotted_decimal(ip: Ipv4) -> Seq<u8> {
    dec_digits(ip.a) + seq![46u8] + dec_digits(ip.b) + seq![46u8] + dec_digits(ip.c) + seq![46u8]
        + dec_digits(ip.d)
}

/// A byte sequence is a syntactically valid dotted-decimal IPv4 address:
/// it is the text of some address.
pub open spec fn is_dotted_decimal(s: Seq<u8>) -> bool {
    exists|ip: Ipv4| s == dotted_decimal(ip)
}

/// Formats an address as dotted-decimal text, exactly `dotted_decimal`.
pub fn ipv4_to_bytes(ip: &Ipv4) -> (r: Vec<u8>)
    ensures
        r@ == dotted_decimal(*ip),
        is_dotted_decimal(r@),
{
    let mut out: Vec<u8> = Vec::new();
    push_dec(&mut out, ip.a);
    out.push(46);
    push_dec(&mut out, ip.b);
    out.push(46);
    push_dec(&mut out, ip.c);
    out.push(46);
    push_dec(&mut out, ip.d);
    proof {
        assert(out@ =~= dotted_decimal(*ip));
    }
    out
}

/// The packed 32-bit form the native route-lookup call takes: octet four in
/// the most significant byte, octet one in the least.
pub open spec fn spec_in_addr(ip: Ipv4) -> int {
    ip.d * 0x1000000 + ip.c * 0x10000 + ip.b * 0x100 + ip.a
}

/// The octets packed inside a 32-bit address value.
pub open spec fn spec_octets(addr: u32) -> Ipv4 {
    Ipv4 {
        a: (addr % 0x100) as u8,
        b: ((addr / 0x100) % 0x100) as u8,
        c: ((addr / 0x10000) % 0x100) as u8,
        d: ((addr / 0x1000000) % 0x100) as u8,
    }
}

/// Packs an address for the native best-interface call.
pub fn in_addr_of(ip: &Ipv4) -> (r: u32)
    ensures
        r == spec_in_addr(*ip),
{
    (ip.d as u32) * 0x1000000 + (ip.c as u32) * 0x10000 + (ip.b as u32) * 0x100 + (ip.a as u32)
}

/// Unpacks the four octets of a 32-bit address value, as read back from the
/// adapter list's socket addresses.
pub fn ipv4_of_in_addr(addr: u32) -> (r: Ipv4)
    ensures
        r == spec_octets(addr),
{
    Ipv4 {
        a: (addr % 0x100) as u8,
        b: ((addr / 0x100) % 0x100) as u8,
        c: ((addr / 0x10000) % 0x100) as u8,
        d: ((addr / 0x1000000) % 0x100) as u8,
    }
}

/// Packing and unpacking are inverse: the octet form survives the round
/// trip through the native 32-bit representation.
pub proof fn lemma_in_addr_round_trip(ip: Ipv4)
    ensures
        spec_octets(spec_in_addr(ip) as u32) == ip,
{
    let x = spec_in_addr(ip);
    lemma_fundamental_div_mod_converse(
        x,
        0x100,
        ip.d * 0x10000 + ip.c * 0x100 + ip.b,
        ip.a as int,
    );
    lemma_fundamental_div_mod_converse(x / 0x100, 0x100, ip.d * 0x100 + ip.c, ip.b as int);
    lemma_fundamental_div_mod_converse(x / 0x10000, 0x100, ip.d as int, ip.c as int);
    lemma_fundamental_div_mod_converse(x / 0x1000000, 0x100, 0, ip.d as int);
    assert(x / 0x100 / 0x100 == x / 0x10000) by (nonlinear_arith);
    assert(x / 0x10000 / 0x100 == x / 0x1000000) by (nonlinear_arith);
}

/// The 32-bit form likewise survives the round trip through octets.
pub proof fn lemma_octets_round_trip(addr: u32)
    ensures
        spec_in_addr(spec_octets(addr)) == addr,
{
    let a = addr as int;
    lemma_fundamental_div_mod_converse(a, 0x100, a / 0x100, a % 0x100);
    assert(a / 0x100 / 0x100 == a / 0x10000) by (nonlinear_arith);
    assert(a / 0x10000 / 0x100 == a / 0x1000000) by (nonlinear_arith);
    lemma_fundamental_div_mod_converse(a / 0x100, 0x100, a / 0x10000, (a / 0x100) % 0x100);
    lemma_fundamental_div_mod_converse(a / 0x10000, 0x100, a / 0x1000000, (a / 0x10000) % 0x100);
    assert(a / 0x1000000 % 0x100 == a / 0x1000000);
}

fn parse_octet(s: &[u8]) -> (r: Option<u8>)
    ensures
        match r {
            Some(n) => s@ == dec_digits(n),
            None => forall|n: u8| s@ != dec_digits(n),
        },
{
    if s.len() == 1 {
        let c0 = s[0];
        if 48 <= c0 && c0 <= 57 {
            let n = c0 - 48;
            proof {
                assert(s@ =~= dec_digits(n));
            }
            Some(n)
        } else {
            proof {
                assert forall|n: u8| s@ != dec_digits(n) by {
                    if n < 10 {
                        assert(dec_digits(n)[0] == 48 + n);
                    } else if n < 100 {
                        assert(dec_digits(n).len() == 2);
                    } else {
                        assert(dec_digits(n).len() == 3);
                    }
                }
            }
            None
        }
    } else if s.len() == 2 {
        let c0 = s[0];
        let c1 = s[1];
        if 49 <= c0 && c0 <= 57 && 48 <= c1 && c1 <= 57 {
            let n = (c0 - 48) * 10 + (c1 - 48);
            proof {
                lemma_fundamental_div_mod_converse(n as int, 10, c0 - 48, c1 - 48);
                assert(s@ =~= dec_digits(n));
            }
            Some(n)
        } else {
            proof {
                assert forall|n: u8| s@ != dec_digits(n) by {
                    if n < 10 {
                        assert(dec_digits(n).len() == 1);
                    } else if n < 100 {
                        lemma_fundamental_div_mod_converse(n as int, 10, n as int / 10, n as int % 10);
                        assert(n / 10 >= 1);
                        assert(dec_digits(n)[0] == 48 + n / 10);
                        assert(dec_digits(n)[1] == 48 + n % 10);
                    } else {
                        assert(dec_digits(n).len() == 3);
                    }
                }
            }
            None
        }
    } else if s.len() == 3 {
        let c0 = s[0];
        let c1 = s[1];
        let c2 = s[2];
        if 49 <= c0 && c0 <= 57 && 48 <= c1 && c1 <= 57 && 48 <= c2 && c2 <= 57 {
            let v: u16 = ((c0 - 48) as u16) * 100 + ((c1 - 48) as u16) * 10 + ((c2 - 48) as u16);
            if v <= 255 {
                let n = v as u8;
                proof {
                    lemma_fundamental_div_mod_converse(
                        n as int,
                        100,
                        c0 - 48,
                        (c1 - 48) * 10 + (c2 - 48),
                    );
                    lemma_fundamental_div_mod_converse(n as int, 10, (c0 - 48) * 10 + (c1 - 48), c2 - 48);
                    lemma_fundamental_div_mod_converse(n as int / 10, 10, c0 - 48, c1 - 48);
                    assert(n >= 100);
                    assert(s@ =~= dec_digits(n));
                }
                Some(n)
            } else {
                proof {
                    assert forall|n: u8| s@ != dec_digits(n) by {
                        if n < 10 {
                            assert(dec_digits(n).len() == 1);
                        } else if n < 100 {
                            assert(dec_digits(n).len() == 2);
                        } else {
                            if s@ == dec_digits(n) {
                                lemma_fundamental_div_mod_converse(
                                    n as int,
                                    100,
                                    n as int / 100,
                                    n as int % 100,
                                );
                                assert(c0 == 48 + n / 100);
                                assert(c1 == 48 + (n / 10) % 10);
                                assert(c2 == 48 + n % 10);
                                assert(n == (n / 100) * 100 + ((n / 10) % 10) * 10 + n % 10)
                                    by (nonlinear_arith);
                                assert(v == n);
                            }
                        }
                    }
                }
                None
            }
        } else {
            proof {
                assert forall|n: u8| s@ != dec_digits(n) by {
                    if n < 10 {
                        assert(dec_digits(n).len() == 1);
                    } else if n < 100 {
                        assert(dec_digits(n).len() == 2);
                    } else {
                        assert(n / 100 >= 1 && n / 100 <= 9) by (nonlinear_arith)
                            requires 100 <= n <= 255;
                        assert(dec_digits(n)[0] == 48 + n / 100);
                        assert(dec_digits(n)[1] == 48 + (n / 10) % 10);
                        assert(dec_digits(n)[2] == 48 + n % 10);
                    }
                }
            }
            None
        }
    } else {
        proof {
            assert forall|n: u8| s@ != dec_digits(n) by {
                if n < 10 {
                    assert(dec_digits(n).len() == 1);
                } else if n < 100 {
                    assert(dec_digits(n).len() == 2);
                } else {
                    assert(dec_digits(n).len() == 3);
                }
            }
        }
        None
    }
}

/// Different octets never share decimal digits: the text determines the
/// value.
pub proof fn lemma_dec_digits_injective(m: u8, n: u8)
    requires
        dec_digits(m) == dec_digits(n),
    ensures
        m == n,
{
    lemma_fundamental_div_mod(m as int, 10);
    lemma_fundamental_div_mod(n as int, 10);
    lemma_fundamental_div_mod(m as int / 10, 10);
    lemma_fundamental_div_mod(n as int / 10, 10);
    assert(m as int / 10 / 10 == m as int / 100) by (nonlinear_arith);
    assert(n as int / 10 / 10 == n as int / 100) by (nonlinear_arith);
    if m < 10 && n < 10 {
        assert(dec_digits(m)[0] == (48 + m) as u8);
        assert(dec_digits(n)[0] == (48 + n) as u8);
        assert(((48 + m) as u8) as int == 48 + m as int);
        assert(((48 + n) as u8) as int == 48 + n as int);
    } else if 10 <= m < 100 && 10 <= n < 100 {
        assert(dec_digits(m)[0] == dec_digits(n)[0]);
        assert(dec_digits(m)[1] == dec_digits(n)[1]);
        assert(m as int == 10 * (m as int / 10) + m as int % 10);
        assert(n as int == 10 * (n as int / 10) + n as int % 10);
    } else if m >= 100 && n >= 100 {
        assert(dec_digits(m)[0] == dec_digits(n)[0]);
        assert(dec_digits(m)[1] == dec_digits(n)[1]);
        assert(dec_digits(m)[2] == dec_digits(n)[2]);
        assert(m / 100 < 3 && (m / 10) % 10 < 10 && m % 10 < 10);
        assert(n / 100 < 3 && (n / 10) % 10 < 10 && n % 10 < 10);
        assert(m as int / 100 == n as int / 100);
        assert((m as int / 10) % 10 == (n as int / 10) % 10);
        assert(m as int % 10 == n as int % 10);
        assert(m as int / 10 == 10 * (m as int / 100) + (m as int / 10) % 10);
        assert(n as int / 10 == 10 * (n as int / 100) + (n as int / 10) % 10);
        assert(m as int == 10 * (m as int / 10) + m as int % 10);
        assert(n as int == 10 * (n as int / 10) + n as int % 10);
    } else {
        if m < 10 {
            assert(dec_digits(m).len() == 1);
        } else if m < 100 {
            assert(dec_digits(m).len() == 2);
        } else {
            assert(dec_digits(m).len() == 3);
        }
        if n < 10 {
            assert(dec_digits(n).len() == 1);
        } else if n < 100 {
            assert(dec_digits(n).len() == 2);
        } else {
            assert(dec_digits(n).len() == 3);
        }
    }
}

/// How a dotted-decimal text falls apart at its dots: exactly the four
/// octets' digit runs, in order.
pub proof fn lemma_split_dotted(ip: Ipv4)
    ensures
        split_at_sep(dotted_decimal(ip), 46) == seq![
            dec_digits(ip.a),
            dec_digits(ip.b),
            dec_digits(ip.c),
            dec_digits(ip.d),
        ],
{
    let pa = dec_digits(ip.a);
    let pb = dec_digits(ip.b);
    let pc = dec_digits(ip.c);
    let pd = dec_digits(ip.d);
    let dot = seq![46u8];
    lemma_dec_digits_no_dot(ip.a);
    lemma_dec_digits_no_dot(ip.b);
    lemma_dec_digits_no_dot(ip.c);
    lemma_dec_digits_no_dot(ip.d);

    let e = Seq::<u8>::empty();
    assert(e + pa =~= pa);
    lemma_split_append_no_sep(e, pa, 46);
    assert(split_at_sep(pa, 46) =~~= seq![pa]);

    lemma_split_append_sep(pa, 46);
    assert(split_at_sep(pa + dot, 46) =~~= seq![pa, e]);

    lemma_split_append_no_sep(pa + dot, pb, 46);
    assert(split_at_sep(pa + dot + pb, 46) =~~= seq![pa, pb]);

    lemma_split_append_sep(pa + dot + pb, 46);
    assert(split_at_sep(pa + dot + pb + dot, 46) =~~= seq![pa, pb, e]);

    lemma_split_append_no_sep(pa + dot + pb + dot, pc, 46);
    assert(split_at_sep(pa + dot + pb + dot + pc, 46) =~~= seq![pa, pb, pc]);

    lemma_split_append_sep(pa + dot + pb + dot + pc, 46);
    assert(split_at_sep(pa + dot + pb + dot + pc + dot, 46) =~~= seq![pa, pb, pc, e]);

    lemma_split_append_no_sep(pa + dot + pb + dot + pc + dot, pd, 46);
    assert(split_at_sep(dotted_decimal(ip), 46) =~~= seq![pa, pb, pc, pd]);
}

/// Two addresses with the same dotted-decimal text are the same address.
pub proof fn lemma_dotted_decimal_injective(x: Ipv4, y: Ipv4)
    requires
        dotted_decimal(x) == dotted_decimal(y),
    ensures
        x == y,
{
    lemma_split_dotted(x);
    lemma_split_dotted(y);
    lemma_dec_digits_injective(x.a, y.a);
    lemma_dec_digits_injective(x.b, y.b);
    lemma_dec_digits_injective(x.c, y.c);
    lemma_dec_digits_injective(x.d, y.d);
}

/// Parses a strict dotted-decimal IPv4 literal: four decimal octets, each 0
/// to 255 without leading zeros, joined by dots. Succeeds exactly on the
/// texts `dotted_decimal` produces, so parsing a formatted address gives
/// the octets back; everything else is an invalid literal.
pub fn parse_ipv4(s: &[u8]) -> (r: Result<Ipv4, ResolveError>)
    ensures
        match r {
            Ok(ip) => s@ == dotted_decimal(ip),
            Err(e) => e == ResolveError::Parse(ParseError::InvalidIpv4) && !is_dotted_decimal(s@),
        },
{
    let parts = split_bytes(s, 46);
    let ghost pv = parts.deep_view();
    proof {
        assert(pv.len() == parts@.len());
    }
    if parts.len() != 4 {
        proof {
            assert forall|ip: Ipv4| s@ != dotted_decimal(ip) by {
                if s@ == dotted_decimal(ip) {
                    lemma_split_dotted(ip);
                }
            }
        }
        return Err(ResolveError::Parse(ParseError::InvalidIpv4));
    }
    proof {
        assert(pv[0] =~= parts@[0]@);
        assert(pv[1] =~= parts@[1]@);
        assert(pv[2] =~= parts@[2]@);
        assert(pv[3] =~= parts@[3]@);
    }
    let oa = parse_octet(parts[0].as_slice());
    let ob = parse_octet(parts[1].as_slice());
    let oc = parse_octet(parts[2].as_slice());
    let od = parse_octet(parts[3].as_slice());
    match (oa, ob, oc, od) {
        (Some(a), Some(b), Some(c), Some(d)) => {
            let ip = Ipv4 { a, b, c, d };
            proof {
                lemma_split_dotted(ip);
                lemma_split_join(s@, 46);
                lemma_split_join(dotted_decimal(ip), 46);
                assert(pv =~~= seq![
                    dec_digits(a),
                    dec_digits(b),
                    dec_digits(c),
                    dec_digits(d),
                ]);
                assert(s@ == join_with(pv, 46));
                assert(dotted_decimal(ip) == join_with(pv, 46));
            }
            Ok(ip)
        },
        _ => {
            proof {
                assert forall|ip: Ipv4| s@ != dotted_decimal(ip) by {
                    if s@ == dotted_decimal(ip) {
                        lemma_split_dotted(ip);
                        assert(pv[0] == dec_digits(ip.a));
                        assert(pv[1] == dec_digits(ip.b));
                        assert(pv[2] == dec_digits(ip.c));
                        assert(pv[3] == dec_digits(ip.d));
                    }
                }
            }
            Err(ResolveError::Parse(ParseError::InvalidIpv4))
        },
    }
}

} // verus!
