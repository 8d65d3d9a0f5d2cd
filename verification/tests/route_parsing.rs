use local_ip_resolver::errors::{ParseError, ResolveError};
use local_ip_resolver::route::{
    address_from_ifconfig_output, interface_from_route_output, source_from_route_output,
};
use local_ip_resolver::text::{split_bytes, tokenize, trim_bytes};

#[test]
fn route_output_names_interface() {
    let out = b"   route to: 204.17.220.5\n   destination: default\n   interface: en0\n   flags: <UP,DONE>\n";
    let r = interface_from_route_output(out);
    assert_eq!(r.unwrap(), b"en0".to_vec());
}

#[test]
fn two_stage_parse_returns_inet_address() {
    let route_out = b"   interface: en0\n";
    let iface = interface_from_route_output(route_out).unwrap();
    assert_eq!(iface, b"en0".to_vec());
    let ifconfig_out =
        b"en0: flags=8863<UP,BROADCAST,SMART,RUNNING>\n\tinet6 fe80::1%en0 prefixlen 64\n\tinet 192.168.1.42 netmask 0xffffff00 broadcast 192.168.1.255\n";
    let r = address_from_ifconfig_output(ifconfig_out);
    assert_eq!(r.unwrap(), b"192.168.1.42".to_vec());
}

#[test]
fn route_output_without_interface_line_fails() {
    let out = b"   route to: 204.17.220.5\n   destination: default\n";
    let r = interface_from_route_output(out);
    assert_eq!(r.unwrap_err(), ResolveError::Parse(ParseError::NoRouteForHost));
}

#[test]
fn interface_line_without_name_fails() {
    let out = b"   interface:   \n";
    let r = interface_from_route_output(out);
    assert_eq!(r.unwrap_err(), ResolveError::Parse(ParseError::NoInterfaceName));
}

#[test]
fn ifconfig_output_without_inet_line_fails() {
    let out = b"lo0: flags=8049<UP,LOOPBACK>\n\tinet6 ::1 prefixlen 128\n";
    let r = address_from_ifconfig_output(out);
    assert_eq!(r.unwrap_err(), ResolveError::Parse(ParseError::NoIpv4Address));
}

#[test]
fn inet6_line_never_matches_inet_marker() {
    let out = b"\tinet6 fe80::1 prefixlen 64\n\tinet 10.0.0.3 netmask 0xff000000\n";
    let r = address_from_ifconfig_output(out);
    assert_eq!(r.unwrap(), b"10.0.0.3".to_vec());
}

#[test]
fn token_after_src_is_source_address() {
    let out = b"10.0.0.5 via 10.0.0.1 dev eth0 src 10.0.0.5 uid 1000\n    cache\n";
    let r = source_from_route_output(out);
    assert_eq!(r.unwrap(), b"10.0.0.5".to_vec());
}

#[test]
fn output_without_src_token_fails() {
    let out = b"unreachable 10.1.2.3 dev eth0\n";
    let r = source_from_route_output(out);
    assert_eq!(r.unwrap_err(), ResolveError::Parse(ParseError::NoRouteInformation));
}

#[test]
fn trailing_src_token_fails() {
    let out = b"10.0.0.5 dev eth0 src";
    let r = source_from_route_output(out);
    assert_eq!(r.unwrap_err(), ResolveError::Parse(ParseError::NoRouteInformation));
}

#[test]
fn src_inside_other_token_is_not_a_marker() {
    let out = b"dev eth0 srcx 10.9.9.9 src 10.0.0.7";
    let r = source_from_route_output(out);
    assert_eq!(r.unwrap(), b"10.0.0.7".to_vec());
}

#[test]
fn tokenize_collapses_whitespace_runs() {
    let toks = tokenize(b"  a  bb\t c\n");
    assert_eq!(toks, vec![b"a".to_vec(), b"bb".to_vec(), b"c".to_vec()]);
}

#[test]
fn split_keeps_empty_pieces() {
    let pieces = split_bytes(b"a\nb\n", 10);
    assert_eq!(pieces, vec![b"a".to_vec(), b"b".to_vec(), b"".to_vec()]);
}

#[test]
fn trim_removes_both_ends_only() {
    assert_eq!(trim_bytes(b" \t x y \r\n"), b"x y".to_vec());
    assert_eq!(trim_bytes(b""), b"".to_vec());
    assert_eq!(trim_bytes(b" \t "), b"".to_vec());
}
