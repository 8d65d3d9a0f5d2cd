use local_ip_resolver::adapters::{
    ipv4_for_adapter, local_ip_for_adapter, AdapterAddress, AdapterRecord,
};
use local_ip_resolver::errors::{ParseError, ResolveError};
use local_ip_resolver::first_resolved;
use local_ip_resolver::ipv4::{in_addr_of, ipv4_of_in_addr, ipv4_to_bytes, parse_ipv4, Ipv4};

fn ip(a: u8, b: u8, c: u8, d: u8) -> Ipv4 {
    Ipv4 { a, b, c, d }
}

#[test]
fn parses_dotted_decimal() {
    assert_eq!(parse_ipv4(b"192.168.1.42").unwrap(), ip(192, 168, 1, 42));
    assert_eq!(parse_ipv4(b"0.0.0.0").unwrap(), ip(0, 0, 0, 0));
    assert_eq!(parse_ipv4(b"255.255.255.255").unwrap(), ip(255, 255, 255, 255));
    assert_eq!(parse_ipv4(b"10.0.0.5").unwrap(), ip(10, 0, 0, 5));
}

#[test]
fn rejects_invalid_literals() {
    let invalid: &[&[u8]] = &[
        b"",
        b"256.1.1.1",
        b"01.2.3.4",
        b"1.2.3",
        b"1.2.3.4.5",
        b"1.2.3.",
        b".1.2.3",
        b"1.2.3.x",
        b"not a host###",
        b"300.300.300.300",
        b"1.2.3.4 ",
        b"fe80::1",
    ];
    for s in invalid {
        assert_eq!(
            parse_ipv4(s).unwrap_err(),
            ResolveError::Parse(ParseError::InvalidIpv4),
        );
    }
}

#[test]
fn formats_dotted_decimal() {
    assert_eq!(ipv4_to_bytes(&ip(192, 168, 1, 42)), b"192.168.1.42".to_vec());
    assert_eq!(ipv4_to_bytes(&ip(0, 0, 0, 0)), b"0.0.0.0".to_vec());
    assert_eq!(ipv4_to_bytes(&ip(255, 255, 255, 255)), b"255.255.255.255".to_vec());
}

#[test]
fn format_then_parse_round_trips() {
    let samples = [ip(0, 0, 0, 0), ip(9, 10, 99, 100), ip(127, 0, 0, 1), ip(255, 254, 1, 0)];
    for s in samples {
        let text = ipv4_to_bytes(&s);
        assert_eq!(parse_ipv4(&text).unwrap(), s);
    }
}

#[test]
fn in_addr_packs_octet_four_first() {
    assert_eq!(in_addr_of(&ip(1, 2, 3, 4)), 0x04030201);
    assert_eq!(in_addr_of(&ip(204, 17, 220, 5)), 0x05DC11CC);
}

#[test]
fn in_addr_round_trips() {
    let s = ip(10, 1, 1, 9);
    assert_eq!(ipv4_of_in_addr(in_addr_of(&s)), s);
    assert_eq!(in_addr_of(&ipv4_of_in_addr(0xDEADBEEF)), 0xDEADBEEF);
}

#[test]
fn matching_adapter_yields_first_ipv4() {
    let adapters = vec![
        AdapterRecord { index: 1, addresses: vec![AdapterAddress::V4(ip(172, 16, 0, 2))] },
        AdapterRecord {
            index: 7,
            addresses: vec![AdapterAddress::V6, AdapterAddress::V4(ip(10, 1, 1, 9))],
        },
    ];
    assert_eq!(ipv4_for_adapter(&adapters, 7).unwrap(), ip(10, 1, 1, 9));
    assert_eq!(local_ip_for_adapter(&adapters, 7).unwrap(), b"10.1.1.9".to_vec());
}

#[test]
fn missing_adapter_index_fails_naming_it() {
    let adapters = vec![
        AdapterRecord { index: 1, addresses: vec![AdapterAddress::V4(ip(172, 16, 0, 2))] },
    ];
    assert_eq!(
        local_ip_for_adapter(&adapters, 9).unwrap_err(),
        ResolveError::Parse(ParseError::AdapterNotFound(9)),
    );
}

#[test]
fn adapter_without_ipv4_fails_naming_it() {
    let adapters = vec![
        AdapterRecord { index: 7, addresses: vec![AdapterAddress::V6, AdapterAddress::V6] },
    ];
    assert_eq!(
        local_ip_for_adapter(&adapters, 7).unwrap_err(),
        ResolveError::Parse(ParseError::NoAdapterIpv4(7)),
    );
}

#[test]
fn first_matching_adapter_wins() {
    let adapters = vec![
        AdapterRecord { index: 7, addresses: vec![AdapterAddress::V4(ip(10, 0, 0, 1))] },
        AdapterRecord { index: 7, addresses: vec![AdapterAddress::V4(ip(10, 0, 0, 2))] },
    ];
    assert_eq!(ipv4_for_adapter(&adapters, 7).unwrap(), ip(10, 0, 0, 1));
}

#[test]
fn empty_resolution_is_a_resolution_error() {
    let none: Vec<Vec<u8>> = vec![];
    assert_eq!(first_resolved(&none).unwrap_err(), ResolveError::Resolution);
    let some = vec![b"204.17.220.5".to_vec(), b"10.0.0.1".to_vec()];
    assert_eq!(first_resolved(&some).unwrap(), b"204.17.220.5".to_vec());
}
