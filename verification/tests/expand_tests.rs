use netscan::expand::{addr_to_string, expand, ipv4_to_string, ipv6_to_string};
use netscan::{Addr, InputError};

fn ip(a: u8, b: u8, c: u8, d: u8) -> Addr {
    Addr::V4(((a as u32) << 24) | ((b as u32) << 16) | ((c as u32) << 8) | (d as u32))
}

#[test]
fn single_address_yields_exactly_that_address() {
    let r = expand("192.168.1.77").unwrap();
    assert_eq!(r, vec![ip(192, 168, 1, 77)]);

    let r = expand("0.0.0.0").unwrap();
    assert_eq!(r, vec![Addr::V4(0)]);

    let r = expand("255.255.255.255").unwrap();
    assert_eq!(r, vec![Addr::V4(u32::MAX)]);
}

#[test]
fn single_v6_address_yields_exactly_that_address() {
    assert_eq!(expand("fe80::1").unwrap(), vec![Addr::V6(0xfe80_0000_0000_0000_0000_0000_0000_0001)]);
    assert_eq!(expand("::1").unwrap(), vec![Addr::V6(1)]);
    assert_eq!(expand("::").unwrap(), vec![Addr::V6(0)]);
    assert_eq!(expand("1:2:3:4:5:6:7:8").unwrap(), vec![Addr::V6(0x0001_0002_0003_0004_0005_0006_0007_0008)]);
    assert_eq!(expand("2001:db8::ff00:42:8329").unwrap(), vec![Addr::V6(0x2001_0db8_0000_0000_0000_ff00_0042_8329)]);
    assert_eq!(expand("1:2:3:4:5:6:7::").unwrap(), vec![Addr::V6(0x0001_0002_0003_0004_0005_0006_0007_0000)]);
}

#[test]
fn invalid_v6_forms_are_input_errors() {
    assert_eq!(expand(":::").unwrap_err(), InputError::InvalidAddress);
    assert_eq!(expand(":1:2:3:4:5:6:7").unwrap_err(), InputError::InvalidAddress);
    assert_eq!(expand("1:2:3:4:5:6:7").unwrap_err(), InputError::InvalidAddress);
    assert_eq!(expand("1:2:3:4:5:6:7:8:9").unwrap_err(), InputError::InvalidAddress);
    assert_eq!(expand("fe80::12345").unwrap_err(), InputError::InvalidAddress);
    assert_eq!(expand("fe80::g").unwrap_err(), InputError::InvalidAddress);
    // A compressed form with eight named groups needs the range form.
    assert_eq!(expand("1::2:3:4:5:6:7:8").unwrap_err(), InputError::InvalidAddress);
}

#[test]
fn slash_30_range_has_two_usable_addresses() {
    let r = expand("192.168.1.0/30").unwrap();
    assert_eq!(r, vec![ip(192, 168, 1, 1), ip(192, 168, 1, 2)]);
}

#[test]
fn v6_range_has_all_but_first_and_last() {
    let base = 0xfd00_0000_0000_0000_0000_0000_0000_0000u128;
    let r = expand("fd00::/126").unwrap();
    assert_eq!(r, vec![Addr::V6(base + 1), Addr::V6(base + 2)]);
    assert_eq!(expand("fd00::/127").unwrap(), Vec::<Addr>::new());
    assert_eq!(expand("fd00::/128").unwrap(), Vec::<Addr>::new());
    let r = expand("2001:db8::/125").unwrap();
    assert_eq!(r.len(), 6);
}

#[test]
fn slash_24_range_drops_network_and_broadcast() {
    let r = expand("10.1.2.0/24").unwrap();
    assert_eq!(r.len(), 254);
    assert_eq!(r[0], ip(10, 1, 2, 1));
    assert_eq!(r[253], ip(10, 1, 2, 254));
    assert!(!r.contains(&ip(10, 1, 2, 0)));
    assert!(!r.contains(&ip(10, 1, 2, 255)));
}

#[test]
fn range_is_anchored_at_its_network_address() {
    // The address part need not be the network identifier itself.
    let r = expand("10.0.0.77/24").unwrap();
    assert_eq!(r.len(), 254);
    assert_eq!(r[0], ip(10, 0, 0, 1));
    assert_eq!(r[253], ip(10, 0, 0, 254));
}

#[test]
fn tiny_ranges_yield_empty_lists_not_errors() {
    assert_eq!(expand("192.168.1.4/31").unwrap(), Vec::<Addr>::new());
    assert_eq!(expand("192.168.1.4/32").unwrap(), Vec::<Addr>::new());
}

#[test]
fn range_octets_may_carry_leading_zeros() {
    // The range form's own grammar allows them; the single-address form
    // does not.
    let r = expand("1.2.3.04/30").unwrap();
    assert_eq!(r, vec![ip(1, 2, 3, 5), ip(1, 2, 3, 6)]);
    assert_eq!(expand("1.2.3.04").unwrap_err(), InputError::InvalidAddress);
}

#[test]
fn addresses_are_in_numeric_order() {
    let r = expand("172.16.0.0/29").unwrap();
    assert_eq!(r.len(), 6);
    for w in r.windows(2) {
        match (&w[0], &w[1]) {
            (Addr::V4(a), Addr::V4(b)) => assert!(a < b),
            _ => panic!("expected 32-bit addresses"),
        }
    }
}

#[test]
fn invalid_single_address_is_an_input_error() {
    assert_eq!(expand("999.1.1.1").unwrap_err(), InputError::InvalidAddress);
    assert_eq!(expand("1.2.3").unwrap_err(), InputError::InvalidAddress);
    assert_eq!(expand("1.2.3.4.5").unwrap_err(), InputError::InvalidAddress);
    assert_eq!(expand("abc").unwrap_err(), InputError::InvalidAddress);
    assert_eq!(expand("").unwrap_err(), InputError::InvalidAddress);
    assert_eq!(expand("1.2.3.04").unwrap_err(), InputError::InvalidAddress);
    assert_eq!(expand("1.2.3.256").unwrap_err(), InputError::InvalidAddress);
    assert_eq!(expand("1.2.3.4 ").unwrap_err(), InputError::InvalidAddress);
}

#[test]
fn invalid_range_is_an_input_error() {
    assert_eq!(expand("10.0.0.0/99").unwrap_err(), InputError::InvalidRange);
    assert_eq!(expand("10.0.0.0/33").unwrap_err(), InputError::InvalidRange);
    assert_eq!(expand("10.0.0.0/024").unwrap_err(), InputError::InvalidRange);
    assert_eq!(expand("10.0.0.0/").unwrap_err(), InputError::InvalidRange);
    assert_eq!(expand("/24").unwrap_err(), InputError::InvalidRange);
    assert_eq!(expand("999.0.0.0/24").unwrap_err(), InputError::InvalidRange);
    assert_eq!(expand("10.0.0.0/24/2").unwrap_err(), InputError::InvalidRange);
    assert_eq!(expand("10.0.0.0/a").unwrap_err(), InputError::InvalidRange);
    assert_eq!(expand("fd00::/129").unwrap_err(), InputError::InvalidRange);
    assert_eq!(expand("fe80::g/64").unwrap_err(), InputError::InvalidRange);
}

#[test]
fn textual_form_is_the_dotted_quad() {
    assert_eq!(ipv4_to_string(0xC0A8B201), "192.168.178.1");
    assert_eq!(ipv4_to_string(0), "0.0.0.0");
    assert_eq!(ipv4_to_string(u32::MAX), "255.255.255.255");
    assert_eq!(ipv4_to_string(0x0A000007), "10.0.0.7");
}

#[test]
fn textual_v6_form_compresses_the_first_longest_zero_run() {
    assert_eq!(ipv6_to_string(0), "::");
    assert_eq!(ipv6_to_string(1), "::1");
    assert_eq!(ipv6_to_string(0xfe80_0000_0000_0000_0000_0000_0000_0001), "fe80::1");
    assert_eq!(
        ipv6_to_string(0x2001_0db8_0000_0000_0000_ff00_0042_8329),
        "2001:db8::ff00:42:8329"
    );
    assert_eq!(
        ipv6_to_string(0x0001_0002_0003_0004_0005_0006_0007_0008),
        "1:2:3:4:5:6:7:8"
    );
    // A single zero group is not compressed; of two equal runs the first
    // is compressed.
    assert_eq!(ipv6_to_string(0x0001_0000_0002_0003_0004_0005_0006_0007), "1:0:2:3:4:5:6:7");
    assert_eq!(ipv6_to_string(0x0001_0000_0000_0002_0003_0000_0000_0004), "1::2:3:0:0:4");
    assert_eq!(addr_to_string(Addr::V6(1)), "::1");
    assert_eq!(addr_to_string(Addr::V4(0x01020304)), "1.2.3.4");
}

#[test]
fn rendered_addresses_parse_back_to_themselves() {
    for &x in &[0u32, 1, 255, 256, 65535, u32::MAX, 0x_C0A8_B201, 0x0A00_0007] {
        assert_eq!(expand(&ipv4_to_string(x)).unwrap(), vec![Addr::V4(x)]);
    }
    for &x in &[
        0u128,
        1,
        0xfe80_0000_0000_0000_0000_0000_0000_0001,
        0x2001_0db8_0000_0000_0000_ff00_0042_8329,
        u128::MAX,
        0x0001_0002_0003_0004_0005_0006_0007_0008,
    ] {
        assert_eq!(expand(&ipv6_to_string(x)).unwrap(), vec![Addr::V6(x)]);
    }
}

#[test]
fn range_grammar_agrees_with_the_net_parser_on_v6() {
    // The range branch follows the net parser's grammar: same verdict and
    // same network for every form.
    let cases = [
        "fe80::1",
        "::",
        "::1",
        "1:2:3:4:5:6:7:8",
        "1::2:3:4:5:6:7:8",
        "1:2:3:4:5:6:7::",
        "::1:2:3:4:5:6:7:8",
        ":::",
        "1:2:3:4:5:6:7",
        "fe80::12345",
        "2001:db8::ff00:42:8329",
        "2001:0db8::0001",
        "1:2::3:4",
        "::%eth0",
        "1::2::3",
        ":1:2:3:4:5:6:7",
    ];
    for c in cases {
        let spec = format!("{}/126", c);
        let ours = expand(&spec);
        let theirs = spec.parse::<ipnet::Ipv6Net>();
        match (&ours, &theirs) {
            (Ok(v), Ok(n)) => {
                let base = u128::from(n.network());
                assert_eq!(v.as_slice(), &[Addr::V6(base + 1), Addr::V6(base + 2)], "{}", c);
            }
            (Err(e), Err(_)) => assert_eq!(*e, InputError::InvalidRange, "{}", c),
            _ => panic!("verdicts disagree for {}: {:?} vs {:?}", c, ours, theirs),
        }
    }
}

#[test]
fn range_grammar_agrees_with_the_net_parser_on_v4() {
    let cases = [
        "1.2.3.4",
        "1.2.3.04",
        "001.002.003.004",
        "999.1.1.1",
        "1.2.3",
        "1.2.3.4.5",
        "0.0.0.0",
        "255.255.255.255",
    ];
    for c in cases {
        let spec = format!("{}/30", c);
        let ours = expand(&spec);
        let theirs = spec.parse::<ipnet::Ipv4Net>();
        match (&ours, &theirs) {
            (Ok(v), Ok(n)) => {
                let base = u32::from(n.network());
                assert_eq!(v.as_slice(), &[Addr::V4(base + 1), Addr::V4(base + 2)], "{}", c);
            }
            (Err(e), Err(_)) => assert_eq!(*e, InputError::InvalidRange, "{}", c),
            _ => panic!("verdicts disagree for {}: {:?} vs {:?}", c, ours, theirs),
        }
    }
}
