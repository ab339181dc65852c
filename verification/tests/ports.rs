//! Port lists.

use h2core::ports::{fmt_ports, parse_ports, PortsError};

#[test]
fn parses_lists_and_ranges() {
    assert_eq!(parse_ports("8080").unwrap(), vec![8080]);
    assert_eq!(parse_ports("8080,7777").unwrap(), vec![7777, 8080]);
    assert_eq!(parse_ports("29500-29503").unwrap(), vec![29500, 29501, 29502, 29503]);
    assert_eq!(parse_ports(" 80 , 80 ").unwrap(), vec![80], "deduplicated");
    assert_eq!(parse_ports("").unwrap(), Vec::<u16>::new());
    assert!(parse_ports("nope").is_err());
    assert!(parse_ports("90-80").is_err());
}

#[test]
fn errors_name_what_is_wrong() {
    assert!(matches!(parse_ports("80,nope"), Err(PortsError::BadPort(s)) if s == "nope"));
    assert!(matches!(parse_ports("65536"), Err(PortsError::BadPort(s)) if s == "65536"));
    assert!(matches!(parse_ports("90-80"), Err(PortsError::EmptyRange(90, 80))));
    assert!(matches!(parse_ports("1-x"), Err(PortsError::BadPort(s)) if s == "x"));
}

#[test]
fn the_ends_of_the_range_parse() {
    assert_eq!(parse_ports("0,65535").unwrap(), vec![0, 65535]);
    assert_eq!(parse_ports("65534 - 65535,").unwrap(), vec![65534, 65535]);
    assert_eq!(parse_ports("+80").unwrap(), vec![80]);
    assert_eq!(parse_ports("0-65535").unwrap().len(), 65536);
}

#[test]
fn port_lists_are_shown_with_commas() {
    assert_eq!(fmt_ports(&[80, 8080, 65535]), "80,8080,65535");
    assert_eq!(fmt_ports(&[]), "");
}
