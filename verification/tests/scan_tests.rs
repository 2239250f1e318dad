use zip_rs::scan::{expand_wildcard, parse_hosts, parse_ports};

#[test]
fn test_parse_ports_single_and_lists() {
    assert_eq!(parse_ports(b"80"), vec![80]);
    assert_eq!(parse_ports(b"80,443"), vec![80, 443]);
    assert_eq!(parse_ports(b"+80"), vec![80]);
    assert_eq!(parse_ports(b"65535"), vec![65535]);
    assert_eq!(parse_ports(b""), Vec::<u16>::new());
    assert_eq!(parse_ports(b"x"), Vec::<u16>::new());
    assert_eq!(parse_ports(b"70000"), Vec::<u16>::new());
    assert_eq!(parse_ports(b"80,,443"), vec![80, 443]);
}

#[test]
fn test_parse_ports_ranges() {
    assert_eq!(parse_ports(b"1:5"), vec![1, 2, 3, 4, 5]);
    assert_eq!(parse_ports(b"5:1"), Vec::<u16>::new());
    assert_eq!(parse_ports(b"1:3,7,10:11"), vec![1, 2, 3, 7, 10, 11]);
    // A field with more than one range delimiter names no ports.
    assert_eq!(parse_ports(b"1:5:7"), Vec::<u16>::new());
    assert_eq!(parse_ports(b"1:x"), Vec::<u16>::new());
    assert_eq!(parse_ports(b"65534:65535"), vec![65534, 65535]);
}

#[test]
fn test_parse_hosts_plain() {
    let hosts = parse_hosts(b"alpha,beta,gamma");
    assert_eq!(hosts.len(), 3);
    assert_eq!(hosts[0], b"alpha".to_vec());
    assert_eq!(hosts[1], b"beta".to_vec());
    assert_eq!(hosts[2], b"gamma".to_vec());
    let single = parse_hosts(b"localhost");
    assert_eq!(single.len(), 1);
    assert_eq!(single[0], b"localhost".to_vec());
}

#[test]
fn test_parse_hosts_wildcard() {
    let hosts = parse_hosts(b"10.0.0.*");
    assert_eq!(hosts.len(), 255);
    assert_eq!(hosts[0], b"10.0.0.1".to_vec());
    assert_eq!(hosts[9], b"10.0.0.10".to_vec());
    assert_eq!(hosts[254], b"10.0.0.255".to_vec());
}

#[test]
fn test_expand_wildcard_strips_all_stars() {
    let hosts = expand_wildcard(b"192.168.*.*");
    assert_eq!(hosts.len(), 255);
    assert_eq!(hosts[0], b"192.168..1".to_vec());
    assert_eq!(hosts[254], b"192.168..255".to_vec());
}
