use mping::targets::{expand_network, parse_ips, split_commas, IpAddress, IpNet, Target};

#[test]
fn split_at_commas() {
    assert_eq!(split_commas("a,b,,c"), vec!["a", "b", "", "c"]);
    assert_eq!(split_commas(""), vec![""]);
    assert_eq!(split_commas(","), vec!["", ""]);
    assert_eq!(split_commas("héllo,wörld"), vec!["héllo", "wörld"]);
    assert_eq!(split_commas("8.8.8.8"), vec!["8.8.8.8"]);
    for text in ["127.0.0.1,8.8.8.8/24,bing.com", ",,a,", "x"] {
        assert_eq!(split_commas(text).join(","), text);
        assert!(split_commas(text).iter().all(|p| !p.contains(',')));
    }
}

#[test]
fn expand_v4_networks() {
    let v = expand_network(&IpNet::V4 { addr: 0x08080809, prefix: 30 });
    assert_eq!(
        v,
        vec![
            IpAddress::V4(0x08080808),
            IpAddress::V4(0x08080809),
            IpAddress::V4(0x0808080A),
            IpAddress::V4(0x0808080B)
        ]
    );
    assert_eq!(expand_network(&IpNet::V4 { addr: 7, prefix: 32 }), vec![IpAddress::V4(7)]);
    let top = expand_network(&IpNet::V4 { addr: u32::MAX, prefix: 31 });
    assert_eq!(top, vec![IpAddress::V4(u32::MAX - 1), IpAddress::V4(u32::MAX)]);
}

#[test]
fn expand_v6_networks() {
    let v = expand_network(&IpNet::V6 { addr: 0x2001_0db8_0000_0000_0000_0000_0000_0005, prefix: 126 });
    assert_eq!(v.len(), 4);
    assert_eq!(v[0], IpAddress::V6(0x2001_0db8_0000_0000_0000_0000_0000_0004));
    assert_eq!(v[3], IpAddress::V6(0x2001_0db8_0000_0000_0000_0000_0000_0007));
    assert_eq!(expand_network(&IpNet::V6 { addr: 1, prefix: 128 }), vec![IpAddress::V6(1)]);
}

#[test]
fn parse_mixed_targets() {
    let v = parse_ips("8.8.8.8/30,1.1.1.1,bing.com");
    assert_eq!(v.len(), 6);
    assert!(matches!(v[0], Target::Address(IpAddress::V4(0x08080808))));
    assert!(matches!(v[3], Target::Address(IpAddress::V4(0x0808080B))));
    assert!(matches!(v[4], Target::Address(IpAddress::V4(0x01010101))));
    match &v[5] {
        Target::Unresolved(s) => assert_eq!(s, "bing.com"),
        _ => panic!("expected a name"),
    }
}

#[test]
fn parse_host_bits_and_v6() {
    let v = parse_ips("10.1.9.32/31");
    assert!(matches!(v[0], Target::Address(IpAddress::V4(0x0A010920))));
    assert!(matches!(v[1], Target::Address(IpAddress::V4(0x0A010921))));
    let v = parse_ips("::1");
    assert_eq!(v.len(), 1);
    assert!(matches!(v[0], Target::Address(IpAddress::V6(1))));
    let v = parse_ips("");
    assert!(matches!(&v[0], Target::Unresolved(s) if s.is_empty()));
}
