use quote_stream::net::{parse_sockaddr, IpAddress, SocketAddress};

#[test]
fn test_parse_sockaddr_v4() {
    assert_eq!(parse_sockaddr(b"127.0.0.1:9000"), Some(SocketAddress::v4(127, 0, 0, 1, 9000)));
    assert_eq!(parse_sockaddr(b"0.0.0.0:0"), Some(SocketAddress::v4(0, 0, 0, 0, 0)));
    assert_eq!(parse_sockaddr(b"255.255.255.255:65535"), Some(SocketAddress::v4(255, 255, 255, 255, 65535)));
}

#[test]
fn test_parse_sockaddr_v4_rejects() {
    assert!(parse_sockaddr(b"").is_none());
    assert!(parse_sockaddr(b"127.0.0.1").is_none());
    assert!(parse_sockaddr(b"256.0.0.1:80").is_none());
    assert!(parse_sockaddr(b"1.2.3:80").is_none());
    assert!(parse_sockaddr(b"1.2.3.4:").is_none());
    assert!(parse_sockaddr(b"1.2.3.4:70000").is_none());
    assert!(parse_sockaddr(b"not-an-addr:80").is_none());
}

#[test]
fn test_parse_sockaddr_v6() {
    let full = parse_sockaddr(b"[2001:db8:0:0:0:0:0:1]:443").expect("full form");
    match full.ip {
        IpAddress::V6(v6) => {
            assert_eq!((v6.s0, v6.s1, v6.s7), (0x2001, 0xdb8, 1));
        }
        _ => panic!("expected IPv6"),
    }
    assert_eq!(full.port, 443);

    let elided = parse_sockaddr(b"[2001:db8::1]:443").expect("elided form");
    assert_eq!(elided, full);

    let loopback = parse_sockaddr(b"[::1]:1").expect("loopback");
    match loopback.ip {
        IpAddress::V6(v6) => {
            assert_eq!((v6.s0, v6.s6, v6.s7), (0, 0, 1));
        }
        _ => panic!("expected IPv6"),
    }

    let zeros = parse_sockaddr(b"[::]:5").expect("all zeros");
    match zeros.ip {
        IpAddress::V6(v6) => assert_eq!((v6.s0, v6.s7), (0, 0)),
        _ => panic!("expected IPv6"),
    }
}

#[test]
fn test_parse_sockaddr_v6_rejects() {
    assert!(parse_sockaddr(b"[1:2:3]:80").is_none());
    assert!(parse_sockaddr(b"[1:2:3:4:5:6:7:8:9]:80").is_none());
    assert!(parse_sockaddr(b"[12345::1]:80").is_none());
    assert!(parse_sockaddr(b"[::1]").is_none());
    assert!(parse_sockaddr(b"[::1]80").is_none());
    assert!(parse_sockaddr(b"[1:::2]:80").is_none());
}
