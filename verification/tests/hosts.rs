use clawcam::webhook::{frames_base64, is_private_ip, judge_host, may_send, needs_private_host, resolved_private, snapshot_fields, url_host, HostPrivacy, IpAddress};

#[test]
fn host_is_cut_at_path_and_port() {
    assert_eq!(url_host("http://192.168.1.5:8080/hooks"), "192.168.1.5");
    assert_eq!(url_host("https://example.com/x/y"), "example.com");
    assert_eq!(url_host("http://cam.local"), "cam.local");
    assert_eq!(url_host("ftp://example.com/"), "");
    assert_eq!(url_host("http://"), "");
}

#[test]
fn private_ipv4_ranges() {
    assert!(is_private_ip(IpAddress::V4(127, 0, 0, 1)));
    assert!(is_private_ip(IpAddress::V4(10, 1, 2, 3)));
    assert!(is_private_ip(IpAddress::V4(172, 16, 0, 1)));
    assert!(is_private_ip(IpAddress::V4(172, 31, 255, 255)));
    assert!(!is_private_ip(IpAddress::V4(172, 32, 0, 1)));
    assert!(is_private_ip(IpAddress::V4(192, 168, 0, 10)));
    assert!(is_private_ip(IpAddress::V4(169, 254, 1, 1)));
    assert!(!is_private_ip(IpAddress::V4(8, 8, 8, 8)));
}

#[test]
fn only_ipv6_loopback_is_private() {
    assert!(is_private_ip(IpAddress::V6(0, 0, 0, 0, 0, 0, 0, 1)));
    assert!(!is_private_ip(IpAddress::V6(0xfe80, 0, 0, 0, 0, 0, 0, 1)));
    assert!(!is_private_ip(IpAddress::V6(0, 0, 0, 0, 0, 0, 0, 0)));
}

#[test]
fn host_verdicts() {
    assert!(matches!(judge_host("", None), HostPrivacy::Public));
    assert!(matches!(judge_host("localhost", None), HostPrivacy::Private));
    assert!(matches!(judge_host("10.0.0.7", Some(IpAddress::V4(10, 0, 0, 7))), HostPrivacy::Private));
    assert!(matches!(judge_host("1.2.3.4", Some(IpAddress::V4(1, 2, 3, 4))), HostPrivacy::Public));
    assert!(matches!(judge_host("printer.local", None), HostPrivacy::Private));
    match judge_host("example.com", None) {
        HostPrivacy::Resolve(h) => assert_eq!(h, "example.com"),
        _ => panic!("expected a lookup"),
    }
}

#[test]
fn resolved_addresses_must_all_be_private() {
    assert!(!resolved_private(&[]));
    assert!(resolved_private(&[IpAddress::V4(192, 168, 1, 1), IpAddress::V4(10, 0, 0, 1)]));
    assert!(!resolved_private(&[IpAddress::V4(192, 168, 1, 1), IpAddress::V4(93, 184, 216, 34)]));
}

#[test]
fn token_over_plaintext_needs_private_host() {
    assert!(needs_private_host("http://example.com/h", true));
    assert!(!needs_private_host("https://example.com/h", true));
    assert!(!needs_private_host("http://example.com/h", false));
}

#[test]
fn plaintext_token_needs_private_host() {
    assert!(!may_send("http://example.com/hook", true, false));
    assert!(may_send("http://192.168.1.5/hook", true, true));
    assert!(may_send("https://example.com/hook", true, false));
    assert!(may_send("http://example.com/hook", false, false));
}

#[test]
fn snapshot_fields_encode_and_stamp() {
    let s = snapshot_fields(b"Man", 0);
    assert_eq!(s.image, "TWFu");
    assert_eq!(s.ts, "Jan 01 00:00:00");
    let s = snapshot_fields(b"Ma", 1776437445);
    assert_eq!(s.image, "TWE=");
    assert_eq!(s.ts, "Apr 17 14:50:45");
    let frames = vec![b"M".to_vec(), Vec::new()];
    assert_eq!(frames_base64(&frames), vec!["TQ==".to_string(), String::new()]);
}
