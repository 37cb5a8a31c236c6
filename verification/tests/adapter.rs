//! Configurations.

use hysteria2::adapter::{AdapterType, Hy2Adapter};
use hysteria2::obfs::SalamanderObfs;

fn obfuscated(kind: Option<&str>, password: Option<&str>) -> Result<Hy2Adapter, String> {
    Hy2Adapter::new_full(
        "p", "h", 1, "pwd", None, false, None, kind, password, None, None,
    )
}

#[test]
fn salamander_obfs_requires_password() {
    let result = Hy2Adapter::new_full(
        "test",
        "1.2.3.4",
        443,
        "pwd",
        None,
        false,
        None,
        Some("salamander"),
        None, // no obfs-password
        None,
        None,
    );
    assert!(result.is_err());
    assert!(result.unwrap_err().contains("obfs-password"));
}

#[test]
fn unknown_obfs_type_rejected() {
    let result = Hy2Adapter::new_full(
        "test", "1.2.3.4", 443, "pwd", None, false, None,
        Some("foobar"), Some("x"), None, None,
    );
    assert!(result.is_err());
    assert!(result.unwrap_err().contains("unsupported obfs type"));
}

#[test]
fn adapter_new_empty_password_rejected() {
    let result = Hy2Adapter::new("test", "1.2.3.4", 443, "", None, false);
    assert!(result.is_err());
}

#[test]
fn complaints_in_full() {
    assert_eq!(
        Hy2Adapter::new("n", "h", 1, "", None, false).unwrap_err(),
        "hysteria2[n]: password must not be empty"
    );
    assert_eq!(
        obfuscated(Some("salamander"), None).unwrap_err(),
        "hysteria2[p]: obfs=salamander requires obfs-password to be set"
    );
    assert_eq!(
        obfuscated(Some("salamander"), Some("")).unwrap_err(),
        "hysteria2[p]: obfs=salamander requires obfs-password to be set"
    );
    assert_eq!(
        obfuscated(Some("Salamander"), Some("x")).unwrap_err(),
        "hysteria2[p]: unsupported obfs type 'Salamander'; only 'salamander' is supported"
    );
}

#[test]
fn the_password_is_checked_first() {
    let e = Hy2Adapter::new_full(
        "n", "h", 1, "", None, false, None, Some("foobar"), None, None, None,
    )
    .unwrap_err();
    assert_eq!(e, "hysteria2[n]: password must not be empty");
}

#[test]
fn plain_adapter() {
    let a = Hy2Adapter::new("n", "example.com", 443, "secret", None, true).unwrap();
    assert_eq!(a.name(), "n");
    assert_eq!(a.addr(), "example.com:443");
    assert_eq!(a.password(), "secret");
    assert_eq!(a.sni(), "example.com");
    assert!(a.skip_cert_verify());
    assert_eq!(a.ca_pem(), None);
    assert!(a.obfs().is_none());
    assert_eq!(a.up_bps(), None);
    assert_eq!(a.down_bps(), None);
    assert_eq!(a.adapter_type(), AdapterType::Hysteria2);
    assert!(a.support_udp());
}

#[test]
fn full_adapter() {
    let a = Hy2Adapter::new_full(
        "n",
        "h",
        65535,
        " ",
        Some("sni"),
        false,
        Some(vec![1, 2]),
        Some("salamander"),
        Some("abc"),
        Some(5),
        Some(6),
    )
    .unwrap();
    assert_eq!(a.addr(), "h:65535");
    assert_eq!(a.password(), " ");
    assert_eq!(a.sni(), "sni");
    assert!(!a.skip_cert_verify());
    assert_eq!(a.ca_pem(), Some(&[1u8, 2][..]));
    assert_eq!(a.up_bps(), Some(5));
    assert_eq!(a.down_bps(), Some(6));
    assert_eq!(
        a.obfs().as_ref().unwrap().key(),
        SalamanderObfs::new("abc").key()
    );
}

#[test]
fn blank_sni_falls_back_to_the_server() {
    for sni in ["", " ", "\t\u{3000}\n"] {
        let a = Hy2Adapter::new("n", "h", 0, "p", Some(sni), false).unwrap();
        assert_eq!(a.sni(), "h");
        assert_eq!(a.addr(), "h:0");
    }
    let a = Hy2Adapter::new("n", "h", 0, "p", Some(" x "), false).unwrap();
    assert_eq!(a.sni(), " x ");
}

#[test]
fn obfuscation_can_be_off() {
    assert!(obfuscated(None, Some("x")).unwrap().obfs().is_none());
    assert!(obfuscated(Some(""), Some("x")).unwrap().obfs().is_none());
}

#[test]
fn datagrams_are_masked_by_the_adapter() {
    let mut buf = vec![0u8; 3];
    obfuscated(Some("salamander"), Some("abc")).unwrap().obfs_apply(&mut buf);
    assert_eq!(buf, vec![0xba, 0x78, 0x16]);
    obfuscated(Some("salamander"), Some("abc")).unwrap().obfs_apply(&mut buf);
    assert_eq!(buf, vec![0, 0, 0]);
    obfuscated(None, None).unwrap().obfs_apply(&mut buf);
    assert_eq!(buf, vec![0, 0, 0]);
}

#[test]
fn hints_change_nothing_else() {
    let a = Hy2Adapter::new_full(
        "n", "h", 1, "p", None, false, None, None, None, Some(1), None,
    )
    .unwrap();
    let b = Hy2Adapter::new("n", "h", 1, "p", None, false).unwrap();
    assert_eq!(
        (a.name(), a.addr(), a.password(), a.sni(), a.skip_cert_verify(), a.ca_pem()),
        (b.name(), b.addr(), b.password(), b.sni(), b.skip_cert_verify(), b.ca_pem())
    );
}

#[test]
fn bad_server_addresses_are_reported_by_name() {
    let a = Hy2Adapter::new("n", "h", 1, "p", None, false).unwrap();
    assert_eq!(a.server_addr_error("why"), "hysteria2[n]: bad server addr: why");
}
