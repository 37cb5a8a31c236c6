//! Trusted certificates and the settings of a TLS session.

use hysteria2::roots::{add_bundle, session_roots, tls_settings};
use rustls::RootCertStore;

fn tlv(tag: u8, content: &[u8]) -> Vec<u8> {
    let mut out = vec![tag];
    if content.len() < 128 {
        out.push(content.len() as u8);
    } else {
        out.extend_from_slice(&[0x82, (content.len() >> 8) as u8, content.len() as u8]);
    }
    out.extend_from_slice(content);
    out
}

fn seq(parts: &[&[u8]]) -> Vec<u8> {
    tlv(0x30, &parts.concat())
}

/// A certificate in version 3 without extensions, for the subject with the
/// given name.
fn certificate(name: u8) -> Vec<u8> {
    let algorithm = seq(&[&tlv(0x06, &[0x2A, 0x03])]);
    let subject = seq(&[&tlv(0x04, &[name])]);
    let tbs = seq(&[
        &tlv(0xA0, &tlv(0x02, &[2])),
        &tlv(0x02, &[1]),
        &algorithm,
        &subject,
        &seq(&[]),
        &subject,
        &seq(&[&tlv(0x04, &[name, name])]),
    ]);
    seq(&[&tbs, &algorithm, &tlv(0x03, &[0, 1])])
}

fn base64(data: &[u8]) -> String {
    let table = b"ABCDEFGHIJKLMNOPQRSTUVWXYZabcdefghijklmnopqrstuvwxyz0123456789+/";
    let mut out = String::new();
    for chunk in data.chunks(3) {
        let b = [chunk[0], *chunk.get(1).unwrap_or(&0), *chunk.get(2).unwrap_or(&0)];
        let n = (b[0] as u32) << 16 | (b[1] as u32) << 8 | b[2] as u32;
        for i in 0..4 {
            if i <= chunk.len() {
                out.push(table[(n >> (18 - 6 * i)) as usize & 63] as char);
            } else {
                out.push('=');
            }
        }
    }
    out
}

fn pem(der: &[u8]) -> String {
    format!(
        "-----BEGIN CERTIFICATE-----\n{}\n-----END CERTIFICATE-----\n",
        base64(der)
    )
}

fn empty() -> RootCertStore {
    RootCertStore { roots: Vec::new() }
}

#[test]
fn built_in_roots_alone() {
    let store = session_roots(None).unwrap();
    assert_eq!(store.roots, webpki_roots::TLS_SERVER_ROOTS.to_vec());
    assert!(!store.roots.is_empty());
}

#[test]
fn bundles_follow_the_built_in_roots() {
    let text = format!("noise\n{}{}", pem(&certificate(7)), pem(&certificate(8)));
    let store = session_roots(Some(text.as_bytes())).unwrap();
    let n = webpki_roots::TLS_SERVER_ROOTS.len();
    assert_eq!(store.roots.len(), n + 2);
    assert_eq!(&store.roots[..n], webpki_roots::TLS_SERVER_ROOTS);
    assert_eq!(store.roots[n].subject.as_ref(), &[0x04, 1, 7]);
    assert_eq!(store.roots[n + 1].subject.as_ref(), &[0x04, 1, 8]);
    assert_eq!(
        store.roots[n].subject_public_key_info.as_ref(),
        &[0x04, 2, 7, 7]
    );
    assert!(store.roots[n].name_constraints.is_none());
}

#[test]
fn bundles_without_certificates() {
    let expected = "hysteria2: ca/ca-str contained no valid certificates";
    assert_eq!(session_roots(Some(b"")).unwrap_err(), expected);
    assert_eq!(session_roots(Some(b"no PEM here")).unwrap_err(), expected);
    let key = "-----BEGIN PUBLIC KEY-----\nAAAA\n-----END PUBLIC KEY-----\n";
    assert_eq!(session_roots(Some(key.as_bytes())).unwrap_err(), expected);
    assert_eq!(add_bundle(empty(), Ok(Vec::new())).unwrap_err(), expected);
}

#[test]
fn bundles_that_are_no_pem() {
    let e = session_roots(Some(b"-----BEGIN CERTIFICATE-----\nAAAA\n")).unwrap_err();
    assert_eq!(
        e,
        "hysteria2: failed to parse CA PEM: section end \"CERTIFICATE\" missing"
    );
    assert_eq!(
        add_bundle(empty(), Err("why".to_string())).unwrap_err(),
        "hysteria2: failed to parse CA PEM: why"
    );
}

#[test]
fn bundles_with_a_bad_certificate() {
    let text = format!("{}{}", pem(&certificate(7)), pem(&[1, 2, 3]));
    let e = session_roots(Some(text.as_bytes())).unwrap_err();
    let why = empty()
        .add(rustls::pki_types::CertificateDer::from(&[1u8, 2, 3][..]))
        .unwrap_err();
    assert_eq!(e, format!("hysteria2: failed to add CA cert: {why}"));
}

#[test]
fn parsed_bundles_keep_what_was_trusted() {
    let one = add_bundle(empty(), Ok(vec![certificate(1)])).unwrap();
    let two = add_bundle(one.clone(), Ok(vec![certificate(2), certificate(1)])).unwrap();
    assert_eq!(two.roots.len(), 3);
    assert_eq!(two.roots[0], one.roots[0]);
    assert_eq!(two.roots[2], one.roots[0]);
    assert_ne!(two.roots[1], one.roots[0]);
}

#[test]
fn session_settings() {
    let strict = tls_settings(false, None).unwrap();
    assert!(strict.verify_server);
    assert_eq!(strict.alpn, vec![b"h3".to_vec()]);
    assert_eq!(strict.roots.len(), webpki_roots::TLS_SERVER_ROOTS.len());
    assert!(!tls_settings(true, None).unwrap().verify_server);
    let text = pem(&certificate(7));
    let custom = tls_settings(true, Some(text.as_bytes())).unwrap();
    assert_eq!(custom.roots.len(), strict.roots.len() + 1);
    assert_eq!(
        tls_settings(false, Some(b"")).unwrap_err(),
        "hysteria2: ca/ca-str contained no valid certificates"
    );
}
