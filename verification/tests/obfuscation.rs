//! Salamander obfuscation.

use hysteria2::obfs::SalamanderObfs;
use hysteria2::udp::obfuscate;

#[test]
fn salamander_key_derivation() {
    let obfs = SalamanderObfs::new("test-password");
    assert_eq!(obfs.key().len(), 16);
    // Round-trip: apply twice must yield identity.
    let original = vec![0x01, 0x02, 0x03, 0xFF];
    let mut buf = original.clone();
    obfs.apply(&mut buf);
    assert_ne!(buf, original, "obfuscation must change the bytes");
    obfs.apply(&mut buf);
    assert_eq!(buf, original, "double-apply must restore original bytes");
}

#[test]
fn key_is_the_start_of_the_digest() {
    assert_eq!(
        SalamanderObfs::new("abc").key(),
        &[
            0xba, 0x78, 0x16, 0xbf, 0x8f, 0x01, 0xcf, 0xea, 0x41, 0x41, 0x40, 0xde, 0x5d, 0xae,
            0x22, 0x23
        ]
    );
    assert_eq!(
        SalamanderObfs::new("").key(),
        &[
            0xe3, 0xb0, 0xc4, 0x42, 0x98, 0xfc, 0x1c, 0x14, 0x9a, 0xfb, 0xf4, 0xc8, 0x99, 0x6f,
            0xb9, 0x24
        ]
    );
}

#[test]
fn key_of_a_given_digest() {
    let mut digest = [0u8; 32];
    for i in 0..32 {
        digest[i] = i as u8;
    }
    let obfs = SalamanderObfs::from_digest(digest);
    assert_eq!(obfs.key(), &[0, 1, 2, 3, 4, 5, 6, 7, 8, 9, 10, 11, 12, 13, 14, 15]);
}

#[test]
fn key_is_repeated() {
    let obfs = SalamanderObfs::new("abc");
    let mut buf = vec![0u8; 40];
    obfs.apply(&mut buf);
    for i in 0..40 {
        assert_eq!(buf[i], obfs.key()[i % 16]);
    }
    let mut ones = vec![0xFFu8; 17];
    obfs.apply(&mut ones);
    assert_eq!(ones[16], 0xFF ^ 0xba);
}

#[test]
fn empty_datagrams_stay_empty() {
    let mut buf: Vec<u8> = Vec::new();
    SalamanderObfs::new("abc").apply(&mut buf);
    assert!(buf.is_empty());
}

#[test]
fn clones_have_the_same_key() {
    let obfs = SalamanderObfs::new("abc");
    assert_eq!(obfs.clone().key(), obfs.key());
}

#[test]
fn obfuscation_that_is_off() {
    let mut buf = vec![1, 2, 3];
    obfuscate(&None, &mut buf);
    assert_eq!(buf, vec![1, 2, 3]);
}
