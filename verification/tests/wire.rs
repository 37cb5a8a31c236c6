//! Variable-length integers and the TCP frames.

use hysteria2::tcp::{
    decode_tcp_response, encode_tcp_request, TcpResponse, FRAME_ID_TCP_REQUEST, TCP_STATUS_ERROR,
    TCP_STATUS_OK,
};
use hysteria2::varint::{varint_decode, varint_encode, VARINT_MAX};

fn encoded(v: u64) -> Vec<u8> {
    let mut buf = Vec::new();
    varint_encode(&mut buf, v);
    buf
}

fn response(status: u8, message: &[u8], padding: &[u8]) -> Vec<u8> {
    let mut buf = vec![status];
    varint_encode(&mut buf, message.len() as u64);
    buf.extend_from_slice(message);
    varint_encode(&mut buf, padding.len() as u64);
    buf.extend_from_slice(padding);
    buf
}

#[test]
fn varint_roundtrip() {
    for &v in &[0u64, 63, 64, 16383, 16384, 1 << 30, VARINT_MAX] {
        let mut buf = Vec::new();
        varint_encode(&mut buf, v);
        let (decoded, _) = varint_decode(&buf).unwrap();
        assert_eq!(decoded, v);
    }
}

#[test]
fn varint_limit() {
    assert_eq!(VARINT_MAX, (1u64 << 62) - 1);
}

#[test]
fn varint_known_encodings() {
    assert_eq!(encoded(0), vec![0x00]);
    assert_eq!(encoded(63), vec![0x3F]);
    assert_eq!(encoded(64), vec![0x40, 0x40]);
    assert_eq!(encoded(15293), vec![0x7B, 0xBD]);
    assert_eq!(encoded(16383), vec![0x7F, 0xFF]);
    assert_eq!(encoded(16384), vec![0x80, 0x00, 0x40, 0x00]);
    assert_eq!(encoded(494_878_333), vec![0x9D, 0x7F, 0x3E, 0x7D]);
    assert_eq!(encoded((1 << 30) - 1), vec![0xBF, 0xFF, 0xFF, 0xFF]);
    assert_eq!(
        encoded(151_288_809_941_952_652),
        vec![0xC2, 0x19, 0x7C, 0x5E, 0xFF, 0x14, 0xE8, 0x8C]
    );
    assert_eq!(encoded(VARINT_MAX), vec![0xFF; 8]);
}

#[test]
fn varint_encode_appends() {
    let mut buf = vec![9, 8];
    varint_encode(&mut buf, 64);
    assert_eq!(buf, vec![9, 8, 0x40, 0x40]);
}

#[test]
fn varint_decode_ignores_what_follows() {
    for &v in &[0u64, 5, 64, 16384, 1 << 30, VARINT_MAX] {
        let mut buf = encoded(v);
        let n = buf.len();
        buf.extend_from_slice(&[1, 2, 3]);
        assert_eq!(varint_decode(&buf), Some((v, n)));
    }
}

#[test]
fn varint_decode_waits_for_all_bytes() {
    for &v in &[0u64, 64, 16384, VARINT_MAX] {
        let buf = encoded(v);
        for k in 0..buf.len() {
            assert_eq!(varint_decode(&buf[..k]), None);
        }
    }
}

#[test]
fn varint_decode_accepts_long_forms() {
    assert_eq!(varint_decode(&[0x40, 0x05]), Some((5, 2)));
    assert_eq!(varint_decode(&[0x80, 0, 0, 5]), Some((5, 4)));
    assert_eq!(varint_decode(&[0xC0, 0, 0, 0, 0, 0, 0, 5]), Some((5, 8)));
    assert!(encoded(5).len() <= 2);
}

#[test]
fn tcp_request_layout() {
    assert_eq!(FRAME_ID_TCP_REQUEST, 0x401);
    assert_eq!(
        encode_tcp_request("a.b:80", &[7, 7]),
        vec![0x44, 0x01, 6, b'a', b'.', b'b', b':', b'8', b'0', 2, 7, 7]
    );
    assert_eq!(encode_tcp_request("", &[]), vec![0x44, 0x01, 0, 0]);
}

#[test]
fn tcp_request_counts_bytes() {
    assert_eq!(
        encode_tcp_request("\u{e9}", &[]),
        vec![0x44, 0x01, 2, 0xC3, 0xA9, 0]
    );
    let long = "x".repeat(100);
    let frame = encode_tcp_request(&long, &[0; 70]);
    assert_eq!(frame.len(), 2 + 2 + 100 + 2 + 70);
    assert_eq!(&frame[2..4], &[0x40, 100]);
}

#[test]
fn tcp_requests_differ() {
    assert_ne!(encode_tcp_request("ab", &[]), encode_tcp_request("a", b"b"));
}

#[test]
fn decode_tcp_response_partial_returns_none() {
    // Single-byte buffer — status byte present but no message length yet.
    let buf = vec![TCP_STATUS_OK];
    assert!(decode_tcp_response(&buf).unwrap().is_none());
}

#[test]
fn tcp_response_accepting() {
    let mut buf = response(TCP_STATUS_OK, b"hi", &[1, 2, 3]);
    let n = buf.len();
    buf.extend_from_slice(b"payload");
    assert_eq!(
        decode_tcp_response(&buf),
        Ok(Some(TcpResponse {
            ok: true,
            message: "hi".to_string(),
            consumed: n
        }))
    );
}

#[test]
fn tcp_response_refusing() {
    let buf = response(TCP_STATUS_ERROR, "n\u{f6}".as_bytes(), &[]);
    assert_eq!(
        decode_tcp_response(&buf),
        Ok(Some(TcpResponse {
            ok: false,
            message: "n\u{f6}".to_string(),
            consumed: 6
        }))
    );
}

#[test]
fn tcp_response_waits_for_all_bytes() {
    let buf = response(TCP_STATUS_OK, &[b'm'; 80], &[0; 90]);
    for k in 0..buf.len() {
        assert_eq!(decode_tcp_response(&buf[..k]), Ok(None));
    }
    assert!(decode_tcp_response(&buf).unwrap().is_some());
}

#[test]
fn tcp_response_with_long_lengths_waits() {
    let buf = [TCP_STATUS_OK, 0x40, 1, b'a', 0x80, 0, 0, 2, 9, 9, 7];
    for k in 0..10 {
        assert_eq!(decode_tcp_response(&buf[..k]), Ok(None));
    }
    assert_eq!(
        decode_tcp_response(&buf),
        Ok(Some(TcpResponse {
            ok: true,
            message: "a".to_string(),
            consumed: 10
        }))
    );
}

#[test]
fn tcp_request_can_be_read_back() {
    let target = "\u{e4}.example:443";
    let mut buf = encode_tcp_request(target, &[7; 70]);
    let total = buf.len();
    buf.extend_from_slice(&[1, 2, 3]);
    let (id, mut at) = varint_decode(&buf).unwrap();
    assert_eq!(id, FRAME_ID_TCP_REQUEST);
    let mut fields = Vec::new();
    for _ in 0..2 {
        let (len, width) = varint_decode(&buf[at..]).unwrap();
        at += width;
        fields.push(buf[at..at + len as usize].to_vec());
        at += len as usize;
    }
    assert_eq!(fields, vec![target.as_bytes().to_vec(), vec![7; 70]]);
    assert_eq!(at, total);
}

#[test]
fn tcp_response_with_a_huge_length_waits() {
    let mut buf = vec![TCP_STATUS_OK];
    varint_encode(&mut buf, VARINT_MAX);
    buf.extend_from_slice(&[0; 20]);
    assert_eq!(decode_tcp_response(&buf), Ok(None));
}

#[test]
fn tcp_response_unknown_status() {
    assert_eq!(
        decode_tcp_response(&[2]),
        Err("hysteria2: unknown TCPResponse status 0x2".to_string())
    );
    assert_eq!(
        decode_tcp_response(&[0xAB, 0, 0]),
        Err("hysteria2: unknown TCPResponse status 0xab".to_string())
    );
}

#[test]
fn tcp_response_message_not_utf8() {
    for message in [&[0xFFu8][..], &[b'a', 0xC3][..]] {
        let buf = response(TCP_STATUS_OK, message, &[]);
        let e = std::str::from_utf8(message).unwrap_err();
        assert_eq!(
            decode_tcp_response(&buf),
            Err(format!("hysteria2: TCPResponse message is not UTF-8: {e}"))
        );
    }
}

#[test]
fn tcp_response_bad_message_is_refused_before_the_padding() {
    assert!(decode_tcp_response(&[TCP_STATUS_OK, 1, 0xFF]).is_err());
}
