//! Authentication, the TCP exchange and datagrams.

use hysteria2::auth::{
    auth_request, check_auth_response, judge_auth_text, AUTH_RESPONSE_LIMIT,
};
use hysteria2::failure::{stage_error, Stage};
use hysteria2::handshake::{check_target, HandshakeStep, TcpHandshake};
use hysteria2::obfs::SalamanderObfs;
use hysteria2::udp::{encode_udp_frame, outgoing_datagram, UdpEndpoint, UdpInbox};

fn failure(step: HandshakeStep) -> String {
    match step {
        HandshakeStep::Failed(text) => text,
        other => panic!("{other:?}"),
    }
}

fn endpoint(host: &str, port: u16) -> UdpEndpoint {
    UdpEndpoint {
        host: host.to_string(),
        port,
    }
}

#[test]
fn auth_request_text() {
    assert_eq!(
        auth_request("example.com", "p\u{e4}ss"),
        "POST /auth HTTP/3\r\nHost: example.com\r\nContent-Length: 5\r\n\r\np\u{e4}ss"
    );
    assert!(auth_request("h", &"x".repeat(1234)).contains("Content-Length: 1234\r\n"));
    assert_eq!(AUTH_RESPONSE_LIMIT, 512);
}

#[test]
fn auth_accepted() {
    assert_eq!(check_auth_response(b"HTTP/3 200 OK"), Ok(()));
    assert_eq!(check_auth_response(b"HTTP/3 204"), Ok(()));
    assert_eq!(check_auth_response(b"\xFF 204 \xC3"), Ok(()));
    assert_eq!(judge_auth_text("x 2000"), Ok(()));
}

#[test]
fn auth_refused() {
    assert_eq!(
        check_auth_response(b""),
        Err("hysteria2: empty /auth response".to_string())
    );
    assert_eq!(
        check_auth_response(b"HTTP/3 404 200"),
        Ok(()),
    );
    assert_eq!(
        check_auth_response(b"HTTP/3 403"),
        Err("hysteria2: auth failed: HTTP/3 403".to_string())
    );
    assert_eq!(
        check_auth_response(b"200"),
        Err("hysteria2: auth failed: 200".to_string())
    );
    assert_eq!(
        check_auth_response(b"a\xFFb"),
        Err("hysteria2: auth failed: a\u{fffd}b".to_string())
    );
    assert_eq!(
        judge_auth_text(""),
        Err("hysteria2: auth failed: ".to_string())
    );
}

#[test]
fn targets_need_a_host() {
    assert_eq!(
        check_target(":443", 443),
        Err("hysteria2: missing target host/ip in metadata".to_string())
    );
    assert_eq!(check_target(":443", 80), Ok(()));
    assert_eq!(check_target("a:443", 443), Ok(()));
    assert_eq!(
        check_target(":0", 0),
        Err("hysteria2: missing target host/ip in metadata".to_string())
    );
}

#[test]
fn handshake_accepted_in_one_read() {
    let mut h = TcpHandshake::new("a:1");
    assert_eq!(h.request(), vec![0x44, 0x01, 3, b'a', b':', b'1', 0]);
    assert!(matches!(h.step(), HandshakeStep::Read));
    assert!(matches!(h.on_read(&[0, 0, 0]), HandshakeStep::Established));
    assert!(matches!(h.step(), HandshakeStep::Established));
}

#[test]
fn handshake_does_not_depend_on_the_reads() {
    let frame = [1u8, 2, b'n', b'o', 3, 9, 9, 9, b'x'];
    let expected = "hysteria2: server rejected target a:1: no";
    let mut whole = TcpHandshake::new("a:1");
    assert_eq!(failure(whole.on_read(&frame)), expected);
    let mut parts = TcpHandshake::new("a:1");
    for i in 0..7 {
        assert!(matches!(parts.on_read(&frame[i..i + 1]), HandshakeStep::Read));
    }
    assert_eq!(failure(parts.on_read(&frame[7..8])), expected);
    assert_eq!(failure(parts.on_read(&frame[8..])), expected);
}

#[test]
fn handshake_failures() {
    let mut h = TcpHandshake::new("a:1");
    assert_eq!(failure(h.on_read(&[])), "hysteria2: EOF before TCPResponse");
    let mut h = TcpHandshake::new("a:1");
    assert!(matches!(h.on_read(&[0]), HandshakeStep::Read));
    assert_eq!(failure(h.on_read(&[])), "hysteria2: EOF before TCPResponse");
    let mut h = TcpHandshake::new("a:1");
    assert_eq!(
        failure(h.on_read(&[9])),
        "hysteria2: unknown TCPResponse status 0x9"
    );
}

#[test]
fn udp_frame_layout() {
    assert_eq!(
        encode_udp_frame("1.2.3.4", 0x1234, &[5, 6]),
        vec![7, b'1', b'.', b'2', b'.', b'3', b'.', b'4', 0x12, 0x34, 5, 6]
    );
    assert_eq!(encode_udp_frame("", 0, &[]), vec![0, 0, 0]);
    assert_ne!(
        encode_udp_frame("1", 0x3233, &[]),
        encode_udp_frame("12", 0x3300, &[])
    );
}

#[test]
fn port_zero_stands_for_the_peer() {
    let peer = endpoint("9.9.9.9", 53);
    let there = endpoint("8.8.8.8", 5353);
    let nowhere = endpoint("8.8.8.8", 0);
    assert_eq!(
        outgoing_datagram(&None, &peer, &there, &[1]),
        encode_udp_frame("8.8.8.8", 5353, &[1])
    );
    assert_eq!(
        outgoing_datagram(&None, &peer, &nowhere, &[1]),
        encode_udp_frame("9.9.9.9", 53, &[1])
    );
}

#[test]
fn datagrams_survive_the_wire() {
    let key = Some(SalamanderObfs::new("k"));
    let peer = endpoint("9.9.9.9", 53);
    let plain = encode_udp_frame("9.9.9.9", 53, b"hello");
    let sent = outgoing_datagram(&key, &peer, &peer, b"hello");
    assert_ne!(sent, plain);
    let mut inbox = UdpInbox::new();
    assert!(inbox.needs_datagram());
    inbox.accept(&key, sent);
    assert!(!inbox.needs_datagram());
    let mut buf = vec![0u8; 64];
    let n = inbox.read_packet(&mut buf);
    assert_eq!(&buf[..n], &plain[..]);
    assert!(buf[n..].iter().all(|b| *b == 0));
    assert!(inbox.needs_datagram());
}

#[test]
fn short_reads_drop_the_rest() {
    let mut inbox = UdpInbox::new();
    inbox.accept(&None, vec![1, 2, 3, 4]);
    let mut buf = [0u8; 2];
    assert_eq!(inbox.read_packet(&mut buf), 2);
    assert_eq!(buf, [1, 2]);
    assert_eq!(inbox.read_packet(&mut buf), 0);
    assert_eq!(buf, [1, 2]);
}

#[test]
fn failures_are_reported_by_stage() {
    for (stage, label) in [
        (Stage::Bind, "hysteria2: bind failed: "),
        (Stage::CreateEndpoint, "hysteria2: create endpoint failed: "),
        (Stage::ConnectInit, "hysteria2: connect init failed: "),
        (Stage::QuicHandshake, "hysteria2: quic handshake failed: "),
        (Stage::OpenAuthStream, "hysteria2: open auth stream failed: "),
        (Stage::WriteAuth, "hysteria2: write /auth failed: "),
        (Stage::FinishAuth, "hysteria2: finish /auth failed: "),
        (Stage::ReadAuthResponse, "hysteria2: read /auth response failed: "),
        (Stage::OpenStream, "hysteria2: open stream failed: "),
        (Stage::WriteRequest, "hysteria2: write request failed: "),
        (Stage::FlushRequest, "hysteria2: flush request failed: "),
        (Stage::ReadResponse, "hysteria2: read response failed: "),
        (Stage::UdpTarget, "hysteria2: bad udp target: "),
        (Stage::UdpRead, "hysteria2 udp read failed: "),
        (Stage::UdpSend, "hysteria2 udp send failed: "),
        (Stage::LocalAddr, "hysteria2 local_addr failed: "),
    ] {
        assert_eq!(stage_error(stage, "why: \u{e4}"), format!("{label}why: \u{e4}"));
    }
}
