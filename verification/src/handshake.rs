//! The exchange that opens a proxied TCP stream, as a machine: it says what to
//! do next, and is told what came of it.

use crate::number::{decimal, push_decimal};
use crate::tcp::{
    decode_tcp_response, encode_tcp_request, law_tcp_response_roundtrip, law_tcp_response_stable,
    push_slice, tcp_request, tcp_response, tcp_response_bytes,
};
use crate::text::str_eq;
use crate::varint::{law_varint_layout, varint_bytes, VARINT_MAX};
use vstd::prelude::*;
use vstd::string::StringExecFns;
use vstd::utf8::encode_utf8;

verus! {

/// The address of a connection that names no host.
pub open spec fn hostless_address(port: u16) -> Seq<char> {
    ":"@ + decimal(port as nat)
}

/// Refuses an address that names no host.
pub fn check_target(target: &str, dst_port: u16) -> (r: Result<(), String>)
    ensures
        match r {
            Ok(()) => target@ != hostless_address(dst_port),
            Err(e) => target@ == hostless_address(dst_port) && e@
                == "hysteria2: missing target host/ip in metadata"@,
        },
        (r is Err) == (target@ == ":"@ + decimal(dst_port as nat)),
{
    let mut hostless = ":".to_owned();
    push_decimal(&mut hostless, dst_port as u64);
    if str_eq(target, hostless.as_str()) {
        Err("hysteria2: missing target host/ip in metadata".to_owned())
    } else {
        Ok(())
    }
}

/// What to do next.
#[derive(Debug)]
pub enum HandshakeStep {
    /// Read more bytes from the stream.
    Read,
    /// The stream is open.
    Established,
    /// Give up, for the reason given.
    Failed(String),
}

/// The mathematical value of a step.
pub enum HandshakeStepView {
    Read,
    Established,
    Failed(Seq<char>),
}

impl View for HandshakeStep {
    type V = HandshakeStepView;

    open spec fn view(&self) -> HandshakeStepView {
        match self {
            HandshakeStep::Read => HandshakeStepView::Read,
            HandshakeStep::Established => HandshakeStepView::Established,
            HandshakeStep::Failed(e) => HandshakeStepView::Failed(e@),
        }
    }
}

/// What to do once `received` has arrived.
pub open spec fn handshake_step(target: Seq<char>, received: Seq<u8>) -> HandshakeStepView {
    match tcp_response(received) {
        Ok(None) => HandshakeStepView::Read,
        Ok(Some((true, _, _))) => HandshakeStepView::Established,
        Ok(Some((false, message, _))) => HandshakeStepView::Failed(
            "hysteria2: server rejected target "@ + target + ": "@ + message,
        ),
        Err(e) => HandshakeStepView::Failed(e),
    }
}

/// What to do when the stream ends before a response.
pub open spec fn handshake_eof() -> HandshakeStepView {
    HandshakeStepView::Failed("hysteria2: EOF before TCPResponse"@)
}

/// The exchange for one stream.
#[derive(Debug)]
pub struct TcpHandshake {
    target: String,
    received: Vec<u8>,
}

impl TcpHandshake {
    /// The target of the stream.
    pub closed spec fn target(&self) -> Seq<char> {
        self.target@
    }

    /// The bytes that have arrived.
    pub closed spec fn received(&self) -> Seq<u8> {
        self.received@
    }

    /// Starts the exchange for a stream to `target`.
    pub fn new(target: &str) -> (r: Self)
        ensures
            r.target() == target@,
            r.received() == Seq::<u8>::empty(),
    {
        TcpHandshake { target: target.to_owned(), received: Vec::with_capacity(256) }
    }

    /// The bytes to send first.
    pub fn request(&self) -> (r: Vec<u8>)
        requires
            encode_utf8(self.target()).len() <= VARINT_MAX,
            encode_utf8(self.target()).len() + 16 <= isize::MAX,
        ensures
            r@ == tcp_request(encode_utf8(self.target()), Seq::empty()),
            r@ == seq![0x44u8, 0x01u8] + varint_bytes(encode_utf8(self.target()).len())
                + encode_utf8(self.target()) + seq![0u8],
    {
        proof {
            law_varint_layout(0);
        }
        let padding: [u8; 0] = [];
        assert(padding@ =~= Seq::<u8>::empty());
        encode_tcp_request(self.target.as_str(), &padding)
    }

    /// What to do next.
    pub fn step(&self) -> (r: HandshakeStep)
        ensures
            r@ == handshake_step(self.target(), self.received()),
            match r {
                HandshakeStep::Read => tcp_response(self.received()) matches Ok(None),
                HandshakeStep::Established => tcp_response(self.received()) matches Ok(
                    Some((ok, _, _)),
                ) && ok,
                HandshakeStep::Failed(e) => match tcp_response(self.received()) {
                    Ok(Some((ok, message, _))) => !ok && e@ == "hysteria2: server rejected target "@
                        + self.target() + ": "@ + message,
                    Ok(None) => false,
                    Err(text) => e@ == text,
                },
            },
    {
        match decode_tcp_response(self.received.as_slice()) {
            Ok(None) => HandshakeStep::Read,
            Ok(Some(response)) => {
                if response.ok {
                    HandshakeStep::Established
                } else {
                    let mut text = "hysteria2: server rejected target ".to_owned();
                    text.append(self.target.as_str());
                    text.append(": ");
                    text.append(response.message.as_str());
                    HandshakeStep::Failed(text)
                }
            },
            Err(e) => HandshakeStep::Failed(e),
        }
    }

    /// Takes the bytes of one read, of which there are none at the end of the
    /// stream, and says what to do next.
    pub fn on_read(&mut self, chunk: &[u8]) -> (r: HandshakeStep)
        ensures
            final(self).target() == old(self).target(),
            final(self).received() == old(self).received() + chunk@,
            r@ == (if chunk@.len() == 0 {
                handshake_eof()
            } else {
                handshake_step(old(self).target(), old(self).received() + chunk@)
            }),
            chunk@.len() == 0 ==> (r matches HandshakeStep::Failed(e) && e@
                == "hysteria2: EOF before TCPResponse"@),
            chunk@.len() > 0 ==> match r {
                HandshakeStep::Read => tcp_response(old(self).received() + chunk@) matches Ok(None),
                HandshakeStep::Established => tcp_response(
                    old(self).received() + chunk@,
                ) matches Ok(Some((ok, _, _))) && ok,
                HandshakeStep::Failed(e) => match tcp_response(old(self).received() + chunk@) {
                    Ok(Some((ok, message, _))) => !ok && e@ == "hysteria2: server rejected target "@
                        + old(self).target() + ": "@ + message,
                    Ok(None) => false,
                    Err(text) => e@ == text,
                },
            },
    {
        push_slice(&mut self.received, chunk);
        if chunk.len() == 0 {
            HandshakeStep::Failed("hysteria2: EOF before TCPResponse".to_owned())
        } else {
            self.step()
        }
    }
}

/// The client reads on exactly as long as the response is not decided, opens
/// the stream exactly on an accepting one, and gives up on anything else: on a
/// refusal with the target and the server's message, on bytes that are no
/// response with the complaint about them.
pub proof fn law_handshake_steps(target: Seq<char>, received: Seq<u8>)
    ensures
        handshake_step(target, received) is Read <==> tcp_response(received) matches Ok(None),
        handshake_step(target, received) is Established <==> (tcp_response(received) matches Ok(
            Some((ok, _, _)),
        ) && ok),
        tcp_response(received) matches Ok(Some((ok, message, _))) ==> !ok ==> handshake_step(
            target,
            received,
        ) == HandshakeStepView::Failed(
            "hysteria2: server rejected target "@ + target + ": "@ + message,
        ),
        tcp_response(received) matches Err(text) ==> handshake_step(target, received)
            == HandshakeStepView::Failed(text),
{
}

/// A step other than reading stands, whatever arrives afterwards.
pub proof fn law_handshake_stable(target: Seq<char>, received: Seq<u8>, more: Seq<u8>)
    requires
        handshake_step(target, received) !is Read,
    ensures
        handshake_step(target, received + more) == handshake_step(target, received),
{
    law_tcp_response_stable(received, more);
}

/// The outcome of reading `chunks`, one after another, until a step other than
/// reading.
pub open spec fn handshake_run(
    target: Seq<char>,
    received: Seq<u8>,
    chunks: Seq<Seq<u8>>,
) -> HandshakeStepView
    decreases chunks.len(),
{
    let step = handshake_step(target, received);
    if step is Read && chunks.len() > 0 {
        handshake_run(target, received + chunks[0], chunks.drop_first())
    } else {
        step
    }
}

/// How the stream is cut into reads does not matter: the outcome is that of
/// all the bytes at once.
pub proof fn law_handshake_chunking(target: Seq<char>, received: Seq<u8>, chunks: Seq<Seq<u8>>)
    ensures
        handshake_run(target, received, chunks) == handshake_step(
            target,
            received + chunks.flatten(),
        ),
    decreases chunks.len(),
{
    if chunks.len() == 0 {
        assert(received + chunks.flatten() =~= received);
    } else if handshake_step(target, received) is Read {
        law_handshake_chunking(target, received + chunks[0], chunks.drop_first());
        assert(received + chunks[0] + chunks.drop_first().flatten() =~= received
            + chunks.flatten());
    } else {
        law_handshake_stable(target, received, chunks.flatten());
    }
}

/// A response opens the stream or refuses it, as the server says, and a
/// refusal is reported with the target and the server's message.
pub proof fn law_handshake_answer(
    target: Seq<char>,
    ok: bool,
    message: Seq<char>,
    padding: Seq<u8>,
    after: Seq<u8>,
)
    requires
        encode_utf8(message).len() <= VARINT_MAX,
        padding.len() <= VARINT_MAX,
    ensures
        handshake_step(target, tcp_response_bytes(ok, message, padding) + after) == (if ok {
            HandshakeStepView::Established
        } else {
            HandshakeStepView::Failed(
                "hysteria2: server rejected target "@ + target + ": "@ + message,
            )
        }),
{
    law_tcp_response_roundtrip(ok, message, padding, after);
}

} // verus!
