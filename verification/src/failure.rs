//! The reports of what failed around the protocol: sockets, streams and
//! datagrams.

use vstd::prelude::*;
use vstd::string::StringExecFns;

verus! {

/// What was being done.
#[derive(Debug, Clone, Copy, PartialEq, Eq, Structural)]
pub enum Stage {
    /// Choosing the local address.
    Bind,
    /// Creating the QUIC endpoint.
    CreateEndpoint,
    /// Starting the connection.
    ConnectInit,
    /// Waiting for the connection.
    QuicHandshake,
    /// Opening the stream for the authentication.
    OpenAuthStream,
    /// Sending the authentication request.
    WriteAuth,
    /// Ending the authentication request.
    FinishAuth,
    /// Reading the answer to the authentication request.
    ReadAuthResponse,
    /// Opening the stream for a TCP connection.
    OpenStream,
    /// Sending the TCP request.
    WriteRequest,
    /// Flushing the TCP request.
    FlushRequest,
    /// Reading the TCP response.
    ReadResponse,
    /// Reading the address that packets go to.
    UdpTarget,
    /// Receiving a datagram.
    UdpRead,
    /// Sending a datagram.
    UdpSend,
    /// Asking for the local address.
    LocalAddr,
}

/// What a report says of a stage.
pub open spec fn stage_label(stage: Stage) -> Seq<char> {
    match stage {
        Stage::Bind => "hysteria2: bind failed: "@,
        Stage::CreateEndpoint => "hysteria2: create endpoint failed: "@,
        Stage::ConnectInit => "hysteria2: connect init failed: "@,
        Stage::QuicHandshake => "hysteria2: quic handshake failed: "@,
        Stage::OpenAuthStream => "hysteria2: open auth stream failed: "@,
        Stage::WriteAuth => "hysteria2: write /auth failed: "@,
        Stage::FinishAuth => "hysteria2: finish /auth failed: "@,
        Stage::ReadAuthResponse => "hysteria2: read /auth response failed: "@,
        Stage::OpenStream => "hysteria2: open stream failed: "@,
        Stage::WriteRequest => "hysteria2: write request failed: "@,
        Stage::FlushRequest => "hysteria2: flush request failed: "@,
        Stage::ReadResponse => "hysteria2: read response failed: "@,
        Stage::UdpTarget => "hysteria2: bad udp target: "@,
        Stage::UdpRead => "hysteria2 udp read failed: "@,
        Stage::UdpSend => "hysteria2 udp send failed: "@,
        Stage::LocalAddr => "hysteria2 local_addr failed: "@,
    }
}

/// Reports that a stage failed, for the reason given.
pub fn stage_error(stage: Stage, why: &str) -> (r: String)
    ensures
        r@ == stage_label(stage) + why@,
{
    let label = match stage {
        Stage::Bind => "hysteria2: bind failed: ",
        Stage::CreateEndpoint => "hysteria2: create endpoint failed: ",
        Stage::ConnectInit => "hysteria2: connect init failed: ",
        Stage::QuicHandshake => "hysteria2: quic handshake failed: ",
        Stage::OpenAuthStream => "hysteria2: open auth stream failed: ",
        Stage::WriteAuth => "hysteria2: write /auth failed: ",
        Stage::FinishAuth => "hysteria2: finish /auth failed: ",
        Stage::ReadAuthResponse => "hysteria2: read /auth response failed: ",
        Stage::OpenStream => "hysteria2: open stream failed: ",
        Stage::WriteRequest => "hysteria2: write request failed: ",
        Stage::FlushRequest => "hysteria2: flush request failed: ",
        Stage::ReadResponse => "hysteria2: read response failed: ",
        Stage::UdpTarget => "hysteria2: bad udp target: ",
        Stage::UdpRead => "hysteria2 udp read failed: ",
        Stage::UdpSend => "hysteria2 udp send failed: ",
        Stage::LocalAddr => "hysteria2 local_addr failed: ",
    };
    let mut text = label.to_owned();
    text.append(why);
    text
}

} // verus!
