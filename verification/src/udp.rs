//! Datagrams: what is sent for a packet, and what a reader gets of one that
//! arrived.

use crate::obfs::{law_masked_bytes, law_masked_twice, masked, obfs_key, SalamanderObfs};
use crate::tcp::{counted, lemma_counted_unambiguous, push_slice};
use crate::varint::{varint_bytes, varint_encode, VARINT_MAX};
use vstd::prelude::*;
use vstd::utf8::{encode_utf8, encode_utf8_decode_utf8};

verus! {

/// Where a packet goes: the text of an IP address, and a port.
#[derive(Debug)]
pub struct UdpEndpoint {
    pub host: String,
    pub port: u16,
}

/// The destination of a packet for `addr`: port 0 stands for the peer.
pub open spec fn packet_target(peer: UdpEndpoint, addr: UdpEndpoint) -> UdpEndpoint {
    if addr.port == 0 {
        peer
    } else {
        addr
    }
}

/// `port` as two bytes, the most significant byte first.
pub open spec fn port_bytes(port: u16) -> Seq<u8> {
    seq![(port / 256) as u8, (port % 256) as u8]
}

/// The frame of a packet: the destination, then the payload.
pub open spec fn udp_frame(host: Seq<u8>, port: u16, payload: Seq<u8>) -> Seq<u8> {
    counted(host) + port_bytes(port) + payload
}

/// `data` as it is on the wire: masked where there is a key.
pub open spec fn on_wire(key: Option<Seq<u8>>, data: Seq<u8>) -> Seq<u8> {
    match key {
        Some(k) => masked(k, data),
        None => data,
    }
}

/// Writes the frame of a packet.
pub fn encode_udp_frame(host: &str, port: u16, payload: &[u8]) -> (r: Vec<u8>)
    requires
        encode_utf8(host@).len() <= VARINT_MAX,
        payload@.len() + 32 <= isize::MAX,
    ensures
        r@ == udp_frame(encode_utf8(host@), port, payload@),
        r@ == varint_bytes(encode_utf8(host@).len()) + encode_utf8(host@) + seq![
            (port / 256) as u8,
            (port % 256) as u8,
        ] + payload@,
{
    let bytes = host.as_bytes();
    let mut frame: Vec<u8> = Vec::with_capacity(32 + payload.len());
    varint_encode(&mut frame, bytes.len() as u64);
    push_slice(&mut frame, bytes);
    frame.push((port / 256) as u8);
    frame.push((port % 256) as u8);
    push_slice(&mut frame, payload);
    assert(frame@ =~= udp_frame(bytes@, port, payload@));
    proof {
        law_udp_frame_layout(bytes@, port, payload@);
    }
    frame
}

/// Masks a datagram in place where there is a key.  The same call undoes it.
pub fn obfuscate(obfs: &Option<SalamanderObfs>, buf: &mut Vec<u8>)
    ensures
        final(buf)@ == on_wire(obfs_key(*obfs), old(buf)@),
        final(buf)@.len() == old(buf)@.len(),
        *obfs is None ==> final(buf)@ == old(buf)@,
        *obfs matches Some(o) ==> forall|i: int|
            0 <= i < old(buf)@.len() ==> old(buf)@[i] ^ #[trigger] final(buf)@[i] == o@[i % 16],
{
    if let Some(o) = obfs {
        o.apply(buf.as_mut_slice());
    }
}

/// The datagram to send for a packet to `addr`.
pub fn outgoing_datagram(
    obfs: &Option<SalamanderObfs>,
    peer: &UdpEndpoint,
    addr: &UdpEndpoint,
    payload: &[u8],
) -> (r: Vec<u8>)
    requires
        encode_utf8(packet_target(*peer, *addr).host@).len() <= VARINT_MAX,
        payload@.len() + 32 <= isize::MAX,
    ensures
        r@ == on_wire(
            obfs_key(*obfs),
            udp_frame(
                encode_utf8(packet_target(*peer, *addr).host@),
                packet_target(*peer, *addr).port,
                payload@,
            ),
        ),
        addr.port != 0 ==> r@ == on_wire(
            obfs_key(*obfs),
            udp_frame(encode_utf8(addr.host@), addr.port, payload@),
        ),
        addr.port == 0 ==> r@ == on_wire(
            obfs_key(*obfs),
            udp_frame(encode_utf8(peer.host@), peer.port, payload@),
        ),
        addr.port != 0 && *obfs is None ==> r@ == varint_bytes(encode_utf8(addr.host@).len())
            + encode_utf8(addr.host@) + seq![(addr.port / 256) as u8, (addr.port % 256) as u8]
            + payload@,
        addr.port == 0 && *obfs is None ==> r@ == varint_bytes(encode_utf8(peer.host@).len())
            + encode_utf8(peer.host@) + seq![(peer.port / 256) as u8, (peer.port % 256) as u8]
            + payload@,
{
    let target = if addr.port == 0 {
        peer
    } else {
        addr
    };
    let mut frame = encode_udp_frame(target.host.as_str(), target.port, payload);
    obfuscate(obfs, &mut frame);
    frame
}

/// The datagram that waits for a reader.
#[derive(Debug)]
pub struct UdpInbox {
    pending: Vec<u8>,
}

impl View for UdpInbox {
    type V = Seq<u8>;

    closed spec fn view(&self) -> Seq<u8> {
        self.pending@
    }
}

/// The number of bytes that a reader with room for `room` gets of `pending`.
pub open spec fn delivered(pending: nat, room: nat) -> nat {
    if pending <= room {
        pending
    } else {
        room
    }
}

impl UdpInbox {
    /// An inbox in which nothing waits.
    pub fn new() -> (r: Self)
        ensures
            r@ == Seq::<u8>::empty(),
    {
        UdpInbox { pending: Vec::new() }
    }

    /// Whether a datagram has to be received before the next read.
    pub fn needs_datagram(&self) -> (r: bool)
        ensures
            r == (self@.len() == 0),
    {
        self.pending.len() == 0
    }

    /// Takes a datagram as it came, and strips the mask.
    pub fn accept(&mut self, obfs: &Option<SalamanderObfs>, data: Vec<u8>)
        ensures
            final(self)@ == on_wire(obfs_key(*obfs), data@),
            final(self)@.len() == data@.len(),
            *obfs is None ==> final(self)@ == data@,
            *obfs matches Some(o) ==> forall|i: int|
                0 <= i < data@.len() ==> data@[i] ^ #[trigger] final(self)@[i] == o@[i % 16],
    {
        let mut raw = data;
        obfuscate(obfs, &mut raw);
        self.pending = raw;
    }

    /// Hands the waiting datagram to a reader, as much of it as there is room
    /// for; the rest is dropped.
    pub fn read_packet(&mut self, buf: &mut [u8]) -> (n: usize)
        ensures
            n == delivered(old(self)@.len(), old(buf)@.len()),
            final(buf)@ == old(self)@.take(n as int) + old(buf)@.skip(n as int),
            final(self)@ == Seq::<u8>::empty(),
            n <= old(self)@.len(),
            n <= old(buf)@.len(),
            n == old(self)@.len() || n == old(buf)@.len(),
            final(buf)@.len() == old(buf)@.len(),
            forall|i: int| 0 <= i < n ==> #[trigger] final(buf)@[i] == old(self)@[i],
            forall|i: int|
                n <= i < old(buf)@.len() ==> #[trigger] final(buf)@[i] == old(buf)@[i],
    {
        let n = if self.pending.len() <= buf.len() {
            self.pending.len()
        } else {
            buf.len()
        };
        let mut i: usize = 0;
        while i < n
            invariant
                i <= n <= self.pending@.len(),
                n <= old(buf)@.len() == buf@.len(),
                forall|j: int| 0 <= j < i ==> #[trigger] buf@[j] == self.pending@[j],
                forall|j: int| i <= j < buf@.len() ==> #[trigger] buf@[j] == old(buf)@[j],
            decreases n - i,
        {
            let b = self.pending[i];
            buf[i] = b;
            i = i + 1;
        }
        assert(buf@ =~= self.pending@.take(n as int) + old(buf)@.skip(n as int));
        self.pending.clear();
        n
    }
}

/// A packet goes where it is addressed, whatever the peer is; only port 0
/// stands for the peer.
pub proof fn law_packet_target(peer: UdpEndpoint, addr: UdpEndpoint)
    ensures
        addr.port != 0 ==> packet_target(peer, addr).host == addr.host && packet_target(
            peer,
            addr,
        ).port == addr.port,
        addr.port == 0 ==> packet_target(peer, addr).host == peer.host && packet_target(
            peer,
            addr,
        ).port == peer.port,
{
}

/// A frame is the host with its length in front, the port with its higher byte
/// first, and the payload as it is.
pub proof fn law_udp_frame_layout(host: Seq<u8>, port: u16, payload: Seq<u8>)
    ensures
        udp_frame(host, port, payload) == varint_bytes(host.len()) + host + seq![
            (port / 256) as u8,
            (port % 256) as u8,
        ] + payload,
{
}

/// On the wire a datagram keeps its length.  Without a key it is as it was;
/// with one, every byte differs by the key byte of its place.
pub proof fn law_on_wire(key: Option<Seq<u8>>, data: Seq<u8>)
    ensures
        on_wire(key, data).len() == data.len(),
        key is None ==> on_wire(key, data) == data,
        key matches Some(k) ==> forall|i: int|
            0 <= i < data.len() ==> data[i] ^ #[trigger] on_wire(key, data)[i] == k[i % 16],
{
    if let Some(k) = key {
        law_masked_bytes(k, data);
    }
}

/// The receiver of a datagram gets what the sender sent, where both have the
/// same key or neither has one.
pub proof fn law_wire_roundtrip(key: Option<Seq<u8>>, data: Seq<u8>)
    ensures
        on_wire(key, on_wire(key, data)) == data,
{
    if let Some(k) = key {
        law_masked_twice(k, data);
    }
}

/// A frame says which destination and which payload it was made from.
pub proof fn law_udp_frame_unambiguous(
    host1: Seq<char>,
    port1: u16,
    payload1: Seq<u8>,
    host2: Seq<char>,
    port2: u16,
    payload2: Seq<u8>,
)
    requires
        encode_utf8(host1).len() <= VARINT_MAX,
        encode_utf8(host2).len() <= VARINT_MAX,
        udp_frame(encode_utf8(host1), port1, payload1) == udp_frame(
            encode_utf8(host2),
            port2,
            payload2,
        ),
    ensures
        host1 == host2,
        port1 == port2,
        payload1 == payload2,
{
    let h1 = encode_utf8(host1);
    let h2 = encode_utf8(host2);
    let rest1 = port_bytes(port1) + payload1;
    let rest2 = port_bytes(port2) + payload2;
    assert(udp_frame(h1, port1, payload1) =~= counted(h1) + rest1);
    assert(udp_frame(h2, port2, payload2) =~= counted(h2) + rest2);
    lemma_counted_unambiguous(h1, h2, rest1, rest2);
    encode_utf8_decode_utf8(host1);
    encode_utf8_decode_utf8(host2);
    assert(rest1[0] == port_bytes(port1)[0] && rest1[1] == port_bytes(port1)[1]);
    assert(rest2[0] == port_bytes(port2)[0] && rest2[1] == port_bytes(port2)[1]);
    assert(payload1 =~= rest1.skip(2));
    assert(payload2 =~= rest2.skip(2));
}

} // verus!
