//! The frames that open a proxied TCP stream.

use crate::number::{hexadecimal, law_hexadecimal_byte, push_hexadecimal};
use crate::varint::{varint_bytes, varint_decode, varint_encode, varint_value, VARINT_MAX};
use crate::varint::{
    law_varint_layout, law_varint_roundtrip, law_varint_stable, law_varint_unambiguous, law_varint_value_bounded,
};
use vstd::prelude::*;
use vstd::slice::slice_subrange;
use vstd::string::StringExecFns;
use vstd::utf8::{
    decode_utf8, encode_utf8, encode_utf8_decode_utf8, encode_utf8_valid_utf8, valid_utf8,
};

verus! {

/// The identifier that opens a TCP request.
pub const FRAME_ID_TCP_REQUEST: u64 = 0x401;

/// The status byte of a response that accepts the target.
pub const TCP_STATUS_OK: u8 = 0x00;

/// The status byte of a response that refuses the target.
pub const TCP_STATUS_ERROR: u8 = 0x01;

/// `bytes` with their number in front.
pub open spec fn counted(bytes: Seq<u8>) -> Seq<u8> {
    varint_bytes(bytes.len()) + bytes
}

/// The request for a stream to `target`.
pub open spec fn tcp_request(target: Seq<u8>, padding: Seq<u8>) -> Seq<u8> {
    varint_bytes(FRAME_ID_TCP_REQUEST as nat) + counted(target) + counted(padding)
}

pub(crate) fn push_slice(out: &mut Vec<u8>, bytes: &[u8])
    ensures
        final(out)@ == old(out)@ + bytes@,
{
    out.extend_from_slice(bytes);
    assert(out@ =~= old(out)@ + bytes@);
}

/// Writes the request for a stream to `target`.
pub fn encode_tcp_request(target: &str, padding: &[u8]) -> (r: Vec<u8>)
    requires
        encode_utf8(target@).len() <= VARINT_MAX,
        padding@.len() <= VARINT_MAX,
        encode_utf8(target@).len() + padding@.len() + 16 <= isize::MAX,
    ensures
        r@ == tcp_request(encode_utf8(target@), padding@),
        r@ == seq![0x44u8, 0x01u8] + varint_bytes(encode_utf8(target@).len()) + encode_utf8(target@)
            + varint_bytes(padding@.len()) + padding@,
{
    proof {
        law_tcp_request_layout(encode_utf8(target@), padding@);
    }
    let bytes = target.as_bytes();
    let mut out: Vec<u8> = Vec::with_capacity(bytes.len() + padding.len() + 16);
    varint_encode(&mut out, FRAME_ID_TCP_REQUEST);
    varint_encode(&mut out, bytes.len() as u64);
    push_slice(&mut out, bytes);
    varint_encode(&mut out, padding.len() as u64);
    push_slice(&mut out, padding);
    assert(out@ =~= tcp_request(bytes@, padding@));
    out
}

/// A decoded response.
#[derive(Debug, Clone, PartialEq, Eq)]
pub struct TcpResponse {
    /// Whether the server accepts the target.
    pub ok: bool,
    /// What the server says about it.
    pub message: String,
    /// The number of bytes that the response takes.
    pub consumed: usize,
}

/// What `std::str::from_utf8` says of bytes that are not UTF-8.
pub uninterp spec fn utf8_error_text(bytes: Seq<u8>) -> Seq<char>;

/// `std::str::from_utf8`, with the text copied and the error turned into its
/// message.  It succeeds on exactly the bytes that are UTF-8, and then gives
/// the characters that they encode.  The message of the error is a function
/// of the bytes; it is named, not spelled out.
#[verifier::external_body]
fn utf8_text(bytes: &[u8]) -> (r: Result<String, String>)
    ensures
        match r {
            Ok(text) => valid_utf8(bytes@) && text@ == decode_utf8(bytes@),
            Err(message) => !valid_utf8(bytes@) && message@ == utf8_error_text(bytes@),
        },
{
    match std::str::from_utf8(bytes) {
        Ok(text) => Ok(text.to_string()),
        Err(error) => Err(error.to_string()),
    }
}

/// The complaint about a status byte that is neither of the two known ones.
pub open spec fn unknown_status_text(status: u8) -> Seq<char> {
    "hysteria2: unknown TCPResponse status 0x"@ + hexadecimal(status as nat)
}

/// The complaint about a message that is not UTF-8.
pub open spec fn bad_message_text(message: Seq<u8>) -> Seq<char> {
    "hysteria2: TCPResponse message is not UTF-8: "@ + utf8_error_text(message)
}

/// What the bytes received so far say: nothing yet, a response (accepted or
/// not, its message, its length), or that they are no response.
pub type TcpReading = Result<Option<(bool, Seq<char>, nat)>, Seq<char>>;

/// The reading that waits for more bytes.
pub open spec fn undecided() -> TcpReading {
    Ok(None)
}

/// The reading of the bytes received so far.
pub open spec fn tcp_response(buf: Seq<u8>) -> TcpReading {
    if buf.len() == 0 {
        Ok(None)
    } else if buf[0] != TCP_STATUS_OK && buf[0] != TCP_STATUS_ERROR {
        Err(unknown_status_text(buf[0]))
    } else {
        match varint_value(buf.skip(1)) {
            None => Ok(None),
            Some((len, width)) => {
                let start = 1 + width as int;
                let end = start + len as int;
                if buf.len() < end {
                    Ok(None)
                } else if !valid_utf8(buf.subrange(start, end)) {
                    Err(bad_message_text(buf.subrange(start, end)))
                } else {
                    match padded_end(buf, end) {
                        None => Ok(None),
                        Some(consumed) => Ok(
                            Some(
                                (
                                    buf[0] == TCP_STATUS_OK,
                                    decode_utf8(buf.subrange(start, end)),
                                    consumed,
                                ),
                            ),
                        ),
                    }
                }
            },
        }
    }
}

/// Where the counted padding that starts at `at` ends, once `buf` holds it.
pub open spec fn padded_end(buf: Seq<u8>, at: int) -> Option<nat> {
    match varint_value(buf.skip(at)) {
        None => None,
        Some((len, width)) => if buf.len() < at + width + len {
            None
        } else {
            Some((at + width + len) as nat)
        },
    }
}

/// The mathematical value of a decoding result.
pub open spec fn tcp_response_view(r: Result<Option<TcpResponse>, String>) -> TcpReading {
    match r {
        Ok(None) => Ok(None),
        Ok(Some(t)) => Ok(Some((t.ok, t.message@, t.consumed as nat))),
        Err(e) => Err(e@),
    }
}

/// Reads the response at the start of `buf`, as far as it has arrived.
pub fn decode_tcp_response(buf: &[u8]) -> (r: Result<Option<TcpResponse>, String>)
    ensures
        tcp_response_view(r) == tcp_response(buf@),
        match r {
            Ok(None) => tcp_response(buf@) matches Ok(None),
            Ok(Some(t)) => {
                &&& tcp_response(buf@) matches Ok(Some((ok, message, consumed)))
                &&& t.ok == ok
                &&& t.message@ == message
                &&& t.consumed == consumed
            },
            Err(e) => tcp_response(buf@) matches Err(text) && e@ == text,
        },
        r matches Ok(Some(t)) ==> buf@.len() > 0 && t.ok == (buf@[0] == 0u8),
{
    if buf.len() == 0 {
        return Ok(None);
    }
    let status = buf[0];
    let ok = if status == TCP_STATUS_OK {
        true
    } else if status == TCP_STATUS_ERROR {
        false
    } else {
        let mut text = "hysteria2: unknown TCPResponse status 0x".to_owned();
        push_hexadecimal(&mut text, status as u64);
        return Err(text);
    };
    let total = buf.len();
    let rest = slice_subrange(buf, 1, total);
    assert(rest@ =~= buf@.skip(1));
    proof {
        law_varint_value_bounded(rest@);
    }
    let (len, width) = match varint_decode(rest) {
        Some(found) => found,
        None => return Ok(None),
    };
    let start = 1 + width;
    if ((total - start) as u64) < len {
        return Ok(None);
    }
    let end = start + len as usize;
    let message = match utf8_text(slice_subrange(buf, start, end)) {
        Ok(text) => text,
        Err(error) => {
            let mut text = "hysteria2: TCPResponse message is not UTF-8: ".to_owned();
            text.append(error.as_str());
            return Err(text);
        },
    };
    let rest = slice_subrange(buf, end, total);
    assert(rest@ =~= buf@.skip(end as int));
    proof {
        law_varint_value_bounded(rest@);
    }
    let (len, width) = match varint_decode(rest) {
        Some(found) => found,
        None => return Ok(None),
    };
    let padding = end + width;
    if ((total - padding) as u64) < len {
        return Ok(None);
    }
    Ok(Some(TcpResponse { ok, message, consumed: padding + len as usize }))
}

/// The response that a server sends.
pub open spec fn tcp_response_bytes(ok: bool, message: Seq<char>, padding: Seq<u8>) -> Seq<u8> {
    seq![if ok { TCP_STATUS_OK } else { TCP_STATUS_ERROR }] + counted(encode_utf8(message))
        + counted(padding)
}

/// A counted field can be told from what follows it.
pub(crate) proof fn lemma_counted_unambiguous(a: Seq<u8>, b: Seq<u8>, after_a: Seq<u8>, after_b: Seq<u8>)
    requires
        a.len() <= VARINT_MAX,
        b.len() <= VARINT_MAX,
        counted(a) + after_a == counted(b) + after_b,
    ensures
        a == b,
        after_a == after_b,
{
    assert(counted(a) + after_a =~= varint_bytes(a.len()) + (a + after_a));
    assert(counted(b) + after_b =~= varint_bytes(b.len()) + (b + after_b));
    law_varint_unambiguous(a.len() as u64, b.len() as u64, a + after_a, b + after_b);
    assert(a =~= (a + after_a).take(a.len() as int));
    assert(b =~= (b + after_b).take(a.len() as int));
    assert(after_a =~= (a + after_a).skip(a.len() as int));
    assert(after_b =~= (b + after_b).skip(a.len() as int));
}

/// The counted bytes at the start of `buf`, and what follows them; nothing as
/// long as `buf` does not hold all of them.
pub open spec fn read_counted(buf: Seq<u8>) -> Option<(Seq<u8>, Seq<u8>)> {
    match varint_value(buf) {
        None => None,
        Some((len, width)) => if buf.len() < width + len {
            None
        } else {
            Some((buf.subrange(width as int, width + len), buf.skip(width + len)))
        },
    }
}

/// What a server reads from a request: the target, the padding, and what
/// follows them.
pub open spec fn read_tcp_request(buf: Seq<u8>) -> Option<(Seq<u8>, Seq<u8>, Seq<u8>)> {
    match varint_value(buf) {
        None => None,
        Some((id, width)) => if id != FRAME_ID_TCP_REQUEST {
            None
        } else {
            match read_counted(buf.skip(width as int)) {
                None => None,
                Some((target, rest)) => match read_counted(rest) {
                    None => None,
                    Some((padding, after)) => Some((target, padding, after)),
                },
            }
        },
    }
}

proof fn lemma_read_counted(bytes: Seq<u8>, after: Seq<u8>)
    requires
        bytes.len() <= VARINT_MAX,
    ensures
        read_counted(counted(bytes) + after) == Some((bytes, after)),
{
    let buf = counted(bytes) + after;
    let width = varint_bytes(bytes.len()).len() as int;
    law_varint_roundtrip(bytes.len() as u64, bytes + after);
    assert(buf =~= varint_bytes(bytes.len()) + (bytes + after));
    assert(buf.subrange(width, width + bytes.len()) =~= bytes);
    assert(buf.skip(width + bytes.len()) =~= after);
}

/// A server reads from a request the target and the padding that it was made
/// from, and takes no byte of what follows.
pub proof fn law_tcp_request_roundtrip(target: Seq<char>, padding: Seq<u8>, after: Seq<u8>)
    requires
        encode_utf8(target).len() <= VARINT_MAX,
        padding.len() <= VARINT_MAX,
    ensures
        read_tcp_request(tcp_request(encode_utf8(target), padding) + after) == Some(
            (encode_utf8(target), padding, after),
        ),
        valid_utf8(encode_utf8(target)),
        decode_utf8(encode_utf8(target)) == target,
{
    let bytes = encode_utf8(target);
    let id = varint_bytes(FRAME_ID_TCP_REQUEST as nat);
    let rest = counted(bytes) + (counted(padding) + after);
    let buf = tcp_request(bytes, padding) + after;
    assert(buf =~= id + rest);
    law_varint_roundtrip(FRAME_ID_TCP_REQUEST, rest);
    assert(buf.skip(id.len() as int) =~= rest);
    lemma_read_counted(bytes, counted(padding) + after);
    lemma_read_counted(padding, after);
    encode_utf8_valid_utf8(target);
    encode_utf8_decode_utf8(target);
}

/// A request says which target and which padding it was made from: no two
/// requests are alike, whatever follows them.
pub proof fn law_tcp_request_unambiguous(
    target1: Seq<char>,
    padding1: Seq<u8>,
    after1: Seq<u8>,
    target2: Seq<char>,
    padding2: Seq<u8>,
    after2: Seq<u8>,
)
    requires
        encode_utf8(target1).len() <= VARINT_MAX,
        padding1.len() <= VARINT_MAX,
        encode_utf8(target2).len() <= VARINT_MAX,
        padding2.len() <= VARINT_MAX,
        tcp_request(encode_utf8(target1), padding1) + after1 == tcp_request(
            encode_utf8(target2),
            padding2,
        ) + after2,
    ensures
        target1 == target2,
        padding1 == padding2,
        after1 == after2,
{
    law_tcp_request_roundtrip(target1, padding1, after1);
    law_tcp_request_roundtrip(target2, padding2, after2);
}

/// A request is the two bytes of its identifier, then the target and the
/// padding, each with its length in front.
pub proof fn law_tcp_request_layout(target: Seq<u8>, padding: Seq<u8>)
    ensures
        tcp_request(target, padding) == seq![0x44u8, 0x01u8] + varint_bytes(target.len()) + target
            + varint_bytes(padding.len()) + padding,
{
    law_varint_layout(0x401);
    assert(tcp_request(target, padding) =~= seq![0x44u8, 0x01u8] + varint_bytes(target.len())
        + target + varint_bytes(padding.len()) + padding);
}

/// Before the first byte nothing is decided; a first byte other than 0 and 1 is
/// refused at once, whatever follows, and named in hexadecimal.
pub proof fn law_tcp_response_status(status: u8, rest: Seq<u8>)
    ensures
        tcp_response(Seq::<u8>::empty()) matches Ok(None),
        status > 1 ==> tcp_response(seq![status] + rest) == Err::<
            Option<(bool, Seq<char>, nat)>,
            Seq<char>,
        >(
            "hysteria2: unknown TCPResponse status 0x"@ + (if status < 16 {
                seq!["0123456789abcdef"@[status as int]]
            } else {
                seq![
                    "0123456789abcdef"@[status as int / 16],
                    "0123456789abcdef"@[status as int % 16],
                ]
            }),
        ),
        status <= 1 ==> tcp_response(seq![status]) matches Ok(None),
{
    law_hexadecimal_byte(status);
    assert((seq![status] + rest)[0] == status);
    assert(seq![status].skip(1) =~= Seq::<u8>::empty());
}

/// What is read from a status of 0 or 1, a message and a padding, each with its
/// length in front in any form: the target is accepted if and only if the
/// status is 0, the message is the text that its bytes encode, and the response
/// ends with its padding.  A message that is not UTF-8 is refused as soon as it
/// is there.
pub proof fn law_tcp_response_layout(
    status: u8,
    head: Seq<u8>,
    message: Seq<u8>,
    tail: Seq<u8>,
    padding: Seq<u8>,
    after: Seq<u8>,
)
    requires
        status <= 1,
        varint_value(head) == Some((message.len() as u64, head.len() as usize)),
        varint_value(tail) == Some((padding.len() as u64, tail.len() as usize)),
        message.len() <= u64::MAX,
        padding.len() <= u64::MAX,
        head.len() <= 8,
        tail.len() <= 8,
    ensures
        valid_utf8(message) ==> tcp_response(
            seq![status] + head + message + tail + padding + after,
        ) == Ok::<Option<(bool, Seq<char>, nat)>, Seq<char>>(
            Some(
                (
                    status == 0,
                    decode_utf8(message),
                    1 + head.len() + message.len() + tail.len() + padding.len(),
                ),
            ),
        ),
        !valid_utf8(message) ==> tcp_response(seq![status] + head + message + after) == Err::<
            Option<(bool, Seq<char>, nat)>,
            Seq<char>,
        >("hysteria2: TCPResponse message is not UTF-8: "@ + utf8_error_text(message)),
{
    if valid_utf8(message) {
        lemma_response_accepts(status, head, message, tail, padding, after);
    } else {
        let buf = seq![status] + head + message + after;
        lemma_message_part(buf, status, head, message, after);
    }
}

proof fn lemma_response_accepts(
    status: u8,
    head: Seq<u8>,
    message: Seq<u8>,
    tail: Seq<u8>,
    padding: Seq<u8>,
    after: Seq<u8>,
)
    requires
        status <= 1,
        varint_value(head) == Some((message.len() as u64, head.len() as usize)),
        varint_value(tail) == Some((padding.len() as u64, tail.len() as usize)),
        message.len() <= u64::MAX,
        padding.len() <= u64::MAX,
        head.len() <= 8,
        tail.len() <= 8,
        valid_utf8(message),
    ensures
        tcp_response(seq![status] + head + message + tail + padding + after) == Ok::<
            Option<(bool, Seq<char>, nat)>,
            Seq<char>,
        >(
            Some(
                (
                    status == 0,
                    decode_utf8(message),
                    1 + head.len() + message.len() + tail.len() + padding.len(),
                ),
            ),
        ),
{
    let buf = seq![status] + head + message + tail + padding + after;
    let rest = tail + (padding + after);
    let end = 1 + head.len() + message.len();
    assert(buf =~= seq![status] + head + message + rest);
    lemma_message_part(buf, status, head, message, rest);
    assert(buf.skip(end as int) =~= rest);
    law_varint_stable(tail, padding + after);
    assert(varint_value(buf.skip(end as int)) == varint_value(tail));
    assert(padded_end(buf, end as int) == Some(end + tail.len() + padding.len()));
}

/// The message of a response is the counted bytes behind the status.
proof fn lemma_message_part(
    buf: Seq<u8>,
    status: u8,
    head: Seq<u8>,
    message: Seq<u8>,
    rest: Seq<u8>,
)
    requires
        varint_value(head) == Some((message.len() as u64, head.len() as usize)),
        message.len() <= u64::MAX,
        head.len() <= 8,
        buf == seq![status] + head + message + rest,
    ensures
        buf[0] == status,
        buf.len() >= 1 + head.len() + message.len(),
        varint_value(buf.skip(1)) == Some((message.len() as u64, head.len() as usize)),
        buf.subrange(
            1 + head.len() as int,
            1 + head.len() as int + message.len() as int,
        ) == message,
{
    assert(buf.skip(1) =~= head + (message + rest));
    law_varint_stable(head, message + rest);
    assert(buf.subrange(
        1 + head.len() as int,
        1 + head.len() as int + message.len() as int,
    ) =~= message);
}

/// Nothing is decided while the message has not arrived in full.
pub proof fn law_tcp_response_waits_for_message(status: u8, head: Seq<u8>, part: Seq<u8>)
    requires
        status <= 1,
        varint_value(head) matches Some((len, width)) && width == head.len() && part.len() < len,
    ensures
        tcp_response(seq![status] + head + part) matches Ok(None),
{
    let buf = seq![status] + head + part;
    assert(buf[0] == status);
    assert(buf.skip(1) =~= head + part);
    law_varint_stable(head, part);
}

/// A client reads from a response what the server put into it, and takes no
/// byte of what follows.
pub proof fn law_tcp_response_roundtrip(
    ok: bool,
    message: Seq<char>,
    padding: Seq<u8>,
    after: Seq<u8>,
)
    requires
        encode_utf8(message).len() <= VARINT_MAX,
        padding.len() <= VARINT_MAX,
    ensures
        tcp_response(tcp_response_bytes(ok, message, padding) + after) == Ok::<_, Seq<char>>(
            Some((ok, message, tcp_response_bytes(ok, message, padding).len())),
        ),
{
    let text = encode_utf8(message);
    let frame = tcp_response_bytes(ok, message, padding);
    let buf = frame + after;
    let head = varint_bytes(text.len());
    let tail = varint_bytes(padding.len());
    let start = 1 + head.len() as int;
    let end = start + text.len() as int;
    law_varint_roundtrip(text.len() as u64, text + counted(padding) + after);
    assert(buf.skip(1) =~= head + (text + counted(padding) + after));
    assert(buf.subrange(start, end) =~= text);
    encode_utf8_valid_utf8(message);
    encode_utf8_decode_utf8(message);
    law_varint_roundtrip(padding.len() as u64, padding + after);
    assert(buf.skip(end) =~= tail + (padding + after));
}

/// A decision stands: bytes that arrive after a response, or after something
/// that is no response, do not change what was read.
pub proof fn law_tcp_response_stable(buf: Seq<u8>, more: Seq<u8>)
    requires
        tcp_response(buf) != undecided(),
    ensures
        tcp_response(buf + more) == tcp_response(buf),
{
    if buf[0] == TCP_STATUS_OK || buf[0] == TCP_STATUS_ERROR {
        let (len, width) = varint_value(buf.skip(1))->0;
        let start = 1 + width as int;
        let end = start + len as int;
        assert((buf + more).skip(1) =~= buf.skip(1) + more);
        law_varint_stable(buf.skip(1), more);
        assert((buf + more).subrange(start, end) =~= buf.subrange(start, end));
        if valid_utf8(buf.subrange(start, end)) {
            assert((buf + more).skip(end) =~= buf.skip(end) + more);
            law_varint_stable(buf.skip(end), more);
        }
    }
}

/// A response takes at least three bytes and no more than have arrived, and
/// only the bytes that it takes decide about it.
pub proof fn law_tcp_response_consumed(buf: Seq<u8>)
    ensures
        tcp_response(buf) matches Ok(Some((_, _, consumed))) ==> {
            &&& 3 <= consumed <= buf.len()
            &&& tcp_response(buf.take(consumed as int)) == tcp_response(buf)
        },
{
    if let Ok(Some((_, _, consumed))) = tcp_response(buf) {
        let (len, width) = varint_value(buf.skip(1))->0;
        let start = 1 + width as int;
        let end = start + len as int;
        law_varint_value_bounded(buf.skip(1));
        law_varint_value_bounded(buf.skip(end));
        let kept = buf.take(consumed as int);
        assert(kept.skip(1).take(width as int) =~= buf.skip(1).take(width as int));
        assert(kept.subrange(start, end) =~= buf.subrange(start, end));
        let (_, pad_width) = varint_value(buf.skip(end))->0;
        assert(kept.skip(end).take(pad_width as int) =~= buf.skip(end).take(pad_width as int));
    }
}

/// As long as a part of a response is missing, nothing is decided.
pub proof fn law_tcp_response_waits(buf: Seq<u8>, k: int)
    requires
        tcp_response(buf) matches Ok(Some((_, _, consumed))) && 0 <= k < consumed,
    ensures
        tcp_response(buf.take(k)) == undecided(),
        tcp_response(buf.take(k)) matches Ok(None),
{
    law_tcp_response_consumed(buf);
    if tcp_response(buf.take(k)) != undecided() {
        law_tcp_response_stable(buf.take(k), buf.skip(k));
        assert(buf.take(k) + buf.skip(k) =~= buf);
        law_tcp_response_consumed(buf.take(k));
    }
}

} // verus!
