//! The authentication exchange that opens a connection.

use crate::number::{decimal, law_decimal_roundtrip, parse_u64, push_decimal};
use crate::text::{contains, occurs_at, str_contains};
use vstd::prelude::*;
use vstd::string::StringExecFns;
use vstd::utf8::{decode_utf8, encode_utf8, valid_utf8};

verus! {

/// The most bytes of the server's answer that are looked at.
pub const AUTH_RESPONSE_LIMIT: usize = 512;

/// The request that carries the password.
pub open spec fn auth_request_text(sni: Seq<char>, password: Seq<char>) -> Seq<char> {
    "POST /auth HTTP/3\r\nHost: "@ + sni + "\r\nContent-Length: "@ + decimal(
        encode_utf8(password).len(),
    ) + "\r\n\r\n"@ + password
}

/// Writes the request that carries the password.
pub fn auth_request(sni: &str, password: &str) -> (r: String)
    ensures
        r@ == auth_request_text(sni@, password@),
        r@ == "POST /auth HTTP/3\r\nHost: "@ + sni@ + "\r\nContent-Length: "@ + decimal(
            encode_utf8(password@).len(),
        ) + "\r\n\r\n"@ + password@,
        encode_utf8(password@).len() <= u64::MAX,
{
    let mut text = "POST /auth HTTP/3\r\nHost: ".to_owned();
    text.append(sni);
    text.append("\r\nContent-Length: ");
    push_decimal(&mut text, password.as_bytes().len() as u64);
    text.append("\r\n\r\n");
    text.append(password);
    text
}

/// A request names the host, gives the length of the password in bytes, and
/// ends with the password itself.
pub proof fn law_auth_request(sni: Seq<char>, password: Seq<char>) -> (length: Seq<char>)
    requires
        encode_utf8(password).len() <= u64::MAX,
    ensures
        auth_request_text(sni, password) == "POST /auth HTTP/3\r\nHost: "@ + sni
            + "\r\nContent-Length: "@ + length + "\r\n\r\n"@ + password,
        parse_u64(length) == Some(encode_utf8(password).len() as u64),
{
    law_decimal_roundtrip(encode_utf8(password).len() as u64);
    decimal(encode_utf8(password).len())
}

/// What `String::from_utf8_lossy` makes of bytes.
pub uninterp spec fn lossy_text(bytes: Seq<u8>) -> Seq<char>;

/// `String::from_utf8_lossy`, with the text copied.  Bytes that are UTF-8 give
/// the characters that they encode; in others, the function puts replacement
/// characters where they are not.  The text is a function of the bytes, and is
/// named.
#[verifier::external_body]
fn utf8_lossy(bytes: &[u8]) -> (r: String)
    ensures
        r@ == lossy_text(bytes@),
        valid_utf8(bytes@) ==> r@ == decode_utf8(bytes@),
{
    String::from_utf8_lossy(bytes).into_owned()
}

/// Whether an answer lets the client in: it holds a status of 200 or 204.
pub open spec fn auth_accepted(text: Seq<char>) -> bool {
    contains(text, " 200"@) || contains(text, " 204"@)
}

/// A server lets the client in if and only if its answer has, somewhere, a
/// space and then the characters of 200 or of 204.
pub proof fn law_auth_accepted(text: Seq<char>)
    ensures
        auth_accepted(text) <==> exists|i: int|
            0 <= i < text.len() - 3 && #[trigger] text[i] == ' ' && text[i + 1] == '2' && text[i
                + 2] == '0' && (text[i + 3] == '0' || text[i + 3] == '4'),
{
    reveal_strlit(" 200");
    reveal_strlit(" 204");
    if contains(text, " 200"@) {
        let i = choose|i: int| occurs_at(text, " 200"@, i);
        let found = text.subrange(i, i + 4);
        assert(found[0] == text[i] && found[1] == text[i + 1] && found[2] == text[i + 2]
            && found[3] == text[i + 3]);
    }
    if contains(text, " 204"@) {
        let i = choose|i: int| occurs_at(text, " 204"@, i);
        let found = text.subrange(i, i + 4);
        assert(found[0] == text[i] && found[1] == text[i + 1] && found[2] == text[i + 2]
            && found[3] == text[i + 3]);
    }
    if exists|i: int|
        0 <= i < text.len() - 3 && #[trigger] text[i] == ' ' && text[i + 1] == '2' && text[i + 2]
            == '0' && (text[i + 3] == '0' || text[i + 3] == '4') {
        let i = choose|i: int|
            0 <= i < text.len() - 3 && #[trigger] text[i] == ' ' && text[i + 1] == '2' && text[i
                + 2] == '0' && (text[i + 3] == '0' || text[i + 3] == '4');
        if text[i + 3] == '0' {
            assert(text.subrange(i, i + 4) =~= " 200"@);
            assert(occurs_at(text, " 200"@, i));
        } else {
            assert(text.subrange(i, i + 4) =~= " 204"@);
            assert(occurs_at(text, " 204"@, i));
        }
    }
}

/// Judges the text of the server's answer.
pub fn judge_auth_text(text: &str) -> (r: Result<(), String>)
    ensures
        match r {
            Ok(()) => auth_accepted(text@),
            Err(e) => !auth_accepted(text@) && e@ == "hysteria2: auth failed: "@ + text@,
        },
        (r is Ok) == exists|i: int|
            0 <= i < text@.len() - 3 && #[trigger] text@[i] == ' ' && text@[i + 1] == '2'
                && text@[i + 2] == '0' && (text@[i + 3] == '0' || text@[i + 3] == '4'),
{
    proof {
        law_auth_accepted(text@);
    }
    if str_contains(text, " 200") || str_contains(text, " 204") {
        Ok(())
    } else {
        let mut e = "hysteria2: auth failed: ".to_owned();
        e.append(text);
        Err(e)
    }
}

/// Judges the server's answer, of which there is nothing if the stream ended.
pub fn check_auth_response(data: &[u8]) -> (r: Result<(), String>)
    ensures
        match r {
            Ok(()) => data@.len() > 0 && auth_accepted(lossy_text(data@)),
            Err(e) => if data@.len() == 0 {
                e@ == "hysteria2: empty /auth response"@
            } else {
                &&& !auth_accepted(lossy_text(data@))
                &&& e@ == "hysteria2: auth failed: "@ + lossy_text(data@)
            },
        },
        data@.len() > 0 && valid_utf8(data@) ==> (r is Ok) == auth_accepted(decode_utf8(data@)),
        data@.len() > 0 ==> ((r is Ok) == exists|i: int|
            0 <= i < lossy_text(data@).len() - 3 && #[trigger] lossy_text(data@)[i] == ' '
                && lossy_text(data@)[i + 1] == '2' && lossy_text(data@)[i + 2] == '0' && (
            lossy_text(data@)[i + 3] == '0' || lossy_text(data@)[i + 3] == '4')),
        data@.len() == 0 ==> r is Err,
{
    if data.len() == 0 {
        return Err("hysteria2: empty /auth response".to_owned());
    }
    let text = utf8_lossy(data);
    judge_auth_text(text.as_str())
}

} // verus!
