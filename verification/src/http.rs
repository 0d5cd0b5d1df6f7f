use vstd::prelude::*;
use crate::url::{URL, UrlView};

verus! {

/// Classified response bytes: a success (status 200) with the full
/// response length, or a failure with the status code read from the
/// status line.
#[derive(Clone, Copy, Debug, PartialEq, Eq, Structural)]
pub enum ResponseClass {
    Success { byte_len: usize },
    Failure { status_code: u16 },
}

/// The text of the GET request for a canonical URL: request line with
/// the path, `Host` header with the hostname, and `Connection: close`.
pub open spec fn spec_request_text(u: UrlView) -> Seq<char> {
    "GET "@ + u.path + " HTTP/1.1\r\nHost: "@ + u.hostname + "\r\nConnection: close\r\n\r\n"@
}

/// `b` is an ASCII decimal digit.
pub open spec fn is_digit(b: u8) -> bool {
    0x30 <= b <= 0x39
}

/// The response status line carries its three-digit code at bytes 9 to
/// 11, after `HTTP/1.1` and a space.
pub open spec fn spec_status_code(bytes: Seq<u8>) -> int {
    (bytes[9] - 0x30) * 100 + (bytes[10] - 0x30) * 10 + (bytes[11] - 0x30)
}

/// The response bytes carry a readable status code: they reach past the
/// status-line prefix and hold three digits where the code stands.
pub open spec fn spec_well_formed_status(bytes: Seq<u8>) -> bool {
    bytes.len() >= 12 && is_digit(bytes[9]) && is_digit(bytes[10]) && is_digit(bytes[11])
}

/// How a whole response is classified: code 200 is a success carrying
/// the full byte length, any other code a failure carrying the code;
/// bytes without a readable status code are malformed (`None`).
pub open spec fn spec_classify(bytes: Seq<u8>) -> Option<ResponseClass> {
    if spec_well_formed_status(bytes) {
        if spec_status_code(bytes) == 200 {
            Some(ResponseClass::Success { byte_len: bytes.len() as usize })
        } else {
            Some(ResponseClass::Failure { status_code: spec_status_code(bytes) as u16 })
        }
    } else {
        None
    }
}

/// Build the GET request text that the transport sends for `url`.
pub fn build_request(url: &URL) -> (r: String)
    ensures
        r@ == spec_request_text(url@),
{
    let mut s = String::from_str("GET ");
    s.append(url.path.as_str());
    s.append(" HTTP/1.1\r\nHost: ");
    s.append(url.hostname.as_str());
    s.append("\r\nConnection: close\r\n\r\n");
    proof {
        assert(s@ =~= spec_request_text(url@));
    }
    s
}

/// Classify raw response bytes by their status line.
///
/// `None` stands for a malformed response, which the caller treats as
/// a transport-level failure, not as an outcome.
pub fn classify_response(buf: &Vec<u8>) -> (r: Option<ResponseClass>)
    ensures
        r == spec_classify(buf@),
{
    if buf.len() < 12 {
        return None;
    }
    let d0 = buf[9];
    let d1 = buf[10];
    let d2 = buf[11];
    if d0 < 0x30 || d0 > 0x39 || d1 < 0x30 || d1 > 0x39 || d2 < 0x30 || d2 > 0x39 {
        return None;
    }
    let code: u16 = (d0 - 0x30) as u16 * 100 + (d1 - 0x30) as u16 * 10 + (d2 - 0x30) as u16;
    if code == 200 {
        Some(ResponseClass::Success { byte_len: buf.len() })
    } else {
        Some(ResponseClass::Failure { status_code: code })
    }
}

} // verus!
