use http_probe::http::{build_request, classify_response, ResponseClass};
use http_probe::url::parse_url;

#[test]
fn request_text_carries_path_and_host() {
    let url = parse_url("https://a.com/x");
    assert_eq!(
        build_request(&url),
        "GET /x HTTP/1.1\r\nHost: a.com\r\nConnection: close\r\n\r\n"
    );
}

#[test]
fn request_text_uses_default_path() {
    let url = parse_url("a.com");
    assert_eq!(
        build_request(&url),
        "GET / HTTP/1.1\r\nHost: a.com\r\nConnection: close\r\n\r\n"
    );
}

#[test]
fn status_200_classifies_as_success_with_full_length() {
    let buf = b"HTTP/1.1 200 OK\r\n\r\nhello".to_vec();
    assert_eq!(
        classify_response(&buf),
        Some(ResponseClass::Success { byte_len: buf.len() })
    );
}

#[test]
fn other_status_classifies_as_failure_with_its_code() {
    let buf = b"HTTP/1.1 404 Not Found\r\n\r\n".to_vec();
    assert_eq!(
        classify_response(&buf),
        Some(ResponseClass::Failure { status_code: 404 })
    );
    let buf = b"HTTP/1.1 503 Service Unavailable\r\n\r\n".to_vec();
    assert_eq!(
        classify_response(&buf),
        Some(ResponseClass::Failure { status_code: 503 })
    );
}

#[test]
fn short_response_is_malformed() {
    let buf = b"HTTP/1.1 20".to_vec();
    assert_eq!(classify_response(&buf), None);
}

#[test]
fn response_without_digits_is_malformed() {
    let buf = b"HTTP/1.1 abc def\r\n\r\n".to_vec();
    assert_eq!(classify_response(&buf), None);
}
