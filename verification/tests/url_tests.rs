use http_probe::url::{parse_url, URL};

#[test]
fn test_parse_url() {
    // A URL without a path segment normalizes to the default path "/".
    assert_eq!(
        URL {
            hostname: String::from("google.com"),
            is_https: true,
            path: String::from("/"),
        },
        parse_url("https://google.com")
    );
    assert_eq!(
        URL {
            hostname: String::from("google.com"),
            is_https: false,
            path: String::from("/"),
        },
        parse_url("http://google.com")
    );
    assert_eq!(
        URL {
            hostname: String::from("google.com"),
            is_https: false,
            path: String::from("/"),
        },
        parse_url("google.com")
    );

    assert_eq!(
        URL {
            hostname: String::from("google.com"),
            is_https: true,
            path: String::from("/123"),
        },
        parse_url("https://google.com/123")
    );
    assert_eq!(
        URL {
            hostname: String::from("google.com"),
            is_https: false,
            path: String::from("/123"),
        },
        parse_url("http://google.com/123")
    );
    assert_eq!(
        URL {
            hostname: String::from("google.com"),
            is_https: false,
            path: String::from("/123"),
        },
        parse_url("google.com/123")
    );
}

#[test]
fn secure_url_without_path() {
    let u = parse_url("https://a.com");
    assert_eq!(u.hostname, "a.com");
    assert!(u.is_https);
    assert_eq!(u.path, "/");
}

#[test]
fn insecure_url_with_path() {
    let u = parse_url("http://a.com/x");
    assert_eq!(u.hostname, "a.com");
    assert!(!u.is_https);
    assert_eq!(u.path, "/x");
}

#[test]
fn schemeless_url_is_insecure() {
    let u = parse_url("a.com/x");
    assert_eq!(u.hostname, "a.com");
    assert!(!u.is_https);
    assert_eq!(u.path, "/x");
}

#[test]
fn host_that_starts_like_a_scheme_is_schemeless() {
    let u = parse_url("httpbin.org/get");
    assert_eq!(u.hostname, "httpbin.org");
    assert!(!u.is_https);
    assert_eq!(u.path, "/get");
}

#[test]
fn empty_input_gives_empty_host_and_default_path() {
    let u = parse_url("");
    assert_eq!(u.hostname, "");
    assert!(!u.is_https);
    assert_eq!(u.path, "/");
}

#[test]
fn canonical_string_round_trips() {
    let u = parse_url("a.com/x");
    let rendered = u.to_url_string();
    assert_eq!(rendered, "http://a.com/x");
    assert_eq!(parse_url(&rendered), u);

    let v = parse_url("https://a.com");
    let rendered = v.to_url_string();
    assert_eq!(rendered, "https://a.com/");
    assert_eq!(parse_url(&rendered), v);
}

#[test]
fn display_string_shows_host_port_and_path() {
    assert_eq!(
        parse_url("https://google.com/123").to_display_string(),
        "google.com:443/123"
    );
    assert_eq!(parse_url("google.com").to_display_string(), "google.com:80/");
}

#[test]
fn port_follows_scheme() {
    assert_eq!(parse_url("https://a.com").port(), 443);
    assert_eq!(parse_url("http://a.com").port(), 80);
    assert_eq!(parse_url("a.com").port(), 80);
}
