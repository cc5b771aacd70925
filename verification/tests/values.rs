//! The small value types around the engine: cookies, method tokens, MIME
//! resolution, headers, and log lines.

use surfer::cookie::Cookie;
use surfer::headers::Headers;
use surfer::logs::log_line;
use surfer::logs::Logger;
use surfer::request::Method;
use surfer::request::Request;
use surfer::server::request_log_line;
use surfer::utils::get_content_type;

#[test]
fn bare_cookie_renders_name_and_value() {
    let c = Cookie::new("session", "abc123");
    assert_eq!(c.to_string(), "session=abc123");
}

#[test]
fn fully_configured_cookie_renders_every_attribute() {
    let c = Cookie::new("id", "42")
        .with_expires("Wed, 21 Oct 2015 07:28:00 GMT")
        .with_max_age(3600)
        .with_domain("example.com")
        .with_path("/app")
        .with_secure(true)
        .with_http_only(true)
        .with_same_site("Strict");
    assert_eq!(
        c.to_string(),
        "id=42; Expires=Wed, 21 Oct 2015 07:28:00 GMT; Max-Age=3600; Domain=example.com; Path=/app; SameSite=Strict; Secure; HttpOnly"
    );
}

#[test]
fn negative_max_age_keeps_its_sign() {
    let c = Cookie::new("n", "v").with_max_age(-1);
    assert_eq!(c.to_string(), "n=v; Max-Age=-1");
}

#[test]
fn false_flags_render_nothing() {
    let c = Cookie::new("n", "v").with_secure(false).with_http_only(false);
    assert_eq!(c.to_string(), "n=v");
}

#[test]
fn method_tokens_round_trip() {
    let tokens = [
        "GET", "POST", "PUT", "DELETE", "PATCH", "HEAD", "OPTIONS", "CONNECT", "TRACE",
    ];
    for t in tokens {
        assert_eq!(Method::from_string(t).to_string(), *t);
    }
}

#[test]
fn unknown_method_falls_back_to_get() {
    assert!(matches!(Method::from_string("BREW"), Method::GET));
    assert!(matches!(Method::from_string(""), Method::GET));
}

#[test]
fn content_types_resolve_from_the_extension() {
    assert_eq!(get_content_type(b"public/index.html"), "text/html");
    assert_eq!(get_content_type(b"a/b/site.css"), "text/css");
    assert_eq!(get_content_type(b"data.json"), "application/json");
    assert_eq!(get_content_type(b"archive.tar"), "application/x-tar");
    assert_eq!(get_content_type(b"photo.jpeg"), "image/jpeg");
    assert_eq!(get_content_type(b"song.wav"), "audio/mpeg");
}

#[test]
fn unknown_or_missing_extension_is_a_byte_stream() {
    assert_eq!(get_content_type(b"binary.xyz"), "application/octet-stream");
    assert_eq!(get_content_type(b"no_extension"), "application/octet-stream");
    assert_eq!(get_content_type(b"dir.d/file"), "application/octet-stream");
}

#[test]
fn header_insertion_is_last_wins_in_place() {
    let mut h = Headers::new();
    h.insert(b"A".to_vec(), b"1".to_vec());
    h.insert(b"B".to_vec(), b"2".to_vec());
    h.insert(b"A".to_vec(), b"3".to_vec());
    assert_eq!(h.len(), 2);
    assert_eq!(h.get(b"A"), Some(&b"3".to_vec()));
    assert_eq!(h.get(b"B"), Some(&b"2".to_vec()));
    assert_eq!(h.get(b"C"), None);
    let first = h.entry_at(0);
    assert_eq!(first.0, &b"A".to_vec());
    assert_eq!(first.1, &b"3".to_vec());
}

#[test]
fn fresh_request_is_empty() {
    let r = Request::new();
    assert!(r.method.is_empty());
    assert!(r.path.is_empty());
    assert!(r.body.is_empty());
    assert!(r.files.is_empty());
    assert!(r.http_version.is_empty());
}

#[test]
fn log_lines_carry_level_and_message() {
    let _ = Logger::new();
    assert_eq!(log_line("2024-01-01 00:00:00", "INFO", "ready"), "2024-01-01 00:00:00 INFO: ready");
    assert_eq!(log_line("t", "ERROR", "boom"), "t ERROR: boom");
}

#[test]
fn request_log_line_names_the_user_agent() {
    let ua = b"curl/8".to_vec();
    assert_eq!(
        request_log_line(b"GET", b"/x", Some(&ua)),
        b"GET /x | User-Agent: curl/8".to_vec()
    );
    assert_eq!(
        request_log_line(b"GET", b"/x", None),
        b"GET /x | User-Agent: N/A".to_vec()
    );
}
