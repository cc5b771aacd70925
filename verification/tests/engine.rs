//! Wire-level behaviour: request decoding, body reconciliation, header
//! precedence, multipart decomposition, and response round-trips.

use surfer::codec::decode_response;
use surfer::codec::encode_response;
use surfer::codec::finish_request;
use surfer::codec::parse_head;
use surfer::codec::DecodeError;
use surfer::headers::Headers;
use surfer::multipart::decode_multipart;
use surfer::response::Response;

fn decode_all(chunk: &[u8], extra: &[u8]) -> Result<surfer::request::Request, DecodeError> {
    let head = parse_head(chunk)?;
    finish_request(head, extra)
}

#[test]
fn simple_get_decodes() {
    let req = decode_all(b"GET /index.html HTTP/1.1\r\nHost: example\r\n\r\n", b"").unwrap();
    assert_eq!(req.method, b"GET".to_vec());
    assert_eq!(req.path, b"/index.html".to_vec());
    assert_eq!(req.http_version, b"HTTP/1.1".to_vec());
    assert_eq!(req.headers.get(b"Host"), Some(&b"example".to_vec()));
    assert_eq!(req.body, Vec::<u8>::new());
    assert_eq!(req.files.len(), 0);
}

#[test]
fn missing_tokens_fall_back_to_defaults() {
    let req = decode_all(b"GET\r\n\r\n", b"").unwrap();
    assert_eq!(req.method, b"GET".to_vec());
    assert_eq!(req.path, b"/".to_vec());
    assert_eq!(req.http_version, b"unknown".to_vec());
    let req = decode_all(b"\r\n\r\n", b"").unwrap();
    assert_eq!(req.method, b"unknown".to_vec());
    assert_eq!(req.path, b"/".to_vec());
}

#[test]
fn post_body_in_one_read() {
    let chunk = b"POST /submit HTTP/1.1\r\nContent-Length: 5\r\n\r\nhello";
    let head = parse_head(chunk).unwrap();
    assert_eq!(head.needed, 0);
    let req = finish_request(head, b"").unwrap();
    assert_eq!(req.body, b"hello".to_vec());
}

#[test]
fn body_reassembles_for_every_split_point() {
    let head_bytes = b"POST /u HTTP/1.1\r\nContent-Length: 26\r\n\r\n";
    let body: Vec<u8> = (b'a'..=b'z').collect();
    for cut in 0..=body.len() {
        let mut chunk = head_bytes.to_vec();
        chunk.extend_from_slice(&body[..cut]);
        let head = parse_head(&chunk).unwrap();
        assert_eq!(head.needed, body.len() - cut);
        let req = finish_request(head, &body[cut..]).unwrap();
        assert_eq!(req.body, body, "split at {cut}");
    }
}

#[test]
fn content_length_truncates_longer_chunk() {
    let chunk = b"POST / HTTP/1.1\r\nContent-Length: 3\r\n\r\nhello";
    let req = decode_all(chunk, b"").unwrap();
    assert_eq!(req.body, b"hel".to_vec());
}

#[test]
fn last_duplicate_header_wins() {
    let chunk = b"GET / HTTP/1.1\r\nX-Tag: one\r\nOther: v\r\nX-Tag: two\r\n\r\n";
    let req = decode_all(chunk, b"").unwrap();
    assert_eq!(req.headers.get(b"X-Tag"), Some(&b"two".to_vec()));
    assert_eq!(req.headers.get(b"Other"), Some(&b"v".to_vec()));
    assert_eq!(req.headers.len(), 2);
}

#[test]
fn missing_separator_is_malformed_request() {
    assert_eq!(parse_head(b"").unwrap_err(), DecodeError::MalformedRequest);
    assert_eq!(
        parse_head(b"GET / HTTP/1.1\r\nHost: x\r\n").unwrap_err(),
        DecodeError::MalformedRequest
    );
}

#[test]
fn non_numeric_content_length_is_malformed_header() {
    let chunk = b"POST / HTTP/1.1\r\nContent-Length: five\r\n\r\n";
    assert_eq!(parse_head(chunk).unwrap_err(), DecodeError::MalformedHeader);
}

#[test]
fn short_stream_is_incomplete_body() {
    let chunk = b"POST / HTTP/1.1\r\nContent-Length: 10\r\n\r\nhel";
    let head = parse_head(chunk).unwrap();
    assert_eq!(head.needed, 7);
    assert_eq!(finish_request(head, b"more").unwrap_err(), DecodeError::IncompleteBody);
}

#[test]
fn multipart_without_boundary_is_malformed_header() {
    let chunk = b"POST / HTTP/1.1\r\nContent-Type: multipart/form-data\r\nContent-Length: 0\r\n\r\n";
    let head = parse_head(chunk).unwrap();
    assert_eq!(finish_request(head, b"").unwrap_err(), DecodeError::MalformedHeader);
}

#[test]
fn multipart_single_file_part() {
    let body: &[u8] =
        b"--X\r\nContent-Disposition: form-data; name=\"f\"; filename=\"a.txt\"\r\n\r\nAB\r\n--X--\r\n";
    let mut chunk =
        format!(
            "POST /upload HTTP/1.1\r\nContent-Type: multipart/form-data; boundary=X\r\nContent-Length: {}\r\n\r\n",
            body.len()
        )
        .into_bytes();
    chunk.extend_from_slice(body);
    let req = decode_all(&chunk, b"").unwrap();
    assert_eq!(req.files.len(), 1);
    assert_eq!(req.files[0].name, b"f".to_vec());
    assert_eq!(req.files[0].filename, Some(b"a.txt".to_vec()));
    assert_eq!(req.files[0].data, b"AB".to_vec());
}

#[test]
fn multipart_keeps_parts_sharing_a_name() {
    let body: &[u8] = b"--B7\r\nContent-Disposition: form-data; name=\"f\"\r\n\r\none\r\n--B7\r\nContent-Disposition: form-data; name=\"g\"\r\n\r\ntwo\r\n--B7\r\nContent-Disposition: form-data; name=\"f\"\r\n\r\nthree\r\n--B7--\r\n";
    let entries = decode_multipart(body, b"B7");
    assert_eq!(entries.len(), 3);
    assert_eq!(entries[0].name, b"f".to_vec());
    assert_eq!(entries[0].data, b"one".to_vec());
    assert_eq!(entries[1].name, b"g".to_vec());
    assert_eq!(entries[1].data, b"two".to_vec());
    assert_eq!(entries[2].name, b"f".to_vec());
    assert_eq!(entries[2].data, b"three".to_vec());
    assert_eq!(entries[0].filename, None);
}

#[test]
fn multipart_drops_unnamed_segments() {
    let body: &[u8] = b"--X\r\nContent-Type: text/plain\r\n\r\nraw\r\n--X--\r\n";
    let entries = decode_multipart(body, b"X");
    assert_eq!(entries.len(), 0);
}

#[test]
fn multipart_binary_content_is_byte_exact() {
    let mut body = b"--Z\r\nContent-Disposition: form-data; name=\"bin\"\r\n\r\n".to_vec();
    body.extend_from_slice(&[0u8, 159, 146, 150, 13, 10, 0]);
    body.extend_from_slice(b"\r\n--Z--\r\n");
    let entries = decode_multipart(&body, b"Z");
    assert_eq!(entries.len(), 1);
    assert_eq!(entries[0].data, vec![0u8, 159, 146, 150, 13, 10, 0]);
}

#[test]
fn encode_response_exact_bytes() {
    let mut headers = Headers::new();
    headers.insert(b"Content-Type".to_vec(), b"text/plain".to_vec());
    headers.insert(b"Content-Length".to_vec(), b"2".to_vec());
    let r = Response { status_code: 200, headers, body: Some(b"ok".to_vec()) };
    let wire = encode_response(&r);
    assert_eq!(
        wire,
        b"HTTP/1.1 200\r\nContent-Type: text/plain\r\nContent-Length: 2\r\n\r\nok".to_vec()
    );
}

#[test]
fn response_round_trips_through_the_wire() {
    let mut headers = Headers::new();
    headers.insert(b"Content-Type".to_vec(), b"application/json".to_vec());
    headers.insert(b"X-Trace".to_vec(), b"abc-123".to_vec());
    let r = Response { status_code: 404, headers, body: Some(b"{\"e\":1}".to_vec()) };
    let wire = encode_response(&r);
    let back = decode_response(&wire).unwrap();
    assert_eq!(back.status_code, 404);
    assert_eq!(back.headers.len(), 2);
    assert_eq!(back.headers.get(b"Content-Type"), Some(&b"application/json".to_vec()));
    assert_eq!(back.headers.get(b"X-Trace"), Some(&b"abc-123".to_vec()));
    assert_eq!(back.body, Some(b"{\"e\":1}".to_vec()));
}

#[test]
fn bodyless_response_round_trips() {
    let r = Response { status_code: 204, headers: Headers::new(), body: None };
    let wire = encode_response(&r);
    assert_eq!(wire, b"HTTP/1.1 204\r\n\r\n".to_vec());
    let back = decode_response(&wire).unwrap();
    assert_eq!(back.status_code, 204);
    assert_eq!(back.headers.len(), 0);
    assert_eq!(back.body, None);
}

#[test]
fn garbage_does_not_decode_as_a_response() {
    assert!(decode_response(b"FTP 200\r\n\r\n").is_none());
    assert!(decode_response(b"HTTP/1.1 abc\r\n\r\n").is_none());
    assert!(decode_response(b"HTTP/1.1 200").is_none());
}
