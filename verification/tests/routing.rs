//! Dispatch behaviour: exact-match routing, static-mapping resolution, and
//! the responses the engine serves for them.

use surfer::request::Method;
use surfer::response::file_response::FileResponse;
use surfer::response::json_response::JsonResponse;
use surfer::response::not_found_response;
use surfer::response::bad_request_response;
use surfer::server::resolve_static_path;
use surfer::server::Dispatch;
use surfer::server::Server;

#[test]
fn exact_route_always_dispatches_to_its_handler() {
    let mut server = Server::new(None, None);
    let root = server.register_route(Method::GET, "/");
    let about = server.register_route(Method::GET, "/about");
    let submit = server.register_route(Method::POST, "/about");
    match server.dispatch(b"GET", b"/") {
        Dispatch::Route(h) => assert_eq!(h, root),
        _ => panic!("expected the root route"),
    }
    match server.dispatch(b"GET", b"/about") {
        Dispatch::Route(h) => assert_eq!(h, about),
        _ => panic!("expected the about route"),
    }
    match server.dispatch(b"POST", b"/about") {
        Dispatch::Route(h) => assert_eq!(h, submit),
        _ => panic!("expected the submit route"),
    }
}

#[test]
fn reregistering_a_route_reuses_its_slot() {
    let mut server = Server::new(None, None);
    let first = server.register_route(Method::GET, "/");
    let again = server.register_route(Method::GET, "/");
    assert_eq!(first, again);
    let other = server.register_route(Method::GET, "/other");
    assert_ne!(first, other);
}

#[test]
fn unmatched_pair_is_not_found() {
    let mut server = Server::new(None, None);
    server.register_route(Method::GET, "/");
    assert!(matches!(server.dispatch(b"GET", b"/missing"), Dispatch::NotFound));
    assert!(matches!(server.dispatch(b"POST", b"/"), Dispatch::NotFound));
}

#[test]
fn query_string_is_ignored_for_routing() {
    let mut server = Server::new(None, None);
    let h = server.register_route(Method::GET, "/search");
    match server.dispatch(b"GET", b"/search?q=verus") {
        Dispatch::Route(got) => assert_eq!(got, h),
        _ => panic!("expected the search route"),
    }
}

#[test]
fn routes_win_over_static_mappings() {
    let mut server = Server::new(None, None);
    server.register_static_dir("/", Some("public"));
    let h = server.register_route(Method::GET, "/");
    match server.dispatch(b"GET", b"/") {
        Dispatch::Route(got) => assert_eq!(got, h),
        _ => panic!("the exact route must win"),
    }
}

#[test]
fn static_mapping_matches_by_longest_prefix() {
    let mut server = Server::new(None, None);
    server.register_static_dir("/assets", Some("public"));
    server.register_static_dir("/assets/img", Some("images"));
    match server.dispatch(b"GET", b"/assets/img/logo.png") {
        Dispatch::StaticFile { mapping, residual } => {
            assert_eq!(mapping, 1);
            assert_eq!(residual, b"/logo.png".to_vec());
        },
        _ => panic!("expected the image mapping"),
    }
    match server.dispatch(b"GET", b"/assets/site.css") {
        Dispatch::StaticFile { mapping, residual } => {
            assert_eq!(mapping, 0);
            assert_eq!(residual, b"/site.css".to_vec());
        },
        _ => panic!("expected the asset mapping"),
    }
}

#[test]
fn slash_terminated_residual_serves_index_html() {
    let mut server = Server::new(None, None);
    server.register_static_dir("/assets", Some("public"));
    match server.dispatch(b"GET", b"/assets/") {
        Dispatch::StaticFile { mapping, residual } => {
            assert_eq!(mapping, 0);
            let path = resolve_static_path(b"public", &residual).unwrap();
            assert_eq!(path, b"public/index.html".to_vec());
        },
        _ => panic!("expected the asset mapping"),
    }
}

#[test]
fn empty_residual_serves_index_html() {
    assert_eq!(resolve_static_path(b"public", b"").unwrap(), b"public/index.html".to_vec());
    assert_eq!(
        resolve_static_path(b"public", b"/sub/").unwrap(),
        b"public/sub/index.html".to_vec()
    );
}

#[test]
fn plain_residual_resolves_under_the_root() {
    assert_eq!(
        resolve_static_path(b"public", b"/style.css").unwrap(),
        b"public/style.css".to_vec()
    );
}

#[test]
fn traversal_steps_are_rejected() {
    assert!(resolve_static_path(b"public", b"/../secret").is_none());
    assert!(resolve_static_path(b"public", b"/a/../../b").is_none());
    assert!(resolve_static_path(b"public", b"..").is_none());
}

#[test]
fn file_response_serves_content_with_its_mime_type() {
    let fr = FileResponse { status_code: 200, file_path: b"public/index.html".to_vec(), headers: None };
    let r = fr.into_response(Some(b"<h1>hi</h1>".to_vec()));
    assert_eq!(r.status_code, 200);
    assert_eq!(r.headers.get(b"Content-Type"), Some(&b"text/html".to_vec()));
    assert_eq!(r.headers.get(b"Content-Length"), Some(&b"11".to_vec()));
    assert_eq!(r.body, Some(b"<h1>hi</h1>".to_vec()));
}

#[test]
fn missing_file_becomes_not_found() {
    let fr = FileResponse { status_code: 200, file_path: b"public/gone.html".to_vec(), headers: None };
    let r = fr.into_response(None);
    assert_eq!(r.status_code, 404);
    assert_eq!(r.headers.get(b"Content-Type"), Some(&b"text/plain".to_vec()));
    assert_eq!(r.body, Some(b"404 Not Found".to_vec()));
}

#[test]
fn hello_surfer_json_route() {
    let mut server = Server::new(None, None);
    let h = server.register_route(Method::GET, "/");
    match server.dispatch(b"GET", b"/") {
        Dispatch::Route(got) => assert_eq!(got, h),
        _ => panic!("expected the root route"),
    }
    let body = "{\"message\":\"Hello, Surfer!\"}";
    let r = JsonResponse { status_code: 200, body: body.to_string(), headers: None }
        .into_response();
    assert_eq!(r.status_code, 200);
    assert_eq!(r.headers.get(b"Content-Type"), Some(&b"application/json".to_vec()));
    assert_eq!(r.headers.get(b"Content-Length"), Some(&b"28".to_vec()));
    assert_eq!(r.body, Some(body.as_bytes().to_vec()));
}

#[test]
fn canned_responses_carry_their_fixed_bodies() {
    let nf = not_found_response();
    assert_eq!(nf.status_code, 404);
    assert_eq!(nf.body, Some(b"404 Not Found".to_vec()));
    assert_eq!(nf.headers.get(b"Content-Type"), Some(&b"text/plain".to_vec()));
    let br = bad_request_response();
    assert_eq!(br.status_code, 400);
    assert_eq!(br.body, Some(b"400 Bad Request".to_vec()));
}

#[test]
fn not_found_cycle_for_unmatched_request() {
    let chunk = b"GET /missing HTTP/1.1\r\nHost: x\r\nUser-Agent: t\r\n\r\n";
    let head = surfer::codec::parse_head(chunk).unwrap();
    let req = surfer::codec::finish_request(head, b"").unwrap();
    let mut server = Server::new(None, None);
    server.register_route(Method::GET, "/");
    assert!(matches!(server.dispatch(&req.method, &req.path), Dispatch::NotFound));
    let r = not_found_response();
    let wire = surfer::codec::encode_response(&r);
    assert!(wire.starts_with(b"HTTP/1.1 404\r\n"));
    assert!(wire.ends_with(b"404 Not Found"));
}
