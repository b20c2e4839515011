use oxarch::server::{head_complete, http_message, request_target, respond, route, Route};

#[test]
fn request_heads_end_with_an_empty_line() {
    assert!(!head_complete(&b"GET / HTTP/1.1\r\nHost: x\r\n".to_vec()));
    assert!(head_complete(&b"GET / HTTP/1.1\r\n\r\n".to_vec()));
    assert!(head_complete(&vec![b'a'; 8192]));
    assert!(!head_complete(&vec![b'a'; 8191]));
}

#[test]
fn requests_are_routed_by_method_and_path() {
    let (method, path) = request_target("GET /api/report HTTP/1.1\r\nHost: x\r\n\r\n");
    assert_eq!(method, "GET");
    assert_eq!(path, "/api/report");
    assert!(matches!(route(&method, &path), Route::Report));
    assert!(matches!(route("GET", "/"), Route::Page));
    assert!(matches!(route("GET", "/explorer.js"), Route::Script));
    assert!(matches!(route("POST", "/"), Route::MethodNotAllowed));
    assert!(matches!(route("GET", "/etc/passwd"), Route::NotFound));
    let (m, p) = request_target("  \t ");
    assert_eq!((m.as_str(), p.as_str()), ("", ""));
}

#[test]
fn responses_and_messages() {
    let r = respond(Route::Report, "<html>", "js", Err("cannot open /x".to_string()));
    assert_eq!(r.status, "500 Internal Server Error");
    assert_eq!(r.content_type, "text/plain; charset=utf-8");
    assert_eq!(r.body, "cannot open /x");
    let r = respond(Route::Page, "<html>", "js", Ok(String::new()));
    assert_eq!((r.status.as_str(), r.body.as_str()), ("200 OK", "<html>"));
    let r = respond(Route::MethodNotAllowed, "", "", Ok(String::new()));
    assert_eq!(r.body, "Only GET is supported");
    let m = http_message("200 OK", "text/plain", "h\u{e9}");
    assert!(m.starts_with("HTTP/1.1 200 OK\r\nContent-Type: text/plain\r\nContent-Length: 3\r\n"));
    assert!(m.ends_with("Connection: close\r\n\r\nh\u{e9}"));
}
