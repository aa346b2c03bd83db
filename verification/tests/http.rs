use thread_pool::http::{build_response, find_file, route, status_line, webroot, Route};

#[test]
fn route_root_request() {
    assert_eq!(route("GET / HTTP/1.1\r\nHost: x\r\n\r\n"), Route::Root);
}

#[test]
fn route_sleep_request() {
    assert_eq!(route("GET /sleep HTTP/1.1\r\n\r\n"), Route::Sleep);
}

#[test]
fn route_other_request_is_lookup() {
    assert_eq!(route("GET /hello.html HTTP/1.1\r\n\r\n"), Route::Lookup);
    assert_eq!(route(""), Route::Lookup);
}

#[test]
fn webroot_joins_under_root() {
    assert_eq!(webroot("hello.html"), "./webroot/hello.html");
    assert_eq!(webroot("404.html"), "./webroot/404.html");
}

#[test]
fn find_file_resolves_target() {
    let r = find_file("GET /hello.html HTTP/1.1\r\n\r\n");
    assert_eq!(r.as_deref(), Some("./webroot/hello.html"));
}

#[test]
fn find_file_bare_slash_gives_root_dir() {
    let r = find_file("GET / HTTP/1.1\r\n");
    assert_eq!(r.as_deref(), Some("./webroot/"));
}

#[test]
fn find_file_without_target_gives_nothing() {
    assert_eq!(find_file("GET"), None);
    assert_eq!(find_file(""), None);
    assert_eq!(find_file("   \r\n"), None);
}

#[test]
fn status_lines_are_exact() {
    assert_eq!(status_line(true), "HTTP/1.1 200 OK\r\n\r\n");
    assert_eq!(status_line(false), "HTTP/1.1 404 NOT FOUND\r\n\r\n");
}

#[test]
fn build_response_concatenates() {
    let r = build_response("HTTP/1.1 200 OK\r\n\r\n", "<html></html>");
    assert_eq!(r, "HTTP/1.1 200 OK\r\n\r\n<html></html>\r\n");
}
