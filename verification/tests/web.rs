use playground::web::{http_response, route};

#[test]
fn web_routes_root_and_sleep_to_hello() {
    let r = route("GET / HTTP/1.1");
    assert_eq!(r.status_line, "HTTP/1.1 200 OK");
    assert_eq!(r.page, "./resources/hello.html");
    assert_eq!(r.delay_secs, 0);

    let r = route("GET /sleep HTTP/1.1");
    assert_eq!(r.status_line, "HTTP/1.1 200 OK");
    assert_eq!(r.page, "./resources/hello.html");
    assert_eq!(r.delay_secs, 5);
}

#[test]
fn web_routes_anything_else_to_not_found() {
    for line in ["GET /index HTTP/1.1", "POST / HTTP/1.1", "", "GET / HTTP/1.0"] {
        let r = route(line);
        assert_eq!(r.status_line, "HTTP/1.1 404 NOT FOUND");
        assert_eq!(r.page, "./resources/404.html");
        assert_eq!(r.delay_secs, 0);
    }
}

#[test]
fn web_response_carries_byte_length() {
    assert_eq!(
        http_response("HTTP/1.1 200 OK", "héllo"),
        "HTTP/1.1 200 OK\r\nContent-Length: 6\r\n\r\nhéllo"
    );
    assert_eq!(
        http_response("HTTP/1.1 404 NOT FOUND", ""),
        "HTTP/1.1 404 NOT FOUND\r\nContent-Length: 0\r\n\r\n"
    );
    let body = "x".repeat(1234);
    let expected = format!("HTTP/1.1 200 OK\r\nContent-Length: 1234\r\n\r\n{}", body);
    assert_eq!(http_response("HTTP/1.1 200 OK", &body), expected);
}
