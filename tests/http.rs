use hello::http::{format_response, handle_response, Route, SLEEP_SECS};

#[test]
fn root_request_gets_greeting_page() {
    let r = handle_response("GET / HTTP/1.1").unwrap();
    assert_eq!(r, Route::Hello);
    assert_eq!(r.status_line(), "HTTP/1.1 200 OK");
    assert_eq!(r.filename(), "pages/hello.html");
    assert_eq!(r.delay_secs(), 0);
}

#[test]
fn unknown_path_gets_not_found_page() {
    let r = handle_response("GET /bogus HTTP/1.1").unwrap();
    assert_eq!(r, Route::NotFound);
    assert_eq!(r.status_line(), "HTTP/1.1 404 NOT FOUND");
    assert_eq!(r.filename(), "pages/404.html");
    assert_eq!(r.delay_secs(), 0);
}

#[test]
fn sleep_request_waits_then_gets_greeting_page() {
    let r = handle_response("GET /sleep HTTP/1.1").unwrap();
    assert_eq!(r, Route::SleepThenHello);
    assert_eq!(r.status_line(), "HTTP/1.1 200 OK");
    assert_eq!(r.filename(), "pages/hello.html");
    assert_eq!(r.delay_secs(), SLEEP_SECS);
    assert_eq!(SLEEP_SECS, 10);
}

#[test]
fn empty_request_line_gets_no_answer() {
    assert_eq!(handle_response(""), None);
}

#[test]
fn near_misses_are_not_found() {
    assert_eq!(handle_response("GET / HTTP/1.0"), Some(Route::NotFound));
    assert_eq!(handle_response("GET /"), Some(Route::NotFound));
    assert_eq!(handle_response("GET / HTTP/1.1 "), Some(Route::NotFound));
    assert_eq!(handle_response("get / http/1.1"), Some(Route::NotFound));
    assert_eq!(handle_response("GET /sleep HTTP/1.0"), Some(Route::NotFound));
}

#[test]
fn response_frames_status_length_and_body() {
    let body = "<h1>Hello!</h1>";
    assert_eq!(
        format_response("HTTP/1.1 200 OK", body),
        "HTTP/1.1 200 OK\r\nContent-Length:15\r\n\r\n<h1>Hello!</h1>"
    );
}

#[test]
fn response_for_empty_page() {
    assert_eq!(
        format_response("HTTP/1.1 404 NOT FOUND", ""),
        "HTTP/1.1 404 NOT FOUND\r\nContent-Length:0\r\n\r\n"
    );
}

#[test]
fn content_length_counts_bytes_not_characters() {
    // Two characters, five bytes in UTF-8.
    assert_eq!(
        format_response("HTTP/1.1 200 OK", "é€"),
        "HTTP/1.1 200 OK\r\nContent-Length:5\r\n\r\né€"
    );
}

#[test]
fn content_length_with_several_digits() {
    let body = "x".repeat(1234);
    let expected = format!("HTTP/1.1 200 OK\r\nContent-Length:1234\r\n\r\n{}", body);
    assert_eq!(format_response("HTTP/1.1 200 OK", &body), expected);
    let body = "y".repeat(100);
    let expected = format!("S\r\nContent-Length:100\r\n\r\n{}", body);
    assert_eq!(format_response("S", &body), expected);
}
