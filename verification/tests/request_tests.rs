use httpcore::framer::{split_request, Framer};
use httpcore::json::JsonValue;
use httpcore::pool::ThreadPool;
use httpcore::request::{parse_request, read_request_line};
use httpcore::response::{http_error, response_text, Body, HttpCode, HttpResponse};
use httpcore::routes::{hello_world, not_found, route, test_post, Route};

fn lines(texts: &[&str]) -> Vec<String> {
    texts.iter().map(|t| t.to_string()).collect()
}

#[test]
fn frames_a_body_of_the_announced_length() {
    let stream = b"POST / HTTP/1.1\r\nHost: x\r\nContent-Length: 5\r\n\r\nhelloEXTRA".to_vec();
    let (head, body) = split_request(&stream).unwrap();
    assert_eq!(head, lines(&["POST / HTTP/1.1\r", "Host: x\r", "Content-Length: 5\r"]));
    assert_eq!(body, "hello");
}

#[test]
fn framer_stops_once_the_body_is_whole() {
    let stream = b"POST / HTTP/1.1\nContent-Length: 5\n hel o and more".to_vec();
    let mut framer = Framer::new();
    let mut taken = 0;
    for byte in stream.iter() {
        if !framer.is_reading() {
            break;
        }
        framer = framer.feed(*byte);
        taken += 1;
    }
    assert_eq!(taken, "POST / HTTP/1.1\nContent-Length: 5\n hel o".len());
    let (head, body) = framer.finish().unwrap();
    assert_eq!(head, lines(&["POST / HTTP/1.1", "Content-Length: 5"]));
    assert_eq!(body, "hel o");
}

#[test]
fn zero_length_ends_the_header_at_once() {
    let stream = b"GET / HTTP/1.1\r\ncontent-length: 0\r\nHost: x\r\n\r\n".to_vec();
    let (head, body) = split_request(&stream).unwrap();
    assert_eq!(head, lines(&["GET / HTTP/1.1\r", "content-length: 0\r"]));
    assert_eq!(body, "");
}

#[test]
fn stream_without_a_length_gives_its_lines() {
    let stream = b"GET / HTTP/1.1\r\nHost: x\r\n\r\npartial".to_vec();
    let (head, body) = split_request(&stream).unwrap();
    assert_eq!(head, lines(&["GET / HTTP/1.1\r", "Host: x\r", "\r"]));
    assert_eq!(body, "");
    assert_eq!(split_request(&Vec::new()), Some((vec![], String::new())));
}

#[test]
fn short_body_is_returned_as_far_as_it_goes() {
    let stream = b"Content-Length: 10\nabc".to_vec();
    let (head, body) = split_request(&stream).unwrap();
    assert_eq!(head, lines(&["Content-Length: 10"]));
    assert_eq!(body, "abc");
}

#[test]
fn broken_headers_fail() {
    assert_eq!(split_request(&b"Content-Length: five\n".to_vec()), None);
    assert_eq!(split_request(&b"Content-Length: -5\n".to_vec()), None);
    assert_eq!(split_request(&b"Content-Length 5\n".to_vec()), None);
    assert_eq!(split_request(&b"Content-Length:\n".to_vec()), None);
    assert_eq!(split_request(&vec![b'a', 0xff, b'\n']), None);
    assert_eq!(split_request(&b"CONTENT-LENGTH : +2\nab".to_vec()).unwrap().1, "ab");
}

#[test]
fn body_that_is_no_text_comes_out_empty() {
    let stream = vec![b'C', b'o', b'n', b't', b'e', b'n', b't', b'-', b'L', b'e', b'n', b'g', b't', b'h', b':', b'1', b'\n', 0xff];
    let (head, body) = split_request(&stream).unwrap();
    assert_eq!(head, lines(&["Content-Length:1"]));
    assert_eq!(body, "");
}

#[test]
fn decodes_a_request() {
    let request = parse_request(
        lines(&["POST /items HTTP/1.1\r", "Host: localhost:8000\r", "Accept : a\r", "junk\r", "Host: other\r"]),
        "{\"a\": 1}".to_string(),
    );
    let request = match request {
        Ok(r) => r,
        Err(_) => panic!("rejected"),
    };
    assert_eq!(request.method, "POST");
    assert_eq!(request.uri, "/items");
    assert_eq!(request.headers.len(), 2);
    assert_eq!(request.header("Host"), Some(&"other".to_string()));
    assert_eq!(request.header("Accept"), Some(&"a".to_string()));
    assert_eq!(request.header("host"), None);
    assert_eq!(request.body, Some(JsonValue::object(vec![("a".to_string(), JsonValue::Int(1))])));
}

#[test]
fn header_value_keeps_what_follows_later_colons() {
    let request = parse_request(lines(&["GET / HTTP/1.1", "Host: localhost:8000"]), String::new());
    match request {
        Ok(r) => {
            assert_eq!(r.header("Host"), Some(&"localhost:8000".to_string()));
            assert_eq!(r.body, None);
        }
        Err(_) => panic!("rejected"),
    }
}

fn rejected(head: &[&str]) -> bool {
    match parse_request(lines(head), String::new()) {
        Ok(_) => false,
        Err(e) => {
            matches!(e.code, HttpCode::BadRequest)
                && e.body.to_string() == "\"could not parse request\""
        }
    }
}

#[test]
fn decoder_rejects_unknown_methods() {
    assert!(rejected(&["PUT / HTTP/1.1"]));
    assert!(rejected(&["get / HTTP/1.1"]));
    assert!(rejected(&["GETX / HTTP/1.1"]));
    assert!(rejected(&["HEAD /"]));
}

#[test]
fn decoder_rejects_missing_parts() {
    assert!(rejected(&[]));
    assert!(rejected(&[""]));
    assert!(rejected(&["   "]));
    assert!(rejected(&["GET"]));
    assert!(rejected(&["GET   "]));
}

#[test]
fn decoder_accepts_each_method() {
    for method in ["GET", "POST", "PATCH", "DELETE"] {
        let line = format!("  {} /x", method);
        assert_eq!(read_request_line(&line), Some((method.to_string(), "/x".to_string())));
    }
}

#[test]
fn body_that_does_not_parse_is_absent() {
    match parse_request(lines(&["POST / HTTP/1.1"]), "{]".to_string()) {
        Ok(r) => assert_eq!(r.body, None),
        Err(_) => panic!("rejected"),
    }
}

#[test]
fn status_numbers_and_reasons() {
    assert_eq!(HttpCode::Okay.value(), 200);
    assert_eq!(HttpCode::BadRequest.value(), 400);
    assert_eq!(HttpCode::NotFound.value(), 404);
    assert_eq!(HttpCode::UnknownError.value(), 300);
    assert_eq!(HttpCode::Okay.to_string(), "Ok");
    assert_eq!(HttpCode::BadRequest.to_string(), "BAD REQUEST");
    assert_eq!(HttpCode::NotFound.to_string(), "NOT FOUND");
    assert_eq!(HttpCode::UnknownError.to_string(), "");
}

#[test]
fn errors_keep_their_class() {
    assert!(matches!(http_error(HttpCode::BadRequest, "m").code, HttpCode::BadRequest));
    assert!(matches!(http_error(HttpCode::NotFound, "m").code, HttpCode::NotFound));
    assert!(matches!(http_error(HttpCode::Okay, "m").code, HttpCode::UnknownError));
    assert!(matches!(http_error(HttpCode::UnknownError, "m").code, HttpCode::UnknownError));
    assert_eq!(http_error(HttpCode::NotFound, "gone").body.to_string(), "\"gone\"");
}

#[test]
fn response_text_has_status_line_and_body() {
    let response = HttpResponse { code: HttpCode::Okay, body: Body::Text("hi".to_string()) };
    assert_eq!(response_text(&response), "HTTP/1.1 200 Ok\r\n\r\n\r\nhi");
    let error = http_error(HttpCode::NotFound, "gone");
    assert_eq!(response_text(&error), "HTTP/1.1 404 NOT FOUND\r\n\r\n\r\n\"gone\"");
}

#[test]
fn pool_sizes() {
    assert_eq!(ThreadPool::new(None).resources.len(), 10);
    assert_eq!(ThreadPool::new(Some(3)).resources, vec![true, true, true]);
    assert_eq!(ThreadPool::new(Some(0)).resources.len(), 0);
}

#[test]
fn pool_slots() {
    let pool = ThreadPool::new(Some(4));
    assert_eq!(pool.slot_for(0), Some(0));
    assert_eq!(pool.slot_for(3), Some(3));
    assert_eq!(pool.slot_for(4), None);
    let mut seen = false;
    for _ in 0..2000 {
        match pool.pick() {
            Some(i) => {
                assert!(i < 4);
                seen = true;
            }
            None => {}
        }
    }
    assert!(seen);
    assert_eq!(ThreadPool::new(Some(0)).pick(), None);
}

#[test]
fn routes_by_method_and_target() {
    assert!(matches!(route("GET", "/"), Route::Hello));
    assert!(matches!(route("POST", "/"), Route::Echo));
    assert!(matches!(route("GET", "/x"), Route::Missing));
    assert!(matches!(route("DELETE", "/"), Route::Missing));
    assert!(matches!(route("get", "/"), Route::Missing));
}

#[test]
fn handlers_answer() {
    let page = hello_world("<p>hi</p>".to_string());
    assert!(matches!(page.code, HttpCode::Okay));
    assert_eq!(page.body.to_string(), "<p>hi</p>");
    let missing = not_found("gone");
    assert!(matches!(missing.code, HttpCode::NotFound));
    assert_eq!(missing.body.to_string(), "\"gone\"");
    let with_body = match parse_request(lines(&["POST / HTTP/1.1"]), "[1, 2]".to_string()) {
        Ok(r) => test_post(r),
        Err(_) => panic!("rejected"),
    };
    assert_eq!(with_body.body.to_string(), "[1, 2]");
    let without = match parse_request(lines(&["POST / HTTP/1.1"]), String::new()) {
        Ok(r) => test_post(r),
        Err(_) => panic!("rejected"),
    };
    assert!(matches!(without.code, HttpCode::Okay));
    assert_eq!(without.body.to_string(), "[]");
}
