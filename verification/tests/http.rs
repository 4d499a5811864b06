use minitools::http::{
    build_response, parse_request, ParseError, Progress, Request, RequestReader, Status,
};
use minitools::server::Server;

fn parse(raw: &str) -> Result<Request, ParseError> {
    parse_request(&mut raw.as_bytes())
}

#[test]
fn parses_get_request_with_headers() {
    let req = parse("GET /hello HTTP/1.1\r\nHost: example.com\r\nUser-Agent: test\r\n\r\n");
    let req = match req {
        Ok(r) => r,
        Err(e) => panic!("{}", e.message()),
    };
    assert_eq!(req.method, "GET");
    assert_eq!(req.path, "/hello");
    assert_eq!(req.version, "HTTP/1.1");
    assert_eq!(
        req.headers.get("host").map(String::as_str),
        Some("example.com")
    );
}

#[test]
fn rejects_empty_request() {
    assert!(matches!(parse(""), Err(ParseError::EmptyRequest)));
    assert!(matches!(parse("\r\n"), Err(ParseError::EmptyRequest)));
}

#[test]
fn rejects_malformed_request_line() {
    assert!(matches!(
        parse("GETONLY\r\n\r\n"),
        Err(ParseError::MalformedRequestLine(_))
    ));
}

#[test]
fn builds_response_with_correct_headers() {
    let resp = build_response(Status::NotFound, "text/html", "nope");
    assert!(resp.starts_with("HTTP/1.1 404 Not Found\r\n"));
    assert!(resp.contains("Content-Length: 4"));
    assert!(resp.ends_with("nope"));
}

#[test]
fn response_text_is_exact() {
    assert_eq!(
        build_response(Status::Okay, "text/plain", "日\n"),
        "HTTP/1.1 200 OK\r\nContent-Type: text/plain\r\nContent-Length: 4\r\nConnection: close\r\n\r\n日\n"
    );
    assert_eq!(Status::BadRequest.code(), 400);
    assert_eq!(Status::BadRequest.reason(), "Bad Request");
    assert_eq!(Status::NotFound.code(), 404);
    assert_eq!(Status::Okay.reason(), "OK");
}

#[test]
fn error_messages() {
    assert_eq!(ParseError::EmptyRequest.message(), "空请求");
    match parse(" GET \r\n") {
        Err(e) => assert_eq!(e.message(), "请求行格式非法: GET"),
        Ok(_) => panic!("accepted"),
    }
    match parse_request(&mut &b"GET / \xff\r\n"[..]) {
        Err(e) => assert_eq!(e.message(), "读取请求失败: stream did not contain valid UTF-8"),
        Ok(_) => panic!("accepted"),
    }
    match parse_request(&mut &b"GET / 1\r\nA: \xff\r\n\r\n"[..]) {
        Err(ParseError::Io(_)) => {}
        _ => panic!("accepted"),
    }
}

#[test]
fn headers_end_at_the_empty_line() {
    let mut input = &b"GET / HTTP/1.1 x\nA : 1\nbad line\nb:  two:three \na:2\n\nC: \xff\n"[..];
    let req = parse_request(&mut input).ok().unwrap();
    assert_eq!(input, b"C: \xff\n");
    assert_eq!(req.version, "HTTP/1.1 x");
    assert_eq!(req.headers.len(), 2);
    assert_eq!(req.headers.get("a").map(String::as_str), Some("2"));
    assert_eq!(req.headers.get("b").map(String::as_str), Some("two:three"));
    let cut = parse("GET / 1\r\nX: y").ok().unwrap();
    assert_eq!(cut.headers.get("x").map(String::as_str), Some("y"));
    assert_eq!(cut.headers.len(), 1);
}

#[test]
fn two_spaces_give_an_empty_part() {
    let req = parse("GET  / HTTP/1.1\r\n\r\n").ok().unwrap();
    assert_eq!((req.method.as_str(), req.path.as_str()), ("GET", ""));
    assert_eq!(req.version, "/ HTTP/1.1");
    assert!(matches!(parse("GET / \r\n\r\n"), Err(ParseError::MalformedRequestLine(_))));
}

#[test]
fn lines_can_be_fed_one_by_one() {
    let mut reader = RequestReader::new();
    for line in ["GET /a HTTP/1.1\r\n", "K: é\r\n"] {
        reader = match reader.feed(line.as_bytes()) {
            Progress::More(r) => r,
            _ => panic!("ended early"),
        };
    }
    match reader.feed(b"") {
        Progress::Done(req) => {
            assert_eq!(req.path, "/a");
            assert_eq!(req.headers.get("k").map(String::as_str), Some("é"));
        }
        _ => panic!("not done"),
    }
    assert!(matches!(RequestReader::new().feed(b" \n"), Progress::Refused(ParseError::EmptyRequest)));
}

fn request(method: &str, path: &str) -> Result<Request, ParseError> {
    parse(&format!("{method} {path} HTTP/1.1\r\n\r\n"))
}

#[test]
fn routes() {
    let home = Server::respond(&request("GET", "/"));
    assert_eq!(home.delay_secs, 0);
    assert_eq!(Server::status_line(&home.response), "HTTP/1.1 200 OK");
    assert!(home.response.contains("Content-Type: text/html; charset=utf-8\r\n"));
    assert!(home.response.ends_with(Server::index_page().as_str()));
    assert!(Server::index_page().starts_with("<html><head><title>mini-http-server</title></head><body><h1>Hello, Rust!</h1>"));
    assert!(Server::index_page().ends_with("</li></ul></body></html>"));
    let slow = Server::respond(&request("GET", "/sleep"));
    assert_eq!(slow.delay_secs, 5);
    assert!(slow.response.ends_with("睡醒了（这个请求耗时 5 秒）\n"));
    let post = Server::respond(&request("POST", "/"));
    assert_eq!(Server::status_line(&post.response), "HTTP/1.1 404 Not Found");
    let other = Server::respond(&request("GET", "/x"));
    assert!(other.response.ends_with("<h1>404</h1><p>没有 /x 这个路由</p>"));
    assert_eq!(other.delay_secs, 0);
}

#[test]
fn refused_request_is_answered_with_400() {
    let reply = Server::respond(&parse("nonsense\r\n\r\n"));
    assert_eq!(
        reply.response,
        "HTTP/1.1 400 Bad Request\r\nContent-Type: text/plain; charset=utf-8\r\nContent-Length: 16\r\nConnection: close\r\n\r\n400 Bad Request\n"
    );
    assert_eq!(reply.delay_secs, 0);
}

#[test]
fn status_line_of_odd_texts() {
    assert_eq!(Server::status_line(""), "");
    assert_eq!(Server::status_line("a\nb"), "a");
    assert_eq!(Server::status_line("a\r"), "a\r");
    assert_eq!(Server::status_line("\r\nb"), "");
}

#[test]
fn written_request_is_read_back() {
    let raw = "PUT /ü?q HTTP/1.1\r\nX-One: 1\r\nx-two: a b\r\nX-ONE: 3\r\nEmpty: \r\n\r\nbody\r\nZ: 1\r\n";
    let req = parse(raw).ok().unwrap();
    assert_eq!(req.method, "PUT");
    assert_eq!(req.path, "/ü?q");
    assert_eq!(req.headers.get("x-one").map(String::as_str), Some("3"));
    assert_eq!(req.headers.get("x-two").map(String::as_str), Some("a b"));
    assert_eq!(req.headers.get("empty").map(String::as_str), Some(""));
    assert_eq!(req.headers.len(), 3);
}

#[test]
fn body_is_left_in_the_reader() {
    for head in ["GET / 1\r\n\r\n", "POST /x 1\nA: b\n \t\n", "GET / 1\r\nno colon\r\n\n"] {
        let alone = parse(head).ok().unwrap();
        for body in ["", "\r\n", "B: c\r\n\r\n", "{\"a\": 1}"] {
            let bytes = [head.as_bytes(), body.as_bytes()].concat();
            let mut input = &bytes[..];
            let req = parse_request(&mut input).ok().unwrap();
            assert_eq!(input, body.as_bytes());
            assert_eq!((req.method, req.path, req.version), (
                alone.method.clone(),
                alone.path.clone(),
                alone.version.clone(),
            ));
            assert_eq!(req.headers.len(), alone.headers.len());
        }
    }
    let mut refused = &b"GET\r\nrest"[..];
    assert!(parse_request(&mut refused).is_err());
    assert_eq!(refused, b"rest");
}
