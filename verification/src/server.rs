//! Which response a request gets.
use crate::http;
use crate::http::{build_response, ParseError, Request, Status};
use crate::text;
use vstd::prelude::*;
use vstd::string::*;

verus! {

/// The server. It keeps no state: each connection carries one request.
pub struct Server;

/// What to do for one request.
pub struct Reply {
    /// Seconds to wait before answering.
    pub delay_secs: u64,
    /// The text to send.
    pub response: String,
}

/// Seconds that the slow route waits.
pub const SLEEP_SECS: u64 = 5;

/// The page at `/`.
pub open spec fn index_text() -> Seq<char> {
    "<html><head><title>mini-http-server</title></head><body><h1>Hello, Rust!</h1><p>纯标准库手写的多线程 HTTP 服务器。</p><ul><li><a href=\"/\">GET /</a>：本页</li><li><a href=\"/sleep\">GET /sleep</a>：耗时 5 秒的慢请求（试试慢请求期间刷新首页）</li></ul></body></html>"@
}

/// The page for a path that is not served.
pub open spec fn missing_text(path: Seq<char>) -> Seq<char> {
    "<h1>404</h1><p>没有 "@ + path + " 这个路由</p>"@
}

/// Seconds to wait before a request with this method and path is answered.
pub open spec fn delay_of(method: Seq<char>, path: Seq<char>) -> u64 {
    if method == "GET"@ && path == "/sleep"@ {
        SLEEP_SECS
    } else {
        0
    }
}

/// The response to a request with this method and path.
pub open spec fn response_to(method: Seq<char>, path: Seq<char>) -> Seq<char> {
    if method == "GET"@ && path == "/"@ {
        http::response(Status::Okay, "text/html; charset=utf-8"@, index_text())
    } else if method == "GET"@ && path == "/sleep"@ {
        http::response(
            Status::Okay,
            "text/plain; charset=utf-8"@,
            "睡醒了（这个请求耗时 5 秒）\n"@,
        )
    } else {
        http::response(Status::NotFound, "text/html; charset=utf-8"@, missing_text(path))
    }
}

/// The response to anything that is no request.
pub open spec fn response_to_refused() -> Seq<char> {
    http::response(Status::BadRequest, "text/plain; charset=utf-8"@, "400 Bad Request\n"@)
}

/// The first line of a text, without its line end.
pub open spec fn opening_line(text: Seq<char>) -> Seq<char> {
    match text.index_of_first('\n') {
        None => text,
        Some(i) => if i > 0 && text[i - 1] == '\r' {
            text.take(i - 1)
        } else {
            text.take(i)
        },
    }
}

impl Server {
    /// What to do once the request line and headers have been read, or could not be.
    pub fn respond(parsed: &Result<Request, ParseError>) -> (out: Reply)
        ensures
            match parsed {
                Ok(req) => {
                    &&& out.delay_secs == delay_of(req.method@, req.path@)
                    &&& out.response@ == response_to(req.method@, req.path@)
                },
                Err(_) => out.delay_secs == 0 && out.response@ == response_to_refused(),
            },
    {
        match parsed {
            Ok(req) => Server::route(req),
            Err(_) => Reply {
                delay_secs: 0,
                response: build_response(
                    Status::BadRequest,
                    "text/plain; charset=utf-8",
                    "400 Bad Request\n",
                ),
            },
        }
    }

    /// What to do for a request.
    pub fn route(req: &Request) -> (out: Reply)
        ensures
            out.delay_secs == delay_of(req.method@, req.path@),
            out.response@ == response_to(req.method@, req.path@),
    {
        proof {
            reveal_strlit("/");
            reveal_strlit("/sleep");
            assert("/"@.len() != "/sleep"@.len());
        }
        let get = text::same_text(req.method.as_str(), "GET");
        if get && text::same_text(req.path.as_str(), "/") {
            let page = Server::index_page();
            return Reply {
                delay_secs: 0,
                response: build_response(
                    Status::Okay,
                    "text/html; charset=utf-8",
                    page.as_str(),
                ),
            };
        }
        if get && text::same_text(req.path.as_str(), "/sleep") {
            return Reply {
                delay_secs: SLEEP_SECS,
                response: build_response(
                    Status::Okay,
                    "text/plain; charset=utf-8",
                    "睡醒了（这个请求耗时 5 秒）\n",
                ),
            };
        }
        let mut page = "<h1>404</h1><p>没有 ".to_owned();
        page.append(req.path.as_str());
        page.append(" 这个路由</p>");
        Reply {
            delay_secs: 0,
            response: build_response(Status::NotFound, "text/html; charset=utf-8", page.as_str()),
        }
    }

    /// The page at `/`.
    pub fn index_page() -> (out: String)
        ensures
            out@ == index_text(),
    {
        "<html><head><title>mini-http-server</title></head><body><h1>Hello, Rust!</h1><p>纯标准库手写的多线程 HTTP 服务器。</p><ul><li><a href=\"/\">GET /</a>：本页</li><li><a href=\"/sleep\">GET /sleep</a>：耗时 5 秒的慢请求（试试慢请求期间刷新首页）</li></ul></body></html>".to_owned()
    }

    /// The first line of a response, for the log.
    pub fn status_line(response: &str) -> (out: &str)
        ensures
            out@ == opening_line(response@),
    {
        match text::find_char(response, '\n') {
            None => response,
            Some(i) => {
                let n: usize = if i > 0 && response.get_char(i - 1) == '\r' {
                    i - 1
                } else {
                    i
                };
                assert(response@.subrange(0, n as int) == response@.take(n as int));
                response.substring_char(0, n)
            },
        }
    }
}

// ---------------------------------------------------------------------------------------
// Laws
// ---------------------------------------------------------------------------------------

/// A text whose first line feed ends the line `line`.
proof fn opening_line_is(line: Seq<char>, rest: Seq<char>)
    requires
        !line.contains('\n'),
    ensures
        opening_line(line + seq!['\r', '\n'] + rest) == line,
{
    let whole = line + seq!['\r', '\n'] + rest;
    let i = line.len() as int + 1;
    assert(whole[i] == '\n');
    assert forall|k: int| 0 <= k < i implies whole[k] != '\n' by {
        if k < line.len() {
            assert(line.contains(line[k]));
        }
    }
    whole.index_of_first_ensures('\n');
    assert(whole.contains('\n'));
    assert(whole.take(i - 1) == line);
}

/// The first line of a response tells its status.
pub proof fn response_opens_with_status(status: Status, content_type: Seq<char>, body: Seq<char>)
    ensures
        opening_line(http::response(status, content_type, body)) == http::opening(status),
{
    reveal_strlit("\r\nContent-Type: ");
    reveal_strlit("HTTP/1.1 ");
    reveal_strlit(" ");
    reveal_strlit("OK");
    reveal_strlit("Not Found");
    reveal_strlit("Bad Request");
    let whole = http::response(status, content_type, body);
    let open = http::opening(status);
    let n = open.len() as int;
    assert(whole.take(n) == open);
    assert(whole.take(n + 2) == open + seq!['\r', '\n']);
    assert(whole == whole.take(n + 2) + whole.skip(n + 2));
    text::decimal_has_digits_only(status.number() as nat);
    let number = text::decimal(status.number() as nat);
    assert forall|k: int| 0 <= k < open.len() implies open[k] != '\n' by {
        let at = k - 9;
        if 0 <= at < number.len() {
            assert(open[k] == number[at]);
        }
    }
    opening_line_is(open, whole.skip(n + 2));
}

/// Bytes that hold no request are answered with status 400, and a request for anything but
/// `GET /` and `GET /sleep` with status 404.
pub proof fn what_is_not_served_is_refused(method: Seq<char>, path: Seq<char>)
    ensures
        opening_line(response_to_refused()) == http::opening(Status::BadRequest),
        opening_line(response_to(method, path)) == http::opening(
            if method == "GET"@ && (path == "/"@ || path == "/sleep"@) {
                Status::Okay
            } else {
                Status::NotFound
            },
        ),
{
    response_opens_with_status(
        Status::BadRequest,
        "text/plain; charset=utf-8"@,
        "400 Bad Request\n"@,
    );
    response_opens_with_status(Status::Okay, "text/html; charset=utf-8"@, index_text());
    response_opens_with_status(
        Status::Okay,
        "text/plain; charset=utf-8"@,
        "睡醒了（这个请求耗时 5 秒）\n"@,
    );
    response_opens_with_status(Status::NotFound, "text/html; charset=utf-8"@, missing_text(path));
}

/// Only `GET /sleep` keeps its caller waiting, for five seconds.
pub proof fn only_sleep_waits(method: Seq<char>, path: Seq<char>)
    ensures
        delay_of(method, path) > 0 <==> method == "GET"@ && path == "/sleep"@,
        delay_of(method, path) == 0 || delay_of(method, path) == 5,
{
}

/// Whether a text is a complete response with this status and content type.
pub open spec fn is_response(
    text: Seq<char>,
    status: Status,
    content_type: Seq<char>,
    body: Seq<char>,
) -> bool {
    exists|lines: Seq<Seq<char>>, at: int| #[trigger]
        http::is_framed(text, lines, http::line_of(status), content_type, body, at)
}

/// Every reply is a complete response with the number of bytes of its body stated: `GET /` gives
/// the start page, `GET /sleep` a line of plain text, anything else a page with status 404 that
/// names the path that was asked for, and bytes that hold no request a line with status 400.
pub proof fn every_reply_is_complete(method: Seq<char>, path: Seq<char>)
    ensures
        ({
            let html = "text/html; charset=utf-8"@;
            let plain = "text/plain; charset=utf-8"@;
            let reply = response_to(method, path);
            &&& method == "GET"@ && path == "/"@ ==> is_response(
                reply,
                Status::Okay,
                html,
                "<html><head><title>mini-http-server</title></head><body><h1>Hello, Rust!</h1><p>纯标准库手写的多线程 HTTP 服务器。</p><ul><li><a href=\"/\">GET /</a>：本页</li><li><a href=\"/sleep\">GET /sleep</a>：耗时 5 秒的慢请求（试试慢请求期间刷新首页）</li></ul></body></html>"@,
            )
            &&& method == "GET"@ && path == "/sleep"@ ==> is_response(
                reply,
                Status::Okay,
                plain,
                "睡醒了（这个请求耗时 5 秒）\n"@,
            )
            &&& !(method == "GET"@ && (path == "/"@ || path == "/sleep"@)) ==> is_response(
                reply,
                Status::NotFound,
                html,
                "<h1>404</h1><p>没有 "@ + path + " 这个路由</p>"@,
            )
            &&& is_response(
                response_to_refused(),
                Status::BadRequest,
                plain,
                "400 Bad Request\n"@,
            )
        }),
{
    let html = "text/html; charset=utf-8"@;
    let plain = "text/plain; charset=utf-8"@;
    reveal_strlit("text/html; charset=utf-8");
    reveal_strlit("text/plain; charset=utf-8");
    reveal_strlit("/");
    reveal_strlit("/sleep");
    assert("/"@.len() != "/sleep"@.len());
    assert(!html.contains('\r') && !html.contains('\n'));
    assert(!plain.contains('\r') && !plain.contains('\n'));
    http::stated_length_is_the_length_of_the_body(Status::Okay, html, index_text());
    let awake = "睡醒了（这个请求耗时 5 秒）\n"@;
    http::stated_length_is_the_length_of_the_body(Status::Okay, plain, awake);
    let missing = missing_text(path);
    http::stated_length_is_the_length_of_the_body(Status::NotFound, html, missing);
    let bad = "400 Bad Request\n"@;
    http::stated_length_is_the_length_of_the_body(Status::BadRequest, plain, bad);
}

/// The line that is logged is the first line of the response, without its line end.
pub proof fn logged_line_is_the_first(line: Seq<char>, rest: Seq<char>)
    requires
        !line.contains('\r'),
        !line.contains('\n'),
    ensures
        opening_line(line + seq!['\r', '\n'] + rest) == line,
        opening_line(line + seq!['\n'] + rest) == line,
        opening_line(line) == line,
{
    opening_line_is(line, rest);
    let whole = line + seq!['\n'] + rest;
    let i = line.len() as int;
    assert(whole[i] == '\n');
    assert forall|k: int| 0 <= k < i implies whole[k] != '\n' by {
        assert(line.contains(line[k]));
    }
    whole.index_of_first_ensures('\n');
    assert(whole.contains('\n'));
    if i > 0 {
        assert(line.contains(line[i - 1]));
        assert(whole[i - 1] == line[i - 1]);
    }
    assert(whole.take(i) == line);
    line.index_of_first_ensures('\n');
}

} // verus!
