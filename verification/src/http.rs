//! Requests, responses and the parser between bytes and requests.
use crate::text;
use vstd::hash_map::StringHashMap;
use vstd::prelude::*;
use vstd::string::*;

verus! {

/// A request without its body.
pub struct Request {
    pub method: String,
    pub path: String,
    pub version: String,
    /// Values by header name, the name in lower case.
    pub headers: StringHashMap<String>,
}

/// Status of a response.
#[derive(Debug, Clone, Copy, PartialEq, Eq, Structural)]
pub enum Status {
    Okay,
    NotFound,
    BadRequest,
}

/// Why a request cannot be parsed.
#[derive(Debug)]
pub enum ParseError {
    /// There was nothing, or only white space in the first line.
    EmptyRequest,
    /// The first line has fewer than three parts; the line without surrounding white space.
    MalformedRequestLine(String),
    /// The request cannot be read; the reason.
    Io(String),
}

// ---------------------------------------------------------------------------------------
// Model
// ---------------------------------------------------------------------------------------

/// The three parts of a request line.
#[verifier::ext_equal]
pub struct Head {
    pub method: Seq<char>,
    pub path: Seq<char>,
    pub version: Seq<char>,
}

/// What a [`Request`] stands for.
#[verifier::ext_equal]
pub struct RequestView {
    pub head: Head,
    pub headers: Map<Seq<char>, Seq<char>>,
}

/// What a [`ParseError`] stands for.
#[verifier::ext_equal]
pub enum Refusal {
    Empty,
    Malformed(Seq<char>),
    Io(Seq<char>),
}

/// The header values that a map of strings stands for.
pub open spec fn headers_view(headers: Map<Seq<char>, String>) -> Map<Seq<char>, Seq<char>> {
    headers.map_values(|v: String| v@)
}

impl View for Request {
    type V = RequestView;

    open spec fn view(&self) -> RequestView {
        RequestView {
            head: Head { method: self.method@, path: self.path@, version: self.version@ },
            headers: headers_view(self.headers@),
        }
    }
}

impl View for ParseError {
    type V = Refusal;

    open spec fn view(&self) -> Refusal {
        match self {
            ParseError::EmptyRequest => Refusal::Empty,
            ParseError::MalformedRequestLine(line) => Refusal::Malformed(line@),
            ParseError::Io(reason) => Refusal::Io(reason@),
        }
    }
}

/// What parsing gave.
pub open spec fn outcome_view(out: Result<Request, ParseError>) -> Result<RequestView, Refusal> {
    match out {
        Ok(req) => Ok(req@),
        Err(e) => Err(e@),
    }
}

/// The bytes up to and with the first line feed, or all of them if there is none.
pub open spec fn first_line(input: Seq<u8>) -> Seq<u8>
    decreases input.len(),
{
    if input.len() == 0 {
        seq![]
    } else if input[0] == 10 {
        seq![input[0]]
    } else {
        seq![input[0]] + first_line(input.drop_first())
    }
}

/// The first line is a beginning of the input, and is empty only if the input is.
pub proof fn first_line_is_prefix(input: Seq<u8>)
    ensures
        first_line(input).is_prefix_of(input),
        first_line(input).len() == 0 <==> input.len() == 0,
    decreases input.len(),
{
    if input.len() > 0 && input[0] != 10 {
        let rest = input.drop_first();
        first_line_is_prefix(rest);
        assert forall|i: int| 0 <= i < first_line(input).len() implies first_line(input)[i]
            == input[i] by {
            if i > 0 {
                assert(first_line(rest)[i - 1] == rest[i - 1]);
            }
        }
    }
}

/// The bytes behind the first line.
pub open spec fn other_lines(input: Seq<u8>) -> Seq<u8> {
    input.skip(first_line(input).len() as int)
}

/// Why a line that is no UTF-8 cannot be read.
pub open spec fn not_utf8() -> Seq<char> {
    "stream did not contain valid UTF-8"@
}

/// The parts of a line that are separated by its first two spaces, if it has two.
pub open spec fn split_head(line: Seq<char>) -> Option<Head> {
    match line.index_of_first(' ') {
        None => None,
        Some(i) => {
            let rest = line.skip(i + 1);
            match rest.index_of_first(' ') {
                None => None,
                Some(j) => Some(
                    Head { method: line.take(i), path: rest.take(j), version: rest.skip(j + 1) },
                ),
            }
        },
    }
}

/// The parts of a request line. White space at its end does not count.
pub open spec fn head_of(line: Seq<char>) -> Result<Head, Refusal> {
    if text::trimmed(line, text::Class::White).len() == 0 {
        Err(Refusal::Empty)
    } else {
        match split_head(text::trimmed_end(line, text::Class::White)) {
            Some(head) => Ok(head),
            None => Err(Refusal::Malformed(text::trimmed(line, text::Class::White))),
        }
    }
}

/// The headers after one more header line: the name, in lower case, is what stands before the
/// first colon, and a later value replaces an earlier one. A line without a colon is ignored.
pub open spec fn with_header(headers: Map<Seq<char>, Seq<char>>, line: Seq<char>) -> Map<
    Seq<char>,
    Seq<char>,
> {
    match line.index_of_first(':') {
        None => headers,
        Some(i) => headers.insert(
            text::ascii_lowercase(text::trimmed(line.take(i), text::Class::White)),
            text::trimmed(line.skip(i + 1), text::Class::White),
        ),
    }
}

/// The request with this head whose headers so far are `headers` and go on in `input`, up to an
/// empty line or the end.
pub open spec fn parsed_headers(
    head: Head,
    headers: Map<Seq<char>, Seq<char>>,
    input: Seq<u8>,
) -> Result<RequestView, Refusal>
    decreases input.len(),
{
    let bytes = first_line(input);
    if !vstd::utf8::valid_utf8(bytes) {
        Err(Refusal::Io(not_utf8()))
    } else {
        let line = text::trimmed_end(vstd::utf8::decode_utf8(bytes), text::Class::White);
        if bytes.len() == 0 || line.len() == 0 {
            Ok(RequestView { head, headers })
        } else {
            proof {
                first_line_is_prefix(input);
            }
            parsed_headers(head, with_header(headers, line), other_lines(input))
        }
    }
}

/// The request at the beginning of `input`: the request line, then headers up to an empty line
/// or the end.
pub open spec fn parsed(input: Seq<u8>) -> Result<RequestView, Refusal> {
    let bytes = first_line(input);
    if !vstd::utf8::valid_utf8(bytes) {
        Err(Refusal::Io(not_utf8()))
    } else {
        match head_of(vstd::utf8::decode_utf8(bytes)) {
            Err(e) => Err(e),
            Ok(head) => parsed_headers(head, Map::empty(), other_lines(input)),
        }
    }
}

/// Whether a line holds nothing but white space.
pub open spec fn is_blank(bytes: Seq<u8>) -> bool {
    vstd::utf8::valid_utf8(bytes) && text::trimmed_end(
        vstd::utf8::decode_utf8(bytes),
        text::Class::White,
    ).len() == 0
}

/// Number of bytes that are read of `input` for the headers: up to and with the line that closes
/// them or cannot be read.
pub open spec fn headers_len(input: Seq<u8>) -> nat
    decreases input.len(),
{
    let bytes = first_line(input);
    if !vstd::utf8::valid_utf8(bytes) || bytes.len() == 0 || is_blank(bytes) {
        bytes.len()
    } else {
        proof {
            first_line_is_prefix(input);
        }
        bytes.len() + headers_len(other_lines(input))
    }
}

/// Number of bytes that are read of `input` for the request. What follows them, the body, is left
/// unread.
pub open spec fn request_len(input: Seq<u8>) -> nat {
    let bytes = first_line(input);
    if vstd::utf8::valid_utf8(bytes) && head_of(vstd::utf8::decode_utf8(bytes)) is Ok {
        bytes.len() + headers_len(other_lines(input))
    } else {
        bytes.len()
    }
}

// ---------------------------------------------------------------------------------------
// Status and errors
// ---------------------------------------------------------------------------------------

impl Status {
    /// The numeric code.
    pub open spec fn number(self) -> u16 {
        match self {
            Status::Okay => 200,
            Status::NotFound => 404,
            Status::BadRequest => 400,
        }
    }

    /// The reason phrase.
    pub open spec fn phrase(self) -> Seq<char> {
        match self {
            Status::Okay => "OK"@,
            Status::NotFound => "Not Found"@,
            Status::BadRequest => "Bad Request"@,
        }
    }

    /// The numeric code.
    pub fn code(self) -> (out: u16)
        ensures
            out == self.number(),
    {
        match self {
            Status::Okay => 200,
            Status::NotFound => 404,
            Status::BadRequest => 400,
        }
    }

    /// The reason phrase.
    pub fn reason(self) -> (out: &'static str)
        ensures
            out@ == self.phrase(),
    {
        match self {
            Status::Okay => "OK",
            Status::NotFound => "Not Found",
            Status::BadRequest => "Bad Request",
        }
    }
}

impl Refusal {
    /// The message for the log.
    pub open spec fn text(self) -> Seq<char> {
        match self {
            Refusal::Empty => "空请求"@,
            Refusal::Malformed(line) => "请求行格式非法: "@ + line,
            Refusal::Io(reason) => "读取请求失败: "@ + reason,
        }
    }
}

impl ParseError {
    /// The message for the log.
    pub fn message(&self) -> (out: String)
        ensures
            out@ == self@.text(),
            out@ == match self@ {
                Refusal::Empty => "空请求"@,
                Refusal::Malformed(line) => "请求行格式非法: "@ + line,
                Refusal::Io(reason) => "读取请求失败: "@ + reason,
            },
    {
        match self {
            ParseError::EmptyRequest => "空请求".to_owned(),
            ParseError::MalformedRequestLine(line) => {
                let mut out = "请求行格式非法: ".to_owned();
                out.append(line.as_str());
                out
            },
            ParseError::Io(reason) => {
                let mut out = "读取请求失败: ".to_owned();
                out.append(reason.as_str());
                out
            },
        }
    }
}

// ---------------------------------------------------------------------------------------
// Parsing
// ---------------------------------------------------------------------------------------

/// `std::str::from_utf8`: the text that the bytes encode, or `None` if they are no UTF-8.
#[verifier::external_body]
fn text_of(bytes: &[u8]) -> (out: Option<String>)
    ensures
        out is Some <==> vstd::utf8::valid_utf8(bytes@),
        out matches Some(s) ==> s@ == vstd::utf8::decode_utf8(bytes@),
{
    match std::str::from_utf8(bytes) {
        Ok(s) => Some(s.to_owned()),
        Err(_) => None,
    }
}

/// A request while its lines come in.
pub struct RequestReader {
    head: Option<(String, String, String)>,
    headers: StringHashMap<String>,
}

/// What one more line did.
pub enum Progress {
    /// The request goes on.
    More(RequestReader),
    /// The request is complete.
    Done(Request),
    /// The request is refused.
    Refused(ParseError),
}

impl RequestReader {
    /// The request line, once it is there.
    pub closed spec fn start(self) -> Option<Head> {
        match self.head {
            Some((method, path, version)) => Some(
                Head { method: method@, path: path@, version: version@ },
            ),
            None => None,
        }
    }

    /// The headers so far.
    pub closed spec fn so_far(self) -> Map<Seq<char>, Seq<char>> {
        headers_view(self.headers@)
    }

    /// What parsing gives if `input` is all that follows.
    pub open spec fn result(self, input: Seq<u8>) -> Result<RequestView, Refusal> {
        match self.start() {
            None => parsed(input),
            Some(head) => parsed_headers(head, self.so_far(), input),
        }
    }

    /// Number of bytes that are read if `input` is all that follows.
    pub open spec fn reach(self, input: Seq<u8>) -> nat {
        match self.start() {
            None => request_len(input),
            Some(_) => headers_len(input),
        }
    }

    /// A reader that waits for the request line.
    pub fn new() -> (out: RequestReader)
        ensures
            out.start() is None,
            out.so_far() == Map::<Seq<char>, Seq<char>>::empty(),
    {
        let out = RequestReader { head: None, headers: StringHashMap::new() };
        assert(headers_view(out.headers@) == Map::<Seq<char>, Seq<char>>::empty());
        out
    }

    /// Takes in the next line, its line feed included; no bytes at all stand for the end of the
    /// input. Whatever follows, the request comes out as [`parsed`] says of all lines together,
    /// and no line behind its end is asked for.
    pub fn feed(self, line: &[u8]) -> (out: Progress)
        requires
            self.start() is None ==> self.so_far() == Map::<Seq<char>, Seq<char>>::empty(),
        ensures
            forall|input: Seq<u8>| #[trigger]
                first_line(input) == line@ ==> match out {
                    Progress::More(reader) => {
                        &&& reader.result(other_lines(input)) == self.result(input)
                        &&& line@.len() + reader.reach(other_lines(input)) == self.reach(input)
                    },
                    Progress::Done(req) => {
                        &&& self.result(input) == Ok::<RequestView, Refusal>(req@)
                        &&& self.reach(input) == line@.len()
                    },
                    Progress::Refused(e) => {
                        &&& self.result(input) == Err::<RequestView, Refusal>(e@)
                        &&& self.reach(input) == line@.len()
                    },
                },
            out matches Progress::More(reader) ==> line@.len() > 0 && reader.start() is Some,
    {
        let line_text = match text_of(line) {
            Some(t) => t,
            None => {
                return Progress::Refused(
                    ParseError::Io("stream did not contain valid UTF-8".to_owned()),
                );
            },
        };
        let full = line_text.as_str();
        let bare = text::trim_end(full, text::Class::White);
        match self.head {
            None => {
                let core = text::trim(full, text::Class::White);
                if core.is_empty() {
                    return Progress::Refused(ParseError::EmptyRequest);
                }
                match split_parts(bare) {
                    Some(parts) => {
                        proof {
                            if line@.len() == 0 {
                                assert(full@ == Seq::<char>::empty());
                                assert(text::trimmed(full@, text::Class::White).len() == 0);
                            }
                        }
                        Progress::More(RequestReader { head: Some(parts), headers: self.headers })
                    },
                    None => Progress::Refused(ParseError::MalformedRequestLine(core.to_owned())),
                }
            },
            Some((method, path, version)) => {
                if bare.is_empty() {
                    return Progress::Done(
                        Request { method, path, version, headers: self.headers },
                    );
                }
                let ghost before = headers_view(self.headers@);
                let mut headers = self.headers;
                add_header(&mut headers, bare);
                proof {
                    if line@.len() == 0 {
                        assert(full@ == Seq::<char>::empty());
                    }
                }
                Progress::More(RequestReader { head: Some((method, path, version)), headers })
            },
        }
    }
}

/// The parts of a line that are separated by its first two spaces.
fn split_parts(line: &str) -> (out: Option<(String, String, String)>)
    ensures
        match out {
            Some((method, path, version)) => split_head(line@) == Some(
                Head { method: method@, path: path@, version: version@ },
            ),
            None => split_head(line@) is None,
        },
{
    let i: usize = match text::find_char(line, ' ') {
        Some(i) => i,
        None => {
            return None;
        },
    };
    let n: usize = line.unicode_len();
    let method = line.substring_char(0, i);
    let rest = line.substring_char(i + 1, n);
    assert(rest@ == line@.skip(i + 1));
    let j: usize = match text::find_char(rest, ' ') {
        Some(j) => j,
        None => {
            return None;
        },
    };
    let m: usize = rest.unicode_len();
    let path = rest.substring_char(0, j);
    let version = rest.substring_char(j + 1, m);
    assert(method@ == line@.take(i as int));
    assert(path@ == rest@.take(j as int));
    assert(version@ == rest@.skip(j + 1));
    Some((method.to_owned(), path.to_owned(), version.to_owned()))
}

/// Adds the header in a line, if there is one.
fn add_header(headers: &mut StringHashMap<String>, line: &str)
    ensures
        headers_view(final(headers)@) == with_header(headers_view(old(headers)@), line@),
{
    if let Some(i) = text::find_char(line, ':') {
        let n: usize = line.unicode_len();
        let name = line.substring_char(0, i);
        let value = line.substring_char(i + 1, n);
        assert(name@ == line@.take(i as int));
        assert(value@ == line@.skip(i + 1));
        let key = text::to_ascii_lowercase(text::trim(name, text::Class::White));
        let value = text::trim(value, text::Class::White).to_owned();
        headers.insert(key, value);
        assert(headers_view(headers@) == headers_view(old(headers)@).insert(key@, value@));
    }
}

/// Number of bytes up to and with the first line feed at or behind `from`.
fn line_end(input: &[u8], from: usize) -> (to: usize)
    requires
        from <= input@.len(),
    ensures
        from <= to <= input@.len(),
        input@.subrange(from as int, to as int) == first_line(input@.skip(from as int)),
        input@.skip(to as int) == other_lines(input@.skip(from as int)),
{
    let ghost rest = input@.skip(from as int);
    let mut to: usize = from;
    assert(rest.skip(0) == rest);
    assert(rest.take(0) + first_line(rest) == first_line(rest));
    while to < input.len()
        invariant_except_break
            first_line(rest) == rest.take(to - from) + first_line(rest.skip(to - from)),
        invariant
            from <= to <= input@.len(),
            rest == input@.skip(from as int),
        ensures
            from <= to <= input@.len(),
            first_line(rest) == rest.take(to - from),
        decreases input@.len() - to,
    {
        let ghost k = to - from;
        let ghost tail = rest.skip(k);
        assert(tail.drop_first() == rest.skip(k + 1));
        assert(tail[0] == input@[to as int]);
        if input[to] == 10 {
            assert(rest.take(k) + seq![tail[0]] == rest.take(k + 1));
            to = to + 1;
            break ;
        }
        assert(rest.take(k) + (seq![tail[0]] + first_line(tail.drop_first())) == rest.take(k + 1)
            + first_line(tail.drop_first()));
        to = to + 1;
        assert(to == input@.len() ==> first_line(rest) == rest.take(to - from)) by {
            if to == input@.len() {
                assert(rest.skip(to - from).len() == 0);
                assert(rest.take(to - from) + Seq::<u8>::empty() == rest.take(to - from));
            }
        }
    }
    assert(input@.subrange(from as int, to as int) == rest.take(to - from));
    assert(input@.skip(to as int) == rest.skip(to - from));
    to
}

/// Parses the request that `reader` goes on with: the request line, then headers up to an empty
/// line or the end. What follows is left in `reader`.
pub fn parse_request(reader: &mut &[u8]) -> (out: Result<Request, ParseError>)
    ensures
        outcome_view(out) == parsed(old(reader)@),
        final(reader)@ == old(reader)@.skip(request_len(old(reader)@) as int),
        request_len(old(reader)@) <= old(reader)@.len(),
{
    let input: &[u8] = *reader;
    let mut pending = RequestReader::new();
    let mut from: usize = 0;
    assert(input@.skip(0) == input@);
    loop
        invariant
            from <= input@.len(),
            input@ == old(reader)@,
            pending.result(input@.skip(from as int)) == parsed(input@),
            from + pending.reach(input@.skip(from as int)) == request_len(input@),
            pending.start() is None ==> pending.so_far() == Map::<Seq<char>, Seq<char>>::empty(),
        decreases input@.len() - from,
    {
        let to: usize = line_end(input, from);
        let line = vstd::slice::slice_subrange(input, from, to);
        let ghost rest = input@.skip(from as int);
        assert(first_line(rest) == line@);
        match pending.feed(line) {
            Progress::More(next) => {
                pending = next;
                from = to;
            },
            Progress::Done(req) => {
                *reader = vstd::slice::slice_subrange(input, to, input.len());
                assert(reader@ == input@.skip(to as int));
                return Ok(req);
            },
            Progress::Refused(e) => {
                *reader = vstd::slice::slice_subrange(input, to, input.len());
                assert(reader@ == input@.skip(to as int));
                return Err(e);
            },
        }
    }
}

// ---------------------------------------------------------------------------------------
// Responses
// ---------------------------------------------------------------------------------------

/// The line that opens a response, without its line end.
pub open spec fn opening(status: Status) -> Seq<char> {
    "HTTP/1.1 "@ + text::decimal(status.number() as nat) + " "@ + status.phrase()
}

/// The length that a response states: the number of bytes of its body.
pub open spec fn stated_length(body: Seq<char>) -> Seq<char> {
    text::decimal(vstd::utf8::encode_utf8(body).len())
}

/// The text of a response.
pub open spec fn response(status: Status, content_type: Seq<char>, body: Seq<char>) -> Seq<char> {
    opening(status) + "\r\nContent-Type: "@ + content_type + "\r\nContent-Length: "@
        + stated_length(body) + "\r\nConnection: close\r\n\r\n"@ + body
}

/// The text of a response.
pub fn build_response(status: Status, content_type: &str, body: &str) -> (out: String)
    ensures
        out@ == response(status, content_type@, body@),
{
    let mut out = "HTTP/1.1 ".to_owned();
    text::push_decimal(&mut out, status.code() as u64);
    out.append(" ");
    out.append(status.reason());
    out.append("\r\nContent-Type: ");
    out.append(content_type);
    out.append("\r\nContent-Length: ");
    text::push_decimal(&mut out, body.as_bytes().len() as u64);
    out.append("\r\nConnection: close\r\n\r\n");
    out.append(body);
    assert(out@ == response(status, content_type@, body@));
    out
}

// ---------------------------------------------------------------------------------------
// Laws
// ---------------------------------------------------------------------------------------

/// The bytes of one character hold a line feed only if the character is one.
proof fn scalar_bytes(c: char)
    ensures
        c == '\n' ==> vstd::utf8::encode_scalar(c as u32) == seq![10u8],
        c != '\n' ==> !vstd::utf8::encode_scalar(c as u32).contains(10),
{
    let u = c as u32;
    vstd::utf8::char_is_scalar(c);
    assert(u < 0x80 ==> (u & 0x7f) as u8 == u) by (bit_vector);
    assert(0xc0u8 | ((u >> 6) & 0x1f) as u8 != 10) by (bit_vector);
    assert(0xe0u8 | ((u >> 12) & 0x0f) as u8 != 10) by (bit_vector);
    assert(0xf0u8 | ((u >> 18) & 0x7) as u8 != 10) by (bit_vector);
    assert(0x80u8 | (u & 0x3f) as u8 != 10) by (bit_vector);
    assert(0x80u8 | ((u >> 6) & 0x3f) as u8 != 10) by (bit_vector);
    assert(0x80u8 | ((u >> 12) & 0x3f) as u8 != 10) by (bit_vector);
    if c == '\n' {
        assert(vstd::utf8::encode_scalar(u) == seq![10u8]);
    }
}

/// Bytes without a line feed in front of a line belong to it.
proof fn first_line_extends(front: Seq<u8>, input: Seq<u8>)
    requires
        !front.contains(10),
    ensures
        first_line(front + input) == front + first_line(input),
    decreases front.len(),
{
    if front.len() == 0 {
        assert(front + input == input);
        assert(front + first_line(input) == first_line(input));
    } else {
        let rest = front.drop_first();
        assert(front.contains(front[0]));
        assert forall|b: u8| rest.contains(b) implies front.contains(b) by {
            let k = choose|k: int| 0 <= k < rest.len() && rest[k] == b;
            assert(front[k + 1] == b);
        }
        first_line_extends(rest, input);
        assert((front + input).drop_first() == rest + input);
        assert(seq![front[0]] + (rest + first_line(input)) == front + first_line(input));
    }
}

/// Among bytes, a line of text is exactly the bytes of the line.
pub proof fn line_is_read_back(line: Seq<char>, rest: Seq<u8>)
    requires
        !line.contains('\n'),
    ensures
        ({
            let bytes = vstd::utf8::encode_utf8(line.push('\n'));
            &&& first_line(bytes + rest) == bytes
            &&& other_lines(bytes + rest) == rest
            &&& vstd::utf8::valid_utf8(bytes)
            &&& vstd::utf8::decode_utf8(bytes) == line.push('\n')
        }),
    decreases line.len(),
{
    let bytes = vstd::utf8::encode_utf8(line.push('\n'));
    vstd::utf8::encode_utf8_valid_utf8(line.push('\n'));
    vstd::utf8::encode_utf8_decode_utf8(line.push('\n'));
    if line.len() == 0 {
        scalar_bytes('\n');
        assert(line.push('\n').drop_first() == Seq::<char>::empty());
        assert(line.push('\n')[0] == '\n');
        assert(vstd::utf8::encode_utf8(Seq::<char>::empty()) == Seq::<u8>::empty());
        assert(bytes == seq![10u8] + Seq::<u8>::empty());
        assert(bytes == seq![10u8]);
        assert((bytes + rest)[0] == 10);
        assert(first_line(bytes + rest) == bytes);
    } else {
        let c = line[0];
        let tail = line.drop_first();
        assert(line.contains(c));
        assert forall|x: char| tail.contains(x) implies line.contains(x) by {
            let k = choose|k: int| 0 <= k < tail.len() && tail[k] == x;
            assert(line[k + 1] == x);
        }
        line_is_read_back(tail, rest);
        scalar_bytes(c);
        let front = vstd::utf8::encode_scalar(c as u32);
        let others = vstd::utf8::encode_utf8(tail.push('\n'));
        assert(line.push('\n').drop_first() == tail.push('\n'));
        assert(bytes == front + others);
        first_line_extends(front, others + rest);
        assert(front + (others + rest) == bytes + rest);
    }
    assert((bytes + rest).skip(bytes.len() as int) == rest);
}

/// A head that can be told in a request line: method and path without spaces, and a version
/// that does not end in white space.
pub open spec fn plain_head(head: Head) -> bool {
    &&& !head.method.contains(' ') && !head.method.contains('\n')
    &&& !head.path.contains(' ') && !head.path.contains('\n')
    &&& !head.version.contains('\n')
    &&& head.version.len() > 0
    &&& !text::is_white(head.version.last())
}

/// A header that can be told in a header line.
pub open spec fn plain_header(name: Seq<char>, value: Seq<char>) -> bool {
    &&& !name.contains(':') && !name.contains('\n')
    &&& !value.contains('\n')
    &&& text::snug(name)
    &&& text::snug(value)
}

/// A request line, without its line feed.
pub open spec fn head_line(head: Head) -> Seq<char> {
    (head.method.push(' ') + head.path).push(' ') + head.version + seq!['\r']
}

/// A header line, without its line feed.
pub open spec fn header_line(name: Seq<char>, value: Seq<char>) -> Seq<char> {
    name.push(':').push(' ') + value + seq!['\r']
}

/// A request line is taken apart into the parts it was made of.
proof fn head_is_read_back(head: Head)
    requires
        plain_head(head),
    ensures
        head_of(head_line(head).push('\n')) == Ok::<Head, Refusal>(head),
        !head_line(head).contains('\n'),
{
    let full = head_line(head).push('\n');
    let core = (head.method.push(' ') + head.path).push(' ') + head.version;
    assert(full == core + seq!['\r', '\n']);
    text::trim_end_drops_tail(core, seq!['\r', '\n']);
    let i = head.method.len() as int;
    let j = head.path.len() as int;
    assert(core[i] == ' ');
    assert forall|k: int| 0 <= k < i implies core[k] != ' ' by {
        assert(head.method.contains(head.method[k]));
    }
    core.index_of_first_ensures(' ');
    assert(core.contains(' '));
    let rest = core.skip(i + 1);
    assert(rest == head.path.push(' ') + head.version);
    assert(rest[j] == ' ');
    assert forall|k: int| 0 <= k < j implies rest[k] != ' ' by {
        assert(head.path.contains(head.path[k]));
    }
    rest.index_of_first_ensures(' ');
    assert(rest.contains(' '));
    assert(core.take(i) == head.method);
    assert(rest.take(j) == head.path);
    assert(rest.skip(j + 1) == head.version);
    let line = head_line(head);
    assert forall|k: int| 0 <= k < line.len() implies line[k] != '\n' by {
        if k < i {
            assert(head.method.contains(head.method[k]));
        } else if i < k < i + 1 + j {
            assert(head.path.contains(head.path[k - i - 1]));
        } else if i + 1 + j < k < core.len() {
            assert(head.version.contains(head.version[k - i - j - 2]));
        }
    }
    trimmed_start_keeps_last(core);
}

/// Trimming the start of a text whose last character is not white leaves something.
proof fn trimmed_start_keeps_last(line: Seq<char>)
    requires
        line.len() > 0,
        !text::is_white(line.last()),
    ensures
        text::trimmed_start(line, text::Class::White).len() > 0,
    decreases line.len(),
{
    if text::is_white(line.first()) {
        assert(line.drop_first().last() == line.last());
        trimmed_start_keeps_last(line.drop_first());
    }
}

/// A header line is taken apart into the parts it was made of.
proof fn header_is_read_back(
    headers: Map<Seq<char>, Seq<char>>,
    name: Seq<char>,
    value: Seq<char>,
)
    requires
        plain_header(name, value),
    ensures
        ({
            let line = text::trimmed_end(header_line(name, value).push('\n'), text::Class::White);
            &&& line.len() > 0
            &&& with_header(headers, line) == headers.insert(text::ascii_lowercase(name), value)
        }),
        !header_line(name, value).contains('\n'),
{
    let full = header_line(name, value).push('\n');
    let line = text::trimmed_end(full, text::Class::White);
    let i = name.len() as int;
    if value.len() > 0 {
        let core = name.push(':').push(' ') + value;
        assert(full == core + seq!['\r', '\n']);
        assert(core.last() == value.last());
        text::trim_end_drops_tail(core, seq!['\r', '\n']);
        assert(line == core);
        assert(line.skip(i + 1) == seq![' '] + value);
    } else {
        let core = name.push(':');
        assert(full == core + seq![' ', '\r', '\n']);
        text::trim_end_drops_tail(core, seq![' ', '\r', '\n']);
        assert(line == core);
        assert(line.skip(i + 1) == value);
    }
    assert(line[i] == ':');
    assert forall|k: int| 0 <= k < i implies line[k] != ':' by {
        assert(name.contains(name[k]));
        assert(line[k] == name[k]);
    }
    line.index_of_first_ensures(':');
    assert(line.contains(':'));
    assert(line.take(i) == name);
    text::trim_finds_snug(name);
    text::trim_finds_snug(value);
    let bare = header_line(name, value);
    assert forall|k: int| 0 <= k < bare.len() implies bare[k] != '\n' by {
        if k < i {
            assert(name.contains(name[k]));
        } else if i + 2 <= k < i + 2 + value.len() {
            assert(value.contains(value[k - i - 2]));
        }
    }
}

/// Header lines one after the other, closed by an empty line.
pub open spec fn header_bytes(fields: Seq<(Seq<char>, Seq<char>)>) -> Seq<u8>
    decreases fields.len(),
{
    if fields.len() == 0 {
        vstd::utf8::encode_utf8(seq!['\r', '\n'])
    } else {
        vstd::utf8::encode_utf8(header_line(fields[0].0, fields[0].1).push('\n')) + header_bytes(
            fields.drop_first(),
        )
    }
}

/// The bytes of a request with these headers, in this order.
pub open spec fn request_bytes(head: Head, fields: Seq<(Seq<char>, Seq<char>)>) -> Seq<u8> {
    vstd::utf8::encode_utf8(head_line(head).push('\n')) + header_bytes(fields)
}

/// The headers by name, in lower case; a later value replaces an earlier one.
pub open spec fn by_name(
    headers: Map<Seq<char>, Seq<char>>,
    fields: Seq<(Seq<char>, Seq<char>)>,
) -> Map<Seq<char>, Seq<char>>
    decreases fields.len(),
{
    if fields.len() == 0 {
        headers
    } else {
        by_name(
            headers.insert(text::ascii_lowercase(fields[0].0), fields[0].1),
            fields.drop_first(),
        )
    }
}

/// Header lines are parsed into the headers they were made of; nothing behind the empty line
/// is looked at.
proof fn headers_are_read_back(
    head: Head,
    headers: Map<Seq<char>, Seq<char>>,
    fields: Seq<(Seq<char>, Seq<char>)>,
    body: Seq<u8>,
)
    requires
        forall|i: int|
            0 <= i < fields.len() ==> plain_header((#[trigger] fields[i]).0, fields[i].1),
    ensures
        parsed_headers(head, headers, header_bytes(fields) + body) == Ok::<RequestView, Refusal>(
            RequestView { head, headers: by_name(headers, fields) },
        ),
    decreases fields.len(),
{
    let input = header_bytes(fields) + body;
    if fields.len() == 0 {
        let end = seq!['\r'];
        assert(end.push('\n') == seq!['\r', '\n']);
        line_is_read_back(end, body);
        text::trim_end_drops_tail(seq![], seq!['\r', '\n']);
        assert(Seq::<char>::empty() + seq!['\r', '\n'] == seq!['\r', '\n']);
    } else {
        let (name, value) = fields[0];
        let line = header_line(name, value);
        let rest = fields.drop_first();
        assert(plain_header(fields[0].0, fields[0].1));
        header_is_read_back(headers, name, value);
        line_is_read_back(line, header_bytes(rest) + body);
        assert(vstd::utf8::encode_utf8(line.push('\n')) + (header_bytes(rest) + body) == input);
        assert forall|i: int| 0 <= i < rest.len() implies plain_header(
            (#[trigger] rest[i]).0,
            rest[i].1,
        ) by {
            assert(plain_header(fields[i + 1].0, fields[i + 1].1));
        }
        headers_are_read_back(
            head,
            headers.insert(text::ascii_lowercase(name), value),
            rest,
            body,
        );
        first_line_is_prefix(input);
    }
}

/// A request is parsed into the request line and the headers it was made of, whatever body
/// follows.
pub proof fn request_is_read_back(
    head: Head,
    fields: Seq<(Seq<char>, Seq<char>)>,
    body: Seq<u8>,
)
    requires
        plain_head(head),
        forall|i: int|
            0 <= i < fields.len() ==> plain_header((#[trigger] fields[i]).0, fields[i].1),
    ensures
        parsed(request_bytes(head, fields) + body) == Ok::<RequestView, Refusal>(
            RequestView { head, headers: by_name(Map::empty(), fields) },
        ),
{
    let line = head_line(head);
    head_is_read_back(head);
    line_is_read_back(line, header_bytes(fields) + body);
    assert(vstd::utf8::encode_utf8(line.push('\n')) + (header_bytes(fields) + body)
        == request_bytes(head, fields) + body);
    headers_are_read_back(head, Map::empty(), fields, body);
}

/// Whether the lines of `input` go up to the first blank one, and that is closed by a line feed.
pub open spec fn ends_in_blank_line(input: Seq<u8>) -> bool
    decreases input.len(),
{
    let bytes = first_line(input);
    &&& bytes.len() > 0 && bytes.last() == 10
    &&& if is_blank(bytes) {
        bytes.len() == input.len()
    } else {
        proof {
            first_line_is_prefix(input);
        }
        ends_in_blank_line(other_lines(input))
    }
}

/// What follows a line that is closed by a line feed does not belong to it.
proof fn closed_line_stays(input: Seq<u8>, more: Seq<u8>)
    requires
        first_line(input).len() > 0,
        first_line(input).last() == 10,
    ensures
        first_line(input + more) == first_line(input),
        other_lines(input + more) == other_lines(input) + more,
    decreases input.len(),
{
    first_line_is_prefix(input);
    assert((input + more)[0] == input[0]);
    if input[0] != 10 {
        let rest = input.drop_first();
        assert(first_line(input) == seq![input[0]] + first_line(rest));
        if first_line(rest).len() == 0 {
            assert(first_line(input).last() == input[0]);
        }
        assert(first_line(rest).last() == first_line(input).last());
        closed_line_stays(rest, more);
        assert((input + more).drop_first() == rest + more);
    }
    let n = first_line(input).len() as int;
    assert((input + more).skip(n) == input.skip(n) + more);
}

/// Headers up to a blank line are read without what follows.
proof fn headers_end_at_blank_line(
    head: Head,
    headers: Map<Seq<char>, Seq<char>>,
    input: Seq<u8>,
    body: Seq<u8>,
)
    requires
        ends_in_blank_line(input),
    ensures
        parsed_headers(head, headers, input + body) == parsed_headers(head, headers, input),
        headers_len(input + body) == headers_len(input),
        parsed_headers(head, headers, input) is Ok ==> headers_len(input) == input.len(),
    decreases input.len(),
{
    let bytes = first_line(input);
    closed_line_stays(input, body);
    first_line_is_prefix(input);
    if vstd::utf8::valid_utf8(bytes) && !is_blank(bytes) {
        let line = text::trimmed_end(vstd::utf8::decode_utf8(bytes), text::Class::White);
        headers_end_at_blank_line(head, with_header(headers, line), other_lines(input), body);
    }
}

/// The body does not count: for every head that ends with its first blank line, whatever follows
/// it changes nothing about the request. Where the head is accepted, exactly the head is read and
/// the body is left.
pub proof fn body_is_left_unread(head: Seq<u8>, body: Seq<u8>)
    requires
        ends_in_blank_line(head),
    ensures
        parsed(head + body) == parsed(head),
        request_len(head + body) == request_len(head),
        parsed(head) is Ok ==> request_len(head) == head.len() && (head + body).skip(
            request_len(head + body) as int,
        ) == body,
{
    let bytes = first_line(head);
    closed_line_stays(head, body);
    first_line_is_prefix(head);
    if vstd::utf8::valid_utf8(bytes) {
        let line = vstd::utf8::decode_utf8(bytes);
        if let Ok(parts) = head_of(line) {
            if is_blank(bytes) {
                assert(text::trimmed(line, text::Class::White).len() == 0);
            }
            headers_end_at_blank_line(parts, Map::empty(), other_lines(head), body);
        }
    }
    assert((head + body).skip(head.len() as int) == body);
}

/// The first line of a UTF-8 text is UTF-8, and so is the rest.
proof fn closed_line_is_utf8(input: Seq<u8>)
    requires
        vstd::utf8::valid_utf8(input),
        first_line(input).len() > 0,
        first_line(input).last() == 10,
    ensures
        vstd::utf8::valid_utf8(first_line(input)),
        vstd::utf8::valid_utf8(other_lines(input)),
{
    let chars = vstd::utf8::decode_utf8(input);
    vstd::utf8::decode_utf8_encode_utf8(input);
    first_line_is_prefix(input);
    chars.index_of_first_ensures('\n');
    match chars.index_of_first('\n') {
        Some(k) => {
            let line = chars.take(k);
            let rest = chars.skip(k + 1);
            assert(line.push('\n') + rest == chars);
            text::encode_concat(line.push('\n'), rest);
            line_is_read_back(line, vstd::utf8::encode_utf8(rest));
            vstd::utf8::encode_utf8_valid_utf8(rest);
        },
        None => {
            line_is_read_back(chars, seq![]);
            text::encode_concat(chars, seq!['\n']);
            assert(chars + seq!['\n'] == chars.push('\n'));
            let end = vstd::utf8::encode_utf8(seq!['\n']);
            assert(input + end + Seq::<u8>::empty() == input + end);
            closed_line_stays(input, end);
            scalar_bytes('\n');
            assert(seq!['\n'].drop_first() == Seq::<char>::empty());
            assert(end.len() > 0);
        },
    }
}

/// Headers in UTF-8 are accepted.
proof fn readable_headers_are_accepted(
    head: Head,
    headers: Map<Seq<char>, Seq<char>>,
    input: Seq<u8>,
)
    requires
        vstd::utf8::valid_utf8(input),
        ends_in_blank_line(input),
    ensures
        parsed_headers(head, headers, input) is Ok,
    decreases input.len(),
{
    first_line_is_prefix(input);
    closed_line_is_utf8(input);
    let bytes = first_line(input);
    if !is_blank(bytes) {
        let line = text::trimmed_end(vstd::utf8::decode_utf8(bytes), text::Class::White);
        readable_headers_are_accepted(head, with_header(headers, line), other_lines(input));
    }
}

/// A head in UTF-8 that ends with its first blank line is accepted if its request line has three
/// parts.
pub proof fn complete_head_is_accepted(head: Seq<u8>)
    requires
        vstd::utf8::valid_utf8(head),
        ends_in_blank_line(head),
        head_of(vstd::utf8::decode_utf8(first_line(head))) is Ok,
    ensures
        parsed(head) is Ok,
{
    first_line_is_prefix(head);
    closed_line_is_utf8(head);
    let bytes = first_line(head);
    let line = vstd::utf8::decode_utf8(bytes);
    if is_blank(bytes) {
        assert(text::trimmed(line, text::Class::White).len() == 0);
    }
    readable_headers_are_accepted(head_of(line)->Ok_0, Map::empty(), other_lines(head));
}

/// A response opens with the status line, its body stands unchanged behind the headers, and
/// reading the length it states gives the number of bytes of the body.
pub proof fn response_frames_its_body(status: Status, content_type: Seq<char>, body: Seq<char>)
    ensures
        text::decimal_value(stated_length(body)) == vstd::utf8::encode_utf8(body).len(),
        (opening(status) + "\r\n"@).is_prefix_of(response(status, content_type, body)),
        body.is_suffix_of(response(status, content_type, body)),
{
    text::decimal_is_read_back(vstd::utf8::encode_utf8(body).len());
    reveal_strlit("\r\n");
    reveal_strlit("\r\nContent-Type: ");
    let whole = response(status, content_type, body);
    let open = opening(status);
    assert forall|i: int| 0 <= i < open.len() + 2 implies whole[i] == (open + "\r\n"@)[i] by {}
}

// ---------------------------------------------------------------------------------------
// Laws on responses
// ---------------------------------------------------------------------------------------

/// Lines one after the other, each closed by CR LF.
pub open spec fn closed_lines(lines: Seq<Seq<char>>) -> Seq<char>
    decreases lines.len(),
{
    if lines.len() == 0 {
        seq![]
    } else {
        closed_lines(lines.drop_last()) + lines.last() + seq!['\r', '\n']
    }
}

/// A line that is not empty and holds no line end.
pub open spec fn is_line(line: Seq<char>) -> bool {
    line.len() > 0 && !line.contains('\r') && !line.contains('\n')
}

/// The name that opens a header line.
pub open spec fn has_name(line: Seq<char>, name: Seq<char>) -> bool {
    (name + seq![':', ' ']).is_prefix_of(line)
}

/// The value in a header line with this name.
pub open spec fn value_in(line: Seq<char>, name: Seq<char>) -> Seq<char> {
    line.skip(name.len() as int + 2)
}

/// Whether a text is a response that can be read: some lines that are not empty, the first of
/// which tells the status, then an empty line, then the body. Exactly one of the lines is named
/// `Content-Length`, and the number written in it is the number of bytes that follow the empty
/// line; exactly one is named `Content-Type`.
pub open spec fn is_framed(
    text: Seq<char>,
    lines: Seq<Seq<char>>,
    first: Seq<char>,
    content_type: Seq<char>,
    body: Seq<char>,
    at: int,
) -> bool {
    let length = seq!['C', 'o', 'n', 't', 'e', 'n', 't', '-', 'L', 'e', 'n', 'g', 't', 'h'];
    let kind = seq!['C', 'o', 'n', 't', 'e', 'n', 't', '-', 'T', 'y', 'p', 'e'];
    &&& text == closed_lines(lines) + seq!['\r', '\n'] + body
    &&& lines.len() > 0 && lines[0] == first
    &&& forall|i: int| 0 <= i < lines.len() ==> is_line(#[trigger] lines[i])
    &&& 0 < at < lines.len()
    &&& forall|i: int| 0 <= i < lines.len() ==> (has_name(#[trigger] lines[i], length) <==> i == at)
    &&& value_in(lines[at], length).len() > 0
    &&& forall|i: int|
        0 <= i < value_in(lines[at], length).len() ==> '0' <= #[trigger] value_in(
            lines[at],
            length,
        )[i] <= '9'
    &&& number_read(value_in(lines[at], length)) == vstd::utf8::encode_utf8(body).len()
    &&& exists|k: int|
        0 < k < lines.len() && has_name(#[trigger] lines[k], kind) && value_in(lines[k], kind)
            == content_type
    &&& vstd::utf8::encode_utf8(text) == vstd::utf8::encode_utf8(
        closed_lines(lines) + seq!['\r', '\n'],
    ) + vstd::utf8::encode_utf8(body)
}

/// The number that decimal digits stand for, read from the left.
pub open spec fn number_read(digits: Seq<char>) -> int
    decreases digits.len(),
{
    if digits.len() == 0 {
        0
    } else {
        number_read(digits.drop_last()) * 10 + (digits.last() as int - 48)
    }
}

/// Digits that stand for a number are read as that number.
proof fn decimal_is_read_as_number(n: nat)
    ensures
        number_read(text::decimal(n)) == n,
        text::decimal(n).len() > 0,
    decreases n,
{
    let d = n % 10;
    vstd::utf8::char_u32_cast(text::digit(d), (48 + d) as u32);
    assert(text::digit(d) as int == 48 + d);
    if n >= 10 {
        decimal_is_read_as_number(n / 10);
        assert(text::decimal(n) == text::decimal(n / 10).push(text::digit(d)));
        assert(text::decimal(n).drop_last() == text::decimal(n / 10));
    } else {
        assert(text::decimal(n) == seq![text::digit(d)]);
        assert(text::decimal(n).drop_last() == Seq::<char>::empty());
        assert(number_read(Seq::<char>::empty()) == 0);
    }
}

/// The line that each status is told in.
pub open spec fn line_of(status: Status) -> Seq<char> {
    match status {
        Status::Okay => "HTTP/1.1 200 OK"@,
        Status::NotFound => "HTTP/1.1 404 Not Found"@,
        Status::BadRequest => "HTTP/1.1 400 Bad Request"@,
    }
}

/// The line that opens a response is the line of its status.
pub proof fn opening_tells_the_status(status: Status)
    ensures
        opening(status) == line_of(status),
{
    reveal_strlit("HTTP/1.1 ");
    reveal_strlit(" ");
    reveal_strlit("OK");
    reveal_strlit("Not Found");
    reveal_strlit("Bad Request");
    reveal_strlit("HTTP/1.1 200 OK");
    reveal_strlit("HTTP/1.1 404 Not Found");
    reveal_strlit("HTTP/1.1 400 Bad Request");
    three_digits(2, 0, 0);
    three_digits(4, 0, 4);
    three_digits(4, 0, 0);
    match status {
        Status::Okay => {
            assert(opening(status) == "HTTP/1.1 200 OK"@);
        },
        Status::NotFound => {
            assert(opening(status) == "HTTP/1.1 404 Not Found"@);
        },
        Status::BadRequest => {
            assert(opening(status) == "HTTP/1.1 400 Bad Request"@);
        },
    }
}

/// A number of three digits.
proof fn three_digits(a: nat, b: nat, c: nat)
    requires
        0 < a < 10,
        b < 10,
        c < 10,
    ensures
        text::decimal(100 * a + 10 * b + c) == seq![
            (48 + a) as char,
            (48 + b) as char,
            (48 + c) as char,
        ],
{
    let n: nat = 100 * a + 10 * b + c;
    assert(n / 10 == 10 * a + b && n % 10 == c);
    let m: nat = 10 * a + b;
    assert(m / 10 == a && m % 10 == b);
    assert(text::decimal(a) == seq![text::digit(a)]);
    assert(text::decimal(m) == text::decimal(a).push(text::digit(b)));
    assert(text::decimal(n) == text::decimal(m).push(text::digit(c)));
    assert(text::decimal(n) =~= seq![text::digit(a), text::digit(b), text::digit(c)]);
}

/// Every response can be read back: behind its head, which is closed by the first empty line,
/// stands exactly the body, and the length that the head states is the number of bytes of the
/// body in UTF-8, whatever the status and the content type.
pub proof fn stated_length_is_the_length_of_the_body(
    status: Status,
    content_type: Seq<char>,
    body: Seq<char>,
)
    requires
        !content_type.contains('\r'),
        !content_type.contains('\n'),
    ensures
        exists|lines: Seq<Seq<char>>, at: int| #[trigger]
            is_framed(
                response(status, content_type, body),
                lines,
                line_of(status),
                content_type,
                body,
                at,
            ),
{
    let text = response(status, content_type, body);
    let first = opening(status);
    opening_tells_the_status(status);
    reveal_strlit("HTTP/1.1 200 OK");
    reveal_strlit("HTTP/1.1 404 Not Found");
    reveal_strlit("HTTP/1.1 400 Bad Request");
    reveal_strlit("\r\nContent-Type: ");
    reveal_strlit("\r\nContent-Length: ");
    reveal_strlit("\r\nConnection: close\r\n\r\n");
    let length = seq!['C', 'o', 'n', 't', 'e', 'n', 't', '-', 'L', 'e', 'n', 'g', 't', 'h'];
    let kind = seq!['C', 'o', 'n', 't', 'e', 'n', 't', '-', 'T', 'y', 'p', 'e'];
    let close = seq![
        'C',
        'o',
        'n',
        'n',
        'e',
        'c',
        't',
        'i',
        'o',
        'n',
        ':',
        ' ',
        'c',
        'l',
        'o',
        's',
        'e',
    ];
    let number = stated_length(body);
    decimal_is_read_as_number(vstd::utf8::encode_utf8(body).len());
    text::decimal_has_digits_only(vstd::utf8::encode_utf8(body).len());
    let l1 = kind + seq![':', ' '] + content_type;
    let l2 = length + seq![':', ' '] + number;
    let lines = seq![first, l1, l2, close];
    let end = seq!['\r', '\n'];
    assert(lines.drop_last() == seq![first, l1, l2]);
    assert(lines.drop_last().drop_last() == seq![first, l1]);
    assert(lines.drop_last().drop_last().drop_last() == seq![first]);
    assert(seq![first].drop_last() == Seq::<Seq<char>>::empty());
    assert(closed_lines(Seq::<Seq<char>>::empty()) == Seq::<char>::empty());
    assert(closed_lines(seq![first]) =~= first + end);
    assert(closed_lines(seq![first, l1]) =~= first + end + l1 + end);
    assert(closed_lines(seq![first, l1, l2]) =~= first + end + l1 + end + l2 + end);
    assert(closed_lines(lines) =~= first + end + l1 + end + l2 + end + close + end);
    assert(text =~= closed_lines(lines) + end + body);
    text::encode_concat(closed_lines(lines) + end, body);
    assert(value_in(l2, length) =~= number);
    assert(value_in(l1, kind) =~= content_type);
    assert(has_name(l1, kind)) by {
        assert((kind + seq![':', ' ']).is_prefix_of(l1));
    }
    assert(has_name(l2, length)) by {
        assert((length + seq![':', ' ']).is_prefix_of(l2));
    }
    let named = length + seq![':', ' '];
    assert(named[0] == 'C' && named[3] == 't' && named[8] == 'L');
    assert(first[0] == 'H');
    assert(l1[8] == 'T');
    assert(close[3] == 'n');
    assert(!has_name(first, length));
    assert(!has_name(l1, length));
    assert(!has_name(close, length));
    assert(is_line(first)) by {
        assert forall|k: int| 0 <= k < first.len() implies first[k] != '\r' && first[k]
            != '\n' by {}
    }
    assert(is_line(l1)) by {
        assert forall|k: int| 0 <= k < l1.len() implies l1[k] != '\r' && l1[k] != '\n' by {
            if k >= 14 {
                assert(l1[k] == content_type[k - 14]);
                assert(content_type.contains(content_type[k - 14]));
            }
        }
    }
    assert(is_line(l2)) by {
        assert forall|k: int| 0 <= k < l2.len() implies l2[k] != '\r' && l2[k] != '\n' by {
            if k >= 16 {
                assert(l2[k] == number[k - 16]);
            }
        }
    }
    assert(is_line(close));
    assert(lines[1] == l1 && lines[2] == l2 && lines[3] == close);
    assert(is_framed(text, lines, first, content_type, body, 2));
}

/// A request line has three parts, separated by its first two spaces; white space around the
/// line does not count for the refusal, and none at the end counts at all.
pub proof fn request_line_is_taken_apart(
    method: Seq<char>,
    path: Seq<char>,
    version: Seq<char>,
    tail: Seq<char>,
)
    requires
        !method.contains(' '),
        !path.contains(' '),
        version.len() > 0,
        !text::is_white(version.last()),
        forall|i: int| 0 <= i < tail.len() ==> text::is_white(#[trigger] tail[i]),
    ensures
        head_of(method + seq![' '] + path + seq![' '] + version + tail) == Ok::<Head, Refusal>(
            Head { method, path, version },
        ),
{
    let core = method + seq![' '] + path + seq![' '] + version;
    let full = core + tail;
    assert(full == method + seq![' '] + path + seq![' '] + version + tail);
    assert(core.last() == version.last());
    text::trim_end_drops_tail(core, tail);
    let i = method.len() as int;
    let j = path.len() as int;
    assert(core[i] == ' ');
    assert forall|k: int| 0 <= k < i implies core[k] != ' ' by {
        assert(method.contains(method[k]));
    }
    core.index_of_first_ensures(' ');
    assert(core.contains(' '));
    let rest = core.skip(i + 1);
    assert(rest == path + seq![' '] + version);
    assert(rest[j] == ' ');
    assert forall|k: int| 0 <= k < j implies rest[k] != ' ' by {
        assert(path.contains(path[k]));
    }
    rest.index_of_first_ensures(' ');
    assert(rest.contains(' '));
    assert(core.take(i) == method);
    assert(rest.take(j) == path);
    assert(rest.skip(j + 1) == version);
    trimmed_start_keeps_last(core);
}

/// A request line with fewer than two spaces is refused, and the refusal tells the line; one of
/// white space alone is refused as empty.
pub proof fn other_request_lines_are_refused(line: Seq<char>, tail: Seq<char>)
    requires
        text::snug(line),
        forall|i: int, j: int|
            0 <= i < j < line.len() ==> !(#[trigger] line[i] == ' ' && #[trigger] line[j] == ' '),
        forall|i: int| 0 <= i < tail.len() ==> text::is_white(#[trigger] tail[i]),
    ensures
        head_of(line + tail) == if line.len() == 0 {
            Err::<Head, Refusal>(Refusal::Empty)
        } else {
            Err::<Head, Refusal>(Refusal::Malformed(line))
        },
{
    text::trim_end_drops_tail(line, tail);
    assert(text::trimmed_start(line, text::Class::White) == line);
    line.index_of_first_ensures(' ');
    if let Some(i) = line.index_of_first(' ') {
        let rest = line.skip(i + 1);
        rest.index_of_first_ensures(' ');
        if let Some(j) = rest.index_of_first(' ') {
            assert(line[i + 1 + j] == ' ');
        }
    }
}

/// A header line gives the value behind its first colon to the name in front of it, the name in
/// lower case and both without surrounding white space; a later value replaces an earlier one.
/// A line without a colon changes nothing.
pub proof fn header_line_is_taken_apart(
    headers: Map<Seq<char>, Seq<char>>,
    name: Seq<char>,
    value: Seq<char>,
    around_name: (Seq<char>, Seq<char>),
    around_value: (Seq<char>, Seq<char>),
)
    requires
        !name.contains(':'),
        text::snug(name),
        text::snug(value),
        forall|i: int| 0 <= i < around_name.0.len() ==> is_blank_char(#[trigger] around_name.0[i]),
        forall|i: int| 0 <= i < around_name.1.len() ==> is_blank_char(#[trigger] around_name.1[i]),
        forall|i: int|
            0 <= i < around_value.0.len() ==> is_blank_char(#[trigger] around_value.0[i]),
        forall|i: int|
            0 <= i < around_value.1.len() ==> is_blank_char(#[trigger] around_value.1[i]),
    ensures
        with_header(
            headers,
            around_name.0 + name + around_name.1 + seq![':'] + (around_value.0 + value
                + around_value.1),
        ) == headers.insert(text::ascii_lowercase(name), value),
        with_header(headers, name) == headers,
{
    let front = around_name.0 + name + around_name.1;
    let back = around_value.0 + value + around_value.1;
    let line = front + seq![':'] + back;
    let n = front.len() as int;
    assert(line[n] == ':');
    assert forall|k: int| 0 <= k < n implies line[k] != ':' by {
        let a = around_name.0.len();
        if k < a {
            assert(is_blank_char(around_name.0[k]));
        } else if k < a + name.len() {
            assert(name.contains(name[k - a]));
        } else {
            assert(is_blank_char(around_name.1[k - a - name.len()]));
        }
    }
    line.index_of_first_ensures(':');
    assert(line.contains(':'));
    assert(line.take(n) == front);
    assert(line.skip(n + 1) == back);
    white_around_is_trimmed(around_name.0, name, around_name.1);
    white_around_is_trimmed(around_value.0, value, around_value.1);
    name.index_of_first_ensures(':');
}

/// A space or a tab.
pub open spec fn is_blank_char(c: char) -> bool {
    c == ' ' || c == '\t'
}

/// White space on both sides of a text is trimmed away.
proof fn white_around_is_trimmed(before: Seq<char>, text: Seq<char>, after: Seq<char>)
    requires
        text::snug(text),
        forall|i: int| 0 <= i < before.len() ==> is_blank_char(#[trigger] before[i]),
        forall|i: int| 0 <= i < after.len() ==> is_blank_char(#[trigger] after[i]),
    ensures
        text::trimmed(before + text + after, text::Class::White) == text,
    decreases before.len(),
{
    assert forall|i: int| 0 <= i < after.len() implies text::is_white(#[trigger] after[i]) by {
        assert(is_blank_char(after[i]));
    }
    if text.len() > 0 {
        assert((before + text).last() == text.last());
        text::trim_end_drops_tail(before + text, after);
        white_in_front_is_trimmed(before, text);
    } else {
        assert(before + text + after == Seq::<char>::empty() + (before + after));
        let all = before + after;
        assert forall|i: int| 0 <= i < all.len() implies text::is_white(#[trigger] all[i]) by {
            if i < before.len() {
                assert(is_blank_char(before[i]));
            } else {
                assert(is_blank_char(after[i - before.len()]));
            }
        }
        text::trim_end_drops_tail(Seq::empty(), all);
        assert(text == Seq::<char>::empty());
    }
}

/// White space in front of a text is trimmed away.
proof fn white_in_front_is_trimmed(before: Seq<char>, text: Seq<char>)
    requires
        text.len() > 0,
        !text::is_white(text.first()),
        forall|i: int| 0 <= i < before.len() ==> is_blank_char(#[trigger] before[i]),
    ensures
        text::trimmed_start(before + text, text::Class::White) == text,
    decreases before.len(),
{
    if before.len() > 0 {
        assert(is_blank_char(before[0]));
        assert((before + text).first() == before[0]);
        assert((before + text).drop_first() == before.drop_first() + text);
        white_in_front_is_trimmed(before.drop_first(), text);
    } else {
        assert(before + text == text);
    }
}

/// Header lines one after the other, not closed by an empty line.
pub open spec fn open_header_bytes(fields: Seq<(Seq<char>, Seq<char>)>) -> Seq<u8>
    decreases fields.len(),
{
    if fields.len() == 0 {
        seq![]
    } else {
        vstd::utf8::encode_utf8(header_line(fields[0].0, fields[0].1).push('\n'))
            + open_header_bytes(fields.drop_first())
    }
}

/// Headers that end with the input are read like those that an empty line closes.
proof fn open_headers_are_read_back(
    head: Head,
    headers: Map<Seq<char>, Seq<char>>,
    fields: Seq<(Seq<char>, Seq<char>)>,
)
    requires
        forall|i: int|
            0 <= i < fields.len() ==> plain_header((#[trigger] fields[i]).0, fields[i].1),
    ensures
        parsed_headers(head, headers, open_header_bytes(fields)) == Ok::<RequestView, Refusal>(
            RequestView { head, headers: by_name(headers, fields) },
        ),
    decreases fields.len(),
{
    let input = open_header_bytes(fields);
    if fields.len() == 0 {
        vstd::utf8::encode_utf8_valid_utf8(Seq::<char>::empty());
        assert(vstd::utf8::encode_utf8(Seq::<char>::empty()) == Seq::<u8>::empty());
        assert(first_line(input) == Seq::<u8>::empty());
    } else {
        let (name, value) = fields[0];
        let line = header_line(name, value);
        let rest = fields.drop_first();
        assert(plain_header(fields[0].0, fields[0].1));
        header_is_read_back(headers, name, value);
        line_is_read_back(line, open_header_bytes(rest));
        assert forall|i: int| 0 <= i < rest.len() implies plain_header(
            (#[trigger] rest[i]).0,
            rest[i].1,
        ) by {
            assert(plain_header(fields[i + 1].0, fields[i + 1].1));
        }
        open_headers_are_read_back(
            head,
            headers.insert(text::ascii_lowercase(name), value),
            rest,
        );
        first_line_is_prefix(input);
    }
}

/// A request that ends before an empty line comes is taken with the headers that it has.
pub proof fn request_may_end_without_an_empty_line(
    head: Head,
    fields: Seq<(Seq<char>, Seq<char>)>,
)
    requires
        plain_head(head),
        forall|i: int|
            0 <= i < fields.len() ==> plain_header((#[trigger] fields[i]).0, fields[i].1),
    ensures
        parsed(
            vstd::utf8::encode_utf8(head_line(head).push('\n')) + open_header_bytes(fields),
        ) == Ok::<RequestView, Refusal>(
            RequestView { head, headers: by_name(Map::empty(), fields) },
        ),
{
    head_is_read_back(head);
    line_is_read_back(head_line(head), open_header_bytes(fields));
    open_headers_are_read_back(head, Map::empty(), fields);
}

/// A header line without a colon is passed over, and the lines behind it are read as if it were
/// not there.
pub proof fn line_without_a_colon_is_passed_over(
    head: Head,
    headers: Map<Seq<char>, Seq<char>>,
    line: Seq<char>,
    rest: Seq<u8>,
)
    requires
        !line.contains('\n'),
        !line.contains(':'),
        line.len() > 0,
        !text::is_white(line.last()),
    ensures
        parsed_headers(head, headers, vstd::utf8::encode_utf8(line.push('\n')) + rest)
            == parsed_headers(head, headers, rest),
{
    line_is_read_back(line, rest);
    text::trim_end_drops_tail(line, seq!['\n']);
    assert(line + seq!['\n'] == line.push('\n'));
    line.index_of_first_ensures(':');
    first_line_is_prefix(vstd::utf8::encode_utf8(line.push('\n')) + rest);
}

/// Bytes that are no UTF-8 are refused, in the request line and in any line of the headers that is
/// read; no bytes at all, or a line of white space in place of a request line, as empty.
pub proof fn unreadable_lines_are_refused(
    head: Head,
    headers: Map<Seq<char>, Seq<char>>,
    input: Seq<u8>,
)
    ensures
        !vstd::utf8::valid_utf8(first_line(input)) ==> {
            &&& parsed(input) == Err::<RequestView, Refusal>(
                Refusal::Io("stream did not contain valid UTF-8"@),
            )
            &&& parsed_headers(head, headers, input) == Err::<RequestView, Refusal>(
                Refusal::Io("stream did not contain valid UTF-8"@),
            )
        },
        vstd::utf8::valid_utf8(first_line(input)) && (forall|i: int|
            0 <= i < vstd::utf8::decode_utf8(first_line(input)).len() ==> text::is_white(
                #[trigger] vstd::utf8::decode_utf8(first_line(input))[i],
            )) ==> parsed(input) == Err::<RequestView, Refusal>(Refusal::Empty),
{
    let line = vstd::utf8::decode_utf8(first_line(input));
    if forall|i: int| 0 <= i < line.len() ==> text::is_white(#[trigger] line[i]) {
        text::trim_end_drops_tail(Seq::empty(), line);
        assert(Seq::<char>::empty() + line == line);
    }
}

/// A line goes up to the first line feed and includes it; without one it is all that is left.
pub proof fn lines_are_closed_by_line_feeds(input: Seq<u8>)
    ensures
        first_line(input) + other_lines(input) == input,
        forall|i: int| 0 <= i < first_line(input).len() - 1 ==> #[trigger] first_line(input)[i] != 10,
        other_lines(input).len() > 0 ==> first_line(input).last() == 10,
    decreases input.len(),
{
    first_line_is_prefix(input);
    assert(first_line(input) + other_lines(input) == input);
    if input.len() > 0 && input[0] != 10 {
        let rest = input.drop_first();
        lines_are_closed_by_line_feeds(rest);
        first_line_is_prefix(rest);
        let a = first_line(input);
        let b = first_line(rest);
        assert(a == seq![input[0]] + b);
        assert(other_lines(input) == other_lines(rest));
        assert forall|i: int| 0 <= i < a.len() - 1 implies #[trigger] a[i] != 10 by {
            if i > 0 {
                assert(a[i] == b[i - 1]);
            }
        }
        if other_lines(input).len() > 0 {
            assert(b.len() > 0);
            assert(a.last() == b.last());
        }
    }
}

} // verus!
