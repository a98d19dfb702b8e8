use vstd::prelude::*;
use vstd::utf8::{decode_utf8, encode_utf8};
use crate::constant::{TEXT_HTML, TEXT_PLAIN};
use crate::fields::FieldMap;
use crate::server::append_bytes;
use crate::text::string_of;

verus! {

pub const SERVER_NAME: &'static str = "FlapyPan/my-http-server";

/// Response statuses.
#[derive(Clone, Copy, Debug, PartialEq, Eq, Structural)]
pub enum HttpStatus {
    OK,
    BadRequest,
    NotFound,
    InternalServerError,
}

/// The code and reason phrase of each status.
pub open spec fn status_text(s: HttpStatus) -> Seq<char> {
    match s {
        HttpStatus::OK => "200 OK"@,
        HttpStatus::BadRequest => "400 Bad Request"@,
        HttpStatus::NotFound => "404 Not Found"@,
        HttpStatus::InternalServerError => "500 Internal Server Error"@,
    }
}

/// The three-digit code of each status.
pub open spec fn status_code(s: HttpStatus) -> Seq<char> {
    match s {
        HttpStatus::OK => "200"@,
        HttpStatus::BadRequest => "400"@,
        HttpStatus::NotFound => "404"@,
        HttpStatus::InternalServerError => "500"@,
    }
}

impl HttpStatus {
    pub fn to_str(&self) -> (r: &'static str)
        ensures
            r@ == status_text(*self),
    {
        match self {
            HttpStatus::OK => "200 OK",
            HttpStatus::BadRequest => "400 Bad Request",
            HttpStatus::NotFound => "404 Not Found",
            HttpStatus::InternalServerError => "500 Internal Server Error",
        }
    }
}

/// The decimal digit of `d`.
pub open spec fn digit(d: nat) -> char {
    if d == 0 {
        '0'
    } else if d == 1 {
        '1'
    } else if d == 2 {
        '2'
    } else if d == 3 {
        '3'
    } else if d == 4 {
        '4'
    } else if d == 5 {
        '5'
    } else if d == 6 {
        '6'
    } else if d == 7 {
        '7'
    } else if d == 8 {
        '8'
    } else {
        '9'
    }
}

/// The decimal notation of `n`, without leading zeros.
pub open spec fn decimal(n: nat) -> Seq<char>
    decreases n,
{
    if n < 10 {
        seq![digit(n)]
    } else {
        decimal(n / 10).push(digit(n % 10))
    }
}

fn digit_char(d: usize) -> (r: char)
    requires
        d < 10,
    ensures
        r == digit(d as nat),
{
    if d == 0 {
        '0'
    } else if d == 1 {
        '1'
    } else if d == 2 {
        '2'
    } else if d == 3 {
        '3'
    } else if d == 4 {
        '4'
    } else if d == 5 {
        '5'
    } else if d == 6 {
        '6'
    } else if d == 7 {
        '7'
    } else if d == 8 {
        '8'
    } else {
        '9'
    }
}

fn decimal_chars(n: usize) -> (r: Vec<char>)
    ensures
        r@ == decimal(n as nat),
    decreases n,
{
    if n < 10 {
        let mut v = Vec::new();
        v.push(digit_char(n));
        assert(v@ =~= seq![digit(n as nat)]);
        v
    } else {
        let mut v = decimal_chars(n / 10);
        v.push(digit_char(n % 10));
        v
    }
}

/// Header lines `key:value\r\n`, in the given order.
pub open spec fn header_text(keys: Seq<Seq<char>>, values: Seq<Seq<char>>) -> Seq<char>
    decreases keys.len(),
{
    if keys.len() == 0 {
        Seq::empty()
    } else {
        header_text(keys.drop_last(), values.drop_last()) + keys.last() + ":"@ + values.last()
            + "\r\n"@
    }
}

/// A response ready to be written.
pub struct HttpResponse {
    version: String,
    status: HttpStatus,
    headers: FieldMap<String>,
    body: Option<Vec<u8>>,
}

/// The headers every response starts from.
pub open spec fn default_headers() -> Map<Seq<char>, Seq<char>> {
    Map::empty().insert("Content-Type"@, TEXT_PLAIN@).insert("server"@, SERVER_NAME@)
}

/// The length of an optional body.
pub open spec fn body_len(body: Option<Vec<u8>>) -> nat {
    match body {
        Some(b) => b@.len(),
        None => 0,
    }
}

/// The bytes of an optional body.
pub open spec fn body_bytes(body: Option<Vec<u8>>) -> Seq<u8> {
    match body {
        Some(b) => b@,
        None => Seq::empty(),
    }
}

impl HttpResponse {
    pub closed spec fn spec_version(&self) -> Seq<char> {
        self.version@
    }

    pub closed spec fn spec_status(&self) -> HttpStatus {
        self.status
    }

    pub closed spec fn spec_headers(&self) -> Map<Seq<char>, Seq<char>> {
        self.headers@
    }

    /// The header keys in the order they are written.
    pub closed spec fn header_keys(&self) -> Seq<Seq<char>> {
        self.headers.keys()
    }

    pub closed spec fn header_values(&self) -> Seq<Seq<char>> {
        self.headers.values()
    }

    pub closed spec fn spec_body(&self) -> Option<Vec<u8>> {
        self.body
    }

    pub closed spec fn wf(&self) -> bool {
        self.headers.wf() && self.version@ == "HTTP/1.1"@
    }

    /// The text before the body: status line, header lines, the length line
    /// and the blank line.
    pub open spec fn head_text(&self) -> Seq<char> {
        self.spec_version() + " "@ + status_text(self.spec_status()) + "\r\n"@ + header_text(
            self.header_keys(),
            self.header_values(),
        ) + "Content-Length: "@ + decimal(body_len(self.spec_body())) + "\r\n\r\n"@
    }

    /// The wire bytes of the response.
    pub open spec fn wire_bytes(&self) -> Seq<u8> {
        encode_utf8(self.head_text()) + body_bytes(self.spec_body())
    }

    pub proof fn lemma_version(&self)
        requires
            self.wf(),
        ensures
            self.spec_version() == "HTTP/1.1"@,
    {
    }

    pub proof fn lemma_headers(&self)
        requires
            self.wf(),
        ensures
            self.header_keys().len() == self.header_values().len(),
            forall|i: int|
                0 <= i < self.header_keys().len() ==> #[trigger] self.spec_headers().contains_key(
                    self.header_keys()[i],
                ) && self.spec_headers()[self.header_keys()[i]] == self.header_values()[i],
            forall|k: Seq<char>|
                #[trigger] self.spec_headers().contains_key(k) ==> exists|i: int|
                    0 <= i < self.header_keys().len() && self.header_keys()[i] == k,
    {
        self.headers.lemma_entries();
    }

    fn base(status: HttpStatus, body: Option<Vec<u8>>) -> (r: HttpResponse)
        ensures
            r.wf(),
            r.spec_version() == "HTTP/1.1"@,
            r.spec_status() == status,
            r.spec_headers() == default_headers(),
            r.spec_body() == body,
    {
        let mut headers: FieldMap<String> = FieldMap::new();
        headers.insert(String::from_str("Content-Type"), String::from_str(TEXT_PLAIN));
        headers.insert(String::from_str("server"), String::from_str(SERVER_NAME));
        HttpResponse { version: String::from_str("HTTP/1.1"), status, headers, body }
    }

    /// A response with the default headers, overridden and extended by `headers`.
    pub fn new(status: HttpStatus, headers: Option<FieldMap<String>>, body: Option<Vec<u8>>) -> (r:
        HttpResponse)
        requires
            headers matches Some(h) ==> h.wf(),
        ensures
            r.wf(),
            r.spec_version() == "HTTP/1.1"@,
            r.spec_status() == status,
            r.spec_headers() == match headers {
                Some(h) => default_headers().union_prefer_right(h@),
                None => default_headers(),
            },
            r.spec_body() == body,
    {
        let mut response = HttpResponse::base(status, body);
        match headers {
            None => {},
            Some(hs) => {
                response.headers.merge(&hs);
            },
        }
        response
    }

    /// A `404 Not Found` response with an HTML content type.
    pub fn not_found(body: Option<Vec<u8>>) -> (r: HttpResponse)
        ensures
            r.wf(),
            r.spec_version() == "HTTP/1.1"@,
            r.spec_status() == HttpStatus::NotFound,
            r.spec_headers() == default_headers().insert("Content-Type"@, TEXT_HTML@),
            r.spec_body() == body,
    {
        let mut response = HttpResponse::base(HttpStatus::NotFound, body);
        response.headers.insert(String::from_str("Content-Type"), String::from_str(TEXT_HTML));
        response
    }

    pub fn status(&self) -> (r: HttpStatus)
        ensures
            r == self.spec_status(),
    {
        self.status
    }

    pub fn header_map(&self) -> (r: &FieldMap<String>)
        ensures
            r@ == self.spec_headers(),
            r.keys() == self.header_keys(),
            r.values() == self.header_values(),
            self.wf() ==> r.wf(),
    {
        &self.headers
    }

    pub fn body(&self) -> (r: &Option<Vec<u8>>)
        ensures
            *r == self.spec_body(),
    {
        &self.body
    }

    /// The header lines, in key order.
    fn headers(&self) -> (r: String)
        ensures
            r@ == header_text(self.header_keys(), self.header_values()),
    {
        let mut text = String::new();
        let n = self.headers.len();
        let mut i: usize = 0;
        let ghost ks = self.header_keys();
        let ghost vs = self.header_values();
        assert(header_text(ks.take(0), vs.take(0)) =~= Seq::<char>::empty());
        while i < n
            invariant
                n == ks.len(),
                ks == self.header_keys(),
                vs == self.header_values(),
                vs.len() == ks.len(),
                i <= n,
                text@ == header_text(ks.take(i as int), vs.take(i as int)),
            decreases n - i,
        {
            let key = self.headers.key_at(i);
            let value = self.headers.value_at(i);
            text.append(key.as_str());
            text.append(":");
            text.append(value.as_str());
            text.append("\r\n");
            assert(ks.take(i + 1).drop_last() =~= ks.take(i as int));
            assert(vs.take(i + 1).drop_last() =~= vs.take(i as int));
            i += 1;
        }
        assert(ks.take(n as int) =~= ks);
        assert(vs.take(n as int) =~= vs);
        text
    }

    /// Serializes the response: status line, headers in key order, the
    /// computed `Content-Length`, a blank line, then the body.
    pub fn to_vec(&self) -> (r: Vec<u8>)
        ensures
            r@ == self.wire_bytes(),
    {
        let mut head = String::new();
        head.append(self.version.as_str());
        head.append(" ");
        head.append(self.status.to_str());
        head.append("\r\n");
        let lines = self.headers();
        head.append(lines.as_str());
        head.append("Content-Length: ");
        let len: usize = match &self.body {
            None => 0,
            Some(b) => b.len(),
        };
        let digits = decimal_chars(len);
        let digits_text = string_of(digits.as_slice());
        head.append(digits_text.as_str());
        head.append("\r\n\r\n");
        let mut out: Vec<u8> = Vec::new();
        append_bytes(&mut out, head.as_str().as_bytes());
        match &self.body {
            None => {},
            Some(b) => {
                append_bytes(&mut out, b.as_slice());
            },
        }
        assert(out@ =~= self.wire_bytes());
        out
    }
}

/// Serializing a response and reading its bytes back recovers it: the bytes
/// up to the end of the head decode to the head text, whose status line begins
/// `HTTP/1.1 ` followed by the status code; after the status line come the
/// header lines `key:value\r\n`, whose keys and values are exactly the
/// response's header set, in key order; the head ends by declaring the body's
/// length; and the bytes after the head are exactly the body.
pub proof fn lemma_response_round_trip(resp: HttpResponse)
    requires
        resp.wf(),
    ensures
        ({
            let head = resp.head_text();
            let n = encode_utf8(head).len() as int;
            let bytes = resp.wire_bytes();
            let st = status_text(resp.spec_status());
            let hs = header_text(resp.header_keys(), resp.header_values());
            let d = decimal(body_len(resp.spec_body()));
            &&& decode_utf8(bytes.take(n)) == head
            &&& bytes.skip(n) == body_bytes(resp.spec_body())
            &&& head.take(9) == "HTTP/1.1 "@
            &&& head.subrange(9, 12) == status_code(resp.spec_status())
            &&& head.subrange(9 + st.len() as int, 11 + st.len() + hs.len() as int) == "\r\n"@ + hs
            &&& head.skip(head.len() - 20 - d.len()) == "Content-Length: "@ + d + "\r\n\r\n"@
            &&& resp.header_keys().len() == resp.header_values().len()
            &&& forall|i: int|
                0 <= i < resp.header_keys().len() ==> #[trigger] resp.spec_headers().contains_key(
                    resp.header_keys()[i],
                ) && resp.spec_headers()[resp.header_keys()[i]] == resp.header_values()[i]
            &&& forall|k: Seq<char>|
                #[trigger] resp.spec_headers().contains_key(k) ==> exists|i: int|
                    0 <= i < resp.header_keys().len() && resp.header_keys()[i] == k
        }),
{
    broadcast use vstd::utf8::encode_utf8_decode_utf8;

    resp.lemma_version();
    resp.lemma_headers();
    let head = resp.head_text();
    let n = encode_utf8(head).len() as int;
    let bytes = resp.wire_bytes();
    assert(bytes.take(n) =~= encode_utf8(head));
    assert(bytes.skip(n) =~= body_bytes(resp.spec_body()));
    reveal_strlit("HTTP/1.1");
    reveal_strlit(" ");
    reveal_strlit("HTTP/1.1 ");
    reveal_strlit("\r\n");
    reveal_strlit("Content-Length: ");
    reveal_strlit("\r\n\r\n");
    let st = status_text(resp.spec_status());
    let hs = header_text(resp.header_keys(), resp.header_values());
    let d = decimal(body_len(resp.spec_body()));
    assert(head =~= "HTTP/1.1 "@ + st + "\r\n"@ + hs + "Content-Length: "@ + d + "\r\n\r\n"@);
    assert(head.take(9) =~= "HTTP/1.1 "@);
    match resp.spec_status() {
        HttpStatus::OK => {
            reveal_strlit("200 OK");
            reveal_strlit("200");
        },
        HttpStatus::BadRequest => {
            reveal_strlit("400 Bad Request");
            reveal_strlit("400");
        },
        HttpStatus::NotFound => {
            reveal_strlit("404 Not Found");
            reveal_strlit("404");
        },
        HttpStatus::InternalServerError => {
            reveal_strlit("500 Internal Server Error");
            reveal_strlit("500");
        },
    }
    assert(head.subrange(9, 12) =~= status_code(resp.spec_status()));
    assert(head.subrange(9 + st.len() as int, 11 + st.len() + hs.len() as int) =~= "\r\n"@ + hs);
    assert(head.skip(head.len() - 20 - d.len()) =~= "Content-Length: "@ + d + "\r\n\r\n"@);
}

} // verus!
