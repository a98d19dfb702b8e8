use my_http_server::error::{Fail, FailKind};
use my_http_server::fields::FieldMap;
use my_http_server::handler::{HelloHandler, StaticHandler};
use my_http_server::request::{parse_body, parse_multipart_form, parse_parameters, HttpMethod, HttpRequest, HttpVersion};
use my_http_server::response::{HttpResponse, HttpStatus};
use my_http_server::router::{Route, Router};
use my_http_server::server::{get_content_length, BodyReader, BodyStep, HeadReader, HeadStep, HttpSettings};
use my_http_server::utils::{scan, split};

fn chars(s: &str) -> Vec<char> {
    s.chars().collect()
}

/// Frames a header block out of `stream`, each read returning at most the next
/// planned size (cycling through `plan`).
fn frame(stream: &[u8], plan: &[usize], settings: HttpSettings) -> Result<(String, Vec<u8>, usize), Fail> {
    let (mut reader, mut step) = HeadReader::new(settings);
    let mut pos = 0usize;
    let mut turn = 0usize;
    loop {
        match step {
            HeadStep::ReadChunk(n) => {
                let want = n.min(plan[turn % plan.len()]).min(stream.len() - pos);
                turn += 1;
                let chunk = &stream[pos..pos + want];
                pos += want;
                step = reader.on_chunk(chunk);
            }
            HeadStep::Complete => break,
            HeadStep::Failed(e) => return Err(e),
        }
    }
    let (header, leftover) = reader.finish()?;
    Ok((header, leftover, pos))
}

/// Reads the body after framing, with reads of at most the next planned size.
fn read_body(stream: &[u8], mut pos: usize, leftover: Vec<u8>, len: usize, plan: &[usize], settings: HttpSettings) -> Result<Vec<u8>, Fail> {
    let (mut reader, mut step) = BodyReader::start(settings, len, leftover)?;
    let mut turn = 0usize;
    loop {
        match step {
            BodyStep::Read(n) => {
                let want = n.min(plan[turn % plan.len()]).min(stream.len() - pos);
                turn += 1;
                let chunk = &stream[pos..pos + want];
                pos += want;
                step = reader.on_read(chunk);
            }
            BodyStep::Complete => return Ok(reader.into_body()),
            BodyStep::Failed(e) => return Err(e),
        }
    }
}

fn settings() -> HttpSettings {
    let mut s = HttpSettings::new();
    s.header_read_attempts = 1000;
    s.body_read_attempts = 1000;
    s
}

#[test]
fn scan_finds_first_occurrence() {
    assert_eq!(scan(b"hello world", b"o"), Some(4));
    assert_eq!(scan(b"aab", b"ab"), Some(1));
    assert_eq!(scan(b"abc", b"abcd"), None);
    assert_eq!(scan(b"abc", b"x"), None);
}

#[test]
fn split_keeps_remainder() {
    let parts = split(b"a--b----c", b"--");
    assert_eq!(parts, vec![b"a".to_vec(), b"b".to_vec(), b"".to_vec(), b"c".to_vec()]);
    let parts = split(b"abc", b"--");
    assert_eq!(parts, vec![b"abc".to_vec()]);
    let parts = split(b"x--", b"--");
    assert_eq!(parts, vec![b"x".to_vec(), b"".to_vec()]);
}

#[test]
fn scenario_simple_get() {
    let req = HttpRequest::from("GET /hello?x=1 HTTP/1.1\r\nHost: a\r\n\r\n", Vec::new(), "127.0.0.1").ok().unwrap();
    assert_eq!(*req.method(), HttpMethod::Get);
    assert_eq!(req.url(), "/hello");
    assert_eq!(*req.version(), HttpVersion::V1_1);
    assert_eq!(req.ip(), "127.0.0.1");
    assert_eq!(req.search_params().len(), 1);
    assert_eq!(req.search_params().get("x").unwrap(), "1");
    assert_eq!(req.headers().len(), 1);
    assert_eq!(req.headers().get("host").unwrap(), "a");
    // no content type and no body: the empty body is kept raw
    assert_eq!(req.body().get("__raw").unwrap(), &Vec::<u8>::new());
}

#[test]
fn scenario_urlencoded_form() {
    let head = "POST /form HTTP/1.1\r\nContent-Type: application/x-www-form-urlencoded\r\nContent-Length: 7\r\n\r\n";
    assert_eq!(get_content_length(head), 7);
    let req = HttpRequest::from(head, b"a=1&b=2".to_vec(), "::1").ok().unwrap();
    assert_eq!(req.body().len(), 2);
    assert_eq!(req.body().get("a").unwrap(), &b"1".to_vec());
    assert_eq!(req.body().get("b").unwrap(), &b"2".to_vec());
    assert_eq!(*req.method(), HttpMethod::Post);
}

#[test]
fn scenario_multipart_form() {
    let head = "POST /up HTTP/1.1\r\nContent-Type: multipart/form-data; boundary=X\r\n\r\n";
    let body = b"--X\r\nContent-Disposition: form-data; name=\"f\"\r\n\r\nhello\r\n--X--\r\n".to_vec();
    let req = HttpRequest::from(head, body, "1.2.3.4").ok().unwrap();
    assert_eq!(req.body().len(), 1);
    assert_eq!(req.body().get("f").unwrap(), &b"hello".to_vec());
}

#[test]
fn scenario_header_too_large() {
    let mut s = settings();
    s.max_header_size = 10;
    let stream = b"GET / HTTP/1.1\r\nHost: a\r\n\r\n";
    let err = frame(stream, &[8192], s).err().unwrap();
    assert_eq!(err.kind, FailKind::HeaderTooLarge);
    let response = HttpResponse::new(HttpStatus::BadRequest, None, Some(err.message().into_bytes()));
    let bytes = response.to_vec();
    assert!(bytes.starts_with(b"HTTP/1.1 400 Bad Request\r\n"));
    assert!(bytes.ends_with("\r\n\r\n请求头大小超出限制".as_bytes()));
}

#[test]
fn header_too_large_across_small_reads() {
    let mut s = settings();
    s.max_header_size = 10;
    let err = frame(b"GET /abcdefghijk HTTP/1.1\r\n\r\n", &[3], s).err().unwrap();
    assert_eq!(err, Fail::new(FailKind::HeaderTooLarge));
}

#[test]
fn scenario_body_too_large() {
    let mut s = settings();
    s.max_body_size = 100;
    let err = BodyReader::start(s, 1_000_000, Vec::new()).err().unwrap();
    assert_eq!(err.kind(), FailKind::BodyTooLarge);
    // exactly the limit is accepted
    assert!(BodyReader::start(s, 100, Vec::new()).is_ok());
}

#[test]
fn body_is_invariant_under_chunking() {
    let stream: &[u8] = b"POST /f HTTP/1.1\r\nContent-Length: 11\r\n\r\nhello world";
    let plans: Vec<Vec<usize>> = vec![vec![8192], vec![1], vec![2], vec![3], vec![5, 1], vec![17], vec![18], vec![19], vec![7, 13], vec![40, 1]];
    for plan in plans {
        let (header, leftover, pos) = frame(stream, &plan, settings()).ok().unwrap();
        assert_eq!(header, "POST /f HTTP/1.1\r\nContent-Length: 11\r\n\r\n");
        let len = get_content_length(&header);
        assert_eq!(len, 11);
        let body = read_body(stream, pos, leftover, len, &plan, settings()).ok().unwrap();
        assert_eq!(body, b"hello world".to_vec(), "plan {:?}", plan);
    }
}

#[test]
fn terminator_split_across_reads() {
    // the first read ends right after the first '\r' of the terminator
    let stream: &[u8] = b"GET / HTTP/1.1\r\n\r\nXY";
    let (header, leftover, _) = frame(stream, &[15, 100], settings()).ok().unwrap();
    assert_eq!(header, "GET / HTTP/1.1\r\n\r\n");
    assert_eq!(leftover, b"XY".to_vec());
}

#[test]
fn header_is_the_same_for_every_split() {
    let stream: &[u8] = b"GET / HTTP/1.1\r\nX\r\n\r\nbody";
    for first in 1..stream.len() {
        for rest in [1usize, 2, 3, 4, 100] {
            let (header, leftover, pos) = frame(stream, &[first, rest], settings()).ok().unwrap();
            assert_eq!(header, "GET / HTTP/1.1\r\nX\r\n\r\n", "split {} then {}", first, rest);
            let mut seen = header.as_bytes().to_vec();
            seen.extend_from_slice(&leftover);
            assert_eq!(&stream[..pos], &seen[..]);
        }
    }
    // the split that a four-byte lookahead would miss: CR LF | X CR LF CR LF
    let (header, _, _) = frame(b"\r\nX\r\n\r\n", &[2, 100], settings()).ok().unwrap();
    assert_eq!(header, "\r\nX\r\n\r\n");
}

#[test]
fn header_read_fails_after_short_reads() {
    let mut s = HttpSettings::new();
    s.header_read_attempts = 3;
    // a stream that never ends its header block, read a few bytes at a time
    let err = frame(b"GET / HTTP/1.1\r\nHost: a", &[4], s).err().unwrap();
    assert_eq!(err.kind, FailKind::HeaderReadFailed);
}

#[test]
fn body_read_fails_after_short_reads() {
    let mut s = HttpSettings::new();
    s.body_read_attempts = 2;
    let err = read_body(b"abc", 0, Vec::new(), 10, &[1], s).err().unwrap();
    assert_eq!(err.kind, FailKind::BodyReadFailed);
}

#[test]
fn leftover_covers_whole_body() {
    let (reader, step) = BodyReader::start(settings(), 3, b"abc".to_vec()).ok().unwrap();
    assert!(matches!(step, BodyStep::Complete));
    assert_eq!(reader.into_body(), b"abc".to_vec());
}

#[test]
fn invalid_header_encoding() {
    let err = frame(b"GET / HTTP/1.1\r\nX: \xff\r\n\r\n", &[8192], settings()).err().unwrap();
    assert_eq!(err.kind, FailKind::InvalidHeaderEncoding);
}

#[test]
fn keys_are_lowercased_and_trimmed() {
    let params = parse_parameters(&chars(" Name = Bob & FLAG &x=a=b"));
    assert_eq!(params.get("name").unwrap(), "Bob");
    assert_eq!(params.get("flag").unwrap(), "");
    assert_eq!(params.get("x").unwrap(), "a=b");
    assert!(params.get("Name").is_none());
    assert_eq!(params.len(), 3);
}

#[test]
fn later_pairs_overwrite() {
    let params = parse_parameters(&chars("a=1&A=2"));
    assert_eq!(params.len(), 1);
    assert_eq!(params.get("a").unwrap(), "2");
}

#[test]
fn empty_query_gives_one_empty_pair() {
    let params = parse_parameters(&chars(""));
    assert_eq!(params.len(), 1);
    assert_eq!(params.get("").unwrap(), "");
}

#[test]
fn headers_are_normalized() {
    let req = HttpRequest::from("GET / HTTP/2.0\r\n  X-Thing :  v1 \r\nno colon line\r\nx-thing: v2\r\n\r\n", Vec::new(), "ip").ok().unwrap();
    assert_eq!(*req.version(), HttpVersion::V2_0);
    assert_eq!(req.headers().len(), 1);
    assert_eq!(req.headers().get("x-thing").unwrap(), "v2");
    assert_eq!(req.search_params().len(), 0);
}

#[test]
fn unknown_method_and_version() {
    let req = HttpRequest::from("BREW /pot HTCPCP/1.0\r\n\r\n", Vec::new(), "ip").ok().unwrap();
    assert_eq!(*req.method(), HttpMethod::Unknown);
    assert_eq!(*req.version(), HttpVersion::Unknown);
    let req = HttpRequest::from("OPTIONS * HTTP/1.1\r\n\r\n", Vec::new(), "ip").ok().unwrap();
    assert_eq!(*req.method(), HttpMethod::Options);
}

#[test]
fn malformed_request_line() {
    for head in ["", "GET\r\n\r\n", "GET /\r\n\r\n", "   \r\n"] {
        let err = HttpRequest::from(head, Vec::new(), "ip").err().unwrap();
        assert_eq!(err.kind, FailKind::MalformedRequestLine);
    }
}

#[test]
fn missing_boundary() {
    let err = HttpRequest::from("POST / HTTP/1.1\r\nContent-Type: multipart/form-data\r\n\r\n", b"x".to_vec(), "ip").err().unwrap();
    assert_eq!(err.kind, FailKind::MissingBoundary);
}

#[test]
fn missing_field_name() {
    let err = parse_multipart_form(b"--B\r\nContent-Disposition: form-data\r\n\r\nv\r\n--B--\r\n", &chars("B")).err().unwrap();
    assert_eq!(err.kind, FailKind::MissingFieldName);
}

#[test]
fn multipart_names_are_trimmed() {
    let fields = parse_multipart_form(b"--B\r\nContent-Disposition: form-data; name=\" F \"\r\n\r\nv\r\n--B--\r\n", &chars("B")).ok().unwrap();
    assert_eq!(fields.len(), 1);
    assert_eq!(fields.get("f").unwrap(), &b"v".to_vec());
}

#[test]
fn malformed_part() {
    let err = parse_multipart_form(b"--B\r\nContent-Disposition: form-data; name=\"a\"\r\n", &chars("B")).err().unwrap();
    assert_eq!(err.kind, FailKind::MalformedPart);
}

#[test]
fn multipart_two_fields_single_line_values() {
    let body = b"preamble--B\r\nContent-Disposition: form-data; name=\"First\"\r\nContent-Type: text/plain\r\n\r\nline one\r\nline two\r\n--B\r\nContent-Disposition: form-data; name=\"second\"\r\n\r\n2\r\n--B--\r\n";
    let fields = parse_multipart_form(body, &chars("B")).ok().unwrap();
    assert_eq!(fields.len(), 2);
    assert_eq!(fields.get("first").unwrap(), &b"line one".to_vec());
    assert_eq!(fields.get("second").unwrap(), &b"2".to_vec());
}

#[test]
fn invalid_form_encoding() {
    let mut headers: FieldMap<String> = FieldMap::new();
    headers.insert("content-type".to_string(), "application/x-www-form-urlencoded".to_string());
    let err = parse_body(&headers, b"a=\xff").err().unwrap();
    assert_eq!(err.kind, FailKind::InvalidBodyEncoding);
}

#[test]
fn other_content_type_is_raw() {
    let mut headers: FieldMap<String> = FieldMap::new();
    headers.insert("content-type".to_string(), "application/json".to_string());
    let fields = parse_body(&headers, b"{\"a\":1}").ok().unwrap();
    assert_eq!(fields.len(), 1);
    assert_eq!(fields.get("__raw").unwrap(), &b"{\"a\":1}".to_vec());
}

#[test]
fn body_utf8_replaces_invalid_bytes() {
    let req = HttpRequest::from("POST / HTTP/1.1\r\n\r\n", b"ok\xff".to_vec(), "ip").ok().unwrap();
    let text = req.body_utf8();
    assert_eq!(text.get("__raw").unwrap(), "ok\u{fffd}");
}

#[test]
fn content_length_lookup() {
    assert_eq!(get_content_length("GET / HTTP/1.1\r\n\r\n"), 0);
    assert_eq!(get_content_length("GET / HTTP/1.1\r\nCONTENT-LENGTH: 12\r\n\r\n"), 12);
    assert_eq!(get_content_length("GET / HTTP/1.1\r\ncontent-length: 3\r\nContent-Length: 45\r\n\r\n"), 45);
    assert_eq!(get_content_length("GET / HTTP/1.1\r\nContent-Length: abc\r\n\r\n"), 0);
    assert_eq!(get_content_length("GET / HTTP/1.1\r\nContent-Length: +8\r\n\r\n"), 8);
    assert_eq!(get_content_length("GET / HTTP/1.1\r\nContent-Length: 99999999999999999999999\r\n\r\n"), 0);
}

#[test]
fn response_round_trip() {
    let mut extra: FieldMap<String> = FieldMap::new();
    extra.insert("X-A".to_string(), "1".to_string());
    let response = HttpResponse::new(HttpStatus::OK, Some(extra), Some(b"body!".to_vec()));
    let bytes = response.to_vec();
    let expected = b"HTTP/1.1 200 OK\r\nContent-Type:text/plain\r\nX-A:1\r\nserver:FlapyPan/my-http-server\r\nContent-Length: 5\r\n\r\nbody!".to_vec();
    assert_eq!(bytes, expected);
    // read the layout back
    let text = String::from_utf8(bytes.clone()).unwrap();
    let (head, body) = text.split_once("\r\n\r\n").unwrap();
    let mut lines = head.split("\r\n");
    assert_eq!(lines.next().unwrap(), "HTTP/1.1 200 OK");
    let rest: Vec<&str> = lines.collect();
    assert_eq!(rest, vec!["Content-Type:text/plain", "X-A:1", "server:FlapyPan/my-http-server", "Content-Length: 5"]);
    assert_eq!(body.as_bytes(), b"body!");
}

#[test]
fn response_without_body_has_zero_length() {
    let response = HttpResponse::new(HttpStatus::InternalServerError, None, None);
    let bytes = response.to_vec();
    assert_eq!(bytes, b"HTTP/1.1 500 Internal Server Error\r\nContent-Type:text/plain\r\nserver:FlapyPan/my-http-server\r\nContent-Length: 0\r\n\r\n".to_vec());
}

#[test]
fn default_headers_can_be_overridden() {
    let mut extra: FieldMap<String> = FieldMap::new();
    extra.insert("Content-Type".to_string(), "text/css".to_string());
    let response = HttpResponse::new(HttpStatus::OK, Some(extra), None);
    assert_eq!(response.header_map().get("Content-Type").unwrap(), "text/css");
    assert_eq!(response.header_map().len(), 2);
    let nf = HttpResponse::not_found(Some(b"x".to_vec()));
    assert_eq!(nf.status(), HttpStatus::NotFound);
    assert_eq!(nf.header_map().get("Content-Type").unwrap(), "text/html");
    assert!(nf.to_vec().starts_with(b"HTTP/1.1 404 Not Found\r\n"));
    assert_eq!(HttpStatus::BadRequest.to_str(), "400 Bad Request");
}

#[test]
fn field_map_keeps_key_order() {
    let mut m: FieldMap<String> = FieldMap::new();
    for k in ["b", "a", "server", "Content-Type", "ab", "a"] {
        m.insert(k.to_string(), k.to_uppercase());
    }
    let keys: Vec<String> = (0..m.len()).map(|i| m.key_at(i).clone()).collect();
    assert_eq!(keys, vec!["Content-Type", "a", "ab", "b", "server"]);
    assert_eq!(m.value_at(1), "A");
}

#[test]
fn routing_and_handlers() {
    let req = HttpRequest::from("GET /hello HTTP/1.1\r\n\r\n", Vec::new(), "ip").ok().unwrap();
    assert_eq!(Router::route(&req), Route::Hello);
    let r = HelloHandler::handle(&req, None);
    assert_eq!(r.status(), HttpStatus::OK);
    assert_eq!(r.body().as_ref().unwrap(), &b"{\"code\":200, \"msg\":\"OK\"}".to_vec());
    assert_eq!(r.header_map().get("Content-Type").unwrap(), "application/json");

    let post = HttpRequest::from("POST /hello HTTP/1.1\r\n\r\n", Vec::new(), "ip").ok().unwrap();
    let r = HelloHandler::handle(&post, Some(b"nf".to_vec()));
    assert_eq!(r.status(), HttpStatus::NotFound);

    let root = HttpRequest::from("GET / HTTP/1.1\r\n\r\n", Vec::new(), "ip").ok().unwrap();
    assert_eq!(Router::route(&root), Route::Static);
    assert_eq!(StaticHandler::file_name(&root), "index.html");
    let r = StaticHandler::handle(&root, None, None);
    assert_eq!(r.status(), HttpStatus::OK);

    let css = HttpRequest::from("GET /site.css HTTP/1.1\r\n\r\n", Vec::new(), "ip").ok().unwrap();
    assert_eq!(StaticHandler::file_name(&css), "site.css");
    let r = StaticHandler::handle(&css, Some(b"a{}".to_vec()), None);
    assert_eq!(r.header_map().get("Content-Type").unwrap(), "text/css");
    let js = HttpRequest::from("GET /app.js HTTP/1.1\r\n\r\n", Vec::new(), "ip").ok().unwrap();
    let r = StaticHandler::handle(&js, Some(Vec::new()), None);
    assert_eq!(r.header_map().get("Content-Type").unwrap(), "text/javascript");
    let r = StaticHandler::handle(&js, None, Some(b"missing".to_vec()));
    assert_eq!(r.status(), HttpStatus::NotFound);
    assert_eq!(r.body().as_ref().unwrap(), &b"missing".to_vec());
}

#[test]
fn failure_messages() {
    assert_eq!(Fail::new(FailKind::BodyTooLarge).message(), "请求体大小超出限制");
    assert_eq!(Fail::new(FailKind::MalformedRequestLine).message(), "获取请求行失败");
    let r: Result<u8, Fail> = Fail::from(FailKind::MalformedPart);
    assert_eq!(r, Err(Fail { kind: FailKind::MalformedPart }));
}

#[test]
fn default_settings() {
    let s = HttpSettings::new();
    assert_eq!(s.max_header_size, 8192);
    assert_eq!(s.max_body_size, 8 * 1024 * 1024);
    assert_eq!(s.header_buffer, 8192);
    assert_eq!(s.body_buffer, 8192);
    assert_eq!(s.header_read_attempts, 3);
    assert_eq!(s.body_read_attempts, 3);
}

#[test]
fn router_answers_hello_with_exact_bytes() {
    let req = HttpRequest::from("GET /hello?x=1 HTTP/1.1\r\n\r\n", vec![], "127.0.0.1").ok().unwrap();
    let bytes = Router::respond(&req, None, None).to_vec();
    assert_eq!(bytes, b"HTTP/1.1 200 OK\r\nContent-Type:application/json\r\nserver:FlapyPan/my-http-server\r\nContent-Length: 24\r\n\r\n{\"code\":200, \"msg\":\"OK\"}".to_vec());
    let nf = HttpResponse::not_found(Some(b"x".to_vec())).to_vec();
    assert_eq!(nf, b"HTTP/1.1 404 Not Found\r\nContent-Type:text/html\r\nserver:FlapyPan/my-http-server\r\nContent-Length: 1\r\n\r\nx".to_vec());
    let plain = HttpResponse::new(HttpStatus::OK, None, None).to_vec();
    assert_eq!(plain, b"HTTP/1.1 200 OK\r\nContent-Type:text/plain\r\nserver:FlapyPan/my-http-server\r\nContent-Length: 0\r\n\r\n".to_vec());
}

#[test]
fn bare_final_carriage_return_is_kept_in_last_line() {
    // the request line keeps its final CR, which is white space to the word split
    let req = HttpRequest::from("GET /a HTTP/1.1\r", Vec::new(), "ip").ok().unwrap();
    assert_eq!(*req.version(), HttpVersion::V1_1);
    assert_eq!(req.url(), "/a");
}
