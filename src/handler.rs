use vstd::prelude::*;
use crate::constant::{APPLICATION_JSON, TEXT_CSS, TEXT_HTML, TEXT_JAVASCRIPT};
use crate::fields::FieldMap;
use crate::request::{HttpMethod, HttpRequest};
use crate::response::{default_headers, HttpResponse, HttpStatus};
use crate::router::{Route, Router};
use crate::router::{first_segment, segment_of};
use crate::text::{chars_of, ends_with, ends_with_chars};

verus! {

/// The page served for the root path.
pub const INDEX_PAGE: &'static str = "index.html";

/// The page served when a file is missing.
pub const NOT_FOUND_PAGE: &'static str = "404.html";

/// The body of the hello endpoint.
pub const HELLO_BODY: &'static str = "{\"code\":200, \"msg\":\"OK\"}";

/// The content type of a static file, by its extension.
pub open spec fn static_content_type(path: Seq<char>) -> Seq<char> {
    if ends_with(path, ".css"@) {
        TEXT_CSS@
    } else if ends_with(path, ".js"@) {
        TEXT_JAVASCRIPT@
    } else {
        TEXT_HTML@
    }
}

/// The file that a static request asks for: the index page for the root, else
/// the first path segment.
pub open spec fn static_file(url: Seq<char>) -> Seq<char> {
    if first_segment(url).len() == 0 {
        INDEX_PAGE@
    } else {
        first_segment(url)
    }
}

/// What the static handler answers for a path, given the requested file's
/// contents (where it could be read) and the not-found page's.
pub open spec fn static_response(
    url: Seq<char>,
    file: Option<Vec<u8>>,
    not_found_page: Option<Vec<u8>>,
    r: HttpResponse,
) -> bool {
    &&& r.wf()
    &&& first_segment(url).len() == 0 ==> {
        &&& r.spec_status() == HttpStatus::OK
        &&& r.spec_headers() == default_headers().insert("Content-Type"@, TEXT_HTML@)
        &&& r.spec_body() == file
    }
    &&& first_segment(url).len() > 0 && file is Some ==> {
        &&& r.spec_status() == HttpStatus::OK
        &&& r.spec_headers() == default_headers().insert(
            "Content-Type"@,
            static_content_type(first_segment(url)),
        )
        &&& r.spec_body() == file
    }
    &&& first_segment(url).len() > 0 && file is None ==> {
        &&& r.spec_status() == HttpStatus::NotFound
        &&& r.spec_headers() == default_headers().insert("Content-Type"@, TEXT_HTML@)
        &&& r.spec_body() == not_found_page
    }
}

/// What the hello handler answers: a JSON document to `GET`, else the
/// not-found page.
pub open spec fn hello_response(
    method: HttpMethod,
    not_found_page: Option<Vec<u8>>,
    r: HttpResponse,
) -> bool {
    &&& r.wf()
    &&& method == HttpMethod::Get ==> {
        &&& r.spec_status() == HttpStatus::OK
        &&& r.spec_headers() == default_headers().insert("Content-Type"@, APPLICATION_JSON@)
        &&& r.spec_body() matches Some(b) && b@ == vstd::utf8::encode_utf8(HELLO_BODY@)
    }
    &&& method != HttpMethod::Get ==> {
        &&& r.spec_status() == HttpStatus::NotFound
        &&& r.spec_headers() == default_headers().insert("Content-Type"@, TEXT_HTML@)
        &&& r.spec_body() == not_found_page
    }
}

fn single_header(key: &str, value: &str) -> (r: FieldMap<String>)
    ensures
        r.wf(),
        r@ == Map::<Seq<char>, Seq<char>>::empty().insert(key@, value@),
{
    let mut m: FieldMap<String> = FieldMap::new();
    m.insert(String::from_str(key), String::from_str(value));
    m
}

/// Serves files.
pub struct StaticHandler;

impl StaticHandler {
    /// The name of the file to load for a request.
    pub fn file_name(req: &HttpRequest) -> (r: String)
        ensures
            r@ == static_file(req.spec_url()),
    {
        let segment = segment_of(req.url());
        if segment.as_str().unicode_len() == 0 {
            String::from_str(INDEX_PAGE)
        } else {
            segment
        }
    }

    /// The response for a static request, given the requested file's contents
    /// (where it could be read) and the not-found page's.
    pub fn handle(req: &HttpRequest, file: Option<Vec<u8>>, not_found_page: Option<Vec<u8>>) -> (r:
        HttpResponse)
        ensures
            static_response(req.spec_url(), file, not_found_page, r),
    {
        let segment = segment_of(req.url());
        let path = chars_of(segment.as_str());
        if path.len() == 0 {
            let headers = single_header("Content-Type", TEXT_HTML);
            let r = HttpResponse::new(HttpStatus::OK, Some(headers), file);
            assert(r.spec_headers() =~= default_headers().insert("Content-Type"@, TEXT_HTML@));
            return r;
        }
        match file {
            Some(contents) => {
                let css = chars_of(".css");
                let js = chars_of(".js");
                let content_type = if ends_with_chars(path.as_slice(), css.as_slice()) {
                    TEXT_CSS
                } else if ends_with_chars(path.as_slice(), js.as_slice()) {
                    TEXT_JAVASCRIPT
                } else {
                    TEXT_HTML
                };
                let headers = single_header("Content-Type", content_type);
                let r = HttpResponse::new(HttpStatus::OK, Some(headers), Some(contents));
                assert(r.spec_headers() =~= default_headers().insert(
                    "Content-Type"@,
                    static_content_type(first_segment(req.spec_url())),
                ));
                r
            },
            None => HttpResponse::not_found(not_found_page),
        }
    }
}

/// Answers `GET` with a small JSON document.
pub struct HelloHandler;

impl HelloHandler {
    pub fn handle(req: &HttpRequest, not_found_page: Option<Vec<u8>>) -> (r: HttpResponse)
        ensures
            hello_response(req.spec_method(), not_found_page, r),
    {
        match req.method() {
            HttpMethod::Get => {
                let headers = single_header("Content-Type", APPLICATION_JSON);
                let body = vstd::slice::slice_to_vec(HELLO_BODY.as_bytes());
                let r = HttpResponse::new(HttpStatus::OK, Some(headers), Some(body));
                assert(r.spec_headers() =~= default_headers().insert(
                    "Content-Type"@,
                    APPLICATION_JSON@,
                ));
                r
            },
            _ => HttpResponse::not_found(not_found_page),
        }
    }
}

impl Router {
    /// The response to a request: the hello handler's for `/hello`, else the
    /// static handler's, given the requested file's contents (where it could be
    /// read; only static requests use it) and the not-found page's.
    pub fn respond(req: &HttpRequest, file: Option<Vec<u8>>, not_found_page: Option<Vec<u8>>) -> (r:
        HttpResponse)
        ensures
            first_segment(req.spec_url()) == "hello"@ ==> hello_response(
                req.spec_method(),
                not_found_page,
                r,
            ),
            first_segment(req.spec_url()) != "hello"@ ==> static_response(
                req.spec_url(),
                file,
                not_found_page,
                r,
            ),
    {
        match Router::route(req) {
            Route::Hello => HelloHandler::handle(req, not_found_page),
            Route::Static => StaticHandler::handle(req, file, not_found_page),
        }
    }
}

} // verus!
