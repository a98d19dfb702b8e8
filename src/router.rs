use vstd::prelude::*;
use crate::request::HttpRequest;
use crate::text::{chars_of, split_char, split_chars, string_of, views_of};

verus! {

/// The handlers a request can be routed to.
#[derive(Clone, Copy, Debug, PartialEq, Eq, Structural)]
pub enum Route {
    Hello,
    Static,
}

/// The first segment of a path: the text between its first and second `/`;
/// empty where the path has no `/`.
pub open spec fn first_segment(url: Seq<char>) -> Seq<char> {
    let pieces = split_char(url, '/');
    if pieces.len() >= 2 {
        pieces[1]
    } else {
        Seq::empty()
    }
}

/// The first segment of a path.
pub fn segment_of(url: &str) -> (r: String)
    ensures
        r@ == first_segment(url@),
{
    let chars = chars_of(url);
    let pieces = split_chars(chars.as_slice(), '/');
    if pieces.len() >= 2 {
        assert(views_of(pieces@)[1] == pieces@[1]@);
        string_of(pieces[1].as_slice())
    } else {
        String::new()
    }
}

pub struct Router;

impl Router {
    /// `/hello` goes to the hello handler, every other path to static files.
    pub fn route(req: &HttpRequest) -> (r: Route)
        ensures
            r == if first_segment(req.spec_url()) == "hello"@ {
                Route::Hello
            } else {
                Route::Static
            },
    {
        let segment = segment_of(req.url());
        let seg = chars_of(segment.as_str());
        let hello = chars_of("hello");
        if crate::fields::chars_equal(seg.as_slice(), hello.as_slice()) {
            Route::Hello
        } else {
            Route::Static
        }
    }
}

} // verus!
