use vstd::prelude::*;

verus! {

pub const APPLICATION_X_WWW_FORM_URLENCODED: &'static str = "application/x-www-form-urlencoded";

pub const MULTIPART_FORM_DATA: &'static str = "multipart/form-data";

pub const APPLICATION_JSON: &'static str = "application/json";

pub const APPLICATION_OCTET_STREAM: &'static str = "application-octet-stream";

pub const TEXT_HTML: &'static str = "text/html";

pub const TEXT_CSS: &'static str = "text/css";

pub const TEXT_JAVASCRIPT: &'static str = "text/javascript";

pub const TEXT_PLAIN: &'static str = "text/plain";

} // verus!
