//! An HTTP/1.1 request pipeline: framing a header block out of a byte stream
//! read in chunks of any size, reading a length-bounded body, parsing the
//! request line, headers, query and body (URL-encoded or multipart), and
//! serializing responses.

pub mod constant;
pub mod error;
pub mod fields;
pub mod handler;
pub mod request;
pub mod response;
pub mod router;
pub mod server;
pub mod text;
pub mod utils;
