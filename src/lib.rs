//! A small static-file HTTP server core: request parsing, path resolution,
//! directory listings and response framing, all over plain values. The
//! filesystem and the network stay with the caller, who hands their
//! answers in and sends the bytes that come out.

pub mod config;
pub mod framing;
pub mod listing;
pub mod mime;
pub mod paths;
pub mod request;
pub mod response;
pub mod server;
pub mod text;

pub use config::MissingSourceDirectoryError;
pub use paths::validate_path;
pub use request::{HttpRequest, ParseHttpRequestError, StreamTrait};
