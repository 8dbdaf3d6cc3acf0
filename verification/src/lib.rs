//! Request framing and decoding for a small HTTP-like server, together with a
//! codec for a JSON-like value language. Every function carries a contract
//! over sequences of characters and bytes.
pub mod text;
pub mod scan;
pub mod json;
pub mod parse;
pub mod render;
pub mod response;
pub mod framer;
pub mod request;
pub mod pool;
pub mod order;
pub mod routes;
pub mod laws;
