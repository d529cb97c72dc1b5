pub mod text;
pub mod string_map;
pub mod error;
pub mod request;
pub mod compression;
pub mod response;
pub mod router;
pub mod handler;
pub mod header_block;
pub mod http2;
pub mod http3;
pub mod buffer;
pub mod connection;
pub mod tls;
