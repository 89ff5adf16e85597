//! A minimal HTTP/1.1 server core: a request parser, a router over a fixed
//! set of routes, handlers for each route, and a response codec. The network
//! and filesystem sit outside; the library works on plain bytes and strings.

pub mod handlers;
pub mod http;
pub mod response;
pub mod server;
pub mod text;
