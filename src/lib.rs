pub mod path;
pub mod http;
pub mod session;
pub mod router;
pub mod server;
