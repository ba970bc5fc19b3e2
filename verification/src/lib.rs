pub mod file;
pub mod flags;
pub mod grpc;
pub mod http;
pub mod number;
pub mod order;
pub mod path;
pub mod server;
