pub mod connection;
pub mod headers;
pub mod health;
pub mod message;
pub mod number;
pub mod parser;
pub mod rate_limit;
pub mod request;
pub mod response;
pub mod stream;
pub mod syntax;
pub mod upstream;
