//! Order keys that always leave room for one more key, and a two-stage
//! admission limiter for inbound requests.

pub mod db;
pub mod rate_limit;
pub mod routes;
pub mod service;
pub mod sortid;
