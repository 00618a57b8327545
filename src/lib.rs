pub mod error;
pub mod text;
pub mod parse;
pub mod routes;
pub mod scan;
pub mod idempotence;
