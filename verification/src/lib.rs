//! A verified route-compilation and matching engine for an OpenAPI path
//! filter: it turns a declarative service/path configuration into an
//! immutable routing structure and resolves each request (host, method,
//! path) to the declared path template and owning service, with an
//! optional least-recently-used lookup cache.

pub mod cache;
pub mod compile;
pub mod config;
pub mod engine;
pub mod expand;
pub mod host;
pub mod normalize;
pub mod router;
pub mod table;
pub mod text;
