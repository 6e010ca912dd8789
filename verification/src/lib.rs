//! Templated-path parsing and substitution for configured HTTP endpoints,
//! together with a layered credential-inheritance resolver.
//!
//! The library is pure: it consumes project, environment, and endpoint
//! descriptions plus runtime substitution values, and produces either a
//! ready-to-use path string or a typed error. Reading configuration files,
//! issuing requests, and redeeming credentials are the caller's business.

pub mod config;
pub mod hit;
pub mod parse;
pub mod project;
