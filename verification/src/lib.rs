//! A local HTTP-library service for an EDA tool: CSV-backed component
//! catalogs, YAML schemas with single-parent inheritance, a persistent
//! project registry, a token-addressed request router, and a discovery
//! engine that keeps the live set of libraries in sync with the machine.
//!
//! Every function here works on plain values; reading and writing files,
//! sockets and processes is left to the surrounding binary.
pub mod auth;
pub mod csvfmt;
pub mod discovery;
pub mod kicadlib;
pub mod library;
pub mod misc;
pub mod models;
pub mod project;
pub mod registry;
pub mod rowmap;
pub mod routes;
pub mod scanner;
pub mod schema;
pub mod store;
pub mod text;
pub mod validate;
pub mod watcher;
