//! A verified core for an MCP server over EVE Online's Static Data Export: the
//! JSONL scanners and record extractors, the build-number and path rules of the
//! downloader, and the planning algorithms (routes, skill plans, production
//! chains, the Type selector) that the server's tools answer with.

pub mod text;
pub mod store;
pub mod download;
pub mod config;
pub mod scan;
pub mod map;
pub mod manufacturing;
pub mod skills_merge;
pub mod chain;
pub mod params;
pub mod router;
pub mod skills;
pub mod guidance;
pub mod dogma;
pub mod types;
pub mod names;
pub mod ingest;
pub mod search;
pub mod market;
pub mod json;
