//! EdgeMap core: the decisions of an edge-caching reverse proxy.

pub mod body;
pub mod cache;
pub mod cache_model;
pub mod config;
pub mod pool;
pub mod proxy;
pub mod request;
pub mod text;
