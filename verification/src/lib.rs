//! A durable store-and-forward relay core: framed `Add`/`Take` requests,
//! a prefix-scannable key-value store model, and the publish-tracking
//! rules that decide what a `Take` delivers.
pub mod codec;
pub mod laws;
pub mod model;
pub mod processor;
pub mod repo;
pub mod session;
pub mod store;
