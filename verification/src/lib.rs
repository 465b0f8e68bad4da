//! A verified core for a small single-process HTTP site server: request
//! parsing, response serialization with content negotiation and byte ranges,
//! a bounded job queue with backpressure, and a durable bounded store with
//! approximate least-frequent eviction.
pub mod api;
pub mod assets;
pub mod bytes;
pub mod codec;
pub mod content_types;
pub mod dec;
pub mod dispatch;
pub mod ip;
pub mod json;
pub mod queue;
pub mod request;
pub mod response;
pub mod store;
