//! Components that come with the engine.

pub mod flexible_wildcard_processor;
