//! A learned index: exact key-to-position lookup through arena-addressed
//! B-trees, one per bucket, with a numeric predictor choosing the bucket.

pub mod btree;
pub mod config;
pub mod forwarding_model;
pub mod laws;
pub mod model;
pub mod neural;
pub mod order;
pub mod shape;
mod shape_lemmas;
