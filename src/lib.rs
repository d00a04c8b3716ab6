//! A layered key-value storage engine: backend limits and key validation, the
//! DynamoDB adapter's request planning, value splitting, journaled batches and
//! a bounded LRU value cache.

pub mod batch;
pub mod bytes;
pub mod dynamo_db;
pub mod errors;
pub mod faucet;
pub mod journaling;
pub mod limits;
pub mod metering;
pub mod random;
pub mod value_cache;
pub mod value_splitting;
