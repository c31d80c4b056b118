//! A verified core for a small web-search engine: WET-archive parsing,
//! token canonicalization, sharded binary index and URL stores with
//! jump tables, an ingest accumulator, a query pipeline, and the
//! shard-merge ("optimize") protocol.
pub mod canon;
pub mod codec;
pub mod errors;
pub mod index_shard;
pub mod lang;
pub mod order;
pub mod pipeline;
pub mod optimize;
pub mod query;
pub mod store;
pub mod url_shard;
pub mod wet;
pub mod catalog;
