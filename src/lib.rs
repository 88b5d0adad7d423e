//! Locating records in schema-tagged row files kept under an object-store
//! prefix: a path extractor over decoded rows, a row filter, and the
//! decisions of a paginated object listing.

pub mod strutil;
pub mod avro_lens;
pub mod avro_filter;
pub mod listing;
pub mod s3_util;
pub mod http_router;
