//! Reading Valkey and Redis RDB dump files, and turning them into Arrow batches.

pub mod amounts;
pub mod args;
pub mod batcher;
pub mod batches;
pub mod big;
pub mod bindings;
pub mod builders;
pub mod bytes;
pub mod cells;
pub mod chunks;
pub mod cli_error;
pub mod columns;
pub mod compact;
pub mod compact_text;
pub mod counts;
pub mod crc64;
pub mod decimals;
pub mod detect;
pub mod double;
pub mod entries;
pub mod error;
pub mod export;
pub mod file_text;
pub mod filter;
pub mod geohash;
pub mod intset;
pub mod io;
pub mod labels;
pub mod limits;
pub mod listing;
pub mod listpack;
pub mod locality;
pub mod lzf;
pub mod module_text;
pub mod modules;
pub mod numerals;
pub mod opcodes;
pub mod readback;
pub mod reader;
pub mod refusals;
pub mod rows;
pub mod schema;
pub mod section_text;
pub mod sections;
pub mod stream;
pub mod stream_text;
pub mod streams;
pub mod summarize;
pub mod text;
pub mod types;
pub mod utf8;
pub mod validate;
pub mod value_refusals;
pub mod value_text;
pub mod values;
pub mod wire;
pub mod writer;
pub mod ziplist;
