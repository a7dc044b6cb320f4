//! Run-length compression for column storage blocks.
//!
//! A column's values are collapsed into runs of consecutive equal values
//! (or consecutive nulls); only the first value of each run is forwarded to a
//! wrapped plain builder, and a run-count table is prepended to the wrapped
//! payload on finish.

pub mod block_builder;
pub mod byte_buf;
pub mod plain_builders;
pub mod rle_block;
pub mod rle_block_builder;
pub mod runs;
pub mod values;

pub use block_builder::{BlockBuilder, BlockStatistics, BlockStatisticsType};
pub use rle_block::{decode_rle_block, try_decode_rle_block, RLETypeEncode, RLETypeKind};
pub use rle_block_builder::RLEBlockBuilder;
