//! Verified building blocks of a Substrate runtime fuzzing harness: the
//! splitting of fuzzer input into extrinsics, and a lightweight transactional
//! key-value store standing in for a runtime's externalities.
pub mod bytemap;
pub mod bytes;
pub mod compact;
pub mod harness;
pub mod input;
pub mod laws;
pub mod model;
pub mod roundtrip;
pub mod storage;

pub use bytemap::ByteMap;
pub use input::{
    Data, ExtrinsicFilter, INITIAL_TIMESTAMP, MAX_BLOCKS_PER_INPUT, MAX_BLOCK_LAPSE,
    MAX_EXTRINSICS_PER_BLOCK, MAX_TIME_FOR_BLOCK,
};
pub use storage::{merge_top_into_base, FuzzingExternalities, RemovalResults, Storage, StorageChild};
