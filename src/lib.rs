//! Splits a byte buffer into a fixed number of contiguous chunks, names one
//! artifact per chunk, and puts the chunks back together in index order.
pub mod chunk_map;
pub mod error;
pub mod naming;
pub mod outcome;
pub mod plan;
pub mod split;
pub mod types;

pub use chunk_map::{get_final_byte_vec, ChunkMap};
pub use error::ChunkError;
pub use naming::{chunk_artifact_path, get_file_name_from_path, make_folder_path};
pub use outcome::{failed_indices, read_outcome, write_outcome};
pub use plan::{get_byte_split_length, plan, split_bytes, ChunkRange};
pub use split::{file_preprocess, ChunkArtifact, SplitPlan};
pub use types::ByteHandler;
