//! Run-length encoding of byte buffers that may be cut into windows,
//! encoded window by window, and stitched back together.

pub mod encode;
pub mod error;
pub mod flaws;
pub mod merge;
pub mod plan;
pub mod runs;
pub mod window;
pub mod workers;

pub use crate::encode::{
    encode_files, encode_files_in, encode_files_with, run_encoder, threaded_encode_files,
};
pub use crate::error::EncodeError;
pub use crate::merge::merge_encodings;
pub use crate::plan::{plan_windows, BUFFER_SIZE};
pub use crate::window::{encode_mmap, encode_partial, encode_window};
