//! Rate-1/n binary convolutional codes: encoding against a set of generators,
//! a binary symmetric channel, and sequential decoding with the stack
//! algorithm under the Fano metric.
//!
//! Bits are `u8` values 0 and 1. The Fano metric is kept in fixed point (see
//! [`metric`]), so that every comparison the decoder makes is exact.

pub mod decoder;
pub mod encoder;
pub mod error;
pub mod generators;
pub mod metric;
pub mod noise;
pub mod parse;
pub mod path;
pub mod roundtrip;
pub mod session;
pub mod text;

pub use decoder::{decode, decode_, end_node, remove_final_m};
pub use encoder::{encode, encode_, encode_step, getx};
pub use error::InvalidInput;
pub use generators::Gens;
pub use metric::{FanoWeights, SCALE, WEIGHT_LIMIT};
pub use noise::{apply_noise, create_noise};
pub use parse::{parse_bin, parse_gs};
pub use path::CodePath;
pub use session::{encode_main, run_stack_algo, StackResults};
pub use text::{
    append_before, bin_to_char, format_bin, format_bin_with_error, format_gens, max_len, spacing,
};
