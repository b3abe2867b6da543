//! Durapack: a self-locating, hash-linked framing format for damaged media.
//!
//! The crate encodes and decodes frames, scans damaged byte streams for
//! frames, rebuilds the logical timeline from the frames that survived, and
//! protects blocks of frames with Reed-Solomon parity.

pub mod audit;
pub mod buffer;
pub mod chain;
pub mod clusters;
pub mod constants;
pub mod decoder;
pub mod dot;
pub mod encoder;
pub mod error;
pub mod fec;
pub mod fuzz;
pub mod hash;
pub mod index;
pub mod interleave;
pub mod layout;
pub mod linker;
pub mod ordered;
pub mod pack;
pub mod report;
pub mod scanner;
pub mod text;
pub mod types;
pub mod wire;

pub use error::FrameError;
pub use types::{DurapackSerializable, Frame, FrameHeader};
