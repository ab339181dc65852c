//! Shared engine for a live HPACK state keeper and an offline capture
//! normalizer.

pub mod addr;
pub mod api;
pub mod bytes;
pub mod capture;
pub mod conn;
pub mod filter;
pub mod frame;
pub mod hpack;
pub mod keymap;
pub mod loadgen;
pub mod pkt;
pub mod ports;
pub mod reassembly;
pub mod rebuild;
pub mod ring;
pub mod snapshot;
pub mod status;
pub mod text;
pub mod tracker;

pub use conn::{BlockKind, DecodedBlock, Direction, ProcessedFrame};
pub use frame::{FrameHeader, FrameType};
pub use hpack::{Decoder, Field, HpackError};
pub use reassembly::Reassembler;
