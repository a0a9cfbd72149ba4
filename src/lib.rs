//! VSTP: a binary, extensible application-layer message protocol.
//!
//! The library holds the frame codec, the datagram fragmenter and
//! reassembler, and the acknowledgement rules, each with a verified contract.
use vstd::prelude::*;

pub mod decimal;
pub mod fragment;
pub mod frame;
pub mod reassembly;
pub mod types;
pub mod udp;

pub use frame::{decode_frame, encode_frame, try_decode_frame};
pub use types::{Flags, Frame, FrameType, Header, SessionId, VstpError, VSTP_VERSION};
pub use udp::UdpServerConfig;

verus! {

} // verus!
