//! Frame emission for a datagram transport: packets are cut into datagrams, datagrams are packed
//! into frames no larger than a transfer unit, and those that must arrive are sent again, with a
//! growing delay, until they are acknowledged.
mod boxed;
pub mod datagram_queue;
pub mod emission;
pub mod emit_frame;
pub mod frame;
pub mod frame_ack_queue;
pub mod frame_log;
pub mod laws;
pub mod handover;
pub mod nonce;
pub mod packet_sender;
pub mod resend_queue;

use frame::wire::DATAGRAM_HEADER_SIZE;
use frame::wire::DATA_FRAME_HEADER_SIZE;
use vstd::prelude::*;

verus! {

/// The largest frame handed to the network, in bytes.
pub const MAX_TRANSFER_UNIT: usize = 1472;

/// The most data bytes of one datagram: a data frame with a single such datagram is exactly
/// `MAX_TRANSFER_UNIT` bytes long.
pub const MAX_FRAGMENT_SIZE: usize = MAX_TRANSFER_UNIT - DATA_FRAME_HEADER_SIZE
    - DATAGRAM_HEADER_SIZE;

/// The most frames that may await an acknowledgement.
pub const MAX_FRAME_TRANSFER_WINDOW_SIZE: u32 = 16384;

/// The most packets that may await an acknowledgement.
pub const MAX_PACKET_TRANSFER_WINDOW_SIZE: u32 = 4096;

/// The most data bytes of one packet: as many full fragments as two bytes can count.
pub const MAX_PACKET_SIZE: usize = 0x1_0000 * MAX_FRAGMENT_SIZE;

/// What becomes of a packet whose frames get lost.
#[derive(Clone, Copy, Debug, PartialEq, Eq, Structural)]
pub enum SendMode {
    /// It is sent once.
    Unreliable,
    /// It is sent until it has been acknowledged.
    Resend,
}

} // verus!
