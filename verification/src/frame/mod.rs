//! The frames that travel between two endpoints, and the values that they carry.
pub mod decode;
pub mod serial;
pub mod wire;

use vstd::prelude::*;

verus! {

/// Which fragment of a packet a datagram holds: the fragment's index and that of the last one.
#[derive(Clone, Copy, Debug, PartialEq, Eq, Structural)]
pub struct FragmentId {
    pub id: u16,
    pub last: u16,
}

/// One fragment of a packet.
#[derive(Debug, PartialEq, Eq)]
pub struct Datagram {
    pub sequence_id: u32,
    pub channel_id: u8,
    pub window_parent_lead: u16,
    pub channel_parent_lead: u16,
    pub fragment_id: FragmentId,
    pub data: Box<[u8]>,
}

/// What a `Datagram` holds.
#[verifier::ext_equal]
pub struct DatagramView {
    pub sequence_id: u32,
    pub channel_id: u8,
    pub window_parent_lead: u16,
    pub channel_parent_lead: u16,
    pub fragment_id: FragmentId,
    pub data: Seq<u8>,
}

impl View for Datagram {
    type V = DatagramView;

    open spec fn view(&self) -> DatagramView {
        DatagramView {
            sequence_id: self.sequence_id,
            channel_id: self.channel_id,
            window_parent_lead: self.window_parent_lead,
            channel_parent_lead: self.channel_parent_lead,
            fragment_id: self.fragment_id,
            data: self.data@,
        }
    }
}

/// The acknowledgement of a group of frames.
#[derive(Clone, Copy, Debug, PartialEq, Eq, Structural)]
pub struct FrameAck {
    pub base_id: u32,
    pub bitfield: u32,
    pub nonce: bool,
}

/// A frame that carries datagrams.
#[derive(Debug, PartialEq, Eq)]
pub struct DataFrame {
    pub sequence_id: u32,
    pub nonce: bool,
    pub datagrams: Vec<Datagram>,
}

/// A frame that tells the receiver how far the sender has come.
#[derive(Clone, Copy, Debug, PartialEq, Eq, Structural)]
pub struct SyncFrame {
    pub sequence_id: u32,
    pub nonce: bool,
    pub sender_next_id: u32,
}

/// A frame that carries acknowledgements.
#[derive(Debug, PartialEq, Eq)]
pub struct AckFrame {
    pub receiver_base_id: u32,
    pub frame_acks: Vec<FrameAck>,
}

/// Any frame.
#[derive(Debug, PartialEq, Eq)]
pub enum Frame {
    DataFrame(DataFrame),
    SyncFrame(SyncFrame),
    AckFrame(AckFrame),
}

/// What a `Frame` holds.
#[verifier::ext_equal]
pub enum FrameView {
    Data { sequence_id: u32, nonce: bool, datagrams: Seq<DatagramView> },
    Sync { sequence_id: u32, nonce: bool, sender_next_id: u32 },
    Ack { receiver_base_id: u32, frame_acks: Seq<FrameAck> },
}

/// What each of `datagrams` holds, in the same order.
pub open spec fn datagram_views(datagrams: Seq<Datagram>) -> Seq<DatagramView> {
    datagrams.map_values(|datagram: Datagram| datagram@)
}

impl View for Frame {
    type V = FrameView;

    open spec fn view(&self) -> FrameView {
        match *self {
            Frame::DataFrame(frame) => FrameView::Data {
                sequence_id: frame.sequence_id,
                nonce: frame.nonce,
                datagrams: datagram_views(frame.datagrams@),
            },
            Frame::SyncFrame(frame) => FrameView::Sync {
                sequence_id: frame.sequence_id,
                nonce: frame.nonce,
                sender_next_id: frame.sender_next_id,
            },
            Frame::AckFrame(frame) => FrameView::Ack {
                receiver_base_id: frame.receiver_base_id,
                frame_acks: frame.frame_acks@,
            },
        }
    }
}

} // verus!
