//! How frames are laid out in bytes. Integers are big-endian; a `bool` is one byte, 0 or 1.
//!
//! A data frame is its tag, its sequence ID, its nonce, the number of its datagrams (two bytes)
//! and the datagrams; a sync frame is its tag, its sequence ID, its nonce and the sender's next
//! ID; an ack frame is its tag, the receiver's base ID, the number of its acknowledgements (two
//! bytes) and the acknowledgements.
use super::DatagramView;
use super::FrameAck;
use super::FrameView;
use vstd::prelude::*;

verus! {

/// The first byte of a data frame.
pub const DATA_FRAME_TAG: u8 = 1;

/// The first byte of a sync frame.
pub const SYNC_FRAME_TAG: u8 = 2;

/// The first byte of an ack frame.
pub const ACK_FRAME_TAG: u8 = 3;

/// The bytes of a data frame before its first datagram.
pub const DATA_FRAME_HEADER_SIZE: usize = 8;

/// The bytes of an encoded datagram before its data.
pub const DATAGRAM_HEADER_SIZE: usize = 15;

/// The bytes of a sync frame.
pub const SYNC_FRAME_SIZE: usize = 10;

/// The bytes of an ack frame before its first acknowledgement.
pub const ACK_FRAME_HEADER_SIZE: usize = 7;

/// The bytes of an encoded acknowledgement.
pub const FRAME_ACK_SIZE: usize = 9;

pub open spec fn bool_byte(b: bool) -> u8 {
    if b {
        1
    } else {
        0
    }
}

pub open spec fn u16_bytes(x: u16) -> Seq<u8> {
    seq![(x / 0x100) as u8, (x % 0x100) as u8]
}

pub open spec fn u32_bytes(x: u32) -> Seq<u8> {
    seq![
        (x / 0x100_0000) as u8,
        (x / 0x1_0000 % 0x100) as u8,
        (x / 0x100 % 0x100) as u8,
        (x % 0x100) as u8,
    ]
}

/// The integer whose two bytes stand in `bytes` at `at`.
pub open spec fn u16_at(bytes: Seq<u8>, at: int) -> u16 {
    (bytes[at] * 0x100 + bytes[at + 1]) as u16
}

/// The integer whose four bytes stand in `bytes` at `at`.
pub open spec fn u32_at(bytes: Seq<u8>, at: int) -> u32 {
    (bytes[at] * 0x100_0000 + bytes[at + 1] * 0x1_0000 + bytes[at + 2] * 0x100 + bytes[at
        + 3]) as u32
}

/// The bytes of `datagram`.
pub open spec fn datagram_bytes(datagram: DatagramView) -> Seq<u8> {
    u32_bytes(datagram.sequence_id) + seq![datagram.channel_id] + u16_bytes(
        datagram.window_parent_lead,
    ) + u16_bytes(datagram.channel_parent_lead) + u16_bytes(datagram.fragment_id.id) + u16_bytes(
        datagram.fragment_id.last,
    ) + u16_bytes(datagram.data.len() as u16) + datagram.data
}

/// The bytes of `datagrams`, one after the other.
pub open spec fn datagrams_bytes(datagrams: Seq<DatagramView>) -> Seq<u8>
    decreases datagrams.len(),
{
    if datagrams.len() == 0 {
        Seq::empty()
    } else {
        datagrams_bytes(datagrams.drop_last()) + datagram_bytes(datagrams.last())
    }
}

/// The bytes of `ack`.
pub open spec fn frame_ack_bytes(ack: FrameAck) -> Seq<u8> {
    u32_bytes(ack.base_id) + u32_bytes(ack.bitfield) + seq![bool_byte(ack.nonce)]
}

/// The bytes of `acks`, one after the other.
pub open spec fn frame_acks_bytes(acks: Seq<FrameAck>) -> Seq<u8>
    decreases acks.len(),
{
    if acks.len() == 0 {
        Seq::empty()
    } else {
        frame_acks_bytes(acks.drop_last()) + frame_ack_bytes(acks.last())
    }
}

/// The bytes of a data frame.
pub open spec fn data_frame_bytes(
    sequence_id: u32,
    nonce: bool,
    datagrams: Seq<DatagramView>,
) -> Seq<u8> {
    seq![DATA_FRAME_TAG] + u32_bytes(sequence_id) + seq![bool_byte(nonce)] + u16_bytes(
        datagrams.len() as u16,
    ) + datagrams_bytes(datagrams)
}

/// The bytes of a sync frame.
pub open spec fn sync_frame_bytes(sequence_id: u32, nonce: bool, sender_next_id: u32) -> Seq<u8> {
    seq![SYNC_FRAME_TAG] + u32_bytes(sequence_id) + seq![bool_byte(nonce)] + u32_bytes(
        sender_next_id,
    )
}

/// The bytes of an ack frame.
pub open spec fn ack_frame_bytes(receiver_base_id: u32, acks: Seq<FrameAck>) -> Seq<u8> {
    seq![ACK_FRAME_TAG] + u32_bytes(receiver_base_id) + u16_bytes(acks.len() as u16)
        + frame_acks_bytes(acks)
}

/// The bytes of any frame.
pub open spec fn frame_bytes(frame: FrameView) -> Seq<u8> {
    match frame {
        FrameView::Data { sequence_id, nonce, datagrams } => data_frame_bytes(
            sequence_id,
            nonce,
            datagrams,
        ),
        FrameView::Sync { sequence_id, nonce, sender_next_id } => sync_frame_bytes(
            sequence_id,
            nonce,
            sender_next_id,
        ),
        FrameView::Ack { receiver_base_id, frame_acks } => ack_frame_bytes(
            receiver_base_id,
            frame_acks,
        ),
    }
}

/// Whether the length of each datagram's data fits in its two bytes.
pub open spec fn datagrams_encodable(datagrams: Seq<DatagramView>) -> bool {
    forall|i: int|
        0 <= i < datagrams.len() ==> (#[trigger] datagrams[i]).data.len() <= u16::MAX
}

/// Whether all counts and lengths of `frame` fit in the two bytes that each of them has.
pub open spec fn frame_encodable(frame: FrameView) -> bool {
    match frame {
        FrameView::Data { datagrams, .. } => datagrams.len() <= u16::MAX && datagrams_encodable(
            datagrams,
        ),
        FrameView::Sync { .. } => true,
        FrameView::Ack { frame_acks, .. } => frame_acks.len() <= u16::MAX,
    }
}

/// The length of `datagram`'s bytes.
pub open spec fn datagram_size(datagram: DatagramView) -> int {
    DATAGRAM_HEADER_SIZE + datagram.data.len()
}

/// The length of the bytes of `datagrams`.
pub open spec fn datagrams_size(datagrams: Seq<DatagramView>) -> int
    decreases datagrams.len(),
{
    if datagrams.len() == 0 {
        0
    } else {
        datagrams_size(datagrams.drop_last()) + datagram_size(datagrams.last())
    }
}

/// The length of a data frame with `datagrams`.
pub open spec fn data_frame_size(datagrams: Seq<DatagramView>) -> int {
    DATA_FRAME_HEADER_SIZE + datagrams_size(datagrams)
}

/// The length of an ack frame with `count` acknowledgements.
pub open spec fn ack_frame_size(count: nat) -> int {
    ACK_FRAME_HEADER_SIZE + FRAME_ACK_SIZE * count
}

/// An integer and its four bytes determine each other.
proof fn lemma_u32_digits(x: u32, a: u8, b: u8, c: u8, d: u8)
    ensures
        (a == (x / 0x100_0000) as u8 && b == (x / 0x1_0000 % 0x100) as u8 && c == (x / 0x100
            % 0x100) as u8 && d == (x % 0x100) as u8) <==> a * 0x100_0000 + b * 0x1_0000 + c * 0x100
            + d == x,
{
    let y = x / 0x100;
    let z = x / 0x1_0000;
    assert(x == 0x100 * y + x % 0x100);
    assert(z == y / 0x100);
    assert(y == 0x100 * z + y % 0x100);
    assert(x / 0x100_0000 == z / 0x100);
    assert(z == 0x100 * (z / 0x100) + z % 0x100);
    if a * 0x100_0000 + b * 0x1_0000 + c * 0x100 + d == x {
        assert(y == a * 0x1_0000 + b * 0x100 + c);
        assert(z == a * 0x100 + b);
    }
}

pub proof fn lemma_u16_at(bytes: Seq<u8>, at: int, x: u16)
    requires
        0 <= at,
        at + 2 <= bytes.len(),
    ensures
        bytes.subrange(at, at + 2) == u16_bytes(x) <==> u16_at(bytes, at) == x,
{
    let part = bytes.subrange(at, at + 2);
    assert(part[0] == bytes[at] && part[1] == bytes[at + 1]);
    if part == u16_bytes(x) {
        assert(part[0] == (x / 0x100) as u8 && part[1] == (x % 0x100) as u8);
    }
    if u16_at(bytes, at) == x {
        assert(part =~= u16_bytes(x));
    }
}

pub proof fn lemma_u32_at(bytes: Seq<u8>, at: int, x: u32)
    requires
        0 <= at,
        at + 4 <= bytes.len(),
    ensures
        bytes.subrange(at, at + 4) == u32_bytes(x) <==> u32_at(bytes, at) == x,
{
    let part = bytes.subrange(at, at + 4);
    assert(part[0] == bytes[at] && part[1] == bytes[at + 1]);
    assert(part[2] == bytes[at + 2] && part[3] == bytes[at + 3]);
    lemma_u32_digits(x, bytes[at], bytes[at + 1], bytes[at + 2], bytes[at + 3]);
    if part == u32_bytes(x) {
        assert(part[0] == (x / 0x100_0000) as u8 && part[1] == (x / 0x1_0000 % 0x100) as u8);
        assert(part[2] == (x / 0x100 % 0x100) as u8 && part[3] == (x % 0x100) as u8);
    }
    if u32_at(bytes, at) == x {
        assert(part =~= u32_bytes(x));
    }
}

} // verus!
