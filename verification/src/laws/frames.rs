//! Whoever receives a frame reads what was sent.
use super::acks::acks_fit;
use super::acks::law_ack_frames_fit;
use super::data::law_frames_fit;
use super::data::plan_fits;
use super::induction::state_wf;
use crate::datagram_queue::fits_a_frame;
use crate::emission::ack_emission;
use crate::emission::data_emission;
use crate::emission::EmitterView;
use crate::frame::decode::lemma_frame_decodes;
use crate::frame::serial::lemma_datagrams_bytes_len;
use crate::frame::serial::lemma_datagrams_size_bound;
use crate::frame::serial::lemma_datagrams_size_push;
use crate::frame::serial::lemma_frame_acks_bytes_len;
use crate::frame::wire::ack_frame_bytes;
use crate::frame::wire::ack_frame_size;
use crate::frame::wire::data_frame_bytes;
use crate::frame::wire::data_frame_size;
use crate::frame::wire::datagram_size;
use crate::frame::wire::frame_bytes;
use crate::frame::wire::frame_encodable;
use crate::frame::wire::sync_frame_bytes;
use crate::frame::DatagramView;
use crate::frame::FrameAck;
use crate::frame::FrameView;
use crate::MAX_TRANSFER_UNIT;
use vstd::prelude::*;

verus! {

/// Whether `bytes` encode `frame` and no other frame.
pub open spec fn reads_as(bytes: Seq<u8>, frame: FrameView) -> bool {
    &&& frame_encodable(frame)
    &&& frame_bytes(frame) == bytes
    &&& forall|other: FrameView|
        frame_encodable(other) && #[trigger] frame_bytes(other) == bytes ==> other == frame
}

/// The bytes of a frame encode no other frame.
pub proof fn law_frame_is_read_back(frame: FrameView)
    requires
        frame_encodable(frame),
    ensures
        reads_as(frame_bytes(frame), frame),
{
    lemma_frame_decodes(frame);
    assert forall|other: FrameView|
        frame_encodable(other) && #[trigger] frame_bytes(other) == frame_bytes(
            frame,
        ) implies other == frame by {
        lemma_frame_decodes(other);
    }
}

/// Every data frame that is sent is read back, whatever its nonce, with its ID and its datagrams.
pub proof fn law_data_frames_are_read_back(
    state: EmitterView,
    now_ms: u64,
    rtt_ms: u64,
    max_send_size: usize,
    index: int,
    nonce: bool,
)
    requires
        state_wf(state),
        0 <= index < data_emission(state, now_ms, rtt_ms, max_send_size).emission.sent.len(),
    ensures
        ({
            let plan = data_emission(state, now_ms, rtt_ms, max_send_size).emission.sent[index];
            reads_as(
                data_frame_bytes(plan.sequence_id, nonce, plan.datagrams),
                FrameView::Data {
                    sequence_id: plan.sequence_id,
                    nonce,
                    datagrams: plan.datagrams,
                },
            )
        }),
{
    law_frames_fit(state, now_ms, rtt_ms, max_send_size);
    let plan = data_emission(state, now_ms, rtt_ms, max_send_size).emission.sent[index];
    assert(plan_fits(plan));
    lemma_datagrams_size_bound(plan.datagrams);
    law_frame_is_read_back(
        FrameView::Data { sequence_id: plan.sequence_id, nonce, datagrams: plan.datagrams },
    );
}

/// Every sync frame that is sent is read back.
pub proof fn law_sync_frame_is_read_back(sequence_id: u32, nonce: bool, sender_next_id: u32)
    ensures
        reads_as(
            sync_frame_bytes(sequence_id, nonce, sender_next_id),
            FrameView::Sync { sequence_id, nonce, sender_next_id },
        ),
{
    law_frame_is_read_back(FrameView::Sync { sequence_id, nonce, sender_next_id });
}

/// Every ack frame that is sent is read back with its acknowledgements.
pub proof fn law_ack_frames_are_read_back(
    receiver_base_id: u32,
    queue: Seq<FrameAck>,
    max_send_size: usize,
    index: int,
)
    requires
        0 <= index < ack_emission(queue, max_send_size).emission.sent.len(),
    ensures
        ({
            let frame_acks = ack_emission(queue, max_send_size).emission.sent[index];
            reads_as(
                ack_frame_bytes(receiver_base_id, frame_acks),
                FrameView::Ack { receiver_base_id, frame_acks },
            )
        }),
{
    law_ack_frames_fit(receiver_base_id, queue, max_send_size);
    let frame_acks = ack_emission(queue, max_send_size).emission.sent[index];
    assert(acks_fit(frame_acks));
    law_frame_is_read_back(FrameView::Ack { receiver_base_id, frame_acks });
}

/// A frame with at most 65535 datagrams, each with at most 65535 bytes of data, is read back; and
/// so is one with at most 65535 acknowledgements.
pub proof fn law_frames_with_countable_parts_are_read_back(
    id: u32,
    nonce: bool,
    datagrams: Seq<DatagramView>,
    frame_acks: Seq<FrameAck>,
)
    requires
        datagrams.len() <= 65535,
        forall|i: int| 0 <= i < datagrams.len() ==> (#[trigger] datagrams[i]).data.len() <= 65535,
        frame_acks.len() <= 65535,
    ensures
        reads_as(
            data_frame_bytes(id, nonce, datagrams),
            FrameView::Data { sequence_id: id, nonce, datagrams },
        ),
        reads_as(
            ack_frame_bytes(id, frame_acks),
            FrameView::Ack { receiver_base_id: id, frame_acks },
        ),
{
    law_frame_is_read_back(FrameView::Data { sequence_id: id, nonce, datagrams });
    law_frame_is_read_back(FrameView::Ack { receiver_base_id: id, frame_acks });
}

/// Each datagram makes a data frame longer by 15 bytes and its data, and each acknowledgement makes
/// an ack frame longer by 9 bytes; without them they are 8 and 7 bytes long. These are the lengths
/// of their bytes.
pub proof fn law_sizes_are_lengths(
    id: u32,
    nonce: bool,
    datagrams: Seq<DatagramView>,
    datagram: DatagramView,
    frame_acks: Seq<FrameAck>,
)
    ensures
        data_frame_size(Seq::empty()) == 8,
        datagram_size(datagram) == 15 + datagram.data.len(),
        data_frame_size(datagrams.push(datagram)) == data_frame_size(datagrams) + 15
            + datagram.data.len(),
        data_frame_bytes(id, nonce, datagrams).len() == data_frame_size(datagrams),
        ack_frame_size(0) == 7,
        ack_frame_size(frame_acks.len()) == 7 + 9 * frame_acks.len(),
        ack_frame_bytes(id, frame_acks).len() == ack_frame_size(frame_acks.len()),
        fits_a_frame(datagram) <==> 8 + 15 + datagram.data.len() <= MAX_TRANSFER_UNIT,
{
    lemma_datagrams_bytes_len(datagrams);
    lemma_datagrams_size_push(datagrams, datagram);
    lemma_frame_acks_bytes_len(frame_acks);
    assert(crate::frame::wire::datagrams_size(Seq::<DatagramView>::empty()) == 0);
}

} // verus!
