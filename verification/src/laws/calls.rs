//! What the function is called with that takes the frames.
use super::acks::all_acks;
use super::acks::law_ack_frames_fit;
use super::acks::law_ack_size_is_total;
use super::acks::law_acks_in_order;
use super::acks::total_ack_size;
use super::data::law_frames_are_logged;
use super::data::law_frames_fit;
use super::data::law_size_is_total;
use super::data::total_size;
use super::frames::law_ack_frames_are_read_back;
use super::frames::law_data_frames_are_read_back;
use super::frames::reads_as;
use super::induction::state_wf;
use super::queues::law_ids_differ;
use crate::emission::ack_emission;
use crate::emission::data_emission;
use crate::emission::resend_times_fit;
use crate::emission::EmitterView;
use crate::emit_frame::accepts_acks;
use crate::emit_frame::accepts_all;
use crate::emit_frame::accepts_sync;
use crate::emit_frame::ack_frames;
use crate::emit_frame::acks_handed_over;
use crate::emit_frame::calls_with_acks;
use crate::emit_frame::calls_with_frames;
use crate::emit_frame::contents;
use crate::emit_frame::handed_over_all;
use crate::emit_frame::plans;
use crate::emit_frame::FrameEmitter;
use crate::frame::serial::DataFrameBuilder;
use crate::frame::serial::DataFramePlan;
use crate::frame::wire::ack_frame_bytes;
use crate::frame::wire::data_frame_bytes;
use crate::frame::wire::sync_frame_bytes;
use crate::frame::FrameAck;
use crate::frame::FrameView;
use crate::frame_log::id_after;
use crate::nonce::is_drawn;
use crate::MAX_TRANSFER_UNIT;
use vstd::prelude::*;

verus! {

/// The total length of the frames with which the calls `made` were made.
pub open spec fn total_handed(made: Seq<(Box<[u8]>, u32, bool)>) -> int
    decreases made.len(),
{
    if made.len() == 0 {
        0
    } else {
        total_handed(made.drop_last()) + made.last().0@.len()
    }
}

/// The total length of the ack frames with which the calls `made` were made.
pub open spec fn total_acks_handed(made: Seq<Box<[u8]>>) -> int
    decreases made.len(),
{
    if made.len() == 0 {
        0
    } else {
        total_acks_handed(made.drop_last()) + made.last()@.len()
    }
}

proof fn lemma_total_handed(made: Seq<(Box<[u8]>, u32, bool)>, sent: Seq<DataFramePlan>)
    requires
        calls_with_frames(made, sent),
    ensures
        total_handed(made) == total_size(sent),
    decreases made.len(),
{
    if made.len() > 0 {
        let last = made.len() - 1;
        let less = made.drop_last();
        assert forall|i: int| 0 <= i < less.len() implies (#[trigger] less[i]).0@
            == data_frame_bytes(
            sent.drop_last()[i].sequence_id,
            less[i].2,
            sent.drop_last()[i].datagrams,
        ) && less[i].1 == sent.drop_last()[i].sequence_id && is_drawn(less[i].2) by {
            assert(less[i] == made[i]);
        }
        lemma_total_handed(less, sent.drop_last());
        crate::frame::serial::lemma_datagrams_bytes_len(sent.last().datagrams);
        assert(made[last].0@ == data_frame_bytes(
            sent[last].sequence_id,
            made[last].2,
            sent[last].datagrams,
        ));
    }
}

/// The calls with the data frames of an emission hand over as many bytes as are given as sent, at
/// most as many as may be sent, and at most a transfer unit at a time. The calls have consecutive
/// IDs, from that of the next frame on: no frame is handed over twice. Whoever gets the bytes of a
/// call reads its ID and its nonce in them, and the datagrams of the frame.
pub proof fn law_data_calls_add_up(
    state: EmitterView,
    now_ms: u64,
    rtt_ms: u64,
    max_send_size: usize,
    made: Seq<(Box<[u8]>, u32, bool)>,
)
    requires
        state_wf(state),
        calls_with_frames(
            made,
            data_emission(state, now_ms, rtt_ms, max_send_size).emission.sent,
        ),
    ensures
        ({
            let end = data_emission(state, now_ms, rtt_ms, max_send_size).emission;
            let logged = state.log.frames.len();
            &&& total_handed(made) == max_send_size - end.budget
            &&& total_handed(made) <= max_send_size
            &&& made.len() == end.state.log.frames.len() - logged
            &&& forall|i: int|
                0 <= i < made.len() ==> {
                    &&& 0 < (#[trigger] made[i]).0@.len() <= MAX_TRANSFER_UNIT
                    &&& made[i].1 == id_after(state.log.base_id, logged + i)
                    &&& reads_as(
                        made[i].0@,
                        FrameView::Data {
                            sequence_id: made[i].1,
                            nonce: made[i].2,
                            datagrams: end.sent[i].datagrams,
                        },
                    )
                }
            &&& forall|i: int, j: int|
                0 <= i < j < made.len() ==> (#[trigger] made[i]).1 != (#[trigger] made[j]).1
        }),
{
    let end = data_emission(state, now_ms, rtt_ms, max_send_size).emission;
    let logged = state.log.frames.len();
    law_frames_fit(state, now_ms, rtt_ms, max_send_size);
    law_size_is_total(state, now_ms, rtt_ms, max_send_size);
    law_frames_are_logged(state, now_ms, rtt_ms, max_send_size);
    lemma_total_handed(made, end.sent);
    assert forall|i: int| 0 <= i < made.len() implies {
        &&& 0 < (#[trigger] made[i]).0@.len() <= MAX_TRANSFER_UNIT
        &&& made[i].1 == id_after(state.log.base_id, logged + i)
        &&& reads_as(
            made[i].0@,
            FrameView::Data {
                sequence_id: made[i].1,
                nonce: made[i].2,
                datagrams: end.sent[i].datagrams,
            },
        )
    } by {
        law_data_frames_are_read_back(state, now_ms, rtt_ms, max_send_size, i, made[i].2);
        assert(end.sent[i].sequence_id == id_after(state.log.base_id, logged + i));
        crate::frame::serial::lemma_datagrams_bytes_len(end.sent[i].datagrams);
        let bytes = data_frame_bytes(
            end.sent[i].sequence_id,
            made[i].2,
            end.sent[i].datagrams,
        );
        assert(bytes.len() <= MAX_TRANSFER_UNIT);
    }
    assert forall|i: int, j: int| 0 <= i < j < made.len() implies (#[trigger] made[i]).1 != (
    #[trigger] made[j]).1 by {
        law_ids_differ(state.log.base_id, logged + i, logged + j);
    }
}

proof fn lemma_total_acks_handed(
    made: Seq<Box<[u8]>>,
    receiver_base_id: u32,
    sent: Seq<Seq<FrameAck>>,
)
    requires
        calls_with_acks(made, receiver_base_id, sent),
    ensures
        total_acks_handed(made) == total_ack_size(sent),
    decreases made.len(),
{
    if made.len() > 0 {
        let last = made.len() - 1;
        let less = made.drop_last();
        assert forall|i: int| 0 <= i < less.len() implies (#[trigger] less[i])@ == ack_frame_bytes(
            receiver_base_id,
            sent.drop_last()[i],
        ) by {
            assert(less[i] == made[i]);
        }
        lemma_total_acks_handed(less, receiver_base_id, sent.drop_last());
        crate::frame::serial::lemma_frame_acks_bytes_len(sent.last());
        assert(made[last]@ == ack_frame_bytes(receiver_base_id, sent[last]));
    }
}

/// The calls with the ack frames of an emission hand over as many bytes as are given as sent, at
/// most as many as may be sent, and at most a transfer unit at a time. Whoever gets their bytes
/// reads the acknowledgements `read` in them, call by call: these are the acknowledgements that
/// were queued, each once and in order, but for those that are left.
pub proof fn law_ack_calls_add_up(
    receiver_base_id: u32,
    queue: Seq<FrameAck>,
    max_send_size: usize,
    made: Seq<Box<[u8]>>,
    read: Seq<Seq<FrameAck>>,
)
    requires
        calls_with_acks(
            made,
            receiver_base_id,
            ack_emission(queue, max_send_size).emission.sent,
        ),
        read.len() == made.len(),
        forall|i: int|
            0 <= i < made.len() ==> reads_as(
                (#[trigger] made[i])@,
                FrameView::Ack { receiver_base_id, frame_acks: read[i] },
            ),
    ensures
        ({
            let end = ack_emission(queue, max_send_size).emission;
            &&& total_acks_handed(made) == max_send_size - end.budget
            &&& total_acks_handed(made) <= max_send_size
            &&& forall|i: int|
                0 <= i < made.len() ==> 0 < (#[trigger] made[i])@.len() <= MAX_TRANSFER_UNIT
                    && read[i].len() > 0
            &&& all_acks(read) + end.queue == queue
        }),
{
    let end = ack_emission(queue, max_send_size).emission;
    law_ack_frames_fit(receiver_base_id, queue, max_send_size);
    law_ack_size_is_total(queue, max_send_size);
    law_acks_in_order(queue, max_send_size);
    lemma_total_acks_handed(made, receiver_base_id, end.sent);
    assert forall|i: int| 0 <= i < made.len() implies #[trigger] read[i] == end.sent[i] by {
        law_ack_frames_are_read_back(receiver_base_id, queue, max_send_size, i);
        assert(made[i]@ == ack_frame_bytes(receiver_base_id, end.sent[i]));
        let frame = FrameView::Ack { receiver_base_id, frame_acks: read[i] };
        let other = FrameView::Ack { receiver_base_id, frame_acks: end.sent[i] };
        assert(reads_as(made[i]@, frame));
        assert(crate::frame::wire::frame_bytes(other) == made[i]@);
        assert(other == frame);
    }
    assert(read =~= end.sent);
    assert forall|i: int| 0 <= i < made.len() implies 0 < (#[trigger] made[i])@.len()
        <= MAX_TRANSFER_UNIT && read[i].len() > 0 by {
        assert(read[i] == end.sent[i]);
        assert(super::acks::acks_fit(end.sent[i]));
    }
}

/// Each of the ack frames with which calls were made can be read, so that the above applies to all.
pub proof fn law_ack_calls_can_be_read(
    receiver_base_id: u32,
    queue: Seq<FrameAck>,
    max_send_size: usize,
    made: Seq<Box<[u8]>>,
)
    requires
        calls_with_acks(
            made,
            receiver_base_id,
            ack_emission(queue, max_send_size).emission.sent,
        ),
    ensures
        exists|read: Seq<Seq<FrameAck>>| #![trigger read.len()]
            read.len() == made.len() && forall|i: int|
                0 <= i < made.len() ==> reads_as(
                    (#[trigger] made[i])@,
                    FrameView::Ack { receiver_base_id, frame_acks: read[i] },
                ),
{
    let read = ack_emission(queue, max_send_size).emission.sent;
    assert forall|i: int| 0 <= i < made.len() implies reads_as(
        (#[trigger] made[i])@,
        FrameView::Ack { receiver_base_id, frame_acks: read[i] },
    ) by {
        law_ack_frames_are_read_back(receiver_base_id, queue, max_send_size, i);
    }
    assert(read.len() == made.len());
}

/// What is said to have been handed over has been handed over frame by frame, with its ID.
pub proof fn law_handed_over_is_each_frame<F: FnMut(Box<[u8]>, u32, bool)>(
    f: F,
    sent: Seq<DataFramePlan>,
    nonces: Seq<bool>,
    index: int,
)
    requires
        handed_over_all(f, sent, nonces),
        0 <= index < sent.len(),
    ensures
        nonces.len() == sent.len(),
        exists|data: Box<[u8]>|
            data@ == data_frame_bytes(
                sent[index].sequence_id,
                nonces[index],
                sent[index].datagrams,
            ) && #[trigger] call_ensures(f, (data, sent[index].sequence_id, nonces[index]), ()),
{
    assert(crate::emit_frame::handed_over(
        f,
        data_frame_bytes(sent[index].sequence_id, nonces[index], sent[index].datagrams),
        sent[index].sequence_id,
        nonces[index],
    ));
}

/// What is said to have been handed over of acknowledgements has been handed over frame by frame.
pub proof fn law_acks_handed_over_is_each_frame<F: FnMut(Box<[u8]>)>(
    f: F,
    receiver_base_id: u32,
    sent: Seq<Seq<FrameAck>>,
    index: int,
)
    requires
        acks_handed_over(f, receiver_base_id, sent),
        0 <= index < sent.len(),
    ensures
        exists|data: Box<[u8]>|
            data@ == ack_frame_bytes(receiver_base_id, sent[index]) && #[trigger] call_ensures(
                f,
                (data,),
                (),
            ),
{
    assert(crate::emit_frame::ack_handed_over(f, ack_frame_bytes(receiver_base_id, sent[index])));
}

/// Frames that are put together are given one by one, and in the same order.
pub proof fn law_assembled_is_each_frame(
    builders: Seq<DataFrameBuilder>,
    boxes: Seq<Box<[u8]>>,
    receiver_base_id: u32,
    sent: Seq<Seq<FrameAck>>,
)
    ensures
        plans(builders).len() == builders.len(),
        forall|i: int| 0 <= i < builders.len() ==> #[trigger] plans(builders)[i] == builders[i]@,
        contents(boxes) == ack_frames(receiver_base_id, sent) ==> calls_with_acks(
            boxes,
            receiver_base_id,
            sent,
        ),
{
    if contents(boxes) == ack_frames(receiver_base_id, sent) {
        assert(contents(boxes).len() == boxes.len());
        assert(ack_frames(receiver_base_id, sent).len() == sent.len());
        assert forall|i: int| 0 <= i < boxes.len() implies (#[trigger] boxes[i])@
            == ack_frame_bytes(receiver_base_id, sent[i]) by {
            assert(contents(boxes)[i] == ack_frames(receiver_base_id, sent)[i]);
        }
    }
}

/// A function that accepts each of the data frames, with its ID and any nonce, can take them: it
/// need accept no other call, and none where no frame is sent.
pub proof fn law_only_the_frames_need_be_accepted<F: FnMut(Box<[u8]>, u32, bool)>(
    f: F,
    sent: Seq<DataFramePlan>,
)
    requires
        forall|i: int, data: Box<[u8]>, nonce: bool|
            0 <= i < sent.len() && data@ == data_frame_bytes(
                sent[i].sequence_id,
                nonce,
                sent[i].datagrams,
            ) ==> #[trigger] call_requires(f, (data, sent[i].sequence_id, nonce)),
    ensures
        accepts_all(f, sent),
{
}

/// A function that accepts the sync frame, with its ID and any nonce, can take it: it need accept
/// no other call.
pub proof fn law_only_the_sync_frame_need_be_accepted<F: FnMut(Box<[u8]>, u32, bool)>(
    f: F,
    id: u32,
    sender_next_id: u32,
)
    requires
        forall|data: Box<[u8]>, nonce: bool|
            data@ == sync_frame_bytes(id, nonce, sender_next_id) ==> #[trigger] call_requires(
                f,
                (data, id, nonce),
            ),
    ensures
        accepts_sync(f, id, sender_next_id),
{
}

/// A function that accepts each of the ack frames can take them: it need accept no other call, and
/// none where no frame is sent.
pub proof fn law_only_the_ack_frames_need_be_accepted<F: FnMut(Box<[u8]>)>(
    f: F,
    receiver_base_id: u32,
    sent: Seq<Seq<FrameAck>>,
)
    requires
        forall|i: int, data: Box<[u8]>|
            0 <= i < sent.len() && data@ == #[trigger] ack_frame_bytes(receiver_base_id, sent[i])
                ==> #[trigger] call_requires(f, (data,)),
    ensures
        accepts_acks(f, receiver_base_id, sent),
{
}

/// Data frames can be sent whenever four round-trip times from now can still be represented.
pub proof fn law_times_fit_unless_too_late(
    state: EmitterView,
    now_ms: u64,
    rtt_ms: u64,
    max_send_size: usize,
)
    requires
        now_ms + 4 * rtt_ms <= u64::MAX,
    ensures
        resend_times_fit(state, now_ms, rtt_ms, max_send_size),
{
}

/// Whatever holds of every well-formed state holds of what a well-formed emitter draws on: its
/// datagrams fit in frames, those that are to be sent again are in the order of their times, and no
/// more frames and packets are in flight than may be.
pub proof fn law_emitters_are_covered(emitter: &FrameEmitter)
    requires
        emitter.wf(),
    ensures
        state_wf(emitter@),
        emitter@.sender.within_limits(),
        emitter@.log.frames.len() <= 16384,
        forall|i: int, j: int|
            0 <= i <= j < emitter@.resends.entries.len() ==> (
            #[trigger] emitter@.resends.entries[i]).resend_time <= (
            #[trigger] emitter@.resends.entries[j]).resend_time,
{
}

} // verus!
