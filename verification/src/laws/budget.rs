//! What more bytes to send make of an emission.
use super::acks::all_acks;
use crate::emission::ack_emission;
use crate::emission::ack_phase;
use crate::emission::acks_extend;
use crate::emission::both_phases;
use crate::emission::data_emission;
use crate::emission::extends;
use crate::emission::lemma_ack_phase_extends;
use crate::emission::lemma_both_phases_extend;
use crate::emission::lemma_queue_phase_extends;
use crate::emission::queue_phase;
use crate::emission::AckEmission;
use crate::emission::AckOutcome;
use crate::emission::DataEmission;
use crate::emission::DataOutcome;
use crate::emission::EmitterView;
use crate::emission::Room;
use crate::frame::serial::lemma_datagrams_size_push;
use crate::frame::serial::DataFramePlan;
use crate::frame::wire::ack_frame_size;
use crate::frame::wire::data_frame_size;
use crate::frame::wire::FRAME_ACK_SIZE;
use crate::frame::FrameAck;
use crate::MAX_FRAME_TRANSFER_WINDOW_SIZE;
use crate::MAX_TRANSFER_UNIT;
use vstd::prelude::*;

verus! {

/// Whether the frames `more` begin with the frames `less`, the last of which may have further
/// datagrams there.
pub open spec fn begin_with(more: Seq<DataFramePlan>, less: Seq<DataFramePlan>) -> bool {
    let last = less.len() - 1;
    &&& less.len() <= more.len()
    &&& forall|i: int| 0 <= i < last ==> #[trigger] less[i] == more[i]
    &&& less.len() > 0 ==> {
        &&& less[last].sequence_id == more[last].sequence_id
        &&& less[last].datagrams.is_prefix_of(more[last].datagrams)
    }
}

/// `emission` with `extra` more bytes to send.
pub open spec fn with_more(emission: DataEmission, extra: int) -> DataEmission {
    DataEmission { budget: emission.budget + extra, ..emission }
}

/// What becomes of `less` where there are `extra` more bytes to send: its frames are sent, and if
/// it was not stopped for want of bytes, that is all.
pub open spec fn is_less_than(less: DataOutcome, more: DataOutcome, extra: int) -> bool {
    &&& begin_with(more.emission.sent, less.emission.sent)
    &&& !less.size_limited ==> more == (DataOutcome {
        emission: with_more(less.emission, extra),
        size_limited: false,
    })
}

proof fn lemma_begin_with_itself(sent: Seq<DataFramePlan>)
    ensures
        begin_with(sent, sent),
{
    if sent.len() > 0 {
        let datagrams = sent.last().datagrams;
        assert(datagrams =~= datagrams.subrange(0, datagrams.len() as int));
    }
}

proof fn lemma_finish_begins(emission: DataEmission, now_ms: u64, sent: Seq<DataFramePlan>)
    requires
        extends(emission, sent),
    ensures
        begin_with(sent, emission.finish(now_ms).sent),
{
    let less = emission.finish(now_ms).sent;
    let count = emission.sent.len() as int;
    assert forall|i: int| 0 <= i < count implies emission.sent[i] == sent[i] by {
        assert(sent.subrange(0, count)[i] == sent[i]);
    }
    if emission.open.len() == 0 && count > 0 {
        let datagrams = sent[count - 1].datagrams;
        assert(datagrams =~= datagrams.subrange(0, datagrams.len() as int));
    }
}

proof fn lemma_queue_phase_more(emission: DataEmission, now_ms: u64, rtt_ms: u64, extra: int)
    requires
        extra >= 0,
    ensures
        is_less_than(
            queue_phase(emission, now_ms, rtt_ms),
            queue_phase(with_more(emission, extra), now_ms, rtt_ms),
            extra,
        ),
    decreases
            MAX_FRAME_TRANSFER_WINDOW_SIZE - emission.state.log.frames.len(),
            emission.state.sender.waiting.len(),
            emission.state.queue.len(),
{
    let more = with_more(emission, extra);
    let queue = emission.state.queue;
    lemma_begin_with_itself(queue_phase(emission, now_ms, rtt_ms).emission.sent);
    if queue.len() == 0 {
        if emission.state.sender.can_emit() {
            assert(more.refill() == with_more(emission.refill(), extra));
            lemma_queue_phase_more(emission.refill(), now_ms, rtt_ms, extra);
        } else {
            assert(more.finish(now_ms) == with_more(emission.finish(now_ms), extra));
        }
    } else {
        match emission.make_room(queue[0].datagram, now_ms) {
            Room::Fits => {
                let added = emission.add_queued(now_ms, rtt_ms);
                assert(more.add_queued(now_ms, rtt_ms) == with_more(added, extra));
                lemma_queue_phase_more(added, now_ms, rtt_ms, extra);
            },
            Room::Retry(closed) => {
                assert(more.close(now_ms) == with_more(closed, extra));
                lemma_queue_phase_more(closed, now_ms, rtt_ms, extra);
            },
            Room::Stop(outcome) => {
                if outcome.size_limited {
                    lemma_queue_phase_extends(more, now_ms, rtt_ms);
                    let sent = queue_phase(more, now_ms, rtt_ms).emission.sent;
                    assert(extends(emission, sent));
                    lemma_finish_begins(emission, now_ms, sent);
                } else {
                    assert(more.close(now_ms) == with_more(outcome.emission, extra));
                }
            },
        }
    }
}

proof fn lemma_both_phases_more(emission: DataEmission, now_ms: u64, rtt_ms: u64, extra: int)
    requires
        extra >= 0,
    ensures
        is_less_than(
            both_phases(emission, now_ms, rtt_ms),
            both_phases(with_more(emission, extra), now_ms, rtt_ms),
            extra,
        ),
    decreases
            MAX_FRAME_TRANSFER_WINDOW_SIZE - emission.state.log.frames.len(),
            MAX_TRANSFER_UNIT - data_frame_size(emission.open),
            emission.state.resends.entries.len(),
{
    let more = with_more(emission, extra);
    let entries = emission.state.resends.entries;
    lemma_begin_with_itself(both_phases(emission, now_ms, rtt_ms).emission.sent);
    if entries.len() == 0 {
        lemma_queue_phase_more(emission, now_ms, rtt_ms, extra);
    } else if entries[0].acknowledged {
        assert(more.drop_resend() == with_more(emission.drop_resend(), extra));
        lemma_both_phases_more(emission.drop_resend(), now_ms, rtt_ms, extra);
    } else if entries[0].resend_time > now_ms {
        lemma_queue_phase_more(emission, now_ms, rtt_ms, extra);
    } else {
        lemma_datagrams_size_push(emission.open, entries[0].datagram);
        match emission.make_room(entries[0].datagram, now_ms) {
            Room::Fits => {
                let added = emission.add_resend(now_ms, rtt_ms);
                assert(more.add_resend(now_ms, rtt_ms) == with_more(added, extra));
                lemma_both_phases_more(added, now_ms, rtt_ms, extra);
            },
            Room::Retry(closed) => {
                assert(more.close(now_ms) == with_more(closed, extra));
                lemma_both_phases_more(closed, now_ms, rtt_ms, extra);
            },
            Room::Stop(outcome) => {
                if outcome.size_limited {
                    lemma_both_phases_extend(more, now_ms, rtt_ms);
                    let sent = both_phases(more, now_ms, rtt_ms).emission.sent;
                    assert(extends(emission, sent));
                    lemma_finish_begins(emission, now_ms, sent);
                } else {
                    assert(more.close(now_ms) == with_more(outcome.emission, extra));
                }
            },
        }
    }
}

/// With more bytes to send, the same data frames are sent, the last of which may hold more, and
/// perhaps further ones. Where sending did not stop for want of bytes, more bytes change nothing.
pub proof fn law_more_bytes_send_more(
    state: EmitterView,
    now_ms: u64,
    rtt_ms: u64,
    max_send_size: usize,
    larger_max_send_size: usize,
)
    requires
        max_send_size <= larger_max_send_size,
    ensures
        is_less_than(
            data_emission(state, now_ms, rtt_ms, max_send_size),
            data_emission(state, now_ms, rtt_ms, larger_max_send_size),
            larger_max_send_size - max_send_size,
        ),
{
    let extra = larger_max_send_size - max_send_size;
    let start = DataEmission::start(state, max_send_size);
    assert(DataEmission::start(state, larger_max_send_size) == with_more(start, extra));
    if state.log.is_full() {
        lemma_begin_with_itself(start.sent);
    } else {
        lemma_both_phases_more(start, now_ms, rtt_ms, extra);
    }
}

/// Whether the ack frames `more` begin with the ack frames `less`, the last of which may have
/// further acknowledgements there.
pub open spec fn acks_begin_with(more: Seq<Seq<FrameAck>>, less: Seq<Seq<FrameAck>>) -> bool {
    let last = less.len() - 1;
    &&& less.len() <= more.len()
    &&& forall|i: int| 0 <= i < last ==> #[trigger] less[i] == more[i]
    &&& less.len() > 0 ==> less[last].is_prefix_of(more[last])
}

/// `emission` with `extra` more bytes to send.
pub open spec fn acks_with_more(emission: AckEmission, extra: int) -> AckEmission {
    AckEmission { budget: emission.budget + extra, ..emission }
}

/// What becomes of `less` where there are `extra` more bytes to send: its frames are sent, and if
/// it was not stopped for want of bytes, that is all.
pub open spec fn acks_less_than(less: AckOutcome, more: AckOutcome, extra: int) -> bool {
    &&& acks_begin_with(more.emission.sent, less.emission.sent)
    &&& !less.size_limited ==> more == (AckOutcome {
        emission: acks_with_more(less.emission, extra),
        size_limited: false,
    })
}

proof fn lemma_acks_finish_begin(emission: AckEmission, sent: Seq<Seq<FrameAck>>)
    requires
        acks_extend(emission, sent),
    ensures
        acks_begin_with(sent, emission.finish().sent),
{
    let count = emission.sent.len() as int;
    assert forall|i: int| 0 <= i < count implies emission.sent[i] == sent[i] by {
        assert(sent.subrange(0, count)[i] == sent[i]);
    }
    if emission.open.len() == 0 && count > 0 {
        let acks = sent[count - 1];
        assert(acks =~= acks.subrange(0, acks.len() as int));
    }
}

proof fn lemma_ack_phase_more(emission: AckEmission, extra: int)
    requires
        extra >= 0,
    ensures
        acks_less_than(ack_phase(emission), ack_phase(acks_with_more(emission, extra)), extra),
    decreases emission.queue.len(), emission.open.len(),
{
    let more = acks_with_more(emission, extra);
    let size = ack_frame_size(emission.open.len()) + FRAME_ACK_SIZE;
    if emission.queue.len() == 0 || size > emission.budget {
        lemma_ack_phase_extends(more);
        let sent = ack_phase(more).emission.sent;
        assert(acks_extend(emission, sent));
        lemma_acks_finish_begin(emission, sent);
        assert(more.finish() == acks_with_more(emission.finish(), extra));
    } else if size > MAX_TRANSFER_UNIT {
        assert(more.close() == acks_with_more(emission.close(), extra));
        lemma_ack_phase_more(emission.close(), extra);
    } else {
        assert(more.add_ack() == acks_with_more(emission.add_ack(), extra));
        lemma_ack_phase_more(emission.add_ack(), extra);
    }
}

proof fn lemma_all_acks_begin(more: Seq<Seq<FrameAck>>, less: Seq<Seq<FrameAck>>)
    requires
        acks_begin_with(more, less),
    ensures
        all_acks(less).is_prefix_of(all_acks(more)),
    decreases more.len(),
{
    let count = all_acks(less).len() as int;
    if less.len() == 0 {
        assert(all_acks(less) =~= all_acks(more).subrange(0, count));
    } else if less.len() < more.len() {
        lemma_all_acks_begin(more.drop_last(), less);
        assert(all_acks(less) =~= all_acks(more.drop_last()).subrange(0, count));
        assert(all_acks(less) =~= all_acks(more).subrange(0, count));
    } else {
        assert(less.drop_last() =~= more.drop_last());
        assert(less.last() =~= more.last().subrange(0, less.last().len() as int));
        assert(all_acks(less) =~= all_acks(more).subrange(0, count));
    }
}

/// With more bytes to send, the same ack frames are sent, the last of which may hold more, and
/// perhaps further ones: the acknowledgements sent begin with those sent otherwise. Where sending
/// did not stop for want of bytes, more bytes change nothing.
pub proof fn law_more_bytes_send_more_acks(
    queue: Seq<FrameAck>,
    max_send_size: usize,
    larger_max_send_size: usize,
)
    requires
        max_send_size <= larger_max_send_size,
    ensures
        ({
            let less = ack_emission(queue, max_send_size);
            let more = ack_emission(queue, larger_max_send_size);
            &&& acks_less_than(less, more, larger_max_send_size - max_send_size)
            &&& all_acks(less.emission.sent).is_prefix_of(all_acks(more.emission.sent))
        }),
{
    let extra = larger_max_send_size - max_send_size;
    let start = AckEmission::start(queue, max_send_size);
    assert(AckEmission::start(queue, larger_max_send_size) == acks_with_more(start, extra));
    lemma_ack_phase_more(start, extra);
    lemma_all_acks_begin(
        ack_emission(queue, larger_max_send_size).emission.sent,
        ack_emission(queue, max_send_size).emission.sent,
    );
}

} // verus!
