//! No data frame is sent while it has room for the datagram that is next in line.
use super::data::lemma_start_wf;
use super::induction::emission_wf;
use super::induction::lemma_add_queued_wf;
use super::induction::lemma_add_resend_wf;
use super::induction::lemma_close_wf;
use super::induction::lemma_queue_phase_keeps;
use super::induction::lemma_refill_wf;
use super::induction::lemma_resend_phase_keeps;
use super::induction::lemma_skip_wf;
use super::induction::none_due;
use super::induction::state_wf;
use super::induction::takes_queued;
use super::order::is_due;
use crate::emission::data_emission;
use crate::emission::queue_phase;
use crate::emission::resend_phase;
use crate::emission::sent_once;
use crate::emission::DataEmission;
use crate::emission::DataOutcome;
use crate::emission::EmitterView;
use crate::emission::ResendPhase;
use crate::emission::Room;
use crate::frame::serial::lemma_datagrams_size_push;
use crate::frame::serial::DataFramePlan;
use crate::frame::wire::data_frame_size;
use crate::frame::wire::datagram_size;
use crate::frame::DatagramView;
use crate::resend_queue::lemma_insert_by_time;
use crate::MAX_FRAME_TRANSFER_WINDOW_SIZE;
use crate::MAX_TRANSFER_UNIT;
use vstd::prelude::*;

verus! {

/// Whether `plan` has no room for `datagram`.
pub open spec fn no_room(plan: DataFramePlan, datagram: DatagramView) -> bool {
    data_frame_size(plan.datagrams) + datagram_size(datagram) > MAX_TRANSFER_UNIT
}

/// Whether each of the frames `sent` but the last has no room for the first datagram of the next
/// one.
pub open spec fn packed(sent: Seq<DataFramePlan>) -> bool {
    forall|i: int|
        0 <= i < sent.len() - 1 ==> no_room(#[trigger] sent[i], sent[i + 1].datagrams[0])
}

/// The frame sent last has no room for the first datagram of the frame being put together.
pub open spec fn packed_so_far(emission: DataEmission) -> bool {
    &&& packed(emission.sent)
    &&& emission.sent.len() > 0 && emission.open.len() > 0 ==> no_room(
        emission.sent.last(),
        emission.open[0],
    )
}

/// Whether the frame being put together is empty though one has been sent.
pub open spec fn starts_afresh(emission: DataEmission) -> bool {
    emission.sent.len() > 0 && emission.open.len() == 0
}

/// Why `outcome` does not carry `datagram`, which is next in line. Either there are not enough
/// bytes left for it in the frame sent last; or that frame has no room for it, or there is none,
/// and there are not enough bytes left for a frame of its own; or, though there are enough bytes,
/// the frame sent last has no room for it and the log takes no more frames.
pub open spec fn stopped_at(outcome: DataOutcome, datagram: DatagramView) -> bool {
    let sent = outcome.emission.sent;
    let left = outcome.emission.budget;
    let size = 15 + datagram.data.len();
    let last_is_full = sent.len() > 0 && no_room(sent.last(), datagram);
    if outcome.size_limited {
        ||| sent.len() > 0 && size > left
        ||| (sent.len() == 0 || last_is_full) && 8 + size > left
            && outcome.emission.state.log.frames.len() < MAX_FRAME_TRANSFER_WINDOW_SIZE
    } else {
        &&& last_is_full
        &&& size <= left
        &&& outcome.emission.state.log.frames.len() >= MAX_FRAME_TRANSFER_WINDOW_SIZE
    }
}

/// How the sending of datagrams that have not been sent yet ends: all of them are sent, and no
/// packet that waits has room in transit; or it stops at the first of them.
pub open spec fn queue_finished(outcome: DataOutcome) -> bool {
    let state = outcome.emission.state;
    if state.queue.len() == 0 {
        !outcome.size_limited && !state.sender.can_emit()
    } else {
        stopped_at(outcome, state.queue[0].datagram)
    }
}

proof fn lemma_close_packs(emission: DataEmission, now_ms: u64)
    requires
        packed_so_far(emission),
        emission.open.len() > 0,
    ensures
        packed_so_far(emission.close(now_ms)),
{
    let closed = emission.close(now_ms);
    let count = emission.sent.len() as int;
    assert forall|i: int| 0 <= i < closed.sent.len() - 1 implies no_room(
        #[trigger] closed.sent[i],
        closed.sent[i + 1].datagrams[0],
    ) by {
        assert(closed.sent[i] == emission.sent[i]);
        if i + 1 < count {
            assert(closed.sent[i + 1] == emission.sent[i + 1]);
        }
    }
}

pub proof fn lemma_resend_phase_packs(emission: DataEmission, now_ms: u64, rtt_ms: u64)
    requires
        emission_wf(emission),
        !emission.state.log.is_full(),
        packed_so_far(emission),
        starts_afresh(emission) ==> {
            let entries = emission.state.resends.entries;
            &&& entries.len() > 0
            &&& is_due(entries[0], now_ms)
            &&& no_room(emission.sent.last(), entries[0].datagram)
        },
    ensures
        match resend_phase(emission, now_ms, rtt_ms) {
            ResendPhase::Over(end) => packed_so_far(end) && !starts_afresh(end),
            ResendPhase::Stop(outcome) => {
                let entries = outcome.emission.state.resends.entries;
                &&& packed(outcome.emission.sent)
                &&& entries.len() > 0
                &&& is_due(entries[0], now_ms)
                &&& stopped_at(outcome, entries[0].datagram)
            },
        },
    decreases
            MAX_FRAME_TRANSFER_WINDOW_SIZE - emission.state.log.frames.len(),
            MAX_TRANSFER_UNIT - data_frame_size(emission.open),
            emission.state.resends.entries.len(),
{
    let entries = emission.state.resends.entries;
    if entries.len() == 0 {
    } else if entries[0].acknowledged {
        lemma_skip_wf(entries);
        lemma_resend_phase_packs(emission.drop_resend(), now_ms, rtt_ms);
    } else if entries[0].resend_time > now_ms {
    } else {
        lemma_datagrams_size_push(emission.open, entries[0].datagram);
        if emission.open.len() > 0 {
            lemma_close_packs(emission, now_ms);
            lemma_close_wf(emission, now_ms);
        }
        match emission.make_room(entries[0].datagram, now_ms) {
            Room::Fits => {
                lemma_add_resend_wf(emission, now_ms, rtt_ms);
                lemma_resend_phase_packs(emission.add_resend(now_ms, rtt_ms), now_ms, rtt_ms);
            },
            Room::Retry(closed) => {
                lemma_resend_phase_packs(closed, now_ms, rtt_ms);
            },
            Room::Stop(_) => {},
        }
    }
}

proof fn lemma_queue_phase_packs(emission: DataEmission, now_ms: u64, rtt_ms: u64)
    requires
        emission_wf(emission),
        !emission.state.log.is_full(),
        packed_so_far(emission),
        starts_afresh(emission) ==> emission.state.queue.len() > 0 && no_room(
            emission.sent.last(),
            emission.state.queue[0].datagram,
        ),
    ensures
        packed(queue_phase(emission, now_ms, rtt_ms).emission.sent),
        queue_finished(queue_phase(emission, now_ms, rtt_ms)),
    decreases
            MAX_FRAME_TRANSFER_WINDOW_SIZE - emission.state.log.frames.len(),
            emission.state.sender.waiting.len(),
            emission.state.queue.len(),
{
    let queue = emission.state.queue;
    if emission.open.len() > 0 {
        lemma_close_packs(emission, now_ms);
        lemma_close_wf(emission, now_ms);
    }
    if queue.len() == 0 {
        if emission.state.sender.can_emit() {
            lemma_refill_wf(emission);
            lemma_queue_phase_packs(emission.refill(), now_ms, rtt_ms);
        }
    } else {
        match emission.make_room(queue[0].datagram, now_ms) {
            Room::Fits => {
                lemma_add_queued_wf(emission, now_ms, rtt_ms);
                lemma_queue_phase_packs(emission.add_queued(now_ms, rtt_ms), now_ms, rtt_ms);
            },
            Room::Retry(closed) => {
                lemma_queue_phase_packs(closed, now_ms, rtt_ms);
            },
            Room::Stop(_) => {},
        }
    }
}

/// Every data frame but the last is so full that the first datagram of the next one would have made
/// it longer than the transfer unit.
pub proof fn law_frames_are_packed(
    state: EmitterView,
    now_ms: u64,
    rtt_ms: u64,
    max_send_size: usize,
)
    requires
        state_wf(state),
    ensures
        packed(data_emission(state, now_ms, rtt_ms, max_send_size).emission.sent),
{
    let start = DataEmission::start(state, max_send_size);
    lemma_start_wf(state, max_send_size);
    if !state.log.is_full() {
        let any = |emission: DataEmission| true;
        lemma_resend_phase_keeps(any, start, now_ms, rtt_ms);
        lemma_resend_phase_packs(start, now_ms, rtt_ms);
        match resend_phase(start, now_ms, rtt_ms) {
            ResendPhase::Over(over) => {
                lemma_queue_phase_packs(over, now_ms, rtt_ms);
            },
            ResendPhase::Stop(_) => {},
        }
    }
}

/// Sending ends for one of two reasons. Either a datagram that is due is next in line and cannot be
/// sent, for want of bytes or because the log is full; nothing has been sent for the first time
/// by then. Or the same holds of a datagram that has not been sent yet, or all of them are sent; no
/// datagram that was to be sent again is due by then, unless it is due at once again.
///
/// Whatever is first in line to be sent again has not been acknowledged.
pub proof fn law_end_is_exact(state: EmitterView, now_ms: u64, rtt_ms: u64, max_send_size: usize)
    requires
        state_wf(state),
        state.log.frames.len() < MAX_FRAME_TRANSFER_WINDOW_SIZE,
    ensures
        ({
            let outcome = data_emission(state, now_ms, rtt_ms, max_send_size);
            let end = outcome.emission.state;
            let entries = end.resends.entries;
            &&& {
                ||| {
                    &&& entries.len() > 0
                    &&& is_due(entries[0], now_ms)
                    &&& stopped_at(outcome, entries[0].datagram)
                    &&& end.queue == state.queue
                    &&& end.sender == state.sender
                    &&& end.resends.next_key == state.resends.next_key
                }
                ||| {
                    &&& queue_finished(outcome)
                    &&& forall|i: int|
                        0 <= i < entries.len() && is_due(#[trigger] entries[i], now_ms) ==> rtt_ms
                            == 0 && entries[i].send_count == 1
                }
            }
            &&& entries.len() > 0 ==> !entries[0].acknowledged
        }),
{
    let start = DataEmission::start(state, max_send_size);
    let end = data_emission(state, now_ms, rtt_ms, max_send_size).emission.state;
    lemma_start_wf(state, max_send_size);
    let same = |emission: DataEmission|
        {
            &&& emission.state.queue == state.queue
            &&& emission.state.sender == state.sender
            &&& emission.state.resends.next_key == state.resends.next_key
        };
    lemma_resend_phase_keeps(same, start, now_ms, rtt_ms);
    lemma_resend_phase_packs(start, now_ms, rtt_ms);
    match resend_phase(start, now_ms, rtt_ms) {
        ResendPhase::Over(over) => {
            lemma_queue_phase_packs(over, now_ms, rtt_ms);
            lemma_queue_phase_waits(over, now_ms, rtt_ms);
        },
        ResendPhase::Stop(_) => {},
    }
}

/// Once none is due, only those are that are sent for the first time and due at once again.
proof fn lemma_queue_phase_waits(over: DataEmission, now_ms: u64, rtt_ms: u64)
    requires
        emission_wf(over),
        !over.state.log.is_full(),
        none_due(over.state.resends.entries, now_ms),
    ensures
        ({
            let entries = queue_phase(over, now_ms, rtt_ms).emission.state.resends.entries;
            &&& forall|i: int|
                0 <= i < entries.len() && is_due(#[trigger] entries[i], now_ms) ==> rtt_ms == 0
                    && entries[i].send_count == 1
            &&& entries.len() > 0 ==> !entries[0].acknowledged
        }),
{
    let inv = |emission: DataEmission|
        {
            let entries = emission.state.resends.entries;
            &&& forall|i: int|
                0 <= i < entries.len() && is_due(#[trigger] entries[i], now_ms) ==> rtt_ms == 0
                    && entries[i].send_count == 1
            &&& entries.len() > 0 ==> !entries[0].acknowledged
        };
    assert(inv(over)) by {
        let entries = over.state.resends.entries;
        assert forall|i: int| 0 <= i < entries.len() implies !is_due(
            #[trigger] entries[i],
            now_ms,
        ) by {
            assert(entries[0].resend_time <= entries[i].resend_time);
        }
    }
    assert forall|emission: DataEmission|
        #![trigger inv(emission)]
        emission_wf(emission) && inv(emission) implies {
        &&& emission.state.queue.len() == 0 && emission.state.sender.can_emit() ==> inv(
            emission.refill(),
        )
        &&& takes_queued(emission, now_ms) ==> inv(emission.add_queued(now_ms, rtt_ms))
    } by {
        let queued = emission.state.queue[0];
        let resends = emission.state.resends;
        let once = sent_once(queued.datagram, resends.next_key, now_ms, rtt_ms);
        lemma_insert_by_time(resends.entries, once);
    }
    lemma_queue_phase_keeps(inv, over, now_ms, rtt_ms);
}

/// Where the log takes no frame, nothing is sent and nothing changes, and it is not for want of
/// bytes.
pub proof fn law_full_log_sends_nothing(
    state: EmitterView,
    now_ms: u64,
    rtt_ms: u64,
    max_send_size: usize,
)
    requires
        state.log.frames.len() >= MAX_FRAME_TRANSFER_WINDOW_SIZE,
    ensures
        ({
            let outcome = data_emission(state, now_ms, rtt_ms, max_send_size);
            &&& outcome.emission.state == state
            &&& outcome.emission.sent.len() == 0
            &&& outcome.emission.budget == max_send_size
            &&& !outcome.size_limited
        }),
{
}

} // verus!
