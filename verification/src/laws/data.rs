//! The data frames of an emission: their sizes, their IDs, and why there are no more of them.
use super::induction::emission_wf;
use super::induction::lemma_both_phases_keep;
use super::induction::lemma_datagrams_size_nonnegative;
use super::induction::lemma_queue_phase_keeps;
use super::induction::lemma_resend_phase_keeps;
use super::induction::none_due;
use super::induction::queue_ended;
use super::induction::resends_stopped;
use super::induction::state_wf;
use crate::datagram_queue::fits_a_frame;
use crate::emission::data_emission;
use crate::emission::lemma_both_phases_retain;
use crate::emission::queue_phase;
use crate::emission::resend_phase;
use crate::emission::sent_once;
use crate::emission::DataEmission;
use crate::emission::DataOutcome;
use crate::emission::EmitterView;
use crate::emission::ResendPhase;
use crate::frame::serial::lemma_datagrams_bytes_len;
use crate::frame::serial::DataFramePlan;
use crate::frame::wire::data_frame_bytes;
use crate::frame::wire::data_frame_size;
use crate::frame::DatagramView;
use crate::frame_log::id_after;
use crate::resend_queue::insert_by_time;
use crate::resend_queue::lemma_rank;
use crate::resend_queue::rank;
use crate::resend_queue::PendingResend;
use crate::MAX_FRAGMENT_SIZE;
use crate::MAX_FRAME_TRANSFER_WINDOW_SIZE;
use crate::MAX_TRANSFER_UNIT;
use vstd::prelude::*;

verus! {

/// Whether each of `datagrams` fits in a frame of its own.
pub open spec fn all_fit(datagrams: Seq<DatagramView>) -> bool {
    forall|i: int| 0 <= i < datagrams.len() ==> fits_a_frame(#[trigger] datagrams[i])
}

/// Whether `plan` holds a datagram and does not exceed the transfer unit.
pub open spec fn plan_fits(plan: DataFramePlan) -> bool {
    &&& plan.datagrams.len() > 0
    &&& data_frame_size(plan.datagrams) <= MAX_TRANSFER_UNIT
    &&& all_fit(plan.datagrams)
}

pub open spec fn plans_fit(sent: Seq<DataFramePlan>) -> bool {
    forall|i: int| 0 <= i < sent.len() ==> plan_fits(#[trigger] sent[i])
}

/// The total length of the frames `sent`.
pub open spec fn total_size(sent: Seq<DataFramePlan>) -> int
    decreases sent.len(),
{
    if sent.len() == 0 {
        0
    } else {
        total_size(sent.drop_last()) + data_frame_size(sent.last().datagrams)
    }
}

/// Whether the log has taken up the frames `sent` at `now_ms`, behind those of `before`, under
/// consecutive IDs.
pub open spec fn taken_up(before: EmitterView, emission: DataEmission, now_ms: u64) -> bool {
    let count = before.log.frames.len();
    let log = emission.state.log;
    &&& log.base_id == before.log.base_id
    &&& log.frames.len() == count + emission.sent.len()
    &&& log.frames.take(count as int) == before.log.frames
    &&& forall|i: int|
        0 <= i < emission.sent.len() ==> {
            &&& (#[trigger] emission.sent[i]).sequence_id == id_after(
                before.log.base_id,
                count + i,
            )
            &&& log.frames[count + i].send_time_ms == now_ms
        }
}

pub proof fn lemma_start_wf(state: EmitterView, max_send_size: usize)
    requires
        state_wf(state),
    ensures
        emission_wf(DataEmission::start(state, max_send_size)),
{
}

/// Every data frame holds a datagram and is at most as long as the transfer unit.
pub proof fn law_frames_fit(state: EmitterView, now_ms: u64, rtt_ms: u64, max_send_size: usize)
    requires
        state_wf(state),
    ensures
        ({
            let sent = data_emission(state, now_ms, rtt_ms, max_send_size).emission.sent;
            &&& plans_fit(sent)
            &&& forall|i: int, nonce: bool|
                0 <= i < sent.len() ==> (#[trigger] data_frame_bytes(
                    sent[i].sequence_id,
                    nonce,
                    sent[i].datagrams,
                )).len() == data_frame_size(sent[i].datagrams) <= MAX_TRANSFER_UNIT
        }),
{
    let start = DataEmission::start(state, max_send_size);
    let inv = |emission: DataEmission| plans_fit(emission.sent) && all_fit(emission.open);
    if !state.log.is_full() {
        lemma_both_phases_keep(inv, start, now_ms, rtt_ms);
    }
    let sent = data_emission(state, now_ms, rtt_ms, max_send_size).emission.sent;
    assert forall|i: int, nonce: bool| 0 <= i < sent.len() implies (#[trigger] data_frame_bytes(
        sent[i].sequence_id,
        nonce,
        sent[i].datagrams,
    )).len() == data_frame_size(sent[i].datagrams) <= MAX_TRANSFER_UNIT by {
        lemma_datagrams_bytes_len(sent[i].datagrams);
        assert(plan_fits(sent[i]));
    }
}

/// The bytes given as sent are the total length of the frames, and no more than allowed.
pub proof fn law_size_is_total(state: EmitterView, now_ms: u64, rtt_ms: u64, max_send_size: usize)
    requires
        state_wf(state),
    ensures
        ({
            let emission = data_emission(state, now_ms, rtt_ms, max_send_size).emission;
            &&& total_size(emission.sent) == max_send_size - emission.budget
            &&& 0 <= total_size(emission.sent) <= max_send_size
        }),
{
    let start = DataEmission::start(state, max_send_size);
    let inv = |emission: DataEmission|
        total_size(emission.sent) == max_send_size - emission.budget && total_size(emission.sent)
            >= 0;
    assert forall|emission: DataEmission|
        #![trigger inv(emission)]
        emission_wf(emission) && inv(emission) && emission.open.len() > 0
            && !emission.state.log.is_full() implies inv(emission.close(now_ms)) by {
        assert(emission.close(now_ms).sent.drop_last() =~= emission.sent);
        lemma_datagrams_size_nonnegative(emission.open);
    }
    if !state.log.is_full() {
        lemma_both_phases_keep(inv, start, now_ms, rtt_ms);
    }
}

/// The log takes up every data frame that is sent, under consecutive IDs, and nothing else; it
/// never holds more frames than the window.
pub proof fn law_frames_are_logged(
    state: EmitterView,
    now_ms: u64,
    rtt_ms: u64,
    max_send_size: usize,
)
    requires
        state_wf(state),
    ensures
        ({
            let emission = data_emission(state, now_ms, rtt_ms, max_send_size).emission;
            &&& taken_up(state, emission, now_ms)
            &&& emission.state.log.frames.len() <= MAX_FRAME_TRANSFER_WINDOW_SIZE
        }),
{
    let start = DataEmission::start(state, max_send_size);
    let inv = |emission: DataEmission| taken_up(state, emission, now_ms);
    let count = state.log.frames.len() as int;
    assert(state.log.frames.take(count) =~= state.log.frames);
    assert forall|emission: DataEmission|
        #![trigger inv(emission)]
        emission_wf(emission) && inv(emission) && emission.open.len() > 0
            && !emission.state.log.is_full() implies inv(emission.close(now_ms)) by {
        let closed = emission.close(now_ms);
        assert(closed.state.log.frames.take(count) =~= emission.state.log.frames.take(count));
        assert forall|i: int| 0 <= i < closed.sent.len() implies {
            &&& (#[trigger] closed.sent[i]).sequence_id == id_after(state.log.base_id, count + i)
            &&& closed.state.log.frames[count + i].send_time_ms == now_ms
        } by {
            if i < emission.sent.len() {
                assert(closed.sent[i] == emission.sent[i]);
            }
        }
    }
    if !state.log.is_full() {
        lemma_both_phases_keep(inv, start, now_ms, rtt_ms);
    }
}

/// Sending stops for want of bytes only where a datagram is left that is next in line and whose
/// frame would exceed the bytes that are left. Otherwise the log is full; or nothing is left that
/// could be sent, unless a datagram that was sent again is due again at once.
pub proof fn law_why_it_ends(state: EmitterView, now_ms: u64, rtt_ms: u64, max_send_size: usize)
    requires
        state_wf(state),
    ensures
        ({
            let outcome = data_emission(state, now_ms, rtt_ms, max_send_size);
            let end = outcome.emission.state;
            if outcome.size_limited {
                ||| resends_stopped(outcome, now_ms)
                ||| queue_ended(outcome) && (rtt_ms > 0 ==> none_due(
                    end.resends.entries,
                    now_ms,
                ))
            } else {
                ||| end.log.is_full()
                ||| end.queue.len() == 0 && !end.sender.can_emit() && (rtt_ms > 0 ==> none_due(
                    end.resends.entries,
                    now_ms,
                ))
            }
        }),
{
    let start = DataEmission::start(state, max_send_size);
    let any = |emission: DataEmission| true;
    if !state.log.is_full() {
        lemma_resend_phase_keeps(any, start, now_ms, rtt_ms);
        match resend_phase(start, now_ms, rtt_ms) {
            ResendPhase::Over(over) => {
                if rtt_ms > 0 {
                    lemma_queue_phase_none_due(over, now_ms, rtt_ms);
                } else {
                    lemma_queue_phase_keeps(any, over, now_ms, rtt_ms);
                }
            },
            ResendPhase::Stop(_) => {},
        }
    }
}

/// A datagram that is sent for the first time is not due at once.
proof fn lemma_queue_phase_none_due(emission: DataEmission, now_ms: u64, rtt_ms: u64)
    requires
        emission_wf(emission),
        !emission.state.log.is_full(),
        none_due(emission.state.resends.entries, now_ms),
        rtt_ms > 0,
    ensures
        ({
            let outcome = queue_phase(emission, now_ms, rtt_ms);
            &&& emission_wf(outcome.emission)
            &&& queue_ended(outcome)
            &&& none_due(outcome.emission.state.resends.entries, now_ms)
        }),
{
    let inv = |emission: DataEmission| none_due(emission.state.resends.entries, now_ms);
    assert forall|emission: DataEmission|
        #![trigger inv(emission)]
        emission_wf(emission) && inv(emission) implies {
        &&& emission.state.queue.len() == 0 && emission.state.sender.can_emit() ==> inv(
            emission.refill(),
        )
        &&& super::induction::takes_queued(emission, now_ms) ==> inv(
            emission.add_queued(now_ms, rtt_ms),
        )
    } by {
        let first = emission.state.queue[0];
        let resends = emission.state.resends;
        let once = sent_once(first.datagram, resends.next_key, now_ms, rtt_ms);
        lemma_rank(resends.entries, once.resend_time);
        let inserted = insert_by_time(resends.entries, once);
        if rank(resends.entries, once.resend_time) > 0 {
            assert(inserted[0] == resends.entries[0]);
        } else {
            assert(inserted[0] == once);
        }
    }
    lemma_queue_phase_keeps(inv, emission, now_ms, rtt_ms);
}

/// Once all has been sent that could be, a second call at the same time sends nothing and changes
/// nothing, however many bytes it may send.
pub proof fn law_second_call_sends_nothing(
    state: EmitterView,
    now_ms: u64,
    rtt_ms: u64,
    max_send_size: usize,
    second_max_send_size: usize,
)
    requires
        state_wf(state),
        rtt_ms > 0,
        !data_emission(state, now_ms, rtt_ms, max_send_size).size_limited,
    ensures
        ({
            let end = data_emission(state, now_ms, rtt_ms, max_send_size).emission.state;
            data_emission(end, now_ms, rtt_ms, second_max_send_size) == (DataOutcome {
                emission: DataEmission::start(end, second_max_send_size),
                size_limited: false,
            })
        }),
{
    law_why_it_ends(state, now_ms, rtt_ms, max_send_size);
}

/// A datagram that is to be sent again, and is neither acknowledged nor due, stays as it is.
pub proof fn law_not_due_is_kept(
    state: EmitterView,
    now_ms: u64,
    rtt_ms: u64,
    max_send_size: usize,
    entry: PendingResend,
)
    requires
        state.resends.entries.contains(entry),
        !entry.acknowledged,
        entry.resend_time > now_ms,
    ensures
        data_emission(
            state,
            now_ms,
            rtt_ms,
            max_send_size,
        ).emission.state.resends.entries.contains(entry),
{
    let start = DataEmission::start(state, max_send_size);
    if !state.log.is_full() {
        lemma_both_phases_retain(start, now_ms, rtt_ms, entry);
    }
}

/// Sending data frames does not touch the acknowledgements.
pub proof fn law_data_leaves_acks(
    state: EmitterView,
    now_ms: u64,
    rtt_ms: u64,
    max_send_size: usize,
)
    requires
        state_wf(state),
    ensures
        data_emission(state, now_ms, rtt_ms, max_send_size).emission.state.acks == state.acks,
{
    let start = DataEmission::start(state, max_send_size);
    let inv = |emission: DataEmission| emission.state.acks == state.acks;
    if !state.log.is_full() {
        lemma_both_phases_keep(inv, start, now_ms, rtt_ms);
    }
}

/// What is well-formed stays so.
pub proof fn law_stays_well_formed(
    state: EmitterView,
    now_ms: u64,
    rtt_ms: u64,
    max_send_size: usize,
)
    requires
        state_wf(state),
    ensures
        state_wf(data_emission(state, now_ms, rtt_ms, max_send_size).emission.state),
{
    let start = DataEmission::start(state, max_send_size);
    let any = |emission: DataEmission| true;
    if !state.log.is_full() {
        lemma_both_phases_keep(any, start, now_ms, rtt_ms);
    }
}

/// A datagram of the largest size fills a frame to the transfer unit.
pub proof fn law_full_fragment_fills_frame(datagram: DatagramView)
    requires
        datagram.data.len() == MAX_FRAGMENT_SIZE,
    ensures
        data_frame_size(seq![datagram]) == MAX_TRANSFER_UNIT,
{
    assert(seq![datagram].drop_last() =~= Seq::empty());
    assert(crate::frame::wire::datagrams_size(seq![datagram].drop_last()) == 0);
    assert(seq![datagram].last() == datagram);
}

} // verus!
