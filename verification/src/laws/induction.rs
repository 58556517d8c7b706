//! Induction over the sending of data frames: what every step keeps holds at the end.
use crate::datagram_queue::fits_a_frame;
use crate::datagram_queue::QueuedDatagram;
use crate::emission::both_phases;
use crate::emission::queue_phase;
use crate::emission::resend_phase;
use crate::emission::sent_again;
use crate::emission::sent_once;
use crate::emission::DataEmission;
use crate::emission::DataOutcome;
use crate::emission::EmitterView;
use crate::emission::ResendPhase;
use crate::emission::Room;
use crate::frame::serial::lemma_datagrams_size_push;
use crate::frame::wire::data_frame_size;
use crate::frame::wire::datagram_size;
use crate::frame::wire::datagrams_size;
use crate::frame::wire::DATA_FRAME_HEADER_SIZE;
use crate::frame::DatagramView;
use crate::packet_sender::fragment;
use crate::packet_sender::lemma_fragment_bounds;
use crate::packet_sender::PacketSenderView;
use crate::resend_queue::insert_by_time;
use crate::resend_queue::lemma_insert_by_time;
use crate::resend_queue::lemma_insert_by_time_sorted;
use crate::resend_queue::resend_wf;
use crate::resend_queue::sorted_by_time;
use crate::resend_queue::PendingResend;
use crate::MAX_FRAGMENT_SIZE;
use crate::MAX_FRAME_TRANSFER_WINDOW_SIZE;
use crate::MAX_TRANSFER_UNIT;
use vstd::prelude::*;

verus! {

pub open spec fn queue_wf(queue: Seq<QueuedDatagram>) -> bool {
    forall|i: int| 0 <= i < queue.len() ==> fits_a_frame((#[trigger] queue[i]).datagram)
}

pub open spec fn entries_wf(entries: Seq<PendingResend>) -> bool {
    &&& sorted_by_time(entries)
    &&& forall|i: int| 0 <= i < entries.len() ==> resend_wf(#[trigger] entries[i])
}

/// What a well-formed emitter holds.
pub open spec fn state_wf(state: EmitterView) -> bool {
    &&& queue_wf(state.queue)
    &&& entries_wf(state.resends.entries)
    &&& state.log.frames.len() <= MAX_FRAME_TRANSFER_WINDOW_SIZE
}

/// An emission that started from a well-formed emitter: the frame being put together neither
/// exceeds the transfer unit nor, once it holds a datagram, the bytes that may still be sent.
pub open spec fn emission_wf(emission: DataEmission) -> bool {
    &&& state_wf(emission.state)
    &&& 0 <= emission.budget
    &&& data_frame_size(emission.open) <= MAX_TRANSFER_UNIT
    &&& emission.open.len() > 0 ==> data_frame_size(emission.open) <= emission.budget
}

/// Whether the first datagram that is to be sent again is due and has room in the frame.
pub open spec fn takes_resend(emission: DataEmission, now_ms: u64) -> bool {
    let entries = emission.state.resends.entries;
    &&& entries.len() > 0
    &&& !entries[0].acknowledged
    &&& entries[0].resend_time <= now_ms
    &&& emission.make_room(entries[0].datagram, now_ms) is Fits
}

/// Whether the first datagram that has not been sent yet has room in the frame.
pub open spec fn takes_queued(emission: DataEmission, now_ms: u64) -> bool {
    &&& emission.state.queue.len() > 0
    &&& emission.make_room(emission.state.queue[0].datagram, now_ms) is Fits
}

/// Whether `inv` is kept when a frame is sent.
pub open spec fn kept_by_close(inv: spec_fn(DataEmission) -> bool, now_ms: u64) -> bool {
    forall|emission: DataEmission|
        #![trigger inv(emission)]
        emission_wf(emission) && inv(emission) && emission.open.len() > 0
            && !emission.state.log.is_full() ==> inv(emission.close(now_ms))
}

/// Whether `inv` is kept by each step of the sending of datagrams that are to be sent again.
pub open spec fn kept_by_resends(
    inv: spec_fn(DataEmission) -> bool,
    now_ms: u64,
    rtt_ms: u64,
) -> bool {
    forall|emission: DataEmission|
        #![trigger inv(emission)]
        emission_wf(emission) && inv(emission) ==> {
            &&& emission.state.resends.entries.len() > 0
                && emission.state.resends.entries[0].acknowledged ==> inv(emission.drop_resend())
            &&& takes_resend(emission, now_ms) ==> inv(emission.add_resend(now_ms, rtt_ms))
        }
}

/// Whether `inv` is kept by each step of the sending of datagrams that have not been sent yet.
pub open spec fn kept_by_queue(
    inv: spec_fn(DataEmission) -> bool,
    now_ms: u64,
    rtt_ms: u64,
) -> bool {
    forall|emission: DataEmission|
        #![trigger inv(emission)]
        emission_wf(emission) && inv(emission) ==> {
            &&& emission.state.queue.len() == 0 && emission.state.sender.can_emit() ==> inv(
                emission.refill(),
            )
            &&& takes_queued(emission, now_ms) ==> inv(emission.add_queued(now_ms, rtt_ms))
        }
}

/// Whether no datagram is left that is to be sent again by `now_ms`.
pub open spec fn none_due(entries: Seq<PendingResend>, now_ms: u64) -> bool {
    entries.len() > 0 ==> !entries[0].acknowledged && entries[0].resend_time > now_ms
}

/// Whether a frame with `datagram` alone exceeds the bytes that may still be sent.
pub open spec fn exceeds_budget(emission: DataEmission, datagram: DatagramView) -> bool {
    DATA_FRAME_HEADER_SIZE + datagram_size(datagram) > emission.budget
}

/// How the sending of datagrams that are to be sent again stops: for want of bytes for the first
/// of them, or because the log is full.
pub open spec fn resends_stopped(outcome: DataOutcome, now_ms: u64) -> bool {
    let entries = outcome.emission.state.resends.entries;
    if outcome.size_limited {
        &&& entries.len() > 0
        &&& !entries[0].acknowledged
        &&& entries[0].resend_time <= now_ms
        &&& exceeds_budget(outcome.emission, entries[0].datagram)
    } else {
        outcome.emission.state.log.is_full()
    }
}

/// How the sending of datagrams that have not been sent yet ends: for want of bytes for the first
/// of them, because the log is full, or because none is left.
pub open spec fn queue_ended(outcome: DataOutcome) -> bool {
    let state = outcome.emission.state;
    if outcome.size_limited {
        &&& state.queue.len() > 0
        &&& exceeds_budget(outcome.emission, state.queue[0].datagram)
    } else {
        state.log.is_full() || (state.queue.len() == 0 && !state.sender.can_emit())
    }
}

pub proof fn lemma_insert_wf(entries: Seq<PendingResend>, entry: PendingResend)
    requires
        entries_wf(entries),
        resend_wf(entry),
    ensures
        entries_wf(insert_by_time(entries, entry)),
{
    lemma_insert_by_time_sorted(entries, entry);
    lemma_insert_by_time(entries, entry);
}

pub proof fn lemma_skip_wf(entries: Seq<PendingResend>)
    requires
        entries_wf(entries),
        entries.len() > 0,
    ensures
        entries_wf(entries.skip(1)),
{
}

/// Each fragment of a packet fits in a frame.
pub proof fn lemma_next_datagrams_fit(sender: PacketSenderView)
    ensures
        queue_wf(sender.next_datagrams()),
{
    let packet = sender.waiting[0];
    let datagrams = sender.next_datagrams();
    let len = packet.data.len() as int;
    assert forall|i: int| 0 <= i < datagrams.len() implies fits_a_frame(
        (#[trigger] datagrams[i]).datagram,
    ) by {
        assert(datagrams[i] == fragment(packet, sender.next_id(), i));
        lemma_fragment_bounds(len, i);
        assert((i + 1) * MAX_FRAGMENT_SIZE == i * MAX_FRAGMENT_SIZE + MAX_FRAGMENT_SIZE)
            by (nonlinear_arith);
    }
}

pub proof fn lemma_datagrams_size_nonnegative(datagrams: Seq<DatagramView>)
    ensures
        datagrams_size(datagrams) >= 0,
    decreases datagrams.len(),
{
    if datagrams.len() > 0 {
        lemma_datagrams_size_nonnegative(datagrams.drop_last());
    }
}

pub proof fn lemma_close_wf(emission: DataEmission, now_ms: u64)
    requires
        emission_wf(emission),
        emission.open.len() > 0,
        !emission.state.log.is_full(),
    ensures
        emission_wf(emission.close(now_ms)),
{
}

pub proof fn lemma_add_resend_wf(emission: DataEmission, now_ms: u64, rtt_ms: u64)
    requires
        emission_wf(emission),
        takes_resend(emission, now_ms),
    ensures
        emission_wf(emission.add_resend(now_ms, rtt_ms)),
{
    let entries = emission.state.resends.entries;
    lemma_datagrams_size_push(emission.open, entries[0].datagram);
    lemma_skip_wf(entries);
    lemma_insert_wf(entries.skip(1), sent_again(entries[0], now_ms, rtt_ms));
}

pub proof fn lemma_add_queued_wf(emission: DataEmission, now_ms: u64, rtt_ms: u64)
    requires
        emission_wf(emission),
        takes_queued(emission, now_ms),
    ensures
        emission_wf(emission.add_queued(now_ms, rtt_ms)),
{
    let first = emission.state.queue[0];
    let resends = emission.state.resends;
    lemma_datagrams_size_push(emission.open, first.datagram);
    if first.resend {
        lemma_insert_wf(
            resends.entries,
            sent_once(first.datagram, resends.next_key, now_ms, rtt_ms),
        );
    }
}

pub proof fn lemma_refill_wf(emission: DataEmission)
    requires
        emission_wf(emission),
    ensures
        emission_wf(emission.refill()),
{
    lemma_next_datagrams_fit(emission.state.sender);
    let queue = emission.state.queue;
    let more = emission.state.sender.next_datagrams();
    assert forall|i: int| 0 <= i < (queue + more).len() implies fits_a_frame(
        (#[trigger] (queue + more)[i]).datagram,
    ) by {
        if i >= queue.len() {
            assert((queue + more)[i] == more[i - queue.len()]);
        }
    }
}

/// What making room does, besides giving room, to a datagram that fits in a frame.
proof fn lemma_make_room(
    inv: spec_fn(DataEmission) -> bool,
    emission: DataEmission,
    datagram: DatagramView,
    now_ms: u64,
)
    requires
        emission_wf(emission),
        inv(emission),
        !emission.state.log.is_full(),
        fits_a_frame(datagram),
        kept_by_close(inv, now_ms),
    ensures
        match emission.make_room(datagram, now_ms) {
            Room::Fits => true,
            Room::Retry(closed) => {
                &&& emission_wf(closed)
                &&& inv(closed)
                &&& !closed.state.log.is_full()
                &&& closed.state.resends == emission.state.resends
                &&& closed.state.queue == emission.state.queue
                &&& closed.state.sender == emission.state.sender
            },
            Room::Stop(outcome) => {
                &&& emission_wf(outcome.emission)
                &&& inv(outcome.emission)
                &&& outcome.emission.open.len() == 0
                &&& outcome.emission.state.resends == emission.state.resends
                &&& outcome.emission.state.queue == emission.state.queue
                &&& outcome.emission.state.sender == emission.state.sender
                &&& outcome.size_limited ==> exceeds_budget(outcome.emission, datagram)
                &&& !outcome.size_limited ==> outcome.emission.state.log.is_full()
            },
        },
{
    lemma_datagrams_size_nonnegative(emission.open);
    if emission.open.len() > 0 {
        lemma_close_wf(emission, now_ms);
    }
}

/// What every step keeps holds after the datagrams that are to be sent again.
pub proof fn lemma_resend_phase_keeps(
    inv: spec_fn(DataEmission) -> bool,
    emission: DataEmission,
    now_ms: u64,
    rtt_ms: u64,
)
    requires
        emission_wf(emission),
        inv(emission),
        !emission.state.log.is_full(),
        kept_by_close(inv, now_ms),
        kept_by_resends(inv, now_ms, rtt_ms),
    ensures
        match resend_phase(emission, now_ms, rtt_ms) {
            ResendPhase::Over(end) => {
                &&& emission_wf(end)
                &&& inv(end)
                &&& !end.state.log.is_full()
                &&& none_due(end.state.resends.entries, now_ms)
            },
            ResendPhase::Stop(outcome) => {
                &&& emission_wf(outcome.emission)
                &&& inv(outcome.emission)
                &&& outcome.emission.open.len() == 0
                &&& resends_stopped(outcome, now_ms)
            },
        },
    decreases
            MAX_FRAME_TRANSFER_WINDOW_SIZE - emission.state.log.frames.len(),
            MAX_TRANSFER_UNIT - data_frame_size(emission.open),
            emission.state.resends.entries.len(),
{
    let entries = emission.state.resends.entries;
    if entries.len() == 0 {
    } else if entries[0].acknowledged {
        lemma_skip_wf(entries);
        lemma_resend_phase_keeps(inv, emission.drop_resend(), now_ms, rtt_ms);
    } else if entries[0].resend_time > now_ms {
    } else {
        lemma_datagrams_size_push(emission.open, entries[0].datagram);
        lemma_make_room(inv, emission, entries[0].datagram, now_ms);
        match emission.make_room(entries[0].datagram, now_ms) {
            Room::Fits => {
                lemma_add_resend_wf(emission, now_ms, rtt_ms);
                lemma_resend_phase_keeps(
                    inv,
                    emission.add_resend(now_ms, rtt_ms),
                    now_ms,
                    rtt_ms,
                );
            },
            Room::Retry(closed) => {
                lemma_resend_phase_keeps(inv, closed, now_ms, rtt_ms);
            },
            Room::Stop(_) => {},
        }
    }
}

/// What every step keeps holds after the datagrams that have not been sent yet.
pub proof fn lemma_queue_phase_keeps(
    inv: spec_fn(DataEmission) -> bool,
    emission: DataEmission,
    now_ms: u64,
    rtt_ms: u64,
)
    requires
        emission_wf(emission),
        inv(emission),
        !emission.state.log.is_full(),
        kept_by_close(inv, now_ms),
        kept_by_queue(inv, now_ms, rtt_ms),
    ensures
        ({
            let outcome = queue_phase(emission, now_ms, rtt_ms);
            &&& emission_wf(outcome.emission)
            &&& inv(outcome.emission)
            &&& outcome.emission.open.len() == 0
            &&& queue_ended(outcome)
        }),
    decreases
            MAX_FRAME_TRANSFER_WINDOW_SIZE - emission.state.log.frames.len(),
            emission.state.sender.waiting.len(),
            emission.state.queue.len(),
{
    let queue = emission.state.queue;
    if queue.len() == 0 {
        if emission.state.sender.can_emit() {
            lemma_refill_wf(emission);
            lemma_queue_phase_keeps(inv, emission.refill(), now_ms, rtt_ms);
        } else if emission.open.len() > 0 {
            lemma_close_wf(emission, now_ms);
        }
    } else {
        lemma_make_room(inv, emission, queue[0].datagram, now_ms);
        match emission.make_room(queue[0].datagram, now_ms) {
            Room::Fits => {
                lemma_add_queued_wf(emission, now_ms, rtt_ms);
                lemma_queue_phase_keeps(
                    inv,
                    emission.add_queued(now_ms, rtt_ms),
                    now_ms,
                    rtt_ms,
                );
            },
            Room::Retry(closed) => {
                lemma_queue_phase_keeps(inv, closed, now_ms, rtt_ms);
            },
            Room::Stop(_) => {},
        }
    }
}

/// What every step keeps holds at the end.
pub proof fn lemma_both_phases_keep(
    inv: spec_fn(DataEmission) -> bool,
    emission: DataEmission,
    now_ms: u64,
    rtt_ms: u64,
)
    requires
        emission_wf(emission),
        inv(emission),
        !emission.state.log.is_full(),
        kept_by_close(inv, now_ms),
        kept_by_resends(inv, now_ms, rtt_ms),
        kept_by_queue(inv, now_ms, rtt_ms),
    ensures
        ({
            let outcome = both_phases(emission, now_ms, rtt_ms);
            &&& emission_wf(outcome.emission)
            &&& inv(outcome.emission)
            &&& outcome.emission.open.len() == 0
        }),
{
    lemma_resend_phase_keeps(inv, emission, now_ms, rtt_ms);
    match resend_phase(emission, now_ms, rtt_ms) {
        ResendPhase::Over(end) => {
            lemma_queue_phase_keeps(inv, end, now_ms, rtt_ms);
        },
        ResendPhase::Stop(_) => {},
    }
}

} // verus!
