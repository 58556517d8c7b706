//! The ack frames of an emission: what they carry, their sizes, and why there are no more of them.
use crate::emission::ack_emission;
use crate::emission::ack_phase;
use crate::emission::AckEmission;
use crate::emission::AckOutcome;
use crate::frame::serial::lemma_frame_acks_bytes_len;
use crate::frame::wire::ack_frame_bytes;
use crate::frame::wire::ack_frame_size;
use crate::frame::wire::FRAME_ACK_SIZE;
use crate::frame::FrameAck;
use crate::MAX_TRANSFER_UNIT;
use vstd::prelude::*;

verus! {

/// The acknowledgements of the frames `sent`, one after the other.
pub open spec fn all_acks(sent: Seq<Seq<FrameAck>>) -> Seq<FrameAck>
    decreases sent.len(),
{
    if sent.len() == 0 {
        Seq::empty()
    } else {
        all_acks(sent.drop_last()) + sent.last()
    }
}

/// The total length of the ack frames `sent`.
pub open spec fn total_ack_size(sent: Seq<Seq<FrameAck>>) -> int
    decreases sent.len(),
{
    if sent.len() == 0 {
        0
    } else {
        total_ack_size(sent.drop_last()) + ack_frame_size(sent.last().len())
    }
}

/// Whether an ack frame with `acks` holds an acknowledgement and does not exceed the transfer unit.
pub open spec fn acks_fit(acks: Seq<FrameAck>) -> bool {
    0 < acks.len() && ack_frame_size(acks.len()) <= MAX_TRANSFER_UNIT
}

/// What every step of the sending of the acknowledgements `all` within `max_send_size` bytes keeps.
spec fn ack_invariant(emission: AckEmission, all: Seq<FrameAck>, max_send_size: usize) -> bool {
    &&& all_acks(emission.sent) + emission.open + emission.queue == all
    &&& total_ack_size(emission.sent) == max_send_size - emission.budget
    &&& 0 <= total_ack_size(emission.sent) <= max_send_size
    &&& ack_frame_size(emission.open.len()) <= MAX_TRANSFER_UNIT
    &&& emission.open.len() > 0 ==> ack_frame_size(emission.open.len()) <= emission.budget
    &&& forall|i: int| 0 <= i < emission.sent.len() ==> acks_fit(#[trigger] emission.sent[i])
}

proof fn lemma_close_keeps(emission: AckEmission, all: Seq<FrameAck>, max_send_size: usize)
    requires
        ack_invariant(emission, all, max_send_size),
        emission.open.len() > 0,
    ensures
        ack_invariant(emission.close(), all, max_send_size),
{
    let closed = emission.close();
    assert(closed.sent.drop_last() =~= emission.sent);
    assert(all_acks(closed.sent) + closed.open + closed.queue =~= all_acks(emission.sent)
        + emission.open + emission.queue);
}

/// How the sending of the acknowledgements ends: for want of bytes for the first one that is left,
/// or because none is left.
pub open spec fn acks_ended(outcome: AckOutcome) -> bool {
    if outcome.size_limited {
        &&& outcome.emission.queue.len() > 0
        &&& ack_frame_size(1) > outcome.emission.budget
    } else {
        outcome.emission.queue.len() == 0
    }
}

proof fn lemma_ack_phase_keeps(emission: AckEmission, all: Seq<FrameAck>, max_send_size: usize)
    requires
        ack_invariant(emission, all, max_send_size),
    ensures
        ({
            let outcome = ack_phase(emission);
            &&& ack_invariant(outcome.emission, all, max_send_size)
            &&& outcome.emission.open.len() == 0
            &&& acks_ended(outcome)
        }),
    decreases emission.queue.len(), emission.open.len(),
{
    if emission.open.len() > 0 {
        lemma_close_keeps(emission, all, max_send_size);
    }
    if emission.queue.len() > 0 {
        let size = ack_frame_size(emission.open.len()) + FRAME_ACK_SIZE;
        if size > emission.budget {
        } else if size > MAX_TRANSFER_UNIT {
            lemma_ack_phase_keeps(emission.close(), all, max_send_size);
        } else {
            let next = emission.add_ack();
            assert(all_acks(next.sent) + next.open + next.queue =~= all_acks(emission.sent)
                + emission.open + emission.queue);
            lemma_ack_phase_keeps(next, all, max_send_size);
        }
    }
}

proof fn lemma_ack_emission(queue: Seq<FrameAck>, max_send_size: usize)
    ensures
        ({
            let outcome = ack_emission(queue, max_send_size);
            &&& ack_invariant(outcome.emission, queue, max_send_size)
            &&& outcome.emission.open.len() == 0
            &&& acks_ended(outcome)
        }),
{
    let start = AckEmission::start(queue, max_send_size);
    assert(all_acks(start.sent) + start.open + start.queue =~= queue);
    lemma_ack_phase_keeps(start, queue, max_send_size);
}

/// Ack frames carry the acknowledgements in order, and what they do not carry is left, in order.
pub proof fn law_acks_in_order(queue: Seq<FrameAck>, max_send_size: usize)
    ensures
        ({
            let emission = ack_emission(queue, max_send_size).emission;
            all_acks(emission.sent) + emission.queue == queue
        }),
{
    lemma_ack_emission(queue, max_send_size);
    let emission = ack_emission(queue, max_send_size).emission;
    assert(all_acks(emission.sent) + emission.open + emission.queue =~= all_acks(emission.sent)
        + emission.queue);
}

/// Every ack frame holds an acknowledgement and is at most as long as the transfer unit.
pub proof fn law_ack_frames_fit(receiver_base_id: u32, queue: Seq<FrameAck>, max_send_size: usize)
    ensures
        ({
            let sent = ack_emission(queue, max_send_size).emission.sent;
            forall|i: int|
                0 <= i < sent.len() ==> {
                    &&& acks_fit(#[trigger] sent[i])
                    &&& ack_frame_bytes(receiver_base_id, sent[i]).len() == ack_frame_size(
                        sent[i].len(),
                    )
                }
        }),
{
    lemma_ack_emission(queue, max_send_size);
    let sent = ack_emission(queue, max_send_size).emission.sent;
    assert forall|i: int| 0 <= i < sent.len() implies acks_fit(#[trigger] sent[i])
        && ack_frame_bytes(receiver_base_id, sent[i]).len() == ack_frame_size(sent[i].len()) by {
        lemma_frame_acks_bytes_len(sent[i]);
    }
}

/// The bytes given as sent are the total length of the ack frames, and no more than allowed.
pub proof fn law_ack_size_is_total(queue: Seq<FrameAck>, max_send_size: usize)
    ensures
        ({
            let emission = ack_emission(queue, max_send_size).emission;
            &&& total_ack_size(emission.sent) == max_send_size - emission.budget
            &&& 0 <= total_ack_size(emission.sent) <= max_send_size
        }),
{
    lemma_ack_emission(queue, max_send_size);
}

/// Sending stops for want of bytes where an acknowledgement is left and not even a frame with it
/// alone could be sent; otherwise all acknowledgements are sent.
pub proof fn law_why_acks_end(queue: Seq<FrameAck>, max_send_size: usize)
    ensures
        acks_ended(ack_emission(queue, max_send_size)),
{
    lemma_ack_emission(queue, max_send_size);
}

/// Once all acknowledgements have been sent, a second call sends nothing, however many bytes it may
/// send.
pub proof fn law_second_call_sends_no_acks(
    queue: Seq<FrameAck>,
    max_send_size: usize,
    second_max_send_size: usize,
)
    requires
        !ack_emission(queue, max_send_size).size_limited,
    ensures
        ({
            let left = ack_emission(queue, max_send_size).emission.queue;
            ack_emission(left, second_max_send_size) == (AckOutcome {
                emission: AckEmission::start(left, second_max_send_size),
                size_limited: false,
            })
        }),
{
    lemma_ack_emission(queue, max_send_size);
}

/// Whether an ack frame with `acks` has no room for another acknowledgement.
pub open spec fn is_full(acks: Seq<FrameAck>) -> bool {
    ack_frame_size(acks.len()) + FRAME_ACK_SIZE > MAX_TRANSFER_UNIT
}

/// Whether each of the frames `sent` but the last is full.
pub open spec fn all_but_last_full(sent: Seq<Seq<FrameAck>>) -> bool {
    forall|i: int| 0 <= i < sent.len() - 1 ==> is_full(#[trigger] sent[i])
}

proof fn lemma_ack_phase_packs(emission: AckEmission)
    requires
        forall|i: int| 0 <= i < emission.sent.len() ==> is_full(#[trigger] emission.sent[i]),
    ensures
        all_but_last_full(ack_phase(emission).emission.sent),
    decreases emission.queue.len(), emission.open.len(),
{
    assert(all_but_last_full(emission.close().sent));
    if emission.queue.len() > 0 {
        let size = ack_frame_size(emission.open.len()) + FRAME_ACK_SIZE;
        if size > emission.budget {
        } else if size > MAX_TRANSFER_UNIT {
            lemma_ack_phase_packs(emission.close());
        } else {
            lemma_ack_phase_packs(emission.add_ack());
        }
    }
}

/// Every ack frame but the last is full.
pub proof fn law_ack_frames_are_packed(queue: Seq<FrameAck>, max_send_size: usize)
    ensures
        all_but_last_full(ack_emission(queue, max_send_size).emission.sent),
{
    lemma_ack_phase_packs(AckEmission::start(queue, max_send_size));
}

/// Why not all acknowledgements are sent: there are not enough bytes left for another one in the
/// frame sent last; or that frame is full, or there is none, and there are not enough bytes left
/// for a frame with one.
pub open spec fn acks_stopped(outcome: AckOutcome) -> bool {
    let sent = outcome.emission.sent;
    let left = outcome.emission.budget;
    ||| sent.len() > 0 && 9 > left
    ||| (sent.len() == 0 || is_full(sent.last())) && 16 > left
}

proof fn lemma_ack_phase_stops(emission: AckEmission)
    requires
        emission.open.len() > 0 ==> ack_frame_size(emission.open.len()) <= emission.budget,
        emission.sent.len() > 0 && emission.open.len() == 0 ==> is_full(emission.sent.last()),
    ensures
        ({
            let outcome = ack_phase(emission);
            if outcome.emission.queue.len() > 0 {
                outcome.size_limited && acks_stopped(outcome)
            } else {
                !outcome.size_limited
            }
        }),
    decreases emission.queue.len(), emission.open.len(),
{
    if emission.queue.len() > 0 {
        let size = ack_frame_size(emission.open.len()) + FRAME_ACK_SIZE;
        if size > emission.budget {
        } else if size > MAX_TRANSFER_UNIT {
            lemma_ack_phase_stops(emission.close());
        } else {
            lemma_ack_phase_stops(emission.add_ack());
        }
    }
}

/// Sending is said to have stopped for want of bytes exactly if an acknowledgement is left, and
/// one is left only where it could be sent neither in the frame sent last nor in one of its own.
pub proof fn law_ack_end_is_exact(queue: Seq<FrameAck>, max_send_size: usize)
    ensures
        ({
            let outcome = ack_emission(queue, max_send_size);
            if outcome.emission.queue.len() > 0 {
                outcome.size_limited && acks_stopped(outcome)
            } else {
                !outcome.size_limited
            }
        }),
{
    lemma_ack_phase_stops(AckEmission::start(queue, max_send_size));
}

} // verus!
