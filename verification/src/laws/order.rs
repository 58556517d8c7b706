//! The order of the datagrams in the data frames of an emission.
use super::data::lemma_start_wf;
use super::induction::emission_wf;
use super::induction::lemma_queue_phase_keeps;
use super::induction::lemma_resend_phase_keeps;
use super::induction::state_wf;
use super::induction::takes_queued;
use super::induction::takes_resend;
use crate::datagram_queue::QueuedDatagram;
use crate::emission::data_emission;
use crate::emission::queue_phase;
use crate::emission::resend_phase;
use crate::emission::sent_again;
use crate::emission::sent_once;
use crate::emission::DataEmission;
use crate::emission::EmitterView;
use crate::emission::ResendPhase;
use crate::frame::serial::DataFramePlan;
use crate::frame::DatagramView;
use crate::packet_sender::PacketSenderView;
use crate::resend_queue::insert_by_time;
use crate::resend_queue::lemma_insert_by_time;
use crate::resend_queue::lemma_rank;
use crate::resend_queue::rank;
use crate::resend_queue::PendingResend;
use vstd::arithmetic::power2::pow2;
use vstd::prelude::*;

verus! {

/// The datagrams of the frames `sent`, one after the other.
pub open spec fn all_datagrams(sent: Seq<DataFramePlan>) -> Seq<DatagramView>
    decreases sent.len(),
{
    if sent.len() == 0 {
        Seq::empty()
    } else {
        all_datagrams(sent.drop_last()) + sent.last().datagrams
    }
}

/// The datagrams sent so far and those of the frame being put together.
pub open spec fn emitted(emission: DataEmission) -> Seq<DatagramView> {
    all_datagrams(emission.sent) + emission.open
}

/// Whether `entry` is to be sent again at `now_ms`.
pub open spec fn is_due(entry: PendingResend, now_ms: u64) -> bool {
    !entry.acknowledged && entry.resend_time <= now_ms
}

/// Those of `entries` that are to be sent again at `now_ms`, in the same order.
pub open spec fn due(entries: Seq<PendingResend>, now_ms: u64) -> Seq<PendingResend>
    decreases entries.len(),
{
    if entries.len() == 0 {
        Seq::empty()
    } else if is_due(entries[0], now_ms) {
        seq![entries[0]] + due(entries.skip(1), now_ms)
    } else {
        due(entries.skip(1), now_ms)
    }
}

pub open spec fn resend_datagrams(entries: Seq<PendingResend>) -> Seq<DatagramView> {
    entries.map_values(|entry: PendingResend| entry.datagram)
}

pub open spec fn queued_datagrams(queue: Seq<QueuedDatagram>) -> Seq<DatagramView> {
    queue.map_values(|queued: QueuedDatagram| queued.datagram)
}

/// `sender` after its first `packets` waiting packets have been put into transit.
pub open spec fn sender_after(sender: PacketSenderView, packets: nat) -> PacketSenderView
    decreases packets,
{
    if packets == 0 {
        sender
    } else {
        sender_after(sender, (packets - 1) as nat).emit()
    }
}

/// `queue`, and behind it the datagrams of the first `packets` packets that wait at `sender`.
pub open spec fn offered(
    queue: Seq<QueuedDatagram>,
    sender: PacketSenderView,
    packets: nat,
) -> Seq<QueuedDatagram>
    decreases packets,
{
    if packets == 0 {
        queue
    } else {
        offered(queue, sender, (packets - 1) as nat) + sender_after(
            sender,
            (packets - 1) as nat,
        ).next_datagrams()
    }
}

/// Whether `sender` had room for each of its first `packets` waiting packets in turn.
pub open spec fn had_room(sender: PacketSenderView, packets: nat) -> bool {
    forall|i: nat| i < packets ==> (#[trigger] sender_after(sender, i)).can_emit()
}

/// Whether `entries` hold `datagram`, not acknowledged.
pub open spec fn holds(entries: Seq<PendingResend>, datagram: DatagramView) -> bool {
    exists|i: int|
        0 <= i < entries.len() && !(#[trigger] entries[i]).acknowledged && entries[i].datagram
            == datagram
}

/// Whether `packets` packets were put into transit, and `count` of the datagrams that had not been
/// sent were sent, in order, behind `before`; the others are left, in order. Those sent that are to
/// be sent until they are acknowledged are held for that.
pub open spec fn queue_in_order(
    start: EmitterView,
    end: EmitterView,
    before: Seq<DatagramView>,
    sent: Seq<DatagramView>,
    packets: nat,
    count: int,
) -> bool {
    let all = offered(start.queue, start.sender, packets);
    &&& had_room(start.sender, packets)
    &&& end.sender == sender_after(start.sender, packets)
    &&& 0 <= count <= all.len()
    &&& sent == before + queued_datagrams(all.take(count))
    &&& end.queue == all.skip(count)
    &&& forall|i: int|
        0 <= i < count && (#[trigger] all[i]).resend ==> holds(
            end.resends.entries,
            all[i].datagram,
        )
}

/// Whether `count` of the datagrams that were due were sent, in order; the others are still due.
pub open spec fn resends_in_order(
    start: EmitterView,
    end: EmitterView,
    now_ms: u64,
    sent: Seq<DatagramView>,
    count: int,
) -> bool {
    let all = due(start.resends.entries, now_ms);
    &&& 0 <= count <= all.len()
    &&& sent == resend_datagrams(all.take(count))
    &&& due(end.resends.entries, now_ms) == all.skip(count)
}

proof fn lemma_holds_insert(
    entries: Seq<PendingResend>,
    entry: PendingResend,
    datagram: DatagramView,
)
    ensures
        holds(entries, datagram) ==> holds(insert_by_time(entries, entry), datagram),
        !entry.acknowledged ==> holds(insert_by_time(entries, entry), entry.datagram),
{
    lemma_insert_by_time(entries, entry);
    let inserted = insert_by_time(entries, entry);
    if holds(entries, datagram) {
        let i = choose|i: int|
            0 <= i < entries.len() && !(#[trigger] entries[i]).acknowledged && entries[i].datagram
                == datagram;
        assert(entries.contains(entries[i]));
        assert(inserted.contains(entries[i]));
    }
}

proof fn lemma_emitted_close(emission: DataEmission, now_ms: u64)
    ensures
        emitted(emission.close(now_ms)) == emitted(emission),
{
    assert(emission.close(now_ms).sent.drop_last() =~= emission.sent);
    assert(emitted(emission.close(now_ms)) =~= emitted(emission));
}

/// An entry that is not due does not count where it is put.
proof fn lemma_due_insert(
    entries: Seq<PendingResend>,
    at: int,
    entry: PendingResend,
    now_ms: u64,
)
    requires
        0 <= at <= entries.len(),
        !is_due(entry, now_ms),
    ensures
        due(entries.insert(at, entry), now_ms) == due(entries, now_ms),
    decreases at,
{
    let inserted = entries.insert(at, entry);
    if at == 0 {
        assert(inserted.skip(1) =~= entries);
        assert(inserted[0] == entry);
    } else {
        assert(inserted.skip(1) =~= entries.skip(1).insert(at - 1, entry));
        assert(inserted[0] == entries[0]);
        lemma_due_insert(entries.skip(1), at - 1, entry, now_ms);
    }
}

pub proof fn lemma_none_due(entries: Seq<PendingResend>, now_ms: u64)
    requires
        forall|i: int| 0 <= i < entries.len() ==> !is_due(#[trigger] entries[i], now_ms),
    ensures
        due(entries, now_ms).len() == 0,
    decreases entries.len(),
{
    if entries.len() > 0 {
        assert(!is_due(entries[0], now_ms));
        assert forall|i: int| 0 <= i < entries.skip(1).len() implies !is_due(
            #[trigger] entries.skip(1)[i],
            now_ms,
        ) by {
            assert(entries.skip(1)[i] == entries[i + 1]);
        }
        lemma_none_due(entries.skip(1), now_ms);
    }
}

proof fn lemma_sent_again_not_due(entry: PendingResend, now_ms: u64, rtt_ms: u64)
    requires
        rtt_ms > 0,
    ensures
        !is_due(sent_again(entry, now_ms, rtt_ms), now_ms),
{
    vstd::arithmetic::power2::lemma_pow2_pos(entry.send_count as nat);
    let factor = pow2(entry.send_count as nat);
    assert(rtt_ms * factor > 0) by (nonlinear_arith)
        requires
            rtt_ms > 0,
            factor > 0,
    ;
}

/// The datagrams that are due are sent in order while there is room; if all are sent, none is due
/// any more.
proof fn lemma_resends_in_order(
    start: EmitterView,
    now_ms: u64,
    rtt_ms: u64,
    max_send_size: usize,
)
    requires
        state_wf(start),
        !start.log.is_full(),
        rtt_ms > 0,
    ensures
        match resend_phase(DataEmission::start(start, max_send_size), now_ms, rtt_ms) {
            ResendPhase::Over(end) => {
                &&& emission_wf(end)
                &&& !end.state.log.is_full()
                &&& end.state.queue == start.queue
                &&& end.state.sender == start.sender
                &&& resends_in_order(
                    start,
                    end.state,
                    now_ms,
                    emitted(end),
                    due(start.resends.entries, now_ms).len() as int,
                )
            },
            ResendPhase::Stop(outcome) => {
                &&& outcome.emission.open.len() == 0
                &&& outcome.emission.state.queue == start.queue
                &&& outcome.emission.state.sender == start.sender
                &&& exists|count: int| #[trigger]
                    resends_in_order(
                        start,
                        outcome.emission.state,
                        now_ms,
                        emitted(outcome.emission),
                        count,
                    )
            },
        },
{
    let first = DataEmission::start(start, max_send_size);
    let all = due(start.resends.entries, now_ms);
    let inv = |emission: DataEmission|
        {
            &&& emission.state.queue == start.queue
            &&& emission.state.sender == start.sender
            &&& exists|count: int| #[trigger]
                resends_in_order(start, emission.state, now_ms, emitted(emission), count)
        };
    assert(inv(first)) by {
        assert(emitted(first) =~= resend_datagrams(all.take(0)));
        assert(all.skip(0) =~= all);
        assert(resends_in_order(start, first.state, now_ms, emitted(first), 0));
    }
    assert forall|emission: DataEmission|
        #![trigger inv(emission)]
        emission_wf(emission) && inv(emission) && emission.open.len() > 0
            && !emission.state.log.is_full() implies inv(emission.close(now_ms)) by {
        lemma_emitted_close(emission, now_ms);
        let count = choose|count: int| #[trigger]
            resends_in_order(start, emission.state, now_ms, emitted(emission), count);
        let closed = emission.close(now_ms);
        assert(resends_in_order(start, closed.state, now_ms, emitted(closed), count));
    }
    assert forall|emission: DataEmission|
        #![trigger inv(emission)]
        emission_wf(emission) && inv(emission) implies {
        &&& emission.state.resends.entries.len() > 0
            && emission.state.resends.entries[0].acknowledged ==> inv(emission.drop_resend())
        &&& takes_resend(emission, now_ms) ==> inv(emission.add_resend(now_ms, rtt_ms))
    } by {
        let entries = emission.state.resends.entries;
        let count = choose|count: int| #[trigger]
            resends_in_order(start, emission.state, now_ms, emitted(emission), count);
        if entries.len() > 0 && entries[0].acknowledged {
            let next = emission.drop_resend();
            assert(resends_in_order(start, next.state, now_ms, emitted(next), count));
        }
        if takes_resend(emission, now_ms) {
            let next = emission.add_resend(now_ms, rtt_ms);
            let again = sent_again(entries[0], now_ms, rtt_ms);
            lemma_sent_again_not_due(entries[0], now_ms, rtt_ms);
            lemma_rank(entries.skip(1), again.resend_time);
            lemma_due_insert(
                entries.skip(1),
                rank(entries.skip(1), again.resend_time),
                again,
                now_ms,
            );
            let rest = all.skip(count);
            assert(rest == seq![entries[0]] + due(entries.skip(1), now_ms));
            assert(rest[0] == entries[0] && rest[0] == all[count]);
            assert(all.skip(count + 1) =~= due(entries.skip(1), now_ms)) by {
                assert(rest.skip(1) =~= due(entries.skip(1), now_ms));
                assert(rest.skip(1) =~= all.skip(count + 1));
            }
            assert(all.take(count + 1) =~= all.take(count).push(all[count]));
            assert(resend_datagrams(all.take(count + 1)) =~= resend_datagrams(
                all.take(count),
            ).push(all[count].datagram));
            assert(emitted(next) =~= emitted(emission).push(entries[0].datagram));
            assert(resends_in_order(start, next.state, now_ms, emitted(next), count + 1));
        }
    }
    lemma_resend_phase_keeps(inv, first, now_ms, rtt_ms);
    match resend_phase(first, now_ms, rtt_ms) {
        ResendPhase::Over(end) => {
            let entries = end.state.resends.entries;
            assert forall|i: int| 0 <= i < entries.len() implies !is_due(
                #[trigger] entries[i],
                now_ms,
            ) by {
                assert(entries[0].resend_time <= entries[i].resend_time);
            }
            lemma_none_due(entries, now_ms);
            let count = choose|count: int| #[trigger]
                resends_in_order(start, end.state, now_ms, emitted(end), count);
            assert(all.skip(count).len() == 0);
            assert(count == all.len());
        },
        ResendPhase::Stop(_) => {},
    }
}

/// The datagrams that have not been sent yet are sent in order, and behind them those of the
/// packets that wait, in order.
proof fn lemma_queue_in_order(first: DataEmission, now_ms: u64, rtt_ms: u64)
    requires
        emission_wf(first),
        !first.state.log.is_full(),
    ensures
        ({
            let outcome = queue_phase(first, now_ms, rtt_ms);
            &&& outcome.emission.open.len() == 0
            &&& exists|packets: nat, count: int| #[trigger]
                queue_in_order(
                    first.state,
                    outcome.emission.state,
                    emitted(first),
                    emitted(outcome.emission),
                    packets,
                    count,
                )
        }),
{
    let start = first.state;
    let inv = |emission: DataEmission|
        exists|packets: nat, count: int| #[trigger]
            queue_in_order(
                start,
                emission.state,
                emitted(first),
                emitted(emission),
                packets,
                count,
            );
    assert(inv(first)) by {
        assert(offered(start.queue, start.sender, 0) == start.queue);
        assert(start.queue.skip(0) =~= start.queue);
        assert(emitted(first) =~= emitted(first) + queued_datagrams(start.queue.take(0)));
        assert(queue_in_order(start, start, emitted(first), emitted(first), 0, 0));
    }
    assert forall|emission: DataEmission|
        #![trigger inv(emission)]
        emission_wf(emission) && inv(emission) && emission.open.len() > 0
            && !emission.state.log.is_full() implies inv(emission.close(now_ms)) by {
        lemma_emitted_close(emission, now_ms);
        let (packets, count) = choose|packets: nat, count: int| #[trigger]
            queue_in_order(
                start,
                emission.state,
                emitted(first),
                emitted(emission),
                packets,
                count,
            );
        let closed = emission.close(now_ms);
        assert(queue_in_order(
            start,
            closed.state,
            emitted(first),
            emitted(closed),
            packets,
            count,
        ));
    }
    assert forall|emission: DataEmission|
        #![trigger inv(emission)]
        emission_wf(emission) && inv(emission) implies {
        &&& emission.state.queue.len() == 0 && emission.state.sender.can_emit() ==> inv(
            emission.refill(),
        )
        &&& takes_queued(emission, now_ms) ==> inv(emission.add_queued(now_ms, rtt_ms))
    } by {
        let (packets, count) = choose|packets: nat, count: int| #[trigger]
            queue_in_order(
                start,
                emission.state,
                emitted(first),
                emitted(emission),
                packets,
                count,
            );
        let all = offered(start.queue, start.sender, packets);
        if emission.state.queue.len() == 0 && emission.state.sender.can_emit() {
            let next = emission.refill();
            let more = emission.state.sender.next_datagrams();
            let next_all = offered(start.queue, start.sender, packets + 1);
            assert(next_all == all + more);
            assert(count == all.len());
            assert(next_all.take(count) =~= all.take(count));
            assert(next_all.skip(count) =~= more);
            assert(next.state.queue =~= more);
            assert forall|i: int| 0 <= i < count && (#[trigger] next_all[i]).resend implies holds(
                next.state.resends.entries,
                next_all[i].datagram,
            ) by {
                assert(next_all[i] == all[i]);
            }
            assert forall|i: nat| i < packets + 1 implies (#[trigger] sender_after(
                start.sender,
                i,
            )).can_emit() by {
                if i == packets {
                    assert(sender_after(start.sender, i) == emission.state.sender);
                }
            }
            assert(queue_in_order(
                start,
                next.state,
                emitted(first),
                emitted(next),
                packets + 1,
                count,
            ));
        }
        if takes_queued(emission, now_ms) {
            let next = emission.add_queued(now_ms, rtt_ms);
            let queued = emission.state.queue[0];
            assert(queued == all[count]);
            assert(all.take(count + 1) =~= all.take(count).push(queued));
            assert(all.skip(count).skip(1) =~= all.skip(count + 1));
            assert(queued_datagrams(all.take(count + 1)) =~= queued_datagrams(
                all.take(count),
            ).push(queued.datagram));
            assert(emitted(next) =~= emitted(emission).push(queued.datagram));
            assert(emitted(next) =~= emitted(first) + queued_datagrams(all.take(count + 1)));
            assert forall|i: int| 0 <= i < count + 1 && (#[trigger] all[i]).resend implies holds(
                next.state.resends.entries,
                all[i].datagram,
            ) by {
                if queued.resend {
                    let resends = emission.state.resends;
                    lemma_holds_insert(
                        resends.entries,
                        sent_once(queued.datagram, resends.next_key, now_ms, rtt_ms),
                        all[i].datagram,
                    );
                }
            }
            assert(queue_in_order(
                start,
                next.state,
                emitted(first),
                emitted(next),
                packets,
                count + 1,
            ));
        }
    }
    lemma_queue_phase_keeps(inv, first, now_ms, rtt_ms);
}

/// Data frames carry first the datagrams that are due, in the order of their times, then those
/// that have not been sent yet, in order, and behind them those of the packets that are put into
/// transit, in order. What is not sent is left, in order; and as long as a datagram is due, none is
/// sent for the first time.
///
/// The time until a datagram is sent again has to be positive: otherwise a datagram is due again
/// as soon as it has been sent, and is sent over and over.
pub proof fn law_sends_in_order(
    state: EmitterView,
    now_ms: u64,
    rtt_ms: u64,
    max_send_size: usize,
)
    requires
        state_wf(state),
        rtt_ms > 0,
    ensures
        ({
            let end = data_emission(state, now_ms, rtt_ms, max_send_size).emission;
            let all_due = due(state.resends.entries, now_ms);
            exists|resends: int, packets: nat, count: int|
                {
                    &&& 0 <= resends <= all_due.len()
                    &&& #[trigger] queue_in_order(
                        state,
                        end.state,
                        resend_datagrams(all_due.take(resends)),
                        all_datagrams(end.sent),
                        packets,
                        count,
                    )
                    &&& packets > 0 || count > 0 ==> resends == all_due.len()
                }
        }),
{
    let start = DataEmission::start(state, max_send_size);
    let all_due = due(state.resends.entries, now_ms);
    let end = data_emission(state, now_ms, rtt_ms, max_send_size).emission;
    lemma_start_wf(state, max_send_size);
    assert(offered(state.queue, state.sender, 0) == state.queue);
    assert(state.queue.skip(0) =~= state.queue);
    assert(queued_datagrams(state.queue.take(0)) =~= Seq::empty());
    if state.log.is_full() {
        assert(resend_datagrams(all_due.take(0)) =~= Seq::empty());
        assert(all_datagrams(end.sent) =~= resend_datagrams(all_due.take(0)) + queued_datagrams(
            state.queue.take(0),
        ));
        assert(queue_in_order(
            state,
            end.state,
            resend_datagrams(all_due.take(0)),
            all_datagrams(end.sent),
            0,
            0,
        ));
    } else {
        lemma_resends_in_order(state, now_ms, rtt_ms, max_send_size);
        match resend_phase(start, now_ms, rtt_ms) {
            ResendPhase::Over(over) => {
                lemma_queue_in_order(over, now_ms, rtt_ms);
                let (packets, count) = choose|packets: nat, count: int| #[trigger]
                    queue_in_order(
                        over.state,
                        end.state,
                        emitted(over),
                        emitted(end),
                        packets,
                        count,
                    );
                assert(emitted(end) =~= all_datagrams(end.sent));
                assert(queue_in_order(
                    state,
                    end.state,
                    resend_datagrams(all_due.take(all_due.len() as int)),
                    all_datagrams(end.sent),
                    packets,
                    count,
                ));
            },
            ResendPhase::Stop(outcome) => {
                let resends = choose|resends: int| #[trigger]
                    resends_in_order(state, end.state, now_ms, emitted(end), resends);
                assert(emitted(end) =~= all_datagrams(end.sent));
                assert(all_datagrams(end.sent) =~= resend_datagrams(all_due.take(resends))
                    + queued_datagrams(state.queue.take(0)));
                assert(queue_in_order(
                    state,
                    end.state,
                    resend_datagrams(all_due.take(resends)),
                    all_datagrams(end.sent),
                    0,
                    0,
                ));
            },
        }
    }
}

/// Whether `datagram` is one of those that are due and not acknowledged.
pub open spec fn comes_from_due(state: EmitterView, now_ms: u64, datagram: DatagramView) -> bool {
    exists|i: int|
        0 <= i < state.resends.entries.len() && is_due(
            #[trigger] state.resends.entries[i],
            now_ms,
        ) && state.resends.entries[i].datagram == datagram
}

/// Whether each of `datagrams` is one of those that are due and not acknowledged.
pub open spec fn all_come_from_due(
    state: EmitterView,
    now_ms: u64,
    datagrams: Seq<DatagramView>,
) -> bool {
    forall|i: int|
        0 <= i < datagrams.len() ==> comes_from_due(state, now_ms, #[trigger] datagrams[i])
}

/// Only datagrams that are due and not acknowledged are sent again.
proof fn lemma_resends_come_from_due(
    start: EmitterView,
    now_ms: u64,
    rtt_ms: u64,
    max_send_size: usize,
)
    requires
        state_wf(start),
        !start.log.is_full(),
    ensures
        match resend_phase(DataEmission::start(start, max_send_size), now_ms, rtt_ms) {
            ResendPhase::Over(end) => {
                &&& end.state.queue == start.queue
                &&& end.state.sender == start.sender
                &&& all_come_from_due(start, now_ms, emitted(end))
            },
            ResendPhase::Stop(outcome) => {
                &&& outcome.emission.state.queue == start.queue
                &&& outcome.emission.state.sender == start.sender
                &&& all_come_from_due(start, now_ms, emitted(outcome.emission))
            },
        },
{
    let first = DataEmission::start(start, max_send_size);
    let inv = |emission: DataEmission|
        {
            let entries = emission.state.resends.entries;
            &&& emission.state.queue == start.queue
            &&& emission.state.sender == start.sender
            &&& forall|i: int|
                0 <= i < entries.len() && is_due(#[trigger] entries[i], now_ms) ==> comes_from_due(
                    start,
                    now_ms,
                    entries[i].datagram,
                )
            &&& all_come_from_due(start, now_ms, emitted(emission))
        };
    assert(emitted(first).len() == 0);
    assert forall|emission: DataEmission|
        #![trigger inv(emission)]
        emission_wf(emission) && inv(emission) && emission.open.len() > 0
            && !emission.state.log.is_full() implies inv(emission.close(now_ms)) by {
        lemma_emitted_close(emission, now_ms);
    }
    assert forall|emission: DataEmission|
        #![trigger inv(emission)]
        emission_wf(emission) && inv(emission) implies {
        &&& emission.state.resends.entries.len() > 0
            && emission.state.resends.entries[0].acknowledged ==> inv(emission.drop_resend())
        &&& takes_resend(emission, now_ms) ==> inv(emission.add_resend(now_ms, rtt_ms))
    } by {
        let entries = emission.state.resends.entries;
        if entries.len() > 0 && entries[0].acknowledged {
            let next = emission.drop_resend();
            assert(emitted(next) == emitted(emission));
            assert forall|i: int|
                0 <= i < entries.skip(1).len() && is_due(
                    #[trigger] entries.skip(1)[i],
                    now_ms,
                ) implies comes_from_due(start, now_ms, entries.skip(1)[i].datagram) by {
                assert(entries.skip(1)[i] == entries[i + 1]);
            }
        }
        if takes_resend(emission, now_ms) {
            let next = emission.add_resend(now_ms, rtt_ms);
            let again = sent_again(entries[0], now_ms, rtt_ms);
            let inserted = next.state.resends.entries;
            assert(comes_from_due(start, now_ms, entries[0].datagram));
            assert forall|i: int|
                0 <= i < inserted.len() && is_due(
                    #[trigger] inserted[i],
                    now_ms,
                ) implies comes_from_due(start, now_ms, inserted[i].datagram) by {
                lemma_insert_by_time(entries.skip(1), again);
                assert(inserted.contains(inserted[i]));
                if inserted[i] != again {
                    assert(entries.skip(1).contains(inserted[i]));
                }
            }
            assert(emitted(next) =~= emitted(emission).push(entries[0].datagram));
        }
    }
    lemma_resend_phase_keeps(inv, first, now_ms, rtt_ms);
}

/// Every datagram in a data frame is one that was due and not acknowledged, or one that had not
/// been sent yet. The latter are sent in order, behind the former; what is not sent is left, in
/// order, so that nothing gets lost.
pub proof fn law_sends_only_what_is_due(
    state: EmitterView,
    now_ms: u64,
    rtt_ms: u64,
    max_send_size: usize,
)
    requires
        state_wf(state),
    ensures
        ({
            let end = data_emission(state, now_ms, rtt_ms, max_send_size).emission;
            exists|resent: Seq<DatagramView>, packets: nat, count: int|
                {
                    &&& #[trigger] queue_in_order(
                        state,
                        end.state,
                        resent,
                        all_datagrams(end.sent),
                        packets,
                        count,
                    )
                    &&& all_come_from_due(state, now_ms, resent)
                }
        }),
{
    let start = DataEmission::start(state, max_send_size);
    let end = data_emission(state, now_ms, rtt_ms, max_send_size).emission;
    lemma_start_wf(state, max_send_size);
    assert(offered(state.queue, state.sender, 0) == state.queue);
    assert(state.queue.skip(0) =~= state.queue);
    assert(queued_datagrams(state.queue.take(0)) =~= Seq::empty());
    let none = Seq::<DatagramView>::empty();
    if state.log.is_full() {
        assert(all_datagrams(end.sent) =~= none + queued_datagrams(state.queue.take(0)));
        assert(queue_in_order(state, end.state, none, all_datagrams(end.sent), 0, 0));
    } else {
        let any = |emission: DataEmission| true;
        lemma_resend_phase_keeps(any, start, now_ms, rtt_ms);
        lemma_resends_come_from_due(state, now_ms, rtt_ms, max_send_size);
        match resend_phase(start, now_ms, rtt_ms) {
            ResendPhase::Over(over) => {
                lemma_queue_in_order(over, now_ms, rtt_ms);
                let resent = emitted(over);
                let (packets, count) = choose|packets: nat, count: int| #[trigger]
                    queue_in_order(
                        over.state,
                        end.state,
                        resent,
                        emitted(end),
                        packets,
                        count,
                    );
                assert(emitted(end) =~= all_datagrams(end.sent));
                assert(queue_in_order(
                    state,
                    end.state,
                    resent,
                    all_datagrams(end.sent),
                    packets,
                    count,
                ));
            },
            ResendPhase::Stop(_) => {
                assert(emitted(end) =~= all_datagrams(end.sent));
                assert(all_datagrams(end.sent) =~= emitted(end) + queued_datagrams(
                    state.queue.take(0),
                ));
                let resent = emitted(end);
                assert(queue_in_order(
                    state,
                    end.state,
                    resent,
                    all_datagrams(end.sent),
                    0,
                    0,
                ));
            },
        }
    }
}

} // verus!
