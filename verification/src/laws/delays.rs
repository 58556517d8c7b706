//! When a datagram is sent again.
use super::induction::emission_wf;
use super::induction::lemma_both_phases_keep;
use super::induction::lemma_queue_phase_keeps;
use super::induction::lemma_resend_phase_keeps;
use super::induction::state_wf;
use super::induction::takes_queued;
use super::induction::takes_resend;
use super::order::is_due;
use crate::datagram_queue::QueuedDatagram;
use crate::emission::data_emission;
use crate::emission::queue_phase;
use crate::emission::resend_phase;
use crate::emission::sent_again;
use crate::emission::sent_once;
use crate::emission::DataEmission;
use crate::emission::DataOutcome;
use crate::emission::EmitterView;
use crate::emission::ResendPhase;
use crate::frame::serial::lemma_datagrams_size_push;
use crate::frame::serial::DataFramePlan;
use crate::frame::wire::data_frame_size;
use crate::frame::DatagramView;
use crate::frame_log::LoggedFrame;
use crate::resend_queue::lemma_insert_by_time;
use crate::resend_queue::resend_wf;
use crate::resend_queue::PendingResend;
use crate::resend_queue::ResendQueueView;
use vstd::arithmetic::power2::pow2;
use vstd::prelude::*;

verus! {

/// How `entry` is held once it has been sent again at `now_ms`: after the second transmission it is
/// due in two round-trip times, after each further one in four.
pub open spec fn delayed(entry: PendingResend, now_ms: u64, rtt_ms: u64) -> PendingResend {
    PendingResend {
        key: entry.key,
        datagram: entry.datagram,
        acknowledged: false,
        resend_time: if entry.send_count == 1 {
            now_ms + 2 * rtt_ms
        } else {
            now_ms + 4 * rtt_ms
        },
        send_count: 2,
    }
}

/// How `datagram` is held, under the key `key`, once it has been sent for the first time at
/// `now_ms`: it is due in one round-trip time.
pub open spec fn first_held(
    datagram: DatagramView,
    key: u64,
    now_ms: u64,
    rtt_ms: u64,
) -> PendingResend {
    PendingResend {
        key,
        datagram,
        acknowledged: false,
        resend_time: now_ms + rtt_ms,
        send_count: 1,
    }
}

pub proof fn lemma_sent_again_is_delayed(entry: PendingResend, now_ms: u64, rtt_ms: u64)
    requires
        1 <= entry.send_count <= 2,
        !entry.acknowledged,
    ensures
        sent_again(entry, now_ms, rtt_ms) == delayed(entry, now_ms, rtt_ms),
{
    vstd::arithmetic::power2::lemma2_to64();
    assert(rtt_ms * 2 == 2 * rtt_ms && rtt_ms * 4 == 4 * rtt_ms) by (nonlinear_arith);
}

/// `entry` after `count` more transmissions, each as soon as it is due.
pub open spec fn sent_on_time(entry: PendingResend, rtt_ms: u64, count: nat) -> PendingResend
    decreases count,
{
    if count == 0 {
        entry
    } else {
        let before = sent_on_time(entry, rtt_ms, (count - 1) as nat);
        sent_again(before, before.resend_time as u64, rtt_ms)
    }
}

/// How many round-trip times after its first transmission a datagram is due that has been sent
/// again `count` times: 1, 3, 7, 11, and 4 more each time.
pub open spec fn delay_factor(count: nat) -> int {
    if count == 0 {
        1
    } else {
        4 * count - 1
    }
}

/// A datagram that is sent at `start_ms`, and again as soon as it is due, is due 1, 3, 7, 11, ...
/// round-trip times after `start_ms`.
pub proof fn law_resend_times(
    datagram: DatagramView,
    key: u64,
    start_ms: u64,
    rtt_ms: u64,
    count: nat,
)
    requires
        start_ms + rtt_ms * delay_factor(count) <= u64::MAX,
    ensures
        ({
            let entry = sent_on_time(sent_once(datagram, key, start_ms, rtt_ms), rtt_ms, count);
            &&& entry.resend_time == start_ms + rtt_ms * delay_factor(count)
            &&& entry.send_count == if count == 0 {
                1int
            } else {
                2
            }
            &&& entry.key == key
            &&& entry.datagram == datagram
            &&& !entry.acknowledged
        }),
    decreases count,
{
    vstd::arithmetic::power2::lemma2_to64();
    if count > 0 {
        let less = (count - 1) as nat;
        let step = if count == 1 {
            2int
        } else {
            4
        };
        assert(delay_factor(count) == delay_factor(less) + step);
        assert(rtt_ms * delay_factor(count) == rtt_ms * delay_factor(less) + rtt_ms * step)
            by (nonlinear_arith)
            requires
                delay_factor(count) == delay_factor(less) + step,
        ;
        assert(rtt_ms * step >= 0) by (nonlinear_arith)
            requires
                step >= 0,
        ;
        assert(rtt_ms * delay_factor(less) >= 0) by (nonlinear_arith)
            requires
                delay_factor(less) >= 0,
        ;
        law_resend_times(datagram, key, start_ms, rtt_ms, less);
    } else {
        assert(rtt_ms * delay_factor(0) == rtt_ms) by (nonlinear_arith)
            requires
                delay_factor(0) == 1,
        ;
    }
}

/// Whether `entry` is all that `state` has to send, and the log takes frames.
pub open spec fn waits_alone(state: EmitterView, entry: PendingResend) -> bool {
    &&& state.resends.entries == seq![entry]
    &&& !entry.acknowledged
    &&& state.queue.len() == 0
    &&& !state.sender.can_emit()
    &&& !state.log.is_full()
}

/// A datagram that is to be sent until it is acknowledged is sent at once, in one frame, which the
/// log takes up with its key. It is due again after the first delay.
pub proof fn law_first_transmission(
    state: EmitterView,
    now_ms: u64,
    rtt_ms: u64,
    max_send_size: usize,
    datagram: DatagramView,
)
    requires
        state_wf(state),
        state.resends.entries.len() == 0,
        state.queue == seq![QueuedDatagram { datagram, resend: true }],
        !state.sender.can_emit(),
        !state.log.is_full(),
        data_frame_size(seq![datagram]) <= max_send_size,
    ensures
        ({
            let outcome = data_emission(state, now_ms, rtt_ms, max_send_size);
            let end = outcome.emission.state;
            let key = state.resends.next_key;
            &&& !outcome.size_limited
            &&& outcome.emission.sent == seq![
                DataFramePlan { sequence_id: state.log.next_id(), datagrams: seq![datagram] },
            ]
            &&& end.log == state.log.push(
                LoggedFrame { send_time_ms: now_ms, persistent_datagrams: seq![key] },
            )
            &&& end.queue.len() == 0
            &&& end.resends.entries == seq![first_held(datagram, key, now_ms, rtt_ms)]
        }),
{
    let start = DataEmission::start(state, max_send_size);
    let key = state.resends.next_key;
    let none = Seq::<DatagramView>::empty();
    lemma_datagrams_size_push(none, datagram);
    assert(none.push(datagram) =~= seq![datagram]);
    assert(state.queue[0] == (QueuedDatagram { datagram, resend: true }));
    let added = start.add_queued(now_ms, rtt_ms);
    assert(added.state.queue.len() == 0);
    assert(added.state.resends.entries =~= seq![sent_once(datagram, key, now_ms, rtt_ms)]);
    assert(added.open =~= seq![datagram]);
    assert(added.keys =~= seq![key]);
    reveal_with_fuel(queue_phase, 2);
    let plan = DataFramePlan { sequence_id: state.log.next_id(), datagrams: seq![datagram] };
    assert(start.sent.push(plan) =~= seq![plan]);
}

/// A datagram is not sent again before it is due.
pub proof fn law_not_sent_before_due(
    state: EmitterView,
    now_ms: u64,
    rtt_ms: u64,
    max_send_size: usize,
    entry: PendingResend,
)
    requires
        waits_alone(state, entry),
        now_ms < entry.resend_time,
    ensures
        data_emission(state, now_ms, rtt_ms, max_send_size) == (DataOutcome {
            emission: DataEmission::start(state, max_send_size),
            size_limited: false,
        }),
{
}

/// A datagram is sent again once it is due: in one frame, which the log takes up with its key. It
/// is due again after the next delay.
pub proof fn law_sent_once_due(
    state: EmitterView,
    now_ms: u64,
    rtt_ms: u64,
    max_send_size: usize,
    entry: PendingResend,
)
    requires
        state_wf(state),
        waits_alone(state, entry),
        entry.resend_time <= now_ms,
        rtt_ms > 0,
        data_frame_size(seq![entry.datagram]) <= max_send_size,
    ensures
        data_emission(state, now_ms, rtt_ms, max_send_size) == (DataOutcome {
            emission: DataEmission {
                state: EmitterView {
                    resends: ResendQueueView {
                        entries: seq![delayed(entry, now_ms, rtt_ms)],
                        ..state.resends
                    },
                    log: state.log.push(
                        LoggedFrame {
                            send_time_ms: now_ms,
                            persistent_datagrams: seq![entry.key],
                        },
                    ),
                    ..state
                },
                budget: max_send_size - data_frame_size(seq![entry.datagram]),
                open: Seq::empty(),
                keys: Seq::empty(),
                sent: seq![
                    DataFramePlan {
                        sequence_id: state.log.next_id(),
                        datagrams: seq![entry.datagram],
                    },
                ],
            },
            size_limited: false,
        }),
{
    let start = DataEmission::start(state, max_send_size);
    let again = sent_again(entry, now_ms, rtt_ms);
    let none = Seq::<DatagramView>::empty();
    lemma_datagrams_size_push(none, entry.datagram);
    assert(none.push(entry.datagram) =~= seq![entry.datagram]);
    assert(state.resends.entries[0] == entry);
    lemma_sent_again_is_delayed(entry, now_ms, rtt_ms);
    vstd::arithmetic::power2::lemma_pow2_pos(entry.send_count as nat);
    assert(rtt_ms * pow2(entry.send_count as nat) > 0) by (nonlinear_arith)
        requires
            rtt_ms > 0,
            pow2(entry.send_count as nat) > 0,
    ;
    let added = start.add_resend(now_ms, rtt_ms);
    assert(state.resends.entries.skip(1) =~= Seq::empty());
    assert(added.state.resends.entries =~= seq![again]);
    assert(added.open =~= seq![entry.datagram]);
    assert(added.keys =~= seq![entry.key]);
    reveal_with_fuel(resend_phase, 2);
    assert(data_emission(state, now_ms, rtt_ms, max_send_size) == queue_phase(
        added,
        now_ms,
        rtt_ms,
    ));
    let plan = DataFramePlan {
        sequence_id: state.log.next_id(),
        datagrams: seq![entry.datagram],
    };
    assert(start.sent.push(plan) =~= seq![plan]);
}

/// Whether `entry` is held as it was before, or as one that was due and has been sent again at
/// `now_ms`.
pub open spec fn kept_or_delayed(
    state: EmitterView,
    now_ms: u64,
    rtt_ms: u64,
    entry: PendingResend,
) -> bool {
    ||| state.resends.entries.contains(entry)
    ||| exists|i: int|
        {
            let other = #[trigger] state.resends.entries[i];
            &&& 0 <= i < state.resends.entries.len()
            &&& is_due(other, now_ms)
            &&& entry == delayed(other, now_ms, rtt_ms)
        }
}

/// Whether `entry` is held as one that has been sent for the first time at `now_ms`.
pub open spec fn held_first(now_ms: u64, rtt_ms: u64, entry: PendingResend) -> bool {
    entry == first_held(entry.datagram, entry.key, now_ms, rtt_ms)
}

proof fn lemma_delayed_again(
    state: EmitterView,
    now_ms: u64,
    rtt_ms: u64,
    entry: PendingResend,
)
    requires
        resend_wf(entry),
        kept_or_delayed(state, now_ms, rtt_ms, entry),
        is_due(entry, now_ms),
    ensures
        kept_or_delayed(state, now_ms, rtt_ms, sent_again(entry, now_ms, rtt_ms)),
{
    let again = sent_again(entry, now_ms, rtt_ms);
    lemma_sent_again_is_delayed(entry, now_ms, rtt_ms);
    if state.resends.entries.contains(entry) {
        let i = choose|i: int|
            0 <= i < state.resends.entries.len() && state.resends.entries[i] == entry;
        assert(again == delayed(state.resends.entries[i], now_ms, rtt_ms));
    } else {
        let i = choose|i: int|
            {
                let other = #[trigger] state.resends.entries[i];
                &&& 0 <= i < state.resends.entries.len()
                &&& is_due(other, now_ms)
                &&& entry == delayed(other, now_ms, rtt_ms)
            };
        assert(rtt_ms == 0);
        assert(again == delayed(state.resends.entries[i], now_ms, rtt_ms));
    }
}

/// Whatever is held after an emission is held as it was before; or it was due, has been sent again,
/// and is due two round-trip times later if it had been sent once before, and four otherwise; or it
/// has been sent for the first time and is due one round-trip time later. These times count from
/// the transmission, however late it was.
pub proof fn law_delays_count_from_transmission(
    state: EmitterView,
    now_ms: u64,
    rtt_ms: u64,
    max_send_size: usize,
)
    requires
        state_wf(state),
    ensures
        ({
            let entries = data_emission(
                state,
                now_ms,
                rtt_ms,
                max_send_size,
            ).emission.state.resends.entries;
            forall|i: int|
                0 <= i < entries.len() ==> kept_or_delayed(
                    state,
                    now_ms,
                    rtt_ms,
                    #[trigger] entries[i],
                ) || held_first(now_ms, rtt_ms, entries[i])
        }),
{
    let start = DataEmission::start(state, max_send_size);
    let all = state.resends.entries;
    assert forall|i: int| 0 <= i < all.len() implies kept_or_delayed(
        state,
        now_ms,
        rtt_ms,
        #[trigger] all[i],
    ) by {
        assert(all.contains(all[i]));
    }
    let resends_inv = |emission: DataEmission|
        {
            let entries = emission.state.resends.entries;
            forall|i: int|
                0 <= i < entries.len() ==> kept_or_delayed(
                    state,
                    now_ms,
                    rtt_ms,
                    #[trigger] entries[i],
                )
        };
    let queue_inv = |emission: DataEmission|
        {
            let entries = emission.state.resends.entries;
            forall|i: int|
                0 <= i < entries.len() ==> kept_or_delayed(
                    state,
                    now_ms,
                    rtt_ms,
                    #[trigger] entries[i],
                ) || held_first(now_ms, rtt_ms, entries[i])
        };
    assert forall|emission: DataEmission|
        #![trigger resends_inv(emission)]
        emission_wf(emission) && resends_inv(emission) implies {
        &&& emission.state.resends.entries.len() > 0
            && emission.state.resends.entries[0].acknowledged ==> resends_inv(
            emission.drop_resend(),
        )
        &&& takes_resend(emission, now_ms) ==> resends_inv(emission.add_resend(now_ms, rtt_ms))
    } by {
        let entries = emission.state.resends.entries;
        if takes_resend(emission, now_ms) {
            let again = sent_again(entries[0], now_ms, rtt_ms);
            lemma_delayed_again(state, now_ms, rtt_ms, entries[0]);
            lemma_insert_by_time(entries.skip(1), again);
        }
    }
    assert forall|emission: DataEmission|
        #![trigger queue_inv(emission)]
        emission_wf(emission) && queue_inv(emission) implies {
        &&& emission.state.queue.len() == 0 && emission.state.sender.can_emit() ==> queue_inv(
            emission.refill(),
        )
        &&& takes_queued(emission, now_ms) ==> queue_inv(emission.add_queued(now_ms, rtt_ms))
    } by {
        let queued = emission.state.queue[0];
        let resends = emission.state.resends;
        let once = sent_once(queued.datagram, resends.next_key, now_ms, rtt_ms);
        lemma_insert_by_time(resends.entries, once);
        assert(held_first(now_ms, rtt_ms, once));
    }
    if !state.log.is_full() {
        lemma_resend_phase_keeps(resends_inv, start, now_ms, rtt_ms);
        match resend_phase(start, now_ms, rtt_ms) {
            ResendPhase::Over(over) => {
                assert(queue_inv(over));
                lemma_queue_phase_keeps(queue_inv, over, now_ms, rtt_ms);
            },
            ResendPhase::Stop(_) => {},
        }
    }
}

/// A datagram that has not been acknowledged is held as it was, or it was due and is held as one
/// that has been sent again: due two round-trip times later if it had been sent once before, and
/// four otherwise.
pub proof fn law_unacknowledged_is_kept_or_delayed(
    state: EmitterView,
    now_ms: u64,
    rtt_ms: u64,
    max_send_size: usize,
    entry: PendingResend,
)
    requires
        state_wf(state),
        state.resends.entries.contains(entry),
        !entry.acknowledged,
    ensures
        ({
            let entries = data_emission(
                state,
                now_ms,
                rtt_ms,
                max_send_size,
            ).emission.state.resends.entries;
            ||| entries.contains(entry)
            ||| is_due(entry, now_ms) && entries.contains(delayed(entry, now_ms, rtt_ms))
        }),
{
    let start = DataEmission::start(state, max_send_size);
    let later = delayed(entry, now_ms, rtt_ms);
    let inv = |emission: DataEmission|
        {
            ||| emission.state.resends.entries.contains(entry)
            ||| is_due(entry, now_ms) && emission.state.resends.entries.contains(later)
        };
    assert(resend_wf(entry));
    assert forall|emission: DataEmission|
        #![trigger inv(emission)]
        emission_wf(emission) && inv(emission) implies {
        &&& emission.state.resends.entries.len() > 0
            && emission.state.resends.entries[0].acknowledged ==> inv(emission.drop_resend())
        &&& takes_resend(emission, now_ms) ==> inv(emission.add_resend(now_ms, rtt_ms))
        &&& emission.state.queue.len() == 0 && emission.state.sender.can_emit() ==> inv(
            emission.refill(),
        )
        &&& takes_queued(emission, now_ms) ==> inv(emission.add_queued(now_ms, rtt_ms))
    } by {
        let entries = emission.state.resends.entries;
        let rest = entries.skip(1);
        let held = if entries.contains(entry) {
            entry
        } else {
            later
        };
        if entries[0] != held {
            let i = choose|i: int| 0 <= i < entries.len() && entries[i] == held;
            assert(rest[i - 1] == held);
        }
        if takes_resend(emission, now_ms) {
            lemma_sent_again_is_delayed(entries[0], now_ms, rtt_ms);
            lemma_insert_by_time(rest, sent_again(entries[0], now_ms, rtt_ms));
        }
        if takes_queued(emission, now_ms) {
            let queued = emission.state.queue[0];
            lemma_insert_by_time(
                entries,
                sent_once(
                    queued.datagram,
                    emission.state.resends.next_key,
                    now_ms,
                    rtt_ms,
                ),
            );
        }
    }
    if !state.log.is_full() {
        lemma_both_phases_keep(inv, start, now_ms, rtt_ms);
    }
}

} // verus!
