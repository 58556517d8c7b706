//! The keys by which logged frames refer to the datagrams that are sent until they are
//! acknowledged.
use super::induction::emission_wf;
use super::induction::lemma_both_phases_keep;
use super::induction::state_wf;
use super::induction::takes_queued;
use super::induction::takes_resend;
use super::order::all_datagrams;
use super::order::emitted;
use crate::emission::data_emission;
use crate::emission::sent_again;
use crate::emission::sent_once;
use crate::emission::DataEmission;
use crate::emission::EmitterView;
use crate::frame::DatagramView;
use crate::resend_queue::acknowledge_key;
use crate::resend_queue::insert_by_time;
use crate::resend_queue::lemma_insert_by_time;
use crate::resend_queue::PendingResend;
use crate::resend_queue::ResendQueueView;
use vstd::prelude::*;

verus! {

/// Whether `entry` is `datagram` under the key `key`, not acknowledged.
pub open spec fn is_pending(entry: PendingResend, key: u64, datagram: DatagramView) -> bool {
    entry.key == key && entry.datagram == datagram && !entry.acknowledged
}

/// Whether `entries` hold `datagram` under the key `key`, not acknowledged.
pub open spec fn holds_under(
    entries: Seq<PendingResend>,
    key: u64,
    datagram: DatagramView,
) -> bool {
    exists|i: int| 0 <= i < entries.len() && is_pending(#[trigger] entries[i], key, datagram)
}

/// Whether `entries` hold one of `datagrams` under the key `key`, not acknowledged.
pub open spec fn refers_to(
    entries: Seq<PendingResend>,
    key: u64,
    datagrams: Seq<DatagramView>,
) -> bool {
    exists|i: int|
        0 <= i < datagrams.len() && holds_under(entries, key, #[trigger] datagrams[i])
}

/// Whether each of `keys` refers to one of `datagrams`.
pub open spec fn refer_to(
    entries: Seq<PendingResend>,
    keys: Seq<u64>,
    datagrams: Seq<DatagramView>,
) -> bool {
    forall|i: int| 0 <= i < keys.len() ==> refers_to(entries, #[trigger] keys[i], datagrams)
}

/// Whether the keys of the frames that the log has taken up since `before` refer to datagrams of
/// these frames.
pub open spec fn logged_keys_refer(before: EmitterView, emission: DataEmission) -> bool {
    let count = before.log.frames.len();
    let log = emission.state.log;
    &&& log.frames.len() == count + emission.sent.len()
    &&& forall|i: int|
        0 <= i < emission.sent.len() ==> refer_to(
            emission.state.resends.entries,
            log.frames[count + i].persistent_datagrams,
            (#[trigger] emission.sent[i]).datagrams,
        )
}

/// Whether no two entries have the same key, and all keys have been given out before the next one.
pub open spec fn keys_distinct(entries: Seq<PendingResend>, next_key: u64) -> bool {
    &&& forall|i: int, j: int|
        0 <= i < j < entries.len() ==> (#[trigger] entries[i]).key != (#[trigger] entries[j]).key
    &&& forall|i: int| 0 <= i < entries.len() ==> (#[trigger] entries[i]).key < next_key
}

/// Whether whatever `before` holds, `after` holds too.
spec fn holds_more(before: Seq<PendingResend>, after: Seq<PendingResend>) -> bool {
    forall|key: u64, datagram: DatagramView|
        holds_under(before, key, datagram) ==> #[trigger] holds_under(after, key, datagram)
}

proof fn lemma_insert_holds_more(entries: Seq<PendingResend>, entry: PendingResend)
    ensures
        holds_more(entries, insert_by_time(entries, entry)),
        !entry.acknowledged ==> holds_under(
            insert_by_time(entries, entry),
            entry.key,
            entry.datagram,
        ),
{
    lemma_insert_by_time(entries, entry);
    let inserted = insert_by_time(entries, entry);
    assert forall|key: u64, datagram: DatagramView| holds_under(
        entries,
        key,
        datagram,
    ) implies #[trigger] holds_under(inserted, key, datagram) by {
        let i = choose|i: int|
            0 <= i < entries.len() && is_pending(#[trigger] entries[i], key, datagram);
        assert(entries.contains(entries[i]));
        assert(inserted.contains(entries[i]));
    }
}

proof fn lemma_steps_hold_more(emission: DataEmission, now_ms: u64, rtt_ms: u64)
    ensures
        emission.state.resends.entries.len() > 0
            && emission.state.resends.entries[0].acknowledged ==> holds_more(
            emission.state.resends.entries,
            emission.drop_resend().state.resends.entries,
        ),
        takes_resend(emission, now_ms) ==> holds_more(
            emission.state.resends.entries,
            emission.add_resend(now_ms, rtt_ms).state.resends.entries,
        ),
        takes_queued(emission, now_ms) ==> holds_more(
            emission.state.resends.entries,
            emission.add_queued(now_ms, rtt_ms).state.resends.entries,
        ),
{
    let entries = emission.state.resends.entries;
    let rest = entries.skip(1);
    if entries.len() > 0 && entries[0].acknowledged {
        assert forall|key: u64, datagram: DatagramView| holds_under(
            entries,
            key,
            datagram,
        ) implies #[trigger] holds_under(rest, key, datagram) by {
            let i = choose|i: int|
                0 <= i < entries.len() && is_pending(#[trigger] entries[i], key, datagram);
            assert(rest[i - 1] == entries[i]);
        }
    }
    if takes_resend(emission, now_ms) {
        let again = sent_again(entries[0], now_ms, rtt_ms);
        let inserted = insert_by_time(rest, again);
        lemma_insert_holds_more(rest, again);
        assert forall|key: u64, datagram: DatagramView| holds_under(
            entries,
            key,
            datagram,
        ) implies #[trigger] holds_under(inserted, key, datagram) by {
            let i = choose|i: int|
                0 <= i < entries.len() && is_pending(#[trigger] entries[i], key, datagram);
            if i > 0 {
                assert(rest[i - 1] == entries[i]);
                assert(holds_under(rest, key, datagram));
            }
        }
    }
    if takes_queued(emission, now_ms) && emission.state.queue[0].resend {
        lemma_insert_holds_more(
            entries,
            sent_once(
                emission.state.queue[0].datagram,
                emission.state.resends.next_key,
                now_ms,
                rtt_ms,
            ),
        );
    }
}

proof fn lemma_refer_to_more(
    before: Seq<PendingResend>,
    after: Seq<PendingResend>,
    keys: Seq<u64>,
    datagrams: Seq<DatagramView>,
)
    requires
        holds_more(before, after),
        refer_to(before, keys, datagrams),
    ensures
        refer_to(after, keys, datagrams),
{
    assert forall|i: int| 0 <= i < keys.len() implies refers_to(
        after,
        #[trigger] keys[i],
        datagrams,
    ) by {
        assert(refers_to(before, keys[i], datagrams));
        let j = choose|j: int|
            0 <= j < datagrams.len() && holds_under(before, keys[i], #[trigger] datagrams[j]);
        assert(holds_under(after, keys[i], datagrams[j]));
    }
}

proof fn lemma_refer_to_push(
    entries: Seq<PendingResend>,
    keys: Seq<u64>,
    datagrams: Seq<DatagramView>,
    datagram: DatagramView,
)
    requires
        refer_to(entries, keys, datagrams),
    ensures
        refer_to(entries, keys, datagrams.push(datagram)),
        forall|key: u64| #[trigger]
            holds_under(entries, key, datagram) ==> refer_to(
                entries,
                keys.push(key),
                datagrams.push(datagram),
            ),
{
    let more = datagrams.push(datagram);
    assert forall|i: int| 0 <= i < keys.len() implies refers_to(
        entries,
        #[trigger] keys[i],
        more,
    ) by {
        assert(refers_to(entries, keys[i], datagrams));
        let j = choose|j: int|
            0 <= j < datagrams.len() && holds_under(entries, keys[i], #[trigger] datagrams[j]);
        assert(more[j] == datagrams[j]);
    }
    assert forall|key: u64| #[trigger] holds_under(entries, key, datagram) implies refer_to(
        entries,
        keys.push(key),
        more,
    ) by {
        assert forall|i: int| 0 <= i < keys.push(key).len() implies refers_to(
            entries,
            #[trigger] keys.push(key)[i],
            more,
        ) by {
            if i == keys.len() {
                assert(more[datagrams.len() as int] == datagram);
            } else {
                assert(keys.push(key)[i] == keys[i]);
            }
        }
    }
}

/// A datagram that is to be sent again is held, under its key, until it has been acknowledged.
pub proof fn law_held_until_acknowledged(
    state: EmitterView,
    now_ms: u64,
    rtt_ms: u64,
    max_send_size: usize,
    key: u64,
    datagram: DatagramView,
)
    requires
        state_wf(state),
        holds_under(state.resends.entries, key, datagram),
    ensures
        holds_under(
            data_emission(
                state,
                now_ms,
                rtt_ms,
                max_send_size,
            ).emission.state.resends.entries,
            key,
            datagram,
        ),
{
    let start = DataEmission::start(state, max_send_size);
    let inv = |emission: DataEmission|
        holds_under(emission.state.resends.entries, key, datagram);
    assert forall|emission: DataEmission|
        #![trigger inv(emission)]
        emission_wf(emission) && inv(emission) implies {
        &&& emission.state.resends.entries.len() > 0
            && emission.state.resends.entries[0].acknowledged ==> inv(emission.drop_resend())
        &&& takes_resend(emission, now_ms) ==> inv(emission.add_resend(now_ms, rtt_ms))
        &&& emission.state.queue.len() == 0 && emission.state.sender.can_emit() ==> inv(
            emission.refill(),
        )
        &&& takes_queued(emission, now_ms) ==> inv(emission.add_queued(now_ms, rtt_ms))
    } by {
        lemma_steps_hold_more(emission, now_ms, rtt_ms);
    }
    if !state.log.is_full() {
        lemma_both_phases_keep(inv, start, now_ms, rtt_ms);
    }
}

/// Each key that the log takes up with a frame refers to a datagram of that frame which is held
/// until it has been acknowledged.
pub proof fn law_logged_keys_refer(
    state: EmitterView,
    now_ms: u64,
    rtt_ms: u64,
    max_send_size: usize,
)
    requires
        state_wf(state),
    ensures
        logged_keys_refer(
            state,
            data_emission(state, now_ms, rtt_ms, max_send_size).emission,
        ),
{
    let start = DataEmission::start(state, max_send_size);
    let count = state.log.frames.len() as int;
    let inv = |emission: DataEmission|
        logged_keys_refer(state, emission) && refer_to(
            emission.state.resends.entries,
            emission.keys,
            emission.open,
        );
    assert forall|emission: DataEmission|
        #![trigger inv(emission)]
        emission_wf(emission) && inv(emission) && emission.open.len() > 0
            && !emission.state.log.is_full() implies inv(emission.close(now_ms)) by {
        let closed = emission.close(now_ms);
        assert forall|i: int| 0 <= i < closed.sent.len() implies refer_to(
            closed.state.resends.entries,
            closed.state.log.frames[count + i].persistent_datagrams,
            (#[trigger] closed.sent[i]).datagrams,
        ) by {
            if i < emission.sent.len() {
                assert(closed.sent[i] == emission.sent[i]);
            }
        }
    }
    assert forall|emission: DataEmission|
        #![trigger inv(emission)]
        emission_wf(emission) && inv(emission) implies {
        &&& emission.state.resends.entries.len() > 0
            && emission.state.resends.entries[0].acknowledged ==> inv(emission.drop_resend())
        &&& takes_resend(emission, now_ms) ==> inv(emission.add_resend(now_ms, rtt_ms))
        &&& emission.state.queue.len() == 0 && emission.state.sender.can_emit() ==> inv(
            emission.refill(),
        )
        &&& takes_queued(emission, now_ms) ==> inv(emission.add_queued(now_ms, rtt_ms))
    } by {
        let entries = emission.state.resends.entries;
        lemma_steps_hold_more(emission, now_ms, rtt_ms);
        if entries.len() > 0 && entries[0].acknowledged {
            lemma_logged_keys_more(state, emission, emission.drop_resend());
            lemma_refer_to_more(
                entries,
                emission.drop_resend().state.resends.entries,
                emission.keys,
                emission.open,
            );
        }
        if takes_resend(emission, now_ms) {
            let next = emission.add_resend(now_ms, rtt_ms);
            let after = next.state.resends.entries;
            lemma_logged_keys_more(state, emission, next);
            lemma_refer_to_more(entries, after, emission.keys, emission.open);
            lemma_insert_holds_more(entries.skip(1), sent_again(entries[0], now_ms, rtt_ms));
            lemma_refer_to_push(after, emission.keys, emission.open, entries[0].datagram);
            assert(holds_under(after, entries[0].key, entries[0].datagram));
        }
        if takes_queued(emission, now_ms) {
            let next = emission.add_queued(now_ms, rtt_ms);
            let after = next.state.resends.entries;
            let first = emission.state.queue[0];
            let key = emission.state.resends.next_key;
            lemma_logged_keys_more(state, emission, next);
            lemma_refer_to_more(entries, after, emission.keys, emission.open);
            lemma_refer_to_push(after, emission.keys, emission.open, first.datagram);
            if first.resend {
                lemma_insert_holds_more(
                    entries,
                    sent_once(first.datagram, key, now_ms, rtt_ms),
                );
                assert(holds_under(after, key, first.datagram));
            }
        }
    }
    if !state.log.is_full() {
        lemma_both_phases_keep(inv, start, now_ms, rtt_ms);
    }
}

proof fn lemma_logged_keys_more(before: EmitterView, emission: DataEmission, next: DataEmission)
    requires
        logged_keys_refer(before, emission),
        next.sent == emission.sent,
        next.state.log == emission.state.log,
        holds_more(emission.state.resends.entries, next.state.resends.entries),
    ensures
        logged_keys_refer(before, next),
{
    let count = before.log.frames.len() as int;
    assert forall|i: int| 0 <= i < next.sent.len() implies refer_to(
        next.state.resends.entries,
        next.state.log.frames[count + i].persistent_datagrams,
        (#[trigger] next.sent[i]).datagrams,
    ) by {
        lemma_refer_to_more(
            emission.state.resends.entries,
            next.state.resends.entries,
            emission.state.log.frames[count + i].persistent_datagrams,
            emission.sent[i].datagrams,
        );
    }
}

proof fn lemma_insert_keys(entries: Seq<PendingResend>, entry: PendingResend, bound: u64)
    requires
        keys_distinct(entries, bound),
        forall|i: int| 0 <= i < entries.len() ==> (#[trigger] entries[i]).key != entry.key,
        entry.key < bound,
    ensures
        keys_distinct(insert_by_time(entries, entry), bound),
{
    lemma_insert_by_time(entries, entry);
}

/// Keys stay distinct, as long as there are keys that have not been given out.
pub proof fn law_keys_stay_distinct(
    state: EmitterView,
    now_ms: u64,
    rtt_ms: u64,
    max_send_size: usize,
)
    requires
        state_wf(state),
        keys_distinct(state.resends.entries, state.resends.next_key),
        state.resends.next_key + all_datagrams(
            data_emission(state, now_ms, rtt_ms, max_send_size).emission.sent,
        ).len() <= u64::MAX,
    ensures
        ({
            let end = data_emission(state, now_ms, rtt_ms, max_send_size).emission.state.resends;
            keys_distinct(end.entries, end.next_key)
        }),
{
    let start = DataEmission::start(state, max_send_size);
    let first_key = state.resends.next_key;
    let inv = |emission: DataEmission|
        first_key + emitted(emission).len() <= u64::MAX ==> {
            let resends = emission.state.resends;
            &&& keys_distinct(resends.entries, resends.next_key)
            &&& resends.next_key <= first_key + emitted(emission).len()
        };
    assert forall|emission: DataEmission|
        #![trigger inv(emission)]
        emission_wf(emission) && inv(emission) && emission.open.len() > 0
            && !emission.state.log.is_full() implies inv(emission.close(now_ms)) by {
        let closed = emission.close(now_ms);
        assert(closed.sent.drop_last() =~= emission.sent);
        assert(emitted(closed).len() == emitted(emission).len());
    }
    assert forall|emission: DataEmission|
        #![trigger inv(emission)]
        emission_wf(emission) && inv(emission) implies {
        &&& emission.state.resends.entries.len() > 0
            && emission.state.resends.entries[0].acknowledged ==> inv(emission.drop_resend())
        &&& takes_resend(emission, now_ms) ==> inv(emission.add_resend(now_ms, rtt_ms))
        &&& emission.state.queue.len() == 0 && emission.state.sender.can_emit() ==> inv(
            emission.refill(),
        )
        &&& takes_queued(emission, now_ms) ==> inv(emission.add_queued(now_ms, rtt_ms))
    } by {
        let resends = emission.state.resends;
        let entries = resends.entries;
        let rest = entries.skip(1);
        if first_key + emitted(emission).len() <= u64::MAX && entries.len() > 0 {
            assert(keys_distinct(rest, resends.next_key)) by {
                assert forall|i: int| 0 <= i < rest.len() implies (#[trigger] rest[i]).key
                    < resends.next_key by {
                    assert(rest[i] == entries[i + 1]);
                }
                assert forall|i: int, j: int| 0 <= i < j < rest.len() implies (
                #[trigger] rest[i]).key != (#[trigger] rest[j]).key by {
                    assert(rest[i] == entries[i + 1] && rest[j] == entries[j + 1]);
                }
            }
        }
        if entries.len() > 0 && entries[0].acknowledged {
            assert(emitted(emission.drop_resend()) == emitted(emission));
        }
        if takes_resend(emission, now_ms) {
            let next = emission.add_resend(now_ms, rtt_ms);
            assert(emitted(next).len() == emitted(emission).len() + 1);
            if first_key + emitted(next).len() <= u64::MAX {
                assert forall|i: int| 0 <= i < rest.len() implies (#[trigger] rest[i]).key
                    != entries[0].key by {
                    assert(rest[i] == entries[i + 1]);
                }
                lemma_insert_keys(
                    rest,
                    sent_again(entries[0], now_ms, rtt_ms),
                    resends.next_key,
                );
            }
        }
        if takes_queued(emission, now_ms) {
            let next = emission.add_queued(now_ms, rtt_ms);
            let first = emission.state.queue[0];
            assert(emitted(next).len() == emitted(emission).len() + 1);
            if first_key + emitted(next).len() <= u64::MAX && first.resend {
                let key = resends.next_key;
                assert(keys_distinct(entries, key.wrapping_add(1)));
                lemma_insert_keys(
                    entries,
                    sent_once(first.datagram, key, now_ms, rtt_ms),
                    key.wrapping_add(1),
                );
            }
        }
    }
    if !state.log.is_full() {
        lemma_both_phases_keep(inv, start, now_ms, rtt_ms);
        let end = data_emission(state, now_ms, rtt_ms, max_send_size).emission;
        assert(emitted(end).len() == all_datagrams(end.sent).len());
    }
}

/// Where keys are distinct, acknowledging one of them acknowledges the datagram that has it, and
/// no other.
pub proof fn law_acknowledge_is_exact(resends: ResendQueueView, at: int)
    requires
        keys_distinct(resends.entries, resends.next_key),
        0 <= at < resends.entries.len(),
    ensures
        resends.entries.map_values(
            |entry: PendingResend| acknowledge_key(entry, resends.entries[at].key),
        ) == resends.entries.update(
            at,
            PendingResend { acknowledged: true, ..resends.entries[at] },
        ),
{
    let entries = resends.entries;
    let key = entries[at].key;
    let marked = entries.map_values(|entry: PendingResend| acknowledge_key(entry, key));
    let updated = entries.update(at, PendingResend { acknowledged: true, ..entries[at] });
    assert forall|i: int| 0 <= i < entries.len() implies marked[i] == updated[i] by {
        if i < at {
            assert(entries[i].key != entries[at].key);
        } else if i > at {
            assert(entries[at].key != entries[i].key);
        }
    }
    assert(marked =~= updated);
}

} // verus!
