//! What becomes of every datagram: which frame it is in, under which key, and how it is held.
use super::data::lemma_start_wf;
use super::delays::delayed;
use super::delays::first_held;
use super::delays::lemma_sent_again_is_delayed;
use super::induction::emission_wf;
use super::induction::lemma_queue_phase_keeps;
use super::induction::lemma_resend_phase_keeps;
use super::induction::state_wf;
use super::induction::takes_queued;
use super::induction::takes_resend;
use super::order::due;
use super::order::had_room;
use super::order::is_due;
use super::order::lemma_none_due;
use super::order::offered;
use super::order::sender_after;
use super::packing::lemma_resend_phase_packs;
use super::packing::stopped_at;
use crate::datagram_queue::QueuedDatagram;
use crate::emission::data_emission;
use crate::emission::queue_phase;
use crate::emission::resend_phase;
use crate::emission::sent_again;
use crate::emission::sent_once;
use crate::emission::DataEmission;
use crate::emission::EmitterView;
use crate::emission::ResendPhase;
use crate::frame::DatagramView;
use crate::resend_queue::insert_by_time;
use crate::resend_queue::lemma_insert_by_time;
use crate::resend_queue::lemma_rank;
use crate::resend_queue::rank;
use crate::resend_queue::resend_wf;
use crate::resend_queue::PendingResend;
use crate::MAX_FRAME_TRANSFER_WINDOW_SIZE;
use vstd::prelude::*;

verus! {

/// A datagram in a frame, and its key if it is to be sent until it is acknowledged.
#[verifier::ext_equal]
pub struct SentDatagram {
    pub datagram: DatagramView,
    pub key: Option<u64>,
}

/// The datagrams of `items`, in the same order.
pub open spec fn datagrams_of(items: Seq<SentDatagram>) -> Seq<DatagramView> {
    items.map_values(|item: SentDatagram| item.datagram)
}

/// The keys of those of `items` that have one, in the same order.
pub open spec fn keys_of(items: Seq<SentDatagram>) -> Seq<u64>
    decreases items.len(),
{
    if items.len() == 0 {
        Seq::empty()
    } else {
        match items.last().key {
            Some(key) => keys_of(items.drop_last()).push(key),
            None => keys_of(items.drop_last()),
        }
    }
}

/// The items of `frames`, one after the other.
pub open spec fn joined(frames: Seq<Seq<SentDatagram>>) -> Seq<SentDatagram>
    decreases frames.len(),
{
    if frames.len() == 0 {
        Seq::empty()
    } else {
        joined(frames.drop_last()) + frames.last()
    }
}

/// Whether `frames` gives, for each frame sent since `before`, its datagrams; the log has taken it
/// up with the keys of exactly those of them that have one, in the same order.
pub open spec fn gives_frames(
    before: EmitterView,
    emission: DataEmission,
    frames: Seq<Seq<SentDatagram>>,
) -> bool {
    let count = before.log.frames.len();
    let log = emission.state.log;
    &&& frames.len() == emission.sent.len()
    &&& log.frames.len() == count + frames.len()
    &&& forall|i: int|
        0 <= i < frames.len() ==> {
            &&& datagrams_of(#[trigger] frames[i]) == emission.sent[i].datagrams
            &&& keys_of(frames[i]) == log.frames[count + i].persistent_datagrams
        }
}

/// Datagrams that are sent again, with their keys.
pub open spec fn resent_items(resent: Seq<PendingResend>) -> Seq<SentDatagram> {
    resent.map_values(
        |entry: PendingResend| SentDatagram { datagram: entry.datagram, key: Some(entry.key) },
    )
}

/// The next key to be given out once `fresh` have been sent, where `first_key` was the next before.
pub open spec fn key_after(fresh: Seq<QueuedDatagram>, first_key: u64) -> u64
    decreases fresh.len(),
{
    if fresh.len() == 0 {
        first_key
    } else if fresh.last().resend {
        key_after(fresh.drop_last(), first_key).wrapping_add(1)
    } else {
        key_after(fresh.drop_last(), first_key)
    }
}

/// Datagrams that are sent for the first time: those that are to be sent until they are
/// acknowledged get keys from `first_key` on.
pub open spec fn fresh_items(fresh: Seq<QueuedDatagram>, first_key: u64) -> Seq<SentDatagram>
    decreases fresh.len(),
{
    if fresh.len() == 0 {
        Seq::empty()
    } else {
        fresh_items(fresh.drop_last(), first_key).push(
            SentDatagram {
                datagram: fresh.last().datagram,
                key: if fresh.last().resend {
                    Some(key_after(fresh.drop_last(), first_key))
                } else {
                    None
                },
            },
        )
    }
}

/// Those of `entries` that are not acknowledged, in the same order.
pub open spec fn unacknowledged(entries: Seq<PendingResend>) -> Seq<PendingResend>
    decreases entries.len(),
{
    if entries.len() == 0 {
        Seq::empty()
    } else if entries.last().acknowledged {
        unacknowledged(entries.drop_last())
    } else {
        unacknowledged(entries.drop_last()).push(entries.last())
    }
}

/// What each of `resent` is once it has been sent again.
pub open spec fn again_all(resent: Seq<PendingResend>, now_ms: u64, rtt_ms: u64) -> Seq<
    PendingResend,
> {
    resent.map_values(|entry: PendingResend| delayed(entry, now_ms, rtt_ms))
}

/// What those of `items` that have a key are once they have been sent for the first time.
pub open spec fn once_all(items: Seq<SentDatagram>, now_ms: u64, rtt_ms: u64) -> Seq<PendingResend>
    decreases items.len(),
{
    if items.len() == 0 {
        Seq::empty()
    } else {
        match items.last().key {
            Some(key) => once_all(items.drop_last(), now_ms, rtt_ms).push(
                first_held(items.last().datagram, key, now_ms, rtt_ms),
            ),
            None => once_all(items.drop_last(), now_ms, rtt_ms),
        }
    }
}

/// `entries` with each of `others` in turn put where its time belongs.
pub open spec fn insert_all(entries: Seq<PendingResend>, others: Seq<PendingResend>) -> Seq<
    PendingResend,
>
    decreases others.len(),
{
    if others.len() == 0 {
        entries
    } else {
        insert_by_time(insert_all(entries, others.drop_last()), others.last())
    }
}

/// Whether each of `entries` is to be sent again at `now_ms`.
pub open spec fn all_due(entries: Seq<PendingResend>, now_ms: u64) -> bool {
    forall|i: int| 0 <= i < entries.len() ==> is_due(#[trigger] entries[i], now_ms)
}

/// Whether none of `entries` is to be sent again at `now_ms`.
pub open spec fn all_wait(entries: Seq<PendingResend>, now_ms: u64) -> bool {
    forall|i: int| 0 <= i < entries.len() ==> !is_due(#[trigger] entries[i], now_ms)
}

/// Whether the datagrams sent since `before`, and those of the frame being put together, are
/// `items`.
spec fn traced(before: EmitterView, emission: DataEmission, items: Seq<SentDatagram>) -> bool {
    exists|frames: Seq<Seq<SentDatagram>>, open: Seq<SentDatagram>| #[trigger]
        traced_as(before, emission, items, frames, open)
}

spec fn traced_as(
    before: EmitterView,
    emission: DataEmission,
    items: Seq<SentDatagram>,
    frames: Seq<Seq<SentDatagram>>,
    open: Seq<SentDatagram>,
) -> bool {
    &&& gives_frames(before, emission, frames)
    &&& datagrams_of(open) == emission.open
    &&& keys_of(open) == emission.keys
    &&& items == joined(frames) + open
}

proof fn lemma_traced_start(state: EmitterView, max_send_size: usize)
    ensures
        traced(state, DataEmission::start(state, max_send_size), Seq::empty()),
{
    let start = DataEmission::start(state, max_send_size);
    let frames = Seq::<Seq<SentDatagram>>::empty();
    let open = Seq::<SentDatagram>::empty();
    assert(datagrams_of(open) =~= start.open);
    assert(joined(frames) + open =~= Seq::<SentDatagram>::empty());
    assert(traced_as(state, start, Seq::empty(), frames, open));
}

proof fn lemma_traced_close(
    before: EmitterView,
    emission: DataEmission,
    items: Seq<SentDatagram>,
    now_ms: u64,
)
    requires
        traced(before, emission, items),
    ensures
        traced(before, emission.close(now_ms), items),
{
    let (frames, open) = choose|frames: Seq<Seq<SentDatagram>>, open: Seq<SentDatagram>| #[trigger]
        traced_as(before, emission, items, frames, open);
    let closed = emission.close(now_ms);
    let more = frames.push(open);
    let none = Seq::<SentDatagram>::empty();
    let count = before.log.frames.len();
    assert forall|i: int| 0 <= i < more.len() implies datagrams_of(#[trigger] more[i])
        == closed.sent[i].datagrams && keys_of(more[i]) == closed.state.log.frames[count
        + i].persistent_datagrams by {
        if i < frames.len() {
            assert(more[i] == frames[i]);
        }
    }
    assert(more.drop_last() =~= frames);
    assert(joined(more) + none =~= joined(frames) + open);
    assert(datagrams_of(none) =~= closed.open);
    assert(traced_as(before, closed, items, more, none));
}

proof fn lemma_traced_add(
    before: EmitterView,
    emission: DataEmission,
    items: Seq<SentDatagram>,
    next: DataEmission,
    item: SentDatagram,
)
    requires
        traced(before, emission, items),
        next.sent == emission.sent,
        next.state.log == emission.state.log,
        next.open == emission.open.push(item.datagram),
        next.keys == match item.key {
            Some(key) => emission.keys.push(key),
            None => emission.keys,
        },
    ensures
        traced(before, next, items.push(item)),
{
    let (frames, open) = choose|frames: Seq<Seq<SentDatagram>>, open: Seq<SentDatagram>| #[trigger]
        traced_as(before, emission, items, frames, open);
    let more = open.push(item);
    assert(more.drop_last() =~= open);
    assert(datagrams_of(more) =~= datagrams_of(open).push(item.datagram));
    assert(joined(frames) + more =~= items.push(item));
    assert(traced_as(before, next, items.push(item), frames, more));
}

proof fn lemma_traced_same(
    before: EmitterView,
    emission: DataEmission,
    items: Seq<SentDatagram>,
    next: DataEmission,
)
    requires
        traced(before, emission, items),
        next.sent == emission.sent,
        next.state.log == emission.state.log,
        next.open == emission.open,
        next.keys == emission.keys,
    ensures
        traced(before, next, items),
{
    let (frames, open) = choose|frames: Seq<Seq<SentDatagram>>, open: Seq<SentDatagram>| #[trigger]
        traced_as(before, emission, items, frames, open);
    assert(traced_as(before, next, items, frames, open));
}

proof fn lemma_traced_end(before: EmitterView, emission: DataEmission, items: Seq<SentDatagram>)
    requires
        traced(before, emission, items),
        emission.open.len() == 0,
    ensures
        exists|frames: Seq<Seq<SentDatagram>>| #[trigger]
            gives_frames(before, emission, frames) && joined(frames) == items,
{
    let (frames, open) = choose|frames: Seq<Seq<SentDatagram>>, open: Seq<SentDatagram>| #[trigger]
        traced_as(before, emission, items, frames, open);
    assert(datagrams_of(open).len() == open.len());
    assert(joined(frames) + open =~= joined(frames));
}

proof fn lemma_rank_skip(entries: Seq<PendingResend>, time: int)
    requires
        rank(entries, time) > 0,
    ensures
        rank(entries.skip(1), time) == rank(entries, time) - 1,
    decreases entries.len(),
{
    let rest = entries.skip(1);
    if entries.last().resend_time > time {
        lemma_rank_skip(entries.drop_last(), time);
        assert(entries.drop_last().skip(1) =~= rest.drop_last());
    }
}

proof fn lemma_unacknowledged_values(entries: Seq<PendingResend>, index: int)
    requires
        0 <= index < unacknowledged(entries).len(),
    ensures
        entries.contains(unacknowledged(entries)[index]),
    decreases entries.len(),
{
    let value = unacknowledged(entries)[index];
    let last = entries.len() - 1;
    let inner = unacknowledged(entries.drop_last());
    if !entries.last().acknowledged && index == inner.len() {
        assert(entries[last] == value);
    } else {
        lemma_unacknowledged_values(entries.drop_last(), index);
        let i = choose|i: int| 0 <= i < last && entries.drop_last()[i] == value;
        assert(entries[i] == value);
    }
}

/// If the first entry is none of those that were put in, it can as well be taken out before.
proof fn lemma_insert_all_skip(entries: Seq<PendingResend>, others: Seq<PendingResend>)
    requires
        insert_all(entries, others).len() > 0,
        !others.contains(insert_all(entries, others)[0]),
    ensures
        entries.len() > 0,
        entries[0] == insert_all(entries, others)[0],
        insert_all(entries, others).skip(1) == insert_all(entries.skip(1), others),
    decreases others.len(),
{
    if others.len() > 0 {
        let inner = insert_all(entries, others.drop_last());
        let last = others.last();
        let outer = insert_by_time(inner, last);
        let at = rank(inner, last.resend_time);
        lemma_insert_by_time(inner, last);
        assert(others.contains(last));
        assert(at > 0);
        assert(outer[0] == inner[0]);
        assert(!others.drop_last().contains(inner[0])) by {
            if others.drop_last().contains(inner[0]) {
                let i = choose|i: int|
                    0 <= i < others.drop_last().len() && others.drop_last()[i] == inner[0];
                assert(others[i] == inner[0]);
            }
        }
        lemma_insert_all_skip(entries, others.drop_last());
        lemma_rank_skip(inner, last.resend_time);
        assert(outer.skip(1) =~= inner.skip(1).insert(at - 1, last));
    }
}

proof fn lemma_insert_all_push(
    entries: Seq<PendingResend>,
    others: Seq<PendingResend>,
    other: PendingResend,
)
    ensures
        insert_all(entries, others.push(other)) == insert_by_time(
            insert_all(entries, others),
            other,
        ),
{
    assert(others.push(other).drop_last() =~= others);
}

proof fn lemma_insert_all_twice(
    entries: Seq<PendingResend>,
    first: Seq<PendingResend>,
    second: Seq<PendingResend>,
)
    ensures
        insert_all(insert_all(entries, first), second) == insert_all(entries, first + second),
    decreases second.len(),
{
    if second.len() == 0 {
        assert(first + second =~= first);
    } else {
        lemma_insert_all_twice(entries, first, second.drop_last());
        assert((first + second).drop_last() =~= first + second.drop_last());
        assert((first + second).last() == second.last());
    }
}

proof fn lemma_insert_all_contains(
    entries: Seq<PendingResend>,
    others: Seq<PendingResend>,
    entry: PendingResend,
)
    requires
        entries.contains(entry),
    ensures
        insert_all(entries, others).contains(entry),
    decreases others.len(),
{
    if others.len() > 0 {
        lemma_insert_all_contains(entries, others.drop_last(), entry);
        lemma_insert_by_time(insert_all(entries, others.drop_last()), others.last());
    }
}

/// Whether the first `taken` datagrams that were to be sent again have been taken out, and those of
/// them that are not acknowledged were due and have been sent again; the others are as they were.
spec fn resends_taken(
    start: EmitterView,
    emission: DataEmission,
    now_ms: u64,
    rtt_ms: u64,
    taken: int,
) -> bool {
    let entries = start.resends.entries;
    let resent = unacknowledged(entries.take(taken));
    &&& 0 <= taken <= entries.len()
    &&& all_due(resent, now_ms)
    &&& emission.state.resends.entries == insert_all(
        entries.skip(taken),
        again_all(resent, now_ms, rtt_ms),
    )
    &&& emission.state.resends.next_key == start.resends.next_key
    &&& emission.state.queue == start.queue
    &&& emission.state.sender == start.sender
    &&& traced(start, emission, resent_items(resent))
}

proof fn lemma_resends_taken(start: EmitterView, now_ms: u64, rtt_ms: u64, max_send_size: usize)
    requires
        state_wf(start),
        !start.log.is_full(),
        rtt_ms > 0 || all_wait(start.resends.entries, now_ms),
    ensures
        match resend_phase(DataEmission::start(start, max_send_size), now_ms, rtt_ms) {
            ResendPhase::Over(end) => exists|taken: int| #[trigger]
                resends_taken(start, end, now_ms, rtt_ms, taken) && all_wait(
                    start.resends.entries.skip(taken),
                    now_ms,
                ),
            ResendPhase::Stop(outcome) => exists|taken: int| #[trigger]
                resends_taken(start, outcome.emission, now_ms, rtt_ms, taken),
        },
{
    let first = DataEmission::start(start, max_send_size);
    let all = start.resends.entries;
    let inv = |emission: DataEmission|
        exists|taken: int| #[trigger] resends_taken(start, emission, now_ms, rtt_ms, taken);
    assert(inv(first)) by {
        let none = unacknowledged(all.take(0));
        assert(none.len() == 0);
        assert(all.skip(0) =~= all);
        assert(again_all(none, now_ms, rtt_ms).len() == 0);
        assert(resent_items(none) =~= Seq::empty());
        lemma_traced_start(start, max_send_size);
        assert(resends_taken(start, first, now_ms, rtt_ms, 0));
    }
    assert forall|emission: DataEmission|
        #![trigger inv(emission)]
        emission_wf(emission) && inv(emission) && emission.open.len() > 0
            && !emission.state.log.is_full() implies inv(emission.close(now_ms)) by {
        let taken = choose|taken: int| #[trigger]
            resends_taken(start, emission, now_ms, rtt_ms, taken);
        lemma_traced_close(
            start,
            emission,
            resent_items(unacknowledged(all.take(taken))),
            now_ms,
        );
        assert(resends_taken(start, emission.close(now_ms), now_ms, rtt_ms, taken));
    }
    assert forall|emission: DataEmission|
        #![trigger inv(emission)]
        emission_wf(emission) && inv(emission) implies {
        &&& emission.state.resends.entries.len() > 0
            && emission.state.resends.entries[0].acknowledged ==> inv(emission.drop_resend())
        &&& takes_resend(emission, now_ms) ==> inv(emission.add_resend(now_ms, rtt_ms))
    } by {
        let taken = choose|taken: int| #[trigger]
            resends_taken(start, emission, now_ms, rtt_ms, taken);
        let entries = emission.state.resends.entries;
        let resent = unacknowledged(all.take(taken));
        let again = again_all(resent, now_ms, rtt_ms);
        let is_first_taken = entries.len() > 0 && (entries[0].acknowledged || takes_resend(
            emission,
            now_ms,
        ));
        if is_first_taken {
            assert(!again.contains(entries[0])) by {
                if again.contains(entries[0]) {
                    let i = choose|i: int| 0 <= i < again.len() && again[i] == entries[0];
                    assert(again[i] == delayed(resent[i], now_ms, rtt_ms));
                    assert(is_due(resent[i], now_ms));
                    lemma_unacknowledged_values(all.take(taken), i);
                    assert(all.contains(resent[i]));
                }
            }
            lemma_insert_all_skip(all.skip(taken), again);
            assert(entries[0] == all[taken]);
            assert(all.skip(taken).skip(1) =~= all.skip(taken + 1));
            assert(all.take(taken + 1).drop_last() =~= all.take(taken));
            assert(all.take(taken + 1).last() == all[taken]);
        }
        if entries.len() > 0 && entries[0].acknowledged {
            let next = emission.drop_resend();
            lemma_traced_same(start, emission, resent_items(resent), next);
            assert(resends_taken(start, next, now_ms, rtt_ms, taken + 1));
        }
        if takes_resend(emission, now_ms) {
            let next = emission.add_resend(now_ms, rtt_ms);
            let more = unacknowledged(all.take(taken + 1));
            assert(more == resent.push(entries[0]));
            lemma_sent_again_is_delayed(entries[0], now_ms, rtt_ms);
            assert(again_all(more, now_ms, rtt_ms) =~= again.push(
                sent_again(entries[0], now_ms, rtt_ms),
            ));
            lemma_insert_all_push(
                all.skip(taken + 1),
                again,
                sent_again(entries[0], now_ms, rtt_ms),
            );
            let item = SentDatagram {
                datagram: entries[0].datagram,
                key: Some(entries[0].key),
            };
            lemma_traced_add(start, emission, resent_items(resent), next, item);
            assert(resent_items(more) =~= resent_items(resent).push(item));
            assert(resends_taken(start, next, now_ms, rtt_ms, taken + 1));
        }
    }
    lemma_resend_phase_keeps(inv, first, now_ms, rtt_ms);
    match resend_phase(first, now_ms, rtt_ms) {
        ResendPhase::Over(end) => {
            let entries = end.state.resends.entries;
            let taken = choose|taken: int| #[trigger]
                resends_taken(start, end, now_ms, rtt_ms, taken);
            let left = all.skip(taken);
            assert forall|i: int| 0 <= i < left.len() implies !is_due(
                #[trigger] left[i],
                now_ms,
            ) by {
                assert(left.contains(left[i]));
                lemma_insert_all_contains(
                    left,
                    again_all(unacknowledged(all.take(taken)), now_ms, rtt_ms),
                    left[i],
                );
                let j = choose|j: int| 0 <= j < entries.len() && entries[j] == left[i];
                assert(entries[0].resend_time <= entries[j].resend_time);
            }
        },
        ResendPhase::Stop(_) => {},
    }
}

/// Whether `entry` has the key and the datagram of one that was due.
pub open spec fn was_due(state: EmitterView, now_ms: u64, entry: PendingResend) -> bool {
    exists|i: int|
        {
            let other = #[trigger] state.resends.entries[i];
            &&& 0 <= i < state.resends.entries.len()
            &&& is_due(other, now_ms)
            &&& other.key == entry.key
            &&& other.datagram == entry.datagram
        }
}

/// Whether each of `resent` has the key and the datagram of one that was due.
pub open spec fn all_were_due(state: EmitterView, now_ms: u64, resent: Seq<PendingResend>) -> bool {
    forall|i: int| 0 <= i < resent.len() ==> was_due(state, now_ms, #[trigger] resent[i])
}

/// Whether `resent` have been sent again, each of which was due.
spec fn resends_traced(
    start: EmitterView,
    emission: DataEmission,
    now_ms: u64,
    resent: Seq<PendingResend>,
) -> bool {
    &&& all_were_due(start, now_ms, resent)
    &&& emission.state.resends.next_key == start.resends.next_key
    &&& emission.state.queue == start.queue
    &&& emission.state.sender == start.sender
    &&& traced(start, emission, resent_items(resent))
}

proof fn lemma_resends_traced(start: EmitterView, now_ms: u64, rtt_ms: u64, max_send_size: usize)
    requires
        state_wf(start),
        !start.log.is_full(),
    ensures
        match resend_phase(DataEmission::start(start, max_send_size), now_ms, rtt_ms) {
            ResendPhase::Over(end) => exists|resent: Seq<PendingResend>| #[trigger]
                resends_traced(start, end, now_ms, resent),
            ResendPhase::Stop(outcome) => exists|resent: Seq<PendingResend>| #[trigger]
                resends_traced(start, outcome.emission, now_ms, resent),
        },
{
    let first = DataEmission::start(start, max_send_size);
    let inv = |emission: DataEmission|
        {
            let entries = emission.state.resends.entries;
            &&& forall|i: int|
                0 <= i < entries.len() && is_due(#[trigger] entries[i], now_ms) ==> was_due(
                    start,
                    now_ms,
                    entries[i],
                )
            &&& exists|resent: Seq<PendingResend>| #[trigger]
                resends_traced(start, emission, now_ms, resent)
        };
    assert(inv(first)) by {
        let none = Seq::<PendingResend>::empty();
        assert(resent_items(none) =~= Seq::empty());
        lemma_traced_start(start, max_send_size);
        assert(resends_traced(start, first, now_ms, none));
    }
    assert forall|emission: DataEmission|
        #![trigger inv(emission)]
        emission_wf(emission) && inv(emission) && emission.open.len() > 0
            && !emission.state.log.is_full() implies inv(emission.close(now_ms)) by {
        let resent = choose|resent: Seq<PendingResend>| #[trigger]
            resends_traced(start, emission, now_ms, resent);
        lemma_traced_close(start, emission, resent_items(resent), now_ms);
        assert(resends_traced(start, emission.close(now_ms), now_ms, resent));
    }
    assert forall|emission: DataEmission|
        #![trigger inv(emission)]
        emission_wf(emission) && inv(emission) implies {
        &&& emission.state.resends.entries.len() > 0
            && emission.state.resends.entries[0].acknowledged ==> inv(emission.drop_resend())
        &&& takes_resend(emission, now_ms) ==> inv(emission.add_resend(now_ms, rtt_ms))
    } by {
        let resent = choose|resent: Seq<PendingResend>| #[trigger]
            resends_traced(start, emission, now_ms, resent);
        let entries = emission.state.resends.entries;
        let rest = entries.skip(1);
        if entries.len() > 0 && entries[0].acknowledged {
            let next = emission.drop_resend();
            lemma_traced_same(start, emission, resent_items(resent), next);
            assert(resends_traced(start, next, now_ms, resent));
            assert forall|i: int| 0 <= i < rest.len() && is_due(
                #[trigger] rest[i],
                now_ms,
            ) implies was_due(start, now_ms, rest[i]) by {
                assert(rest[i] == entries[i + 1]);
            }
        }
        if takes_resend(emission, now_ms) {
            let next = emission.add_resend(now_ms, rtt_ms);
            let again = sent_again(entries[0], now_ms, rtt_ms);
            let inserted = next.state.resends.entries;
            let more = resent.push(entries[0]);
            let item = SentDatagram {
                datagram: entries[0].datagram,
                key: Some(entries[0].key),
            };
            assert(was_due(start, now_ms, entries[0]));
            assert(was_due(start, now_ms, again));
            lemma_traced_add(start, emission, resent_items(resent), next, item);
            assert(resent_items(more) =~= resent_items(resent).push(item));
            assert(resends_traced(start, next, now_ms, more));
            lemma_insert_by_time(rest, again);
            assert forall|i: int| 0 <= i < inserted.len() && is_due(
                #[trigger] inserted[i],
                now_ms,
            ) implies was_due(start, now_ms, inserted[i]) by {
                assert(inserted.contains(inserted[i]));
                if inserted[i] != again {
                    let j = choose|j: int| 0 <= j < rest.len() && rest[j] == inserted[i];
                    assert(rest[j] == entries[j + 1]);
                }
            }
        }
    }
    lemma_resend_phase_keeps(inv, first, now_ms, rtt_ms);
}

/// Whether a packet was put into transit only once all datagrams before it had been sent, where
/// `packets` packets were, and `count` datagrams were sent.
pub open spec fn taken_when_needed(state: EmitterView, packets: nat, count: int) -> bool {
    packets > 0 ==> offered(state.queue, state.sender, (packets - 1) as nat).len() <= count
}

/// Whether `packets` packets have been put into transit and `count` of the datagrams that had not
/// been sent have been sent behind `items`; the others are left. Those to be sent until they are
/// acknowledged are held for that.
spec fn queue_taken(
    before: EmitterView,
    first: DataEmission,
    emission: DataEmission,
    items: Seq<SentDatagram>,
    now_ms: u64,
    rtt_ms: u64,
    packets: nat,
    count: int,
) -> bool {
    let start = first.state;
    let all = offered(start.queue, start.sender, packets);
    let fresh = fresh_items(all.take(count), start.resends.next_key);
    &&& had_room(start.sender, packets)
    &&& emission.state.sender == sender_after(start.sender, packets)
    &&& 0 <= count <= all.len()
    &&& taken_when_needed(start, packets, count)
    &&& emission.state.queue == all.skip(count)
    &&& emission.state.resends.next_key == key_after(all.take(count), start.resends.next_key)
    &&& emission.state.resends.entries == insert_all(
        start.resends.entries,
        once_all(fresh, now_ms, rtt_ms),
    )
    &&& traced(before, emission, items + fresh)
}

proof fn lemma_queue_taken(
    before: EmitterView,
    first: DataEmission,
    items: Seq<SentDatagram>,
    now_ms: u64,
    rtt_ms: u64,
)
    requires
        emission_wf(first),
        !first.state.log.is_full(),
        traced(before, first, items),
    ensures
        ({
            let end = queue_phase(first, now_ms, rtt_ms).emission;
            &&& end.open.len() == 0
            &&& exists|packets: nat, count: int| #[trigger]
                queue_taken(before, first, end, items, now_ms, rtt_ms, packets, count)
        }),
{
    let start = first.state;
    let first_key = start.resends.next_key;
    let inv = |emission: DataEmission|
        exists|packets: nat, count: int| #[trigger]
            queue_taken(before, first, emission, items, now_ms, rtt_ms, packets, count);
    assert(inv(first)) by {
        lemma_nothing_taken(before, first, items, now_ms, rtt_ms);
    }
    assert forall|emission: DataEmission|
        #![trigger inv(emission)]
        emission_wf(emission) && inv(emission) && emission.open.len() > 0
            && !emission.state.log.is_full() implies inv(emission.close(now_ms)) by {
        let (packets, count) = choose|packets: nat, count: int| #[trigger]
            queue_taken(before, first, emission, items, now_ms, rtt_ms, packets, count);
        let all = offered(start.queue, start.sender, packets);
        let closed = emission.close(now_ms);
        lemma_traced_close(
            before,
            emission,
            items + fresh_items(all.take(count), first_key),
            now_ms,
        );
        assert(queue_taken(before, first, closed, items, now_ms, rtt_ms, packets, count));
    }
    assert forall|emission: DataEmission|
        #![trigger inv(emission)]
        emission_wf(emission) && inv(emission) implies {
        &&& emission.state.queue.len() == 0 && emission.state.sender.can_emit() ==> inv(
            emission.refill(),
        )
        &&& takes_queued(emission, now_ms) ==> inv(emission.add_queued(now_ms, rtt_ms))
    } by {
        let (packets, count) = choose|packets: nat, count: int| #[trigger]
            queue_taken(before, first, emission, items, now_ms, rtt_ms, packets, count);
        let all = offered(start.queue, start.sender, packets);
        let fresh = fresh_items(all.take(count), first_key);
        if emission.state.queue.len() == 0 && emission.state.sender.can_emit() {
            let next = emission.refill();
            let more = emission.state.sender.next_datagrams();
            let next_all = offered(start.queue, start.sender, packets + 1);
            assert(next_all == all + more);
            assert(count == all.len());
            assert(next_all.take(count) =~= all.take(count));
            assert(next_all.skip(count) =~= more);
            assert(next.state.queue =~= more);
            assert forall|i: nat| i < packets + 1 implies (#[trigger] sender_after(
                start.sender,
                i,
            )).can_emit() by {
                if i == packets {
                    assert(sender_after(start.sender, i) == emission.state.sender);
                }
            }
            lemma_traced_same(before, emission, items + fresh, next);
            assert(queue_taken(
                before,
                first,
                next,
                items,
                now_ms,
                rtt_ms,
                packets + 1,
                count,
            ));
        }
        if takes_queued(emission, now_ms) {
            let next = emission.add_queued(now_ms, rtt_ms);
            let queued = emission.state.queue[0];
            let key = emission.state.resends.next_key;
            let item = SentDatagram {
                datagram: queued.datagram,
                key: if queued.resend {
                    Some(key)
                } else {
                    None
                },
            };
            let more = fresh_items(all.take(count + 1), first_key);
            assert(queued == all[count]);
            assert(all.take(count + 1).drop_last() =~= all.take(count));
            assert(all.take(count + 1).last() == queued);
            assert(all.skip(count).skip(1) =~= all.skip(count + 1));
            assert(more == fresh.push(item));
            assert(more.drop_last() =~= fresh);
            assert(more.last() == item);
            assert(items + more =~= (items + fresh).push(item));
            lemma_traced_add(before, emission, items + fresh, next, item);
            if queued.resend {
                lemma_insert_all_push(
                    start.resends.entries,
                    once_all(fresh, now_ms, rtt_ms),
                    sent_once(queued.datagram, key, now_ms, rtt_ms),
                );
            }
            assert(queue_taken(
                before,
                first,
                next,
                items,
                now_ms,
                rtt_ms,
                packets,
                count + 1,
            ));
        }
    }
    lemma_queue_phase_keeps(inv, first, now_ms, rtt_ms);
}

proof fn lemma_nothing_taken(
    before: EmitterView,
    emission: DataEmission,
    items: Seq<SentDatagram>,
    now_ms: u64,
    rtt_ms: u64,
)
    requires
        traced(before, emission, items),
    ensures
        queue_taken(before, emission, emission, items, now_ms, rtt_ms, 0, 0),
{
    let queue = emission.state.queue;
    let none = fresh_items(queue.take(0), emission.state.resends.next_key);
    assert(offered(queue, emission.state.sender, 0) == queue);
    assert(queue.skip(0) =~= queue);
    assert(none.len() == 0);
    assert(once_all(none, now_ms, rtt_ms).len() == 0);
    assert(items + none =~= items);
}

/// What becomes of all that an emitter held. Of the datagrams that were to be sent again the first
/// `taken` are taken out: those that were acknowledged are forgotten, and the others, which were
/// due, are sent again. `packets` packets are put into transit, and `count` of the datagrams that
/// had not been sent are sent; a packet is put into transit only once all datagrams before it have
/// been sent.
///
/// The frames carry the ones and behind them the others, and the log takes up each frame with the
/// keys of its datagrams, as `frames` gives them. Each datagram that was sent again is held with
/// its next time, and each one that was sent for the first time and is to be sent until it is
/// acknowledged with its first time; all others are held as they were. Nothing is sent for the
/// first time while a datagram that was due has not been sent again.
pub open spec fn accounts_for_all(
    state: EmitterView,
    end: DataEmission,
    now_ms: u64,
    rtt_ms: u64,
    taken: int,
    packets: nat,
    count: int,
    frames: Seq<Seq<SentDatagram>>,
) -> bool {
    let entries = state.resends.entries;
    let resent = unacknowledged(entries.take(taken));
    let all = offered(state.queue, state.sender, packets);
    let fresh = fresh_items(all.take(count), state.resends.next_key);
    &&& 0 <= taken <= entries.len()
    &&& all_due(resent, now_ms)
    &&& had_room(state.sender, packets)
    &&& 0 <= count <= all.len()
    &&& taken_when_needed(state, packets, count)
    &&& gives_frames(state, end, frames)
    &&& joined(frames) == resent_items(resent) + fresh
    &&& end.state.queue == all.skip(count)
    &&& end.state.sender == sender_after(state.sender, packets)
    &&& end.state.resends.next_key == key_after(all.take(count), state.resends.next_key)
    &&& end.state.resends.entries == insert_all(
        entries.skip(taken),
        again_all(resent, now_ms, rtt_ms) + once_all(fresh, now_ms, rtt_ms),
    )
    &&& packets > 0 || count > 0 ==> all_wait(entries.skip(taken), now_ms)
}

/// Every datagram, and every key, is accounted for.
///
/// The time until a datagram is sent again has to be positive, unless none is due: otherwise a
/// datagram is due again as soon as it has been sent, and is sent over and over.
pub proof fn law_all_is_accounted_for(
    state: EmitterView,
    now_ms: u64,
    rtt_ms: u64,
    max_send_size: usize,
)
    requires
        state_wf(state),
        rtt_ms > 0 || all_wait(state.resends.entries, now_ms),
    ensures
        exists|taken: int, packets: nat, count: int, frames: Seq<Seq<SentDatagram>>| #[trigger]
            accounts_for_all(
                state,
                data_emission(state, now_ms, rtt_ms, max_send_size).emission,
                now_ms,
                rtt_ms,
                taken,
                packets,
                count,
                frames,
            ),
{
    let start = DataEmission::start(state, max_send_size);
    let end = data_emission(state, now_ms, rtt_ms, max_send_size).emission;
    let entries = state.resends.entries;
    lemma_start_wf(state, max_send_size);
    if state.log.is_full() {
        let none = unacknowledged(entries.take(0));
        assert(none.len() == 0);
        assert(entries.skip(0) =~= entries);
        assert(again_all(none, now_ms, rtt_ms).len() == 0);
        assert(resent_items(none) =~= Seq::empty());
        lemma_traced_start(state, max_send_size);
        assert(resends_taken(state, end, now_ms, rtt_ms, 0));
        lemma_nothing_taken(state, end, resent_items(none), now_ms, rtt_ms);
        lemma_accounts(state, end, end, now_ms, rtt_ms, 0, 0, 0);
    } else {
        let any = |emission: DataEmission| true;
        lemma_resend_phase_keeps(any, start, now_ms, rtt_ms);
        lemma_resends_taken(state, now_ms, rtt_ms, max_send_size);
        match resend_phase(start, now_ms, rtt_ms) {
            ResendPhase::Over(over) => {
                let taken = choose|taken: int| #[trigger]
                    resends_taken(state, over, now_ms, rtt_ms, taken) && all_wait(
                        entries.skip(taken),
                        now_ms,
                    );
                let items = resent_items(unacknowledged(entries.take(taken)));
                lemma_queue_taken(state, over, items, now_ms, rtt_ms);
                let (packets, count) = choose|packets: nat, count: int| #[trigger]
                    queue_taken(state, over, end, items, now_ms, rtt_ms, packets, count);
                lemma_accounts(state, over, end, now_ms, rtt_ms, taken, packets, count);
            },
            ResendPhase::Stop(_) => {
                let taken = choose|taken: int| #[trigger]
                    resends_taken(state, end, now_ms, rtt_ms, taken);
                lemma_nothing_taken(
                    state,
                    end,
                    resent_items(unacknowledged(entries.take(taken))),
                    now_ms,
                    rtt_ms,
                );
                lemma_accounts(state, end, end, now_ms, rtt_ms, taken, 0, 0);
            },
        }
    }
}

/// The account of the datagrams that are sent again and that of the others make up the whole.
proof fn lemma_accounts(
    state: EmitterView,
    over: DataEmission,
    end: DataEmission,
    now_ms: u64,
    rtt_ms: u64,
    taken: int,
    packets: nat,
    count: int,
)
    requires
        resends_taken(state, over, now_ms, rtt_ms, taken),
        queue_taken(
            state,
            over,
            end,
            resent_items(unacknowledged(state.resends.entries.take(taken))),
            now_ms,
            rtt_ms,
            packets,
            count,
        ),
        end.open.len() == 0,
        packets > 0 || count > 0 ==> all_wait(state.resends.entries.skip(taken), now_ms),
    ensures
        exists|frames: Seq<Seq<SentDatagram>>| #[trigger]
            accounts_for_all(state, end, now_ms, rtt_ms, taken, packets, count, frames),
{
    let entries = state.resends.entries;
    let resent = unacknowledged(entries.take(taken));
    let all = offered(state.queue, state.sender, packets);
    let fresh = fresh_items(all.take(count), state.resends.next_key);
    let items = resent_items(resent) + fresh;
    lemma_traced_end(state, end, items);
    let frames = choose|frames: Seq<Seq<SentDatagram>>| #[trigger]
        gives_frames(state, end, frames) && joined(frames) == items;
    lemma_insert_all_twice(
        entries.skip(taken),
        again_all(resent, now_ms, rtt_ms),
        once_all(fresh, now_ms, rtt_ms),
    );
    assert(accounts_for_all(state, end, now_ms, rtt_ms, taken, packets, count, frames));
}

/// Whether the frames carry `resent` and behind them `count` of the datagrams that had not been
/// sent, and the log has taken up each frame with the keys of its datagrams, as `frames` gives
/// them.
pub open spec fn accounts_for_keys(
    state: EmitterView,
    end: DataEmission,
    resent: Seq<PendingResend>,
    packets: nat,
    count: int,
    frames: Seq<Seq<SentDatagram>>,
) -> bool {
    let all = offered(state.queue, state.sender, packets);
    &&& 0 <= count <= all.len()
    &&& gives_frames(state, end, frames)
    &&& joined(frames) == resent_items(resent) + fresh_items(
        all.take(count),
        state.resends.next_key,
    )
}

/// The log takes up each frame with the keys of exactly those of its datagrams that are to be sent
/// until they are acknowledged, in the order in which the frame carries them: a datagram that is
/// sent again keeps its key, and one that is sent for the first time gets the next key.
pub proof fn law_logged_keys_are_exact(
    state: EmitterView,
    now_ms: u64,
    rtt_ms: u64,
    max_send_size: usize,
)
    requires
        state_wf(state),
    ensures
        exists|
            resent: Seq<PendingResend>,
            packets: nat,
            count: int,
            frames: Seq<Seq<SentDatagram>>,
        | #[trigger]
            accounts_for_keys(
                state,
                data_emission(state, now_ms, rtt_ms, max_send_size).emission,
                resent,
                packets,
                count,
                frames,
            ) && all_were_due(state, now_ms, resent),
{
    let start = DataEmission::start(state, max_send_size);
    let end = data_emission(state, now_ms, rtt_ms, max_send_size).emission;
    lemma_start_wf(state, max_send_size);
    if state.log.is_full() {
        let none = Seq::<PendingResend>::empty();
        assert(resent_items(none) =~= Seq::empty());
        lemma_traced_start(state, max_send_size);
        lemma_nothing_taken(state, end, resent_items(none), now_ms, rtt_ms);
        lemma_accounts_for_keys(state, end, end, now_ms, rtt_ms, none, 0, 0);
    } else {
        let any = |emission: DataEmission| true;
        lemma_resend_phase_keeps(any, start, now_ms, rtt_ms);
        lemma_resends_traced(state, now_ms, rtt_ms, max_send_size);
        match resend_phase(start, now_ms, rtt_ms) {
            ResendPhase::Over(over) => {
                let resent = choose|resent: Seq<PendingResend>| #[trigger]
                    resends_traced(state, over, now_ms, resent);
                let items = resent_items(resent);
                lemma_queue_taken(state, over, items, now_ms, rtt_ms);
                let (packets, count) = choose|packets: nat, count: int| #[trigger]
                    queue_taken(state, over, end, items, now_ms, rtt_ms, packets, count);
                lemma_accounts_for_keys(
                    state,
                    over,
                    end,
                    now_ms,
                    rtt_ms,
                    resent,
                    packets,
                    count,
                );
            },
            ResendPhase::Stop(_) => {
                let resent = choose|resent: Seq<PendingResend>| #[trigger]
                    resends_traced(state, end, now_ms, resent);
                lemma_nothing_taken(state, end, resent_items(resent), now_ms, rtt_ms);
                lemma_accounts_for_keys(state, end, end, now_ms, rtt_ms, resent, 0, 0);
            },
        }
    }
}

proof fn lemma_accounts_for_keys(
    state: EmitterView,
    over: DataEmission,
    end: DataEmission,
    now_ms: u64,
    rtt_ms: u64,
    resent: Seq<PendingResend>,
    packets: nat,
    count: int,
)
    requires
        over.state.queue == state.queue,
        over.state.sender == state.sender,
        over.state.resends.next_key == state.resends.next_key,
        queue_taken(state, over, end, resent_items(resent), now_ms, rtt_ms, packets, count),
        end.open.len() == 0,
    ensures
        exists|frames: Seq<Seq<SentDatagram>>| #[trigger]
            accounts_for_keys(state, end, resent, packets, count, frames),
{
    let all = offered(state.queue, state.sender, packets);
    let items = resent_items(resent) + fresh_items(all.take(count), state.resends.next_key);
    lemma_traced_end(state, end, items);
    let frames = choose|frames: Seq<Seq<SentDatagram>>| #[trigger]
        gives_frames(state, end, frames) && joined(frames) == items;
    assert(accounts_for_keys(state, end, resent, packets, count, frames));
}

/// Transmission number `index` of the datagrams `all`, which are sent over and over.
pub open spec fn turn(all: Seq<PendingResend>, index: int) -> SentDatagram {
    let entry = all[index % (all.len() as int)];
    SentDatagram { datagram: entry.datagram, key: Some(entry.key) }
}

/// How the datagram of transmission number `index` of the datagrams `all` is held before: as it
/// was, or as one that has been sent again at `now_ms` and is due at once.
pub open spec fn held_for_turn(
    all: Seq<PendingResend>,
    now_ms: u64,
    index: int,
) -> PendingResend {
    let entry = all[index % (all.len() as int)];
    if index < all.len() {
        entry
    } else {
        PendingResend { resend_time: now_ms as int, send_count: 2, ..entry }
    }
}

/// Whether `count` transmissions of the datagrams that were due have been made, in turn, and those
/// that come next are still due, in turn; nothing has been sent for the first time.
pub open spec fn sent_in_turn(
    state: EmitterView,
    end: EmitterView,
    items: Seq<SentDatagram>,
    now_ms: u64,
    count: nat,
) -> bool {
    let all = due(state.resends.entries, now_ms);
    &&& items == Seq::new(count, |i: int| turn(all, i))
    &&& due(end.resends.entries, now_ms) == Seq::new(
        all.len(),
        |i: int| held_for_turn(all, now_ms, count + i),
    )
    &&& end.queue == state.queue
    &&& end.sender == state.sender
    &&& end.resends.next_key == state.resends.next_key
}

/// Those of `entries` that are not to be sent again at `now_ms`, in the same order.
pub open spec fn not_due(entries: Seq<PendingResend>, now_ms: u64) -> Seq<PendingResend>
    decreases entries.len(),
{
    if entries.len() == 0 {
        Seq::empty()
    } else if is_due(entries[0], now_ms) {
        not_due(entries.skip(1), now_ms)
    } else {
        seq![entries[0]] + not_due(entries.skip(1), now_ms)
    }
}

/// Whether all that was not to be sent again at `now_ms` is held as it was, in the same order, but
/// for the first `forgotten` of them, which were acknowledged.
pub open spec fn others_are_kept(
    state: EmitterView,
    end: EmitterView,
    now_ms: u64,
    forgotten: int,
) -> bool {
    let others = not_due(state.resends.entries, now_ms);
    &&& 0 <= forgotten <= others.len()
    &&& not_due(end.resends.entries, now_ms) == others.skip(forgotten)
    &&& forall|i: int| 0 <= i < forgotten ==> (#[trigger] others[i]).acknowledged
}

proof fn lemma_not_due_insert(
    entries: Seq<PendingResend>,
    at: int,
    entry: PendingResend,
    now_ms: u64,
)
    requires
        0 <= at <= entries.len(),
        is_due(entry, now_ms),
    ensures
        not_due(entries.insert(at, entry), now_ms) == not_due(entries, now_ms),
    decreases at,
{
    let inserted = entries.insert(at, entry);
    if at == 0 {
        assert(inserted.skip(1) =~= entries);
        assert(inserted[0] == entry);
    } else {
        assert(inserted.skip(1) =~= entries.skip(1).insert(at - 1, entry));
        assert(inserted[0] == entries[0]);
        lemma_not_due_insert(entries.skip(1), at - 1, entry, now_ms);
    }
}

/// Where there is no time until a datagram is sent again, what is not due is left alone.
pub proof fn law_without_delay_others_are_kept(
    state: EmitterView,
    now_ms: u64,
    max_send_size: usize,
)
    requires
        state_wf(state),
        !all_wait(state.resends.entries, now_ms),
    ensures
        exists|forgotten: int| #[trigger]
            others_are_kept(
                state,
                data_emission(state, now_ms, 0, max_send_size).emission.state,
                now_ms,
                forgotten,
            ),
{
    let first = DataEmission::start(state, max_send_size);
    let end = data_emission(state, now_ms, 0, max_send_size).emission.state;
    let others = not_due(state.resends.entries, now_ms);
    let inv = |emission: DataEmission|
        exists|forgotten: int| #[trigger]
            others_are_kept(state, emission.state, now_ms, forgotten);
    assert(others.skip(0) =~= others);
    assert(others_are_kept(state, state, now_ms, 0));
    lemma_start_wf(state, max_send_size);
    assert forall|emission: DataEmission|
        #![trigger inv(emission)]
        emission_wf(emission) && inv(emission) && emission.open.len() > 0
            && !emission.state.log.is_full() implies inv(emission.close(now_ms)) by {
        let forgotten = choose|forgotten: int| #[trigger]
            others_are_kept(state, emission.state, now_ms, forgotten);
        assert(others_are_kept(state, emission.close(now_ms).state, now_ms, forgotten));
    }
    assert forall|emission: DataEmission|
        #![trigger inv(emission)]
        emission_wf(emission) && inv(emission) implies {
        &&& emission.state.resends.entries.len() > 0
            && emission.state.resends.entries[0].acknowledged ==> inv(emission.drop_resend())
        &&& takes_resend(emission, now_ms) ==> inv(emission.add_resend(now_ms, 0))
    } by {
        let forgotten = choose|forgotten: int| #[trigger]
            others_are_kept(state, emission.state, now_ms, forgotten);
        let entries = emission.state.resends.entries;
        let rest = entries.skip(1);
        if entries.len() > 0 && entries[0].acknowledged {
            let left = others.skip(forgotten);
            assert(left == seq![entries[0]] + not_due(rest, now_ms));
            assert(left[0] == entries[0] && left[0] == others[forgotten]);
            assert(not_due(rest, now_ms) =~= left.skip(1));
            assert(left.skip(1) =~= others.skip(forgotten + 1));
            assert(others_are_kept(
                state,
                emission.drop_resend().state,
                now_ms,
                forgotten + 1,
            ));
        }
        if takes_resend(emission, now_ms) {
            let again = sent_again(entries[0], now_ms, 0);
            lemma_sent_again_is_delayed(entries[0], now_ms, 0);
            lemma_rank(rest, again.resend_time);
            lemma_not_due_insert(rest, rank(rest, again.resend_time), again, now_ms);
            assert(others_are_kept(
                state,
                emission.add_resend(now_ms, 0).state,
                now_ms,
                forgotten,
            ));
        }
    }
    if !state.log.is_full() {
        lemma_resend_phase_keeps(inv, first, now_ms, 0);
        lemma_without_delay_stops(state, now_ms, max_send_size);
        match resend_phase(first, now_ms, 0) {
            ResendPhase::Over(_) => {},
            ResendPhase::Stop(outcome) => {
                assert(inv(outcome.emission));
                assert(end == outcome.emission.state);
            },
        }
    } else {
        assert(end == state);
    }
}

/// While a datagram is due, and is due again at once whenever it is sent, sending does not get to
/// those that have not been sent yet.
proof fn lemma_without_delay_stops(state: EmitterView, now_ms: u64, max_send_size: usize)
    requires
        state_wf(state),
        !state.log.is_full(),
        !all_wait(state.resends.entries, now_ms),
    ensures
        resend_phase(DataEmission::start(state, max_send_size), now_ms, 0) is Stop,
{
    let first = DataEmission::start(state, max_send_size);
    let inv = |emission: DataEmission| !all_wait(emission.state.resends.entries, now_ms);
    lemma_start_wf(state, max_send_size);
    assert forall|emission: DataEmission|
        #![trigger inv(emission)]
        emission_wf(emission) && inv(emission) implies {
        &&& emission.state.resends.entries.len() > 0
            && emission.state.resends.entries[0].acknowledged ==> inv(emission.drop_resend())
        &&& takes_resend(emission, now_ms) ==> inv(emission.add_resend(now_ms, 0))
    } by {
        let entries = emission.state.resends.entries;
        let rest = entries.skip(1);
        if entries.len() > 0 && entries[0].acknowledged {
            let i = choose|i: int| 0 <= i < entries.len() && is_due(#[trigger] entries[i], now_ms);
            assert(is_due(rest[i - 1], now_ms));
        }
        if takes_resend(emission, now_ms) {
            let again = sent_again(entries[0], now_ms, 0);
            lemma_sent_again_is_delayed(entries[0], now_ms, 0);
            lemma_insert_by_time(rest, again);
            let at = rank(rest, again.resend_time);
            assert(is_due(insert_by_time(rest, again)[at], now_ms));
        }
    }
    lemma_resend_phase_keeps(inv, first, now_ms, 0);
    match resend_phase(first, now_ms, 0) {
        ResendPhase::Over(over) => {
            let entries = over.state.resends.entries;
            let i = choose|i: int| 0 <= i < entries.len() && is_due(#[trigger] entries[i], now_ms);
            assert(entries[0].resend_time <= entries[i].resend_time);
        },
        ResendPhase::Stop(_) => {},
    }
}

proof fn lemma_due_insert_last(
    entries: Seq<PendingResend>,
    at: int,
    entry: PendingResend,
    now_ms: u64,
)
    requires
        0 <= at <= entries.len(),
        is_due(entry, now_ms),
        forall|i: int| at <= i < entries.len() ==> !is_due(#[trigger] entries[i], now_ms),
    ensures
        due(entries.insert(at, entry), now_ms) == due(entries, now_ms).push(entry),
    decreases at,
{
    let inserted = entries.insert(at, entry);
    if at == 0 {
        assert(inserted.skip(1) =~= entries);
        assert(inserted[0] == entry);
        lemma_none_due(entries, now_ms);
        assert(due(inserted, now_ms) =~= due(entries, now_ms).push(entry));
    } else {
        let rest = entries.skip(1);
        assert(inserted.skip(1) =~= rest.insert(at - 1, entry));
        assert(inserted[0] == entries[0]);
        assert forall|i: int| at - 1 <= i < rest.len() implies !is_due(
            #[trigger] rest[i],
            now_ms,
        ) by {
            assert(rest[i] == entries[i + 1]);
        }
        lemma_due_insert_last(rest, at - 1, entry, now_ms);
        assert(due(inserted, now_ms) =~= due(entries, now_ms).push(entry));
    }
}

proof fn lemma_due_wf(entries: Seq<PendingResend>, now_ms: u64)
    requires
        forall|i: int| 0 <= i < entries.len() ==> resend_wf(#[trigger] entries[i]),
    ensures
        forall|i: int|
            0 <= i < due(entries, now_ms).len() ==> resend_wf(#[trigger] due(entries, now_ms)[i])
                && is_due(due(entries, now_ms)[i], now_ms),
    decreases entries.len(),
{
    if entries.len() > 0 {
        lemma_due_wf(entries.skip(1), now_ms);
        let rest = due(entries.skip(1), now_ms);
        let all = due(entries, now_ms);
        if is_due(entries[0], now_ms) {
            assert forall|i: int| 0 <= i < all.len() implies resend_wf(#[trigger] all[i])
                && is_due(all[i], now_ms) by {
                if i > 0 {
                    assert(all[i] == rest[i - 1]);
                }
            }
        }
    }
}

/// Where there is no time until a datagram is sent again, those that are due are sent over and over
/// in turn, until there are not enough bytes left or the log is full. Nothing is sent for the first
/// time.
pub proof fn law_without_delay_all_take_turns(
    state: EmitterView,
    now_ms: u64,
    max_send_size: usize,
)
    requires
        state_wf(state),
        state.log.frames.len() < MAX_FRAME_TRANSFER_WINDOW_SIZE,
        !all_wait(state.resends.entries, now_ms),
    ensures
        ({
            let outcome = data_emission(state, now_ms, 0, max_send_size);
            let end = outcome.emission;
            &&& exists|count: nat, frames: Seq<Seq<SentDatagram>>|
                #![trigger sent_in_turn(state, end.state, joined(frames), now_ms, count)]
                gives_frames(state, end, frames) && sent_in_turn(
                    state,
                    end.state,
                    joined(frames),
                    now_ms,
                    count,
                )
            &&& end.state.resends.entries.len() > 0
            &&& is_due(end.state.resends.entries[0], now_ms)
            &&& stopped_at(outcome, end.state.resends.entries[0].datagram)
        }),
{
    let first = DataEmission::start(state, max_send_size);
    let all = due(state.resends.entries, now_ms);
    let n = all.len() as int;
    lemma_start_wf(state, max_send_size);
    lemma_due_wf(state.resends.entries, now_ms);
    if n == 0 {
        lemma_nothing_due(state.resends.entries, now_ms);
    }
    let inv = |emission: DataEmission|
        exists|items: Seq<SentDatagram>, count: nat| #[trigger]
            sent_in_turn(state, emission.state, items, now_ms, count) && traced(
                state,
                emission,
                items,
            );
    assert(inv(first)) by {
        let none = Seq::<SentDatagram>::empty();
        lemma_traced_start(state, max_send_size);
        assert(none =~= Seq::new(0, |i: int| turn(all, i)));
        assert forall|i: int| 0 <= i < n implies #[trigger] all[i] == held_for_turn(
            all,
            now_ms,
            0 + i,
        ) by {
            vstd::arithmetic::div_mod::lemma_small_mod(i as nat, n as nat);
        }
        assert(all =~= Seq::new(all.len(), |i: int| held_for_turn(all, now_ms, 0 + i)));
        assert(sent_in_turn(state, first.state, none, now_ms, 0));
    }
    assert forall|emission: DataEmission|
        #![trigger inv(emission)]
        emission_wf(emission) && inv(emission) && emission.open.len() > 0
            && !emission.state.log.is_full() implies inv(emission.close(now_ms)) by {
        let (items, count) = choose|items: Seq<SentDatagram>, count: nat| #[trigger]
            sent_in_turn(state, emission.state, items, now_ms, count) && traced(
                state,
                emission,
                items,
            );
        lemma_traced_close(state, emission, items, now_ms);
        assert(sent_in_turn(state, emission.close(now_ms).state, items, now_ms, count));
    }
    assert forall|emission: DataEmission|
        #![trigger inv(emission)]
        emission_wf(emission) && inv(emission) implies {
        &&& emission.state.resends.entries.len() > 0
            && emission.state.resends.entries[0].acknowledged ==> inv(emission.drop_resend())
        &&& takes_resend(emission, now_ms) ==> inv(emission.add_resend(now_ms, 0))
    } by {
        let (items, count) = choose|items: Seq<SentDatagram>, count: nat| #[trigger]
            sent_in_turn(state, emission.state, items, now_ms, count) && traced(
                state,
                emission,
                items,
            );
        let entries = emission.state.resends.entries;
        if entries.len() > 0 && entries[0].acknowledged {
            let next = emission.drop_resend();
            lemma_traced_same(state, emission, items, next);
            assert(sent_in_turn(state, next.state, items, now_ms, count));
        }
        if takes_resend(emission, now_ms) {
            lemma_takes_turn(state, emission, items, now_ms, count);
        }
    }
    lemma_resend_phase_keeps(inv, first, now_ms, 0);
    lemma_without_delay_stops(state, now_ms, max_send_size);
    match resend_phase(first, now_ms, 0) {
        ResendPhase::Over(_) => {},
        ResendPhase::Stop(outcome) => {
            let (items, count) = choose|items: Seq<SentDatagram>, count: nat| #[trigger]
                sent_in_turn(state, outcome.emission.state, items, now_ms, count) && traced(
                    state,
                    outcome.emission,
                    items,
                );
            lemma_traced_end(state, outcome.emission, items);
            let frames = choose|frames: Seq<Seq<SentDatagram>>| #[trigger]
                gives_frames(state, outcome.emission, frames) && joined(frames) == items;
            assert(sent_in_turn(
                state,
                outcome.emission.state,
                joined(frames),
                now_ms,
                count,
            ));
            lemma_resend_phase_packs(first, now_ms, 0);
        },
    }
}

proof fn lemma_nothing_due(entries: Seq<PendingResend>, now_ms: u64)
    requires
        due(entries, now_ms).len() == 0,
    ensures
        all_wait(entries, now_ms),
    decreases entries.len(),
{
    if entries.len() > 0 {
        lemma_nothing_due(entries.skip(1), now_ms);
        assert forall|i: int| 0 <= i < entries.len() implies !is_due(
            #[trigger] entries[i],
            now_ms,
        ) by {
            if i > 0 {
                assert(entries[i] == entries.skip(1)[i - 1]);
            }
        }
    }
}

/// The datagram whose turn it is is sent, and waits for its next turn.
proof fn lemma_takes_turn(
    state: EmitterView,
    emission: DataEmission,
    items: Seq<SentDatagram>,
    now_ms: u64,
    count: nat,
)
    requires
        state_wf(state),
        emission_wf(emission),
        sent_in_turn(state, emission.state, items, now_ms, count),
        traced(state, emission, items),
        takes_resend(emission, now_ms),
    ensures
        ({
            let next = emission.add_resend(now_ms, 0);
            exists|more: Seq<SentDatagram>| #[trigger]
                sent_in_turn(state, next.state, more, now_ms, count + 1) && traced(
                    state,
                    next,
                    more,
                )
        }),
{
    let all = due(state.resends.entries, now_ms);
    let n = all.len() as int;
    let entries = emission.state.resends.entries;
    let rest = entries.skip(1);
    let head = entries[0];
    let again = sent_again(head, now_ms, 0);
    let next = emission.add_resend(now_ms, 0);
    let before = due(entries, now_ms);
    assert(before == seq![head] + due(rest, now_ms));
    assert(n == before.len() && n > 0);
    assert(before[0] == held_for_turn(all, now_ms, count as int + 0));
    assert(head == held_for_turn(all, now_ms, count as int));
    lemma_sent_again_is_delayed(head, now_ms, 0);
    assert((count + n) % n == (count as int) % n) by {
        vstd::arithmetic::div_mod::lemma_mod_add_multiples_vanish(count as int, n);
    }
    lemma_due_wf(state.resends.entries, now_ms);
    assert(0 <= (count as int) % n < n) by {
        vstd::arithmetic::div_mod::lemma_mod_bound(count as int, n);
    }
    assert(is_due(all[(count as int) % n], now_ms));
    assert(again == held_for_turn(all, now_ms, count + n));
    lemma_rank(rest, again.resend_time);
    let at = rank(rest, again.resend_time);
    lemma_due_insert_last(rest, at, again, now_ms);
    let after = due(next.state.resends.entries, now_ms);
    assert(after == due(rest, now_ms).push(again));
    assert forall|i: int| 0 <= i < n implies #[trigger] after[i] == held_for_turn(
        all,
        now_ms,
        (count + 1) + i,
    ) by {
        if i < n - 1 {
            assert(after[i] == before[i + 1]);
        }
    }
    assert(after =~= Seq::new(
        all.len(),
        |i: int| held_for_turn(all, now_ms, (count + 1) as nat + i),
    ));
    let item = SentDatagram { datagram: head.datagram, key: Some(head.key) };
    assert(item == turn(all, count as int));
    let more = items.push(item);
    assert(more =~= Seq::new(count + 1, |i: int| turn(all, i)));
    lemma_traced_add(state, emission, items, next, item);
    assert(sent_in_turn(state, next.state, more, now_ms, count + 1));
}

} // verus!
