//! What the queues and the log do.
use crate::frame_log::id_after;
use crate::frame_log::FrameLogView;
use crate::frame_log::LoggedFrame;
use crate::resend_queue::acknowledge_key;
use crate::resend_queue::insert_by_time;
use crate::resend_queue::lemma_rank;
use crate::resend_queue::rank;
use crate::resend_queue::resend_wf;
use crate::resend_queue::PendingResend;
use crate::MAX_TRANSFER_UNIT;
use vstd::prelude::*;

verus! {

/// A datagram that is put among those that are to be sent again stands behind all that are due at
/// its time or before, and in front of all that are due later; these stay as they are, in the same
/// order.
pub proof fn law_resends_are_ordered_by_time(entries: Seq<PendingResend>, entry: PendingResend)
    requires
        forall|i: int, j: int|
            0 <= i <= j < entries.len() ==> (#[trigger] entries[i]).resend_time <= (
            #[trigger] entries[j]).resend_time,
    ensures
        exists|at: int|
            {
                &&& 0 <= at <= entries.len()
                &&& insert_by_time(entries, entry) == #[trigger] entries.insert(at, entry)
                &&& forall|i: int|
                    0 <= i < at ==> (#[trigger] entries[i]).resend_time <= entry.resend_time
                &&& forall|i: int|
                    at <= i < entries.len() ==> (#[trigger] entries[i]).resend_time
                        > entry.resend_time
            },
{
    lemma_rank(entries, entry.resend_time);
    let at = rank(entries, entry.resend_time);
    if at > 0 {
        assert(entries[at - 1].resend_time <= entry.resend_time);
    }
    assert(insert_by_time(entries, entry) == entries.insert(at, entry));
}

/// To acknowledge a key is to mark the datagrams that have it as acknowledged, and to change
/// nothing else.
pub proof fn law_acknowledging_only_marks(entries: Seq<PendingResend>, key: u64, index: int)
    requires
        0 <= index < entries.len(),
    ensures
        ({
            let marked = entries.map_values(|entry: PendingResend| acknowledge_key(entry, key));
            &&& marked.len() == entries.len()
            &&& marked[index].acknowledged == (entries[index].acknowledged || entries[index].key
                == key)
            &&& marked[index].key == entries[index].key
            &&& marked[index].datagram == entries[index].datagram
            &&& marked[index].resend_time == entries[index].resend_time
            &&& marked[index].send_count == entries[index].send_count
        }),
{
}

/// IDs count up by one and start again at zero after the largest one.
pub proof fn law_ids_count_up(id: u32, n: int)
    requires
        0 <= n,
    ensures
        id_after(id, 0) == id,
        id_after(id, n + 1) == if id_after(id, n) == u32::MAX {
            0
        } else {
            id_after(id, n) + 1
        },
{
}

/// Different numbers give different IDs, as long as not all IDs have been used.
pub proof fn law_ids_differ(id: u32, m: int, n: int)
    requires
        0 <= m < n < 0x1_0000_0000,
    ensures
        id_after(id, m) != id_after(id, n),
{
    if id + n < 0x1_0000_0000 {
        vstd::arithmetic::div_mod::lemma_small_mod((id + n) as nat, 0x1_0000_0000);
    }
}

/// The frames of the log have the IDs from its base ID on, and the next frame has the one behind
/// them. The log takes a frame behind all others, and is full once it holds 16384.
pub proof fn law_log_is_a_window(log: FrameLogView, frame: LoggedFrame)
    ensures
        log.next_id() == id_after(log.base_id, log.frames.len() as int),
        log.is_full() == (log.frames.len() >= 16384),
        log.push(frame).base_id == log.base_id,
        log.push(frame).frames == log.frames.push(frame),
{
}

/// A datagram can be held to be sent again exactly if it fits in a frame and has been sent, once or
/// more often; the count stops at two.
pub proof fn law_what_can_be_held(entry: PendingResend)
    ensures
        resend_wf(entry) <==> 8 + 15 + entry.datagram.data.len() <= MAX_TRANSFER_UNIT && 1
            <= entry.send_count <= 2,
{
}

} // verus!
