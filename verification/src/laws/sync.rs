//! When a sync frame is sent.
use crate::emission::EmitterView;
use crate::emit_frame::sync_result;
use crate::frame::wire::sync_frame_bytes;
use vstd::prelude::*;

verus! {

/// Whether there is nothing to be sent, now or again, and fewer than 16384 frames await an
/// acknowledgement.
pub open spec fn is_idle(state: EmitterView) -> bool {
    &&& state.queue.len() == 0
    &&& state.resends.entries.len() == 0
    &&& state.log.frames.len() < 16384
}

/// A sync frame, which is 10 bytes long, is sent exactly if the emitter is idle and 10 bytes may be
/// sent. It is held back for want of bytes exactly if the emitter is idle and fewer may be sent.
pub proof fn law_sync_frame_is_sent_when_idle(
    state: EmitterView,
    max_send_size: usize,
    nonce: bool,
    sender_next_id: u32,
)
    ensures
        ({
            let (size, held_back) = sync_result(state, max_send_size);
            &&& size == 10 <==> is_idle(state) && max_send_size >= 10
            &&& size == 0 <==> !is_idle(state) || max_send_size < 10
            &&& held_back <==> is_idle(state) && max_send_size < 10
        }),
        sync_frame_bytes(state.log.next_id(), nonce, sender_next_id).len() == 10,
{
}

/// Whether a sync frame is sent depends on nothing but what waits to be sent, now or again, how
/// many frames await an acknowledgement, and how many bytes may be sent: not on the
/// acknowledgements or on the packets.
pub proof fn law_sync_depends_on_idleness_alone(
    state: EmitterView,
    other: EmitterView,
    max_send_size: usize,
)
    requires
        (state.queue.len() == 0) == (other.queue.len() == 0),
        (state.resends.entries.len() == 0) == (other.resends.entries.len() == 0),
        (state.log.frames.len() < 16384) == (other.log.frames.len() < 16384),
    ensures
        sync_result(state, max_send_size) == sync_result(other, max_send_size),
{
}

/// The more bytes may be sent, the sooner a sync frame is: once it is sent, it is with more bytes,
/// and it is never held back for want of bytes then.
pub proof fn law_sync_with_more_bytes(
    state: EmitterView,
    max_send_size: usize,
    larger_max_send_size: usize,
)
    requires
        max_send_size <= larger_max_send_size,
        sync_result(state, max_send_size).0 > 0,
    ensures
        sync_result(state, larger_max_send_size) == sync_result(state, max_send_size),
{
}

} // verus!
