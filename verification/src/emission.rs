//! What an emitter sends, and what it holds afterwards, as functions of what it held before.
use crate::datagram_queue::QueuedDatagram;
use crate::frame::serial::lemma_datagrams_size_push;
use crate::frame::serial::DataFramePlan;
use crate::frame::wire::ack_frame_size;
use crate::frame::wire::data_frame_size;
use crate::frame::wire::datagram_size;
use crate::frame::wire::FRAME_ACK_SIZE;
use crate::frame::DatagramView;
use crate::frame::FrameAck;
use crate::frame_log::FrameLogView;
use crate::frame_log::LoggedFrame;
use crate::packet_sender::PacketSenderView;
use crate::resend_queue::insert_by_time;
use crate::resend_queue::lemma_insert_by_time;
use crate::resend_queue::PendingResend;
use crate::resend_queue::ResendQueueView;
use crate::resend_queue::MAX_SEND_COUNT;
use crate::MAX_FRAME_TRANSFER_WINDOW_SIZE;
use crate::MAX_TRANSFER_UNIT;
use vstd::arithmetic::power2::pow2;
use vstd::prelude::*;

verus! {

/// All that an emitter draws on.
#[verifier::ext_equal]
pub struct EmitterView {
    pub sender: PacketSenderView,
    pub queue: Seq<QueuedDatagram>,
    pub resends: ResendQueueView,
    pub log: FrameLogView,
    pub acks: Seq<FrameAck>,
}

/// Data frames being sent: what the emitter holds by now, the bytes that may still be sent, the
/// datagrams of the frame being put together and the keys of the persistent ones among them, and
/// the frames sent so far.
#[verifier::ext_equal]
pub struct DataEmission {
    pub state: EmitterView,
    pub budget: int,
    pub open: Seq<DatagramView>,
    pub keys: Seq<u64>,
    pub sent: Seq<DataFramePlan>,
}

/// How the sending of data frames ended, and whether it was for want of bytes.
#[verifier::ext_equal]
pub struct DataOutcome {
    pub emission: DataEmission,
    pub size_limited: bool,
}

/// What happens to the frame being put together when a datagram is to be added to it: it has room;
/// or it is sent, and the datagram is to be added to the next one; or there is no more sending.
pub enum Room {
    Fits,
    Retry(DataEmission),
    Stop(DataOutcome),
}

/// How the sending of the datagrams that are to be sent again ended.
pub enum ResendPhase {
    /// None of them is due.
    Over(DataEmission),
    /// There is no more sending.
    Stop(DataOutcome),
}

/// `entry`, sent again at `now_ms`: the delay doubles with each transmission, up to the one after
/// `MAX_SEND_COUNT`.
pub open spec fn sent_again(entry: PendingResend, now_ms: u64, rtt_ms: u64) -> PendingResend {
    PendingResend {
        resend_time: now_ms + rtt_ms * pow2(entry.send_count as nat),
        send_count: if entry.send_count + 1 <= MAX_SEND_COUNT {
            entry.send_count + 1
        } else {
            MAX_SEND_COUNT as int
        },
        ..entry
    }
}

/// `datagram`, sent for the first time at `now_ms`, under the key `key`.
pub open spec fn sent_once(
    datagram: DatagramView,
    key: u64,
    now_ms: u64,
    rtt_ms: u64,
) -> PendingResend {
    PendingResend {
        key,
        datagram,
        acknowledged: false,
        resend_time: now_ms + rtt_ms,
        send_count: 1,
    }
}

impl DataEmission {
    /// Nothing sent yet.
    pub open spec fn start(state: EmitterView, max_send_size: usize) -> DataEmission {
        DataEmission {
            state,
            budget: max_send_size as int,
            open: Seq::empty(),
            keys: Seq::empty(),
            sent: Seq::empty(),
        }
    }

    /// The frame being put together is sent: the log takes it up, and the next one is empty.
    pub open spec fn close(self, now_ms: u64) -> DataEmission {
        DataEmission {
            state: EmitterView {
                log: self.state.log.push(
                    LoggedFrame { send_time_ms: now_ms, persistent_datagrams: self.keys },
                ),
                ..self.state
            },
            budget: self.budget - data_frame_size(self.open),
            open: Seq::empty(),
            keys: Seq::empty(),
            sent: self.sent.push(
                DataFramePlan { sequence_id: self.state.log.next_id(), datagrams: self.open },
            ),
        }
    }

    /// The frame being put together is sent, unless it is empty.
    pub open spec fn finish(self, now_ms: u64) -> DataEmission {
        if self.open.len() > 0 {
            self.close(now_ms)
        } else {
            self
        }
    }

    /// Makes room for `datagram`. A frame neither exceeds the bytes that may still be sent nor the
    /// transfer unit.
    pub open spec fn make_room(self, datagram: DatagramView, now_ms: u64) -> Room {
        let size = data_frame_size(self.open) + datagram_size(datagram);
        if size > self.budget {
            Room::Stop(DataOutcome { emission: self.finish(now_ms), size_limited: true })
        } else if size > MAX_TRANSFER_UNIT {
            let closed = self.close(now_ms);
            if closed.state.log.is_full() {
                Room::Stop(DataOutcome { emission: closed, size_limited: false })
            } else {
                Room::Retry(closed)
            }
        } else {
            Room::Fits
        }
    }

    /// The first datagram that is to be sent again is forgotten.
    pub open spec fn drop_resend(self) -> DataEmission {
        DataEmission {
            state: EmitterView {
                resends: ResendQueueView {
                    entries: self.state.resends.entries.skip(1),
                    ..self.state.resends
                },
                ..self.state
            },
            ..self
        }
    }

    /// The first datagram that is to be sent again joins the frame, and is queued for the next
    /// time.
    pub open spec fn add_resend(self, now_ms: u64, rtt_ms: u64) -> DataEmission {
        let entry = self.state.resends.entries[0];
        DataEmission {
            state: EmitterView {
                resends: ResendQueueView {
                    entries: insert_by_time(
                        self.state.resends.entries.skip(1),
                        sent_again(entry, now_ms, rtt_ms),
                    ),
                    ..self.state.resends
                },
                ..self.state
            },
            open: self.open.push(entry.datagram),
            keys: self.keys.push(entry.key),
            ..self
        }
    }

    /// The next packet is cut into datagrams.
    pub open spec fn refill(self) -> DataEmission {
        DataEmission {
            state: EmitterView {
                sender: self.state.sender.emit(),
                queue: self.state.queue + self.state.sender.next_datagrams(),
                ..self.state
            },
            ..self
        }
    }

    /// The first datagram that has not been sent yet joins the frame; it is queued to be sent
    /// again if it is to be.
    pub open spec fn add_queued(self, now_ms: u64, rtt_ms: u64) -> DataEmission {
        let first = self.state.queue[0];
        let key = self.state.resends.next_key;
        DataEmission {
            state: EmitterView {
                queue: self.state.queue.skip(1),
                resends: if first.resend {
                    ResendQueueView {
                        entries: insert_by_time(
                            self.state.resends.entries,
                            sent_once(first.datagram, key, now_ms, rtt_ms),
                        ),
                        next_key: key.wrapping_add(1),
                    }
                } else {
                    self.state.resends
                },
                ..self.state
            },
            open: self.open.push(first.datagram),
            keys: if first.resend {
                self.keys.push(key)
            } else {
                self.keys
            },
            ..self
        }
    }
}

/// Sends the datagrams whose time has come, in the order of their times, and forgets those that
/// have been acknowledged by the time they are first in line.
pub open spec fn resend_phase(emission: DataEmission, now_ms: u64, rtt_ms: u64) -> ResendPhase
    decreases
            MAX_FRAME_TRANSFER_WINDOW_SIZE - emission.state.log.frames.len(),
            MAX_TRANSFER_UNIT - data_frame_size(emission.open),
            emission.state.resends.entries.len(),
{
    let entries = emission.state.resends.entries;
    if entries.len() == 0 {
        ResendPhase::Over(emission)
    } else if entries[0].acknowledged {
        resend_phase(emission.drop_resend(), now_ms, rtt_ms)
    } else if entries[0].resend_time > now_ms {
        ResendPhase::Over(emission)
    } else {
        proof {
            lemma_datagrams_size_push(emission.open, entries[0].datagram);
        }
        match emission.make_room(entries[0].datagram, now_ms) {
            Room::Fits => resend_phase(emission.add_resend(now_ms, rtt_ms), now_ms, rtt_ms),
            Room::Retry(closed) => resend_phase(closed, now_ms, rtt_ms),
            Room::Stop(outcome) => ResendPhase::Stop(outcome),
        }
    }
}

/// Sends the datagrams that have not been sent yet, in order, and those of the packets that wait
/// as far as there is room for these in transit.
pub open spec fn queue_phase(emission: DataEmission, now_ms: u64, rtt_ms: u64) -> DataOutcome
    decreases
            MAX_FRAME_TRANSFER_WINDOW_SIZE - emission.state.log.frames.len(),
            emission.state.sender.waiting.len(),
            emission.state.queue.len(),
{
    let queue = emission.state.queue;
    if queue.len() == 0 {
        if emission.state.sender.can_emit() {
            queue_phase(emission.refill(), now_ms, rtt_ms)
        } else {
            DataOutcome { emission: emission.finish(now_ms), size_limited: false }
        }
    } else {
        match emission.make_room(queue[0].datagram, now_ms) {
            Room::Fits => queue_phase(emission.add_queued(now_ms, rtt_ms), now_ms, rtt_ms),
            Room::Retry(closed) => queue_phase(closed, now_ms, rtt_ms),
            Room::Stop(outcome) => outcome,
        }
    }
}

/// First the datagrams that are to be sent again, then the others.
pub open spec fn both_phases(emission: DataEmission, now_ms: u64, rtt_ms: u64) -> DataOutcome {
    match resend_phase(emission, now_ms, rtt_ms) {
        ResendPhase::Over(emission) => queue_phase(emission, now_ms, rtt_ms),
        ResendPhase::Stop(outcome) => outcome,
    }
}

/// The data frames that are sent at `now_ms` within `max_send_size` bytes.
pub open spec fn data_emission(
    state: EmitterView,
    now_ms: u64,
    rtt_ms: u64,
    max_send_size: usize,
) -> DataOutcome {
    let start = DataEmission::start(state, max_send_size);
    if state.log.is_full() {
        DataOutcome { emission: start, size_limited: false }
    } else {
        both_phases(start, now_ms, rtt_ms)
    }
}

/// Whether the times of all `entries` can be represented.
pub open spec fn times_fit(entries: Seq<PendingResend>) -> bool {
    forall|i: int| 0 <= i < entries.len() ==> (#[trigger] entries[i]).resend_time <= u64::MAX
}

/// Whether all times at which datagrams are to be sent again can be represented. Where the longest
/// delay can be added to `now_ms`, they can.
pub open spec fn resend_times_fit(
    state: EmitterView,
    now_ms: u64,
    rtt_ms: u64,
    max_send_size: usize,
) -> bool {
    ||| now_ms + 4 * rtt_ms <= u64::MAX
    ||| times_fit(
        data_emission(state, now_ms, rtt_ms, max_send_size).emission.state.resends.entries,
    )
}

/// Ack frames being sent: the acknowledgements that are left, the bytes that may still be sent,
/// the acknowledgements of the frame being put together, and those of each frame sent so far.
#[verifier::ext_equal]
pub struct AckEmission {
    pub queue: Seq<FrameAck>,
    pub budget: int,
    pub open: Seq<FrameAck>,
    pub sent: Seq<Seq<FrameAck>>,
}

/// How the sending of ack frames ended, and whether it was for want of bytes.
#[verifier::ext_equal]
pub struct AckOutcome {
    pub emission: AckEmission,
    pub size_limited: bool,
}

impl AckEmission {
    /// Nothing sent yet.
    pub open spec fn start(queue: Seq<FrameAck>, max_send_size: usize) -> AckEmission {
        AckEmission {
            queue,
            budget: max_send_size as int,
            open: Seq::empty(),
            sent: Seq::empty(),
        }
    }

    /// The frame being put together is sent, and the next one is empty.
    pub open spec fn close(self) -> AckEmission {
        AckEmission {
            budget: self.budget - ack_frame_size(self.open.len()),
            open: Seq::empty(),
            sent: self.sent.push(self.open),
            ..self
        }
    }

    /// The frame being put together is sent, unless it is empty.
    pub open spec fn finish(self) -> AckEmission {
        if self.open.len() > 0 {
            self.close()
        } else {
            self
        }
    }

    /// The first acknowledgement joins the frame.
    pub open spec fn add_ack(self) -> AckEmission {
        AckEmission { queue: self.queue.skip(1), open: self.open.push(self.queue[0]), ..self }
    }
}

/// Sends the acknowledgements that are left, in order.
pub open spec fn ack_phase(emission: AckEmission) -> AckOutcome
    decreases emission.queue.len(), emission.open.len(),
{
    if emission.queue.len() == 0 {
        AckOutcome { emission: emission.finish(), size_limited: false }
    } else {
        let size = ack_frame_size(emission.open.len()) + FRAME_ACK_SIZE;
        if size > emission.budget {
            AckOutcome { emission: emission.finish(), size_limited: true }
        } else if size > MAX_TRANSFER_UNIT {
            ack_phase(emission.close())
        } else {
            ack_phase(emission.add_ack())
        }
    }
}

/// The ack frames that are sent within `max_send_size` bytes.
pub open spec fn ack_emission(queue: Seq<FrameAck>, max_send_size: usize) -> AckOutcome {
    ack_phase(AckEmission::start(queue, max_send_size))
}

proof fn lemma_skip_contains(entries: Seq<PendingResend>, entry: PendingResend)
    requires
        entries.contains(entry),
        entries[0] != entry,
    ensures
        entries.skip(1).contains(entry),
{
    let i = choose|i: int| 0 <= i < entries.len() && entries[i] == entry;
    assert(entries.skip(1)[i - 1] == entry);
}

/// Sending the datagrams that have not been sent yet takes nothing out of those that are to be
/// sent again.
pub proof fn lemma_queue_phase_retains(
    emission: DataEmission,
    now_ms: u64,
    rtt_ms: u64,
    entry: PendingResend,
)
    requires
        emission.state.resends.entries.contains(entry),
    ensures
        queue_phase(emission, now_ms, rtt_ms).emission.state.resends.entries.contains(entry),
    decreases
            MAX_FRAME_TRANSFER_WINDOW_SIZE - emission.state.log.frames.len(),
            emission.state.sender.waiting.len(),
            emission.state.queue.len(),
{
    let queue = emission.state.queue;
    if queue.len() == 0 {
        if emission.state.sender.can_emit() {
            lemma_queue_phase_retains(emission.refill(), now_ms, rtt_ms, entry);
        }
    } else {
        match emission.make_room(queue[0].datagram, now_ms) {
            Room::Fits => {
                if queue[0].resend {
                    lemma_insert_by_time(
                        emission.state.resends.entries,
                        sent_once(
                            queue[0].datagram,
                            emission.state.resends.next_key,
                            now_ms,
                            rtt_ms,
                        ),
                    );
                }
                lemma_queue_phase_retains(
                    emission.add_queued(now_ms, rtt_ms),
                    now_ms,
                    rtt_ms,
                    entry,
                );
            },
            Room::Retry(closed) => {
                lemma_queue_phase_retains(closed, now_ms, rtt_ms, entry);
            },
            Room::Stop(_) => {},
        }
    }
}

/// A datagram that is neither acknowledged nor due stays among those that are to be sent again.
pub proof fn lemma_both_phases_retain(
    emission: DataEmission,
    now_ms: u64,
    rtt_ms: u64,
    entry: PendingResend,
)
    requires
        emission.state.resends.entries.contains(entry),
        !entry.acknowledged,
        entry.resend_time > now_ms,
    ensures
        both_phases(emission, now_ms, rtt_ms).emission.state.resends.entries.contains(entry),
    decreases
            MAX_FRAME_TRANSFER_WINDOW_SIZE - emission.state.log.frames.len(),
            MAX_TRANSFER_UNIT - data_frame_size(emission.open),
            emission.state.resends.entries.len(),
{
    let entries = emission.state.resends.entries;
    if entries.len() == 0 {
    } else if entries[0].acknowledged {
        lemma_skip_contains(entries, entry);
        lemma_both_phases_retain(emission.drop_resend(), now_ms, rtt_ms, entry);
    } else if entries[0].resend_time > now_ms {
        lemma_queue_phase_retains(emission, now_ms, rtt_ms, entry);
    } else {
        lemma_datagrams_size_push(emission.open, entries[0].datagram);
        match emission.make_room(entries[0].datagram, now_ms) {
            Room::Fits => {
                lemma_skip_contains(entries, entry);
                lemma_insert_by_time(entries.skip(1), sent_again(entries[0], now_ms, rtt_ms));
                lemma_both_phases_retain(
                    emission.add_resend(now_ms, rtt_ms),
                    now_ms,
                    rtt_ms,
                    entry,
                );
            },
            Room::Retry(closed) => {
                lemma_both_phases_retain(closed, now_ms, rtt_ms, entry);
            },
            Room::Stop(_) => {},
        }
    }
}

/// Whether the frames `sent` are those of `emission` and further ones, the first of which is the
/// frame being put together, if that holds a datagram, with more datagrams or without.
pub open spec fn extends(emission: DataEmission, sent: Seq<DataFramePlan>) -> bool {
    let count = emission.sent.len() as int;
    &&& emission.sent.is_prefix_of(sent)
    &&& emission.open.len() > 0 ==> {
        &&& count < sent.len()
        &&& sent[count].sequence_id == emission.state.log.next_id()
        &&& emission.open.is_prefix_of(sent[count].datagrams)
    }
}

proof fn lemma_close_extends(emission: DataEmission, now_ms: u64, sent: Seq<DataFramePlan>)
    requires
        emission.close(now_ms).sent.is_prefix_of(sent),
    ensures
        extends(emission, sent),
{
    let closed = emission.close(now_ms).sent;
    let count = emission.sent.len() as int;
    assert(closed[count] == sent[count]);
    assert forall|i: int| 0 <= i < count implies emission.sent[i] == sent[i] by {
        assert(emission.sent[i] == closed[i]);
    }
    assert(emission.sent =~= sent.subrange(0, count));
    assert(emission.open =~= sent[count].datagrams.subrange(0, emission.open.len() as int));
}

proof fn lemma_add_extends(
    emission: DataEmission,
    added: DataEmission,
    datagram: DatagramView,
    sent: Seq<DataFramePlan>,
)
    requires
        added.sent == emission.sent,
        added.state.log == emission.state.log,
        added.open == emission.open.push(datagram),
        extends(added, sent),
    ensures
        extends(emission, sent),
{
    if emission.open.len() > 0 {
        let datagrams = sent[emission.sent.len() as int].datagrams;
        assert forall|i: int| 0 <= i < emission.open.len() implies emission.open[i]
            == datagrams[i] by {
            assert(emission.open[i] == added.open[i]);
        }
        assert(emission.open =~= datagrams.subrange(0, emission.open.len() as int));
    }
}

proof fn lemma_finish_extends(emission: DataEmission, now_ms: u64)
    ensures
        extends(emission, emission.finish(now_ms).sent),
{
    let sent = emission.finish(now_ms).sent;
    assert(sent =~= sent.subrange(0, sent.len() as int));
    if emission.open.len() > 0 {
        lemma_close_extends(emission, now_ms, sent);
    }
}

/// What has been sent stays sent, and what is in the frame being put together stays in it.
pub proof fn lemma_queue_phase_extends(emission: DataEmission, now_ms: u64, rtt_ms: u64)
    ensures
        extends(emission, queue_phase(emission, now_ms, rtt_ms).emission.sent),
    decreases
            MAX_FRAME_TRANSFER_WINDOW_SIZE - emission.state.log.frames.len(),
            emission.state.sender.waiting.len(),
            emission.state.queue.len(),
{
    let sent = queue_phase(emission, now_ms, rtt_ms).emission.sent;
    let queue = emission.state.queue;
    lemma_finish_extends(emission, now_ms);
    if queue.len() == 0 {
        if emission.state.sender.can_emit() {
            lemma_queue_phase_extends(emission.refill(), now_ms, rtt_ms);
        }
    } else {
        match emission.make_room(queue[0].datagram, now_ms) {
            Room::Fits => {
                let added = emission.add_queued(now_ms, rtt_ms);
                lemma_queue_phase_extends(added, now_ms, rtt_ms);
                lemma_add_extends(emission, added, queue[0].datagram, sent);
            },
            Room::Retry(closed) => {
                lemma_queue_phase_extends(closed, now_ms, rtt_ms);
                lemma_close_extends(emission, now_ms, sent);
            },
            Room::Stop(outcome) => {
                if !outcome.size_limited {
                    assert(sent =~= sent.subrange(0, sent.len() as int));
                    lemma_close_extends(emission, now_ms, sent);
                }
            },
        }
    }
}

/// What has been sent stays sent, and what is in the frame being put together stays in it.
pub proof fn lemma_both_phases_extend(emission: DataEmission, now_ms: u64, rtt_ms: u64)
    ensures
        extends(emission, both_phases(emission, now_ms, rtt_ms).emission.sent),
    decreases
            MAX_FRAME_TRANSFER_WINDOW_SIZE - emission.state.log.frames.len(),
            MAX_TRANSFER_UNIT - data_frame_size(emission.open),
            emission.state.resends.entries.len(),
{
    let sent = both_phases(emission, now_ms, rtt_ms).emission.sent;
    let entries = emission.state.resends.entries;
    if entries.len() == 0 {
        lemma_queue_phase_extends(emission, now_ms, rtt_ms);
    } else if entries[0].acknowledged {
        lemma_both_phases_extend(emission.drop_resend(), now_ms, rtt_ms);
    } else if entries[0].resend_time > now_ms {
        lemma_queue_phase_extends(emission, now_ms, rtt_ms);
    } else {
        lemma_datagrams_size_push(emission.open, entries[0].datagram);
        lemma_finish_extends(emission, now_ms);
        match emission.make_room(entries[0].datagram, now_ms) {
            Room::Fits => {
                let added = emission.add_resend(now_ms, rtt_ms);
                lemma_both_phases_extend(added, now_ms, rtt_ms);
                lemma_add_extends(emission, added, entries[0].datagram, sent);
            },
            Room::Retry(closed) => {
                lemma_both_phases_extend(closed, now_ms, rtt_ms);
                lemma_close_extends(emission, now_ms, sent);
            },
            Room::Stop(outcome) => {
                if !outcome.size_limited {
                    assert(sent =~= sent.subrange(0, sent.len() as int));
                    lemma_close_extends(emission, now_ms, sent);
                }
            },
        }
    }
}

/// Whether the acknowledgements `sent` are those of `emission` and further ones, the first of which
/// are those of the frame being put together, if there are any, with more behind them or without.
pub open spec fn acks_extend(emission: AckEmission, sent: Seq<Seq<FrameAck>>) -> bool {
    let count = emission.sent.len() as int;
    &&& emission.sent.is_prefix_of(sent)
    &&& emission.open.len() > 0 ==> count < sent.len() && emission.open.is_prefix_of(sent[count])
}

/// What has been sent stays sent, and what is in the frame being put together stays in it.
pub proof fn lemma_ack_phase_extends(emission: AckEmission)
    ensures
        acks_extend(emission, ack_phase(emission).emission.sent),
    decreases emission.queue.len(), emission.open.len(),
{
    let sent = ack_phase(emission).emission.sent;
    let count = emission.sent.len() as int;
    let size = ack_frame_size(emission.open.len()) + FRAME_ACK_SIZE;
    if emission.queue.len() > 0 && size <= emission.budget && size <= MAX_TRANSFER_UNIT {
        let added = emission.add_ack();
        lemma_ack_phase_extends(added);
        if emission.open.len() > 0 {
            assert forall|i: int| 0 <= i < emission.open.len() implies emission.open[i]
                == sent[count][i] by {
                assert(emission.open[i] == added.open[i]);
            }
            assert(emission.open =~= sent[count].subrange(0, emission.open.len() as int));
        }
    } else if emission.queue.len() > 0 && size <= emission.budget {
        let closed = emission.close();
        lemma_ack_phase_extends(closed);
        assert(closed.sent[count] == sent[count]);
        assert forall|i: int| 0 <= i < count implies emission.sent[i] == sent[i] by {
            assert(emission.sent[i] == closed.sent[i]);
        }
        assert(emission.sent =~= sent.subrange(0, count));
        assert(emission.open =~= sent[count].subrange(0, emission.open.len() as int));
    } else {
        assert(emission.sent =~= sent.subrange(0, count));
        if emission.open.len() > 0 {
            assert(sent[count] == emission.open);
            assert(emission.open =~= sent[count].subrange(0, emission.open.len() as int));
        }
    }
}

proof fn lemma_pow2_small(n: nat)
    requires
        1 <= n <= MAX_SEND_COUNT,
    ensures
        pow2(n) == 2 || pow2(n) == 4,
{
    vstd::arithmetic::power2::lemma2_to64();
}

/// Where the times of the outcome can be represented, so can the one that the first datagram gets
/// when it is sent again.
pub proof fn lemma_resend_time_fits(emission: DataEmission, now_ms: u64, rtt_ms: u64)
    requires
        emission.state.resends.entries.len() > 0,
        !emission.state.resends.entries[0].acknowledged,
        1 <= emission.state.resends.entries[0].send_count <= MAX_SEND_COUNT,
        emission.state.resends.entries[0].resend_time <= now_ms,
        emission.make_room(emission.state.resends.entries[0].datagram, now_ms) is Fits,
        now_ms + 4 * rtt_ms <= u64::MAX || times_fit(
            both_phases(emission, now_ms, rtt_ms).emission.state.resends.entries,
        ),
    ensures
        sent_again(emission.state.resends.entries[0], now_ms, rtt_ms).resend_time <= u64::MAX,
{
    let entries = emission.state.resends.entries;
    let again = sent_again(entries[0], now_ms, rtt_ms);
    lemma_pow2_small(entries[0].send_count as nat);
    if now_ms + 4 * rtt_ms > u64::MAX {
        let next = emission.add_resend(now_ms, rtt_ms);
        lemma_insert_by_time(entries.skip(1), again);
        lemma_datagrams_size_push(emission.open, entries[0].datagram);
        lemma_both_phases_retain(next, now_ms, rtt_ms, again);
        let end = both_phases(emission, now_ms, rtt_ms).emission.state.resends.entries;
        let i = choose|i: int| 0 <= i < end.len() && end[i] == again;
        assert(end[i].resend_time <= u64::MAX);
    }
}

/// Where the times of the outcome can be represented, so can the one that a datagram gets when it
/// is sent for the first time and is to be sent again.
pub proof fn lemma_first_time_fits(emission: DataEmission, now_ms: u64, rtt_ms: u64)
    requires
        emission.state.queue.len() > 0,
        emission.state.queue[0].resend,
        emission.make_room(emission.state.queue[0].datagram, now_ms) is Fits,
        now_ms + 4 * rtt_ms <= u64::MAX || times_fit(
            queue_phase(emission, now_ms, rtt_ms).emission.state.resends.entries,
        ),
    ensures
        now_ms + rtt_ms <= u64::MAX,
{
    let resends = emission.state.resends;
    let once = sent_once(emission.state.queue[0].datagram, resends.next_key, now_ms, rtt_ms);
    if now_ms + 4 * rtt_ms > u64::MAX {
        let next = emission.add_queued(now_ms, rtt_ms);
        lemma_insert_by_time(resends.entries, once);
        lemma_queue_phase_retains(next, now_ms, rtt_ms, once);
        let end = queue_phase(emission, now_ms, rtt_ms).emission.state.resends.entries;
        let i = choose|i: int| 0 <= i < end.len() && end[i] == once;
        assert(end[i].resend_time <= u64::MAX);
    }
}

} // verus!
