//! The emitter: it packs what the queues hold into frames.
use crate::boxed::into_boxed_slice;
use crate::datagram_queue::fits_a_frame;
use crate::datagram_queue::DatagramQueue;
use crate::emission::ack_emission;
use crate::emission::ack_phase;
use crate::emission::both_phases;
use crate::emission::data_emission;
use crate::emission::lemma_ack_phase_extends;
use crate::emission::lemma_both_phases_extend;
use crate::emission::lemma_first_time_fits;
use crate::emission::lemma_queue_phase_extends;
use crate::emission::lemma_resend_time_fits;
use crate::emission::queue_phase;
use crate::emission::resend_times_fit;
use crate::emission::times_fit;
use crate::emission::AckEmission;
use crate::emission::AckOutcome;
use crate::emission::DataEmission;
use crate::emission::DataOutcome;
use crate::emission::EmitterView;
use crate::emission::Room;
use crate::frame::serial::lemma_datagrams_size_bound;
use crate::frame::serial::lemma_datagrams_size_push;
use crate::frame::serial::AckFrameBuilder;
use crate::frame::serial::DataFrameBuilder;
use crate::frame::serial::DataFramePlan;
use crate::frame::wire::ack_frame_bytes;
use crate::frame::wire::ack_frame_size;
use crate::frame::wire::data_frame_bytes;
use crate::frame::wire::data_frame_size;
use crate::frame::wire::sync_frame_bytes;
use crate::frame::wire::SYNC_FRAME_SIZE;
use crate::frame::Datagram;
use crate::frame::Frame;
use crate::frame::FrameAck;
use crate::frame::SyncFrame;
use crate::frame_ack_queue::FrameAckQueue;
use crate::frame_log;
use crate::frame_log::FrameLog;
use crate::frame_log::FrameLogView;
use crate::handover::left_as_call;
use crate::handover::Calls1;
use crate::handover::Calls3;
use crate::nonce::draw_nonce;
use crate::nonce::is_drawn;
use crate::packet_sender::PacketSender;
use crate::resend_queue;
use crate::resend_queue::PersistentDatagram;
use crate::resend_queue::ResendQueue;
use crate::resend_queue::MAX_SEND_COUNT;
use crate::MAX_FRAME_TRANSFER_WINDOW_SIZE;
use crate::MAX_TRANSFER_UNIT;
use std::collections::VecDeque;
use vstd::arithmetic::power2::pow2;
use vstd::prelude::*;

verus! {

/// What each of `builders` holds, in the same order.
pub open spec fn plans(builders: Seq<DataFrameBuilder>) -> Seq<DataFramePlan> {
    builders.map_values(|builder: DataFrameBuilder| builder@)
}

/// Whether `f` was called with the bytes `data`, `id` and `nonce`, and returned.
pub open spec fn handed_over<F: FnMut(Box<[u8]>, u32, bool)>(
    f: F,
    data: Seq<u8>,
    id: u32,
    nonce: bool,
) -> bool {
    exists|boxed: Box<[u8]>| boxed@ == data && #[trigger] call_ensures(f, (boxed, id, nonce), ())
}

/// Whether `f` was called with each of the frames `sent`, where `nonces` gives their nonces.
pub open spec fn handed_over_all<F: FnMut(Box<[u8]>, u32, bool)>(
    f: F,
    sent: Seq<DataFramePlan>,
    nonces: Seq<bool>,
) -> bool {
    &&& nonces.len() == sent.len()
    &&& forall|i: int|
        0 <= i < nonces.len() ==> handed_over(
            f,
            data_frame_bytes(sent[i].sequence_id, nonces[i], sent[i].datagrams),
            sent[i].sequence_id,
            #[trigger] nonces[i],
        )
}

/// Whether `f` accepts, in call number `i`, frame `i` of the frames `sent`, with a nonce that was
/// drawn at random.
pub open spec fn accepts_all<F: FnMut(Box<[u8]>, u32, bool)>(
    f: F,
    sent: Seq<DataFramePlan>,
) -> bool {
    forall|i: int, data: Box<[u8]>, nonce: bool|
        0 <= i < sent.len() && is_drawn(nonce) && data@ == data_frame_bytes(
            sent[i].sequence_id,
            nonce,
            sent[i].datagrams,
        ) && left_as_call(f, i, (data, sent[i].sequence_id, nonce)) ==> #[trigger] call_requires(
            f,
            (data, sent[i].sequence_id, nonce),
        )
}

/// Whether `f` accepts, in its first call, the sync frame with the ID `id`, with a nonce that was
/// drawn at random.
pub open spec fn accepts_sync<F: FnMut(Box<[u8]>, u32, bool)>(
    f: F,
    id: u32,
    sender_next_id: u32,
) -> bool {
    forall|data: Box<[u8]>, nonce: bool|
        is_drawn(nonce) && data@ == sync_frame_bytes(id, nonce, sender_next_id) && left_as_call(
            f,
            0,
            (data, id, nonce),
        ) ==> #[trigger] call_requires(f, (data, id, nonce))
}

/// Whether `f` accepts, in call number `i`, the ack frame with the acknowledgements `sent[i]`.
pub open spec fn accepts_acks<F: FnMut(Box<[u8]>)>(
    f: F,
    receiver_base_id: u32,
    sent: Seq<Seq<FrameAck>>,
) -> bool {
    forall|i: int, data: Box<[u8]>|
        0 <= i < sent.len() && data@ == #[trigger] ack_frame_bytes(receiver_base_id, sent[i])
            && left_as_call(f, i, (data,)) ==> #[trigger] call_requires(f, (data,))
}

/// Whether `made` are calls with the frames `sent`, one for each of them and in the same order,
/// each with a nonce that was drawn at random.
pub open spec fn calls_with_frames(
    made: Seq<(Box<[u8]>, u32, bool)>,
    sent: Seq<DataFramePlan>,
) -> bool {
    &&& made.len() == sent.len()
    &&& forall|i: int|
        0 <= i < made.len() ==> {
            &&& (#[trigger] made[i]).0@ == data_frame_bytes(
                sent[i].sequence_id,
                made[i].2,
                sent[i].datagrams,
            )
            &&& made[i].1 == sent[i].sequence_id
            &&& is_drawn(made[i].2)
        }
}

/// Whether the calls of `plan` from number `first` on may be those with the frames `sent`.
pub open spec fn frames_planned(
    plan: spec_fn(int, Box<[u8]>, u32, bool) -> bool,
    first: int,
    sent: Seq<DataFramePlan>,
) -> bool {
    forall|i: int, data: Box<[u8]>, nonce: bool|
        0 <= i < sent.len() && is_drawn(nonce) && data@ == data_frame_bytes(
            sent[i].sequence_id,
            nonce,
            sent[i].datagrams,
        ) ==> #[trigger] plan(first + i, data, sent[i].sequence_id, nonce)
}

/// Whether `made` are calls with the ack frames with the acknowledgements `sent`, one for each of
/// them and in the same order.
pub open spec fn calls_with_acks(
    made: Seq<Box<[u8]>>,
    receiver_base_id: u32,
    sent: Seq<Seq<FrameAck>>,
) -> bool {
    &&& made.len() == sent.len()
    &&& forall|i: int|
        0 <= i < made.len() ==> (#[trigger] made[i])@ == ack_frame_bytes(
            receiver_base_id,
            sent[i],
        )
}

/// Whether the calls of `plan` from number `first` on may be those with the ack frames with the
/// acknowledgements `sent`.
pub open spec fn acks_planned(
    plan: spec_fn(int, Box<[u8]>) -> bool,
    first: int,
    receiver_base_id: u32,
    sent: Seq<Seq<FrameAck>>,
) -> bool {
    forall|i: int, data: Box<[u8]>|
        0 <= i < sent.len() && data@ == ack_frame_bytes(receiver_base_id, sent[i])
            ==> #[trigger] plan(first + i, data)
}

/// Whether `f` was called with the bytes `data`, and returned.
pub open spec fn ack_handed_over<F: FnMut(Box<[u8]>)>(f: F, data: Seq<u8>) -> bool {
    exists|boxed: Box<[u8]>| boxed@ == data && #[trigger] call_ensures(f, (boxed,), ())
}

/// Whether `f` was called with each of the ack frames with the acknowledgements `sent`.
pub open spec fn acks_handed_over<F: FnMut(Box<[u8]>)>(
    f: F,
    receiver_base_id: u32,
    sent: Seq<Seq<FrameAck>>,
) -> bool {
    forall|i: int|
        0 <= i < sent.len() ==> ack_handed_over(
            f,
            ack_frame_bytes(receiver_base_id, #[trigger] sent[i]),
        )
}

/// What each of `boxes` holds, in the same order.
pub open spec fn contents(boxes: Seq<Box<[u8]>>) -> Seq<Seq<u8>> {
    boxes.map_values(|boxed: Box<[u8]>| boxed@)
}

/// The bytes of the ack frames with the acknowledgements `sent`.
pub open spec fn ack_frames(receiver_base_id: u32, sent: Seq<Seq<FrameAck>>) -> Seq<Seq<u8>> {
    sent.map_values(|acks: Seq<FrameAck>| ack_frame_bytes(receiver_base_id, acks))
}

proof fn lemma_ack_frames_push(
    receiver_base_id: u32,
    frames: Seq<Box<[u8]>>,
    frame: Box<[u8]>,
    sent: Seq<Seq<FrameAck>>,
    acks: Seq<FrameAck>,
)
    requires
        contents(frames) == ack_frames(receiver_base_id, sent),
        frame@ == ack_frame_bytes(receiver_base_id, acks),
    ensures
        contents(frames.push(frame)) == ack_frames(receiver_base_id, sent.push(acks)),
{
    assert(contents(frames.push(frame)) =~= contents(frames).push(frame@));
    assert(ack_frames(receiver_base_id, sent.push(acks)) =~= ack_frames(
        receiver_base_id,
        sent,
    ).push(ack_frame_bytes(receiver_base_id, acks)));
}

/// The length of the sync frame that is sent, zero if none is, and whether one was held back for
/// want of bytes.
pub open spec fn sync_result(state: EmitterView, max_send_size: usize) -> (usize, bool) {
    if state.resends.entries.len() > 0 || state.queue.len() > 0 || state.log.is_full() {
        (0, false)
    } else if SYNC_FRAME_SIZE > max_send_size {
        (0, true)
    } else {
        (SYNC_FRAME_SIZE, false)
    }
}

/// Whether there was room in a frame. If there was none, the frame has been sent, unless it was
/// empty.
enum Answer {
    Fits,
    NoRoom(Option<DataFrameBuilder>),
}

/// What comes next in the sending of data frames.
enum Phase {
    /// The datagrams that are to be sent again.
    Resends,
    /// The datagrams that have not been sent yet.
    Queue,
    /// Nothing.
    Over { size_limited: bool },
}

/// Data frames being sent.
struct Progress {
    phase: Phase,
    budget: usize,
    builder: DataFrameBuilder,
    keys: Vec<u64>,
    sent: Ghost<Seq<DataFramePlan>>,
}

/// Whether `frame` is what was sent between `before` and `after`.
spec fn is_new(
    frame: Option<DataFrameBuilder>,
    before: Seq<DataFramePlan>,
    after: Seq<DataFramePlan>,
) -> bool {
    match frame {
        Some(builder) => builder.wf() && after == before.push(builder@),
        None => after == before,
    }
}

proof fn lemma_shift_is_power(n: u8)
    requires
        1 <= n <= MAX_SEND_COUNT,
    ensures
        (1u64 << n) == pow2(n as nat),
{
    vstd::arithmetic::power2::lemma2_to64();
    assert(1u64 << 1u8 == 2) by (bit_vector);
    assert(1u64 << 2u8 == 4) by (bit_vector);
}

impl Progress {
    spec fn emission(&self, state: EmitterView) -> DataEmission {
        DataEmission {
            state,
            budget: self.budget as int,
            open: self.builder@.datagrams,
            keys: self.keys@,
            sent: self.sent@,
        }
    }

    /// How the sending will end.
    spec fn outcome(&self, state: EmitterView, now_ms: u64, rtt_ms: u64) -> DataOutcome {
        let emission = self.emission(state);
        match self.phase {
            Phase::Resends => both_phases(emission, now_ms, rtt_ms),
            Phase::Queue => queue_phase(emission, now_ms, rtt_ms),
            Phase::Over { size_limited } => DataOutcome { emission, size_limited },
        }
    }

    /// The frame being put together has the next ID, and neither exceeds the transfer unit nor,
    /// once it holds a datagram, the bytes that may still be sent. Unless sending is over, the log
    /// takes another frame.
    spec fn wf(&self, log: FrameLogView) -> bool {
        let size = data_frame_size(self.builder@.datagrams);
        &&& self.builder.wf()
        &&& self.builder@.sequence_id == log.next_id()
        &&& size <= MAX_TRANSFER_UNIT
        &&& self.builder@.datagrams.len() > 0 ==> size <= self.budget
        &&& self.phase !is Over ==> !log.is_full()
    }

    /// What has been sent stays sent.
    proof fn lemma_extends(&self, state: EmitterView, now_ms: u64, rtt_ms: u64)
        ensures
            self.sent@.is_prefix_of(self.outcome(state, now_ms, rtt_ms).emission.sent),
    {
        match self.phase {
            Phase::Resends => {
                lemma_both_phases_extend(self.emission(state), now_ms, rtt_ms);
            },
            Phase::Queue => {
                lemma_queue_phase_extends(self.emission(state), now_ms, rtt_ms);
            },
            Phase::Over { .. } => {
                assert(self.sent@ =~= self.sent@.subrange(0, self.sent@.len() as int));
            },
        }
    }

    /// Sends the frame being put together.
    fn close(
        &mut self,
        frame_log: &mut FrameLog,
        now_ms: u64,
        Ghost(state): Ghost<EmitterView>,
    ) -> (frame: DataFrameBuilder)
        requires
            old(self).wf(old(frame_log)@),
            old(self).builder@.datagrams.len() > 0,
            old(frame_log).wf(),
            !old(frame_log)@.is_full(),
            state.log == old(frame_log)@,
        ensures
            final(self).phase == old(self).phase,
            final(self).builder.wf(),
            final(self).builder@.sequence_id == final(frame_log)@.next_id(),
            final(self).budget <= old(self).budget,
            final(frame_log).wf(),
            final(self).emission(EmitterView { log: final(frame_log)@, ..state })
                == old(self).emission(state).close(now_ms),
            is_new(Some(frame), old(self).sent@, final(self).sent@),
    {
        let frame_id: u32 = self.builder.sequence_id();
        let mut keys: Vec<u64> = Vec::new();
        std::mem::swap(&mut keys, &mut self.keys);
        frame_log.push(
            frame_id,
            frame_log::Entry {
                send_time_ms: now_ms,
                persistent_datagrams: into_boxed_slice(keys),
            },
        );
        self.budget = self.budget - self.builder.size();
        let mut builder: DataFrameBuilder = DataFrameBuilder::new(frame_log.next_id());
        std::mem::swap(&mut builder, &mut self.builder);
        proof {
            self.sent@ = self.sent@.push(builder@);
        }
        builder
    }

    /// Makes room for `datagram`.
    fn make_room(
        &mut self,
        frame_log: &mut FrameLog,
        datagram: &Datagram,
        now_ms: u64,
        Ghost(state): Ghost<EmitterView>,
    ) -> (answer: Answer)
        requires
            old(self).wf(old(frame_log)@),
            old(self).phase !is Over,
            old(frame_log).wf(),
            state.log == old(frame_log)@,
            fits_a_frame(datagram@),
        ensures
            final(self).wf(final(frame_log)@),
            final(self).budget <= old(self).budget,
            final(frame_log).wf(),
            ({
                let before = old(self).emission(state);
                let after = final(self).emission(
                    EmitterView { log: final(frame_log)@, ..state },
                );
                match before.make_room(datagram@, now_ms) {
                    Room::Fits => answer is Fits && after == before && *final(self) == *old(self)
                        && final(frame_log)@ == old(frame_log)@,
                    Room::Retry(closed) => {
                        &&& answer matches Answer::NoRoom(Some(frame))
                        &&& is_new(Some(frame), old(self).sent@, final(self).sent@)
                        &&& after == closed
                        &&& final(self).phase == old(self).phase
                    },
                    Room::Stop(outcome) => {
                        &&& answer matches Answer::NoRoom(frame)
                        &&& is_new(frame, old(self).sent@, final(self).sent@)
                        &&& after == outcome.emission
                        &&& final(self).phase == (Phase::Over {
                            size_limited: outcome.size_limited,
                        })
                    },
                }
            }),
    {
        let potential_frame_size: usize = self.builder.size() + DataFrameBuilder::encoded_size(
            datagram,
        );
        if potential_frame_size > self.budget {
            let frame: Option<DataFrameBuilder> = if self.builder.count() > 0 {
                Some(self.close(frame_log, now_ms, Ghost(state)))
            } else {
                None
            };
            self.phase = Phase::Over { size_limited: true };
            return Answer::NoRoom(frame);
        }
        if potential_frame_size > MAX_TRANSFER_UNIT {
            let frame: DataFrameBuilder = self.close(frame_log, now_ms, Ghost(state));
            if frame_log.len() == MAX_FRAME_TRANSFER_WINDOW_SIZE {
                self.phase = Phase::Over { size_limited: false };
            }
            return Answer::NoRoom(Some(frame));
        }
        Answer::Fits
    }
}

/// What comes next in the sending of ack frames.
enum AckPhase {
    /// The acknowledgements that are left.
    Acks,
    /// Nothing.
    Over { size_limited: bool },
}

/// Ack frames being sent.
struct AckProgress {
    phase: AckPhase,
    budget: usize,
    builder: AckFrameBuilder,
    sent: Ghost<Seq<Seq<FrameAck>>>,
}

/// Whether `frame` is what was sent between `before` and `after`.
spec fn is_new_ack_frame(
    frame: Option<Box<[u8]>>,
    receiver_base_id: u32,
    before: Seq<Seq<FrameAck>>,
    after: Seq<Seq<FrameAck>>,
) -> bool {
    match frame {
        Some(data) => {
            &&& after.len() == before.len() + 1
            &&& after.drop_last() == before
            &&& data@ == ack_frame_bytes(receiver_base_id, after.last())
        },
        None => after == before,
    }
}

impl AckProgress {
    spec fn emission(&self, queue: Seq<FrameAck>) -> AckEmission {
        AckEmission {
            queue,
            budget: self.budget as int,
            open: self.builder.frame_acks(),
            sent: self.sent@,
        }
    }

    /// How the sending will end.
    spec fn outcome(&self, queue: Seq<FrameAck>) -> AckOutcome {
        let emission = self.emission(queue);
        match self.phase {
            AckPhase::Acks => ack_phase(emission),
            AckPhase::Over { size_limited } => AckOutcome { emission, size_limited },
        }
    }

    /// The frame being put together neither exceeds the transfer unit nor, once it holds an
    /// acknowledgement, the bytes that may still be sent.
    spec fn wf(&self, receiver_base_id: u32) -> bool {
        let size = ack_frame_size(self.builder.frame_acks().len());
        &&& self.builder.wf()
        &&& self.builder.receiver_base_id() == receiver_base_id
        &&& size <= MAX_TRANSFER_UNIT
        &&& self.builder.frame_acks().len() > 0 ==> size <= self.budget
    }

    /// What has been sent stays sent.
    proof fn lemma_extends(&self, queue: Seq<FrameAck>)
        ensures
            self.sent@.is_prefix_of(self.outcome(queue).emission.sent),
    {
        match self.phase {
            AckPhase::Acks => {
                lemma_ack_phase_extends(self.emission(queue));
            },
            AckPhase::Over { .. } => {
                assert(self.sent@ =~= self.sent@.subrange(0, self.sent@.len() as int));
            },
        }
    }

    /// Sends the frame being put together.
    fn close(&mut self, receiver_base_id: u32, Ghost(queue): Ghost<Seq<FrameAck>>) -> (data: Box<
        [u8],
    >)
        requires
            old(self).wf(receiver_base_id),
            old(self).builder.frame_acks().len() > 0,
        ensures
            final(self).wf(receiver_base_id),
            final(self).phase == old(self).phase,
            final(self).budget <= old(self).budget,
            final(self).emission(queue) == old(self).emission(queue).close(),
            is_new_ack_frame(Some(data), receiver_base_id, old(self).sent@, final(self).sent@),
    {
        self.budget = self.budget - self.builder.size();
        let mut builder: AckFrameBuilder = AckFrameBuilder::new(receiver_base_id);
        std::mem::swap(&mut builder, &mut self.builder);
        proof {
            self.sent@ = self.sent@.push(builder.frame_acks());
        }
        assert(self.sent@.drop_last() =~= old(self).sent@);
        builder.build()
    }
}

/// Packs what its queues hold into frames.
pub struct FrameEmitter<'a> {
    pub packet_sender: &'a mut PacketSender,
    pub datagram_queue: &'a mut DatagramQueue,
    pub resend_queue: &'a mut ResendQueue,
    pub frame_log: &'a mut FrameLog,
    pub frame_ack_queue: &'a mut FrameAckQueue,
}

impl<'a> View for FrameEmitter<'a> {
    type V = EmitterView;

    open spec fn view(&self) -> EmitterView {
        EmitterView {
            sender: self.packet_sender@,
            queue: self.datagram_queue@,
            resends: self.resend_queue@,
            log: self.frame_log@,
            acks: self.frame_ack_queue@,
        }
    }
}

impl<'a> FrameEmitter<'a> {
    /// All that the emitter draws on is well-formed.
    pub open spec fn wf(&self) -> bool {
        &&& self.packet_sender.wf()
        &&& self.datagram_queue.wf()
        &&& self.resend_queue.wf()
        &&& self.frame_log.wf()
    }

    /// An emitter that draws on what it is given.
    pub fn new(
        packet_sender: &'a mut PacketSender,
        datagram_queue: &'a mut DatagramQueue,
        resend_queue: &'a mut ResendQueue,
        frame_log: &'a mut FrameLog,
        frame_ack_queue: &'a mut FrameAckQueue,
    ) -> (emitter: Self)
        ensures
            *emitter.packet_sender == *old(packet_sender),
            *emitter.datagram_queue == *old(datagram_queue),
            *emitter.resend_queue == *old(resend_queue),
            *emitter.frame_log == *old(frame_log),
            *emitter.frame_ack_queue == *old(frame_ack_queue),
            *final(emitter.packet_sender) == *final(packet_sender),
            *final(emitter.datagram_queue) == *final(datagram_queue),
            *final(emitter.resend_queue) == *final(resend_queue),
            *final(emitter.frame_log) == *final(frame_log),
            *final(emitter.frame_ack_queue) == *final(frame_ack_queue),
    {
        FrameEmitter { packet_sender, datagram_queue, resend_queue, frame_log, frame_ack_queue }
    }

    /// Data frames of which none has been sent yet.
    fn start_data_frames(&self, max_send_size: usize) -> (progress: Progress)
        requires
            self.wf(),
        ensures
            progress.wf(self@.log),
            progress.budget == max_send_size,
            progress.sent@ == Seq::<DataFramePlan>::empty(),
            forall|now_ms: u64, rtt_ms: u64| #[trigger]
                progress.outcome(self@, now_ms, rtt_ms) == data_emission(
                    self@,
                    now_ms,
                    rtt_ms,
                    max_send_size,
                ),
    {
        let phase: Phase = if self.frame_log.len() == MAX_FRAME_TRANSFER_WINDOW_SIZE {
            Phase::Over { size_limited: false }
        } else {
            Phase::Resends
        };
        let progress: Progress = Progress {
            phase,
            budget: max_send_size,
            builder: DataFrameBuilder::new(self.frame_log.next_id()),
            keys: Vec::new(),
            sent: Ghost(Seq::empty()),
        };
        assert(progress.emission(self@) =~= DataEmission::start(self@, max_send_size));
        progress
    }

    /// Goes on until the next data frame is sent, or sending is over.
    fn next_data_frame(&mut self, progress: &mut Progress, now_ms: u64, rtt_ms: u64) -> (frame:
        Option<DataFrameBuilder>)
        requires
            old(self).wf(),
            old(progress).wf(old(self)@.log),
            now_ms + 4 * rtt_ms <= u64::MAX || times_fit(
                old(progress).outcome(
                    old(self)@,
                    now_ms,
                    rtt_ms,
                ).emission.state.resends.entries,
            ),
        ensures
            final(self).wf(),
            final(progress).wf(final(self)@.log),
            final(progress).budget <= old(progress).budget,
            final(progress).outcome(final(self)@, now_ms, rtt_ms) == old(progress).outcome(
                old(self)@,
                now_ms,
                rtt_ms,
            ),
            is_new(frame, old(progress).sent@, final(progress).sent@),
            frame is None ==> final(progress).phase is Over,
            *final(self).frame_ack_queue == *old(self).frame_ack_queue,
            *final(final(self).packet_sender) == *final(old(self).packet_sender),
            *final(final(self).datagram_queue) == *final(old(self).datagram_queue),
            *final(final(self).resend_queue) == *final(old(self).resend_queue),
            *final(final(self).frame_log) == *final(old(self).frame_log),
            *final(final(self).frame_ack_queue) == *final(old(self).frame_ack_queue),
    {
        let ghost outcome = progress.outcome(self@, now_ms, rtt_ms);
        let ghost sent = progress.sent@;
        if let Phase::Over { .. } = progress.phase {
            return None;
        }
        if let Phase::Resends = progress.phase {
            loop
                invariant_except_break
                    both_phases(progress.emission(self@), now_ms, rtt_ms) == outcome,
                invariant
                    self.wf(),
                    progress.wf(self.frame_log@),
                    progress.phase is Resends,
                    progress.budget <= old(progress).budget,
                    progress.sent@ == sent,
                    sent == old(progress).sent@,
                    now_ms + 4 * rtt_ms <= u64::MAX || times_fit(
                        outcome.emission.state.resends.entries,
                    ),
                    outcome == old(progress).outcome(old(self)@, now_ms, rtt_ms),
                    *self.frame_ack_queue == *old(self).frame_ack_queue,
                    *final(self.packet_sender) == *final(old(self).packet_sender),
                    *final(self.datagram_queue) == *final(old(self).datagram_queue),
                    *final(self.resend_queue) == *final(old(self).resend_queue),
                    *final(self.frame_log) == *final(old(self).frame_log),
                    *final(self.frame_ack_queue) == *final(old(self).frame_ack_queue),
                ensures
                    queue_phase(progress.emission(self@), now_ms, rtt_ms) == outcome,
                decreases
                        MAX_TRANSFER_UNIT - data_frame_size(progress.builder@.datagrams),
                        self@.resends.entries.len(),
            {
                let ghost before = progress.emission(self@);
                let ghost state = self@;
                match self.resend_queue.peek() {
                    None => {
                        break;
                    },
                    Some(entry) => {
                        if entry.persistent_datagram.acknowledged {
                            self.resend_queue.pop();
                            assert(progress.emission(self@) =~= before.drop_resend());
                            continue;
                        }
                        if entry.resend_time > now_ms {
                            break;
                        }
                        proof {
                            lemma_datagrams_size_bound(before.open);
                            lemma_datagrams_size_push(before.open, entry@.datagram);
                        }
                        match progress.make_room(
                            self.frame_log,
                            &entry.persistent_datagram.datagram,
                            now_ms,
                            Ghost(state),
                        ) {
                            Answer::NoRoom(frame) => {
                                return frame;
                            },
                            Answer::Fits => {},
                        }
                        progress.builder.add(&entry.persistent_datagram.datagram);
                    },
                }
                if let Some(entry) = self.resend_queue.pop() {
                    progress.keys.push(entry.persistent_datagram.key);
                    proof {
                        lemma_resend_time_fits(before, now_ms, rtt_ms);
                        lemma_shift_is_power(entry.send_count);
                    }
                    let factor: u64 = 1 << entry.send_count;
                    let send_count: u8 = if entry.send_count + 1 < MAX_SEND_COUNT {
                        entry.send_count + 1
                    } else {
                        MAX_SEND_COUNT
                    };
                    let resend_time: u64 = now_ms + rtt_ms * factor;
                    self.resend_queue.push(
                        resend_queue::Entry::new(
                            entry.persistent_datagram,
                            resend_time,
                            send_count,
                        ),
                    );
                }
                assert(progress.emission(self@) =~= before.add_resend(now_ms, rtt_ms));
            }
            progress.phase = Phase::Queue;
        }
        loop
            invariant_except_break
                queue_phase(progress.emission(self@), now_ms, rtt_ms) == outcome,
            invariant
                self.wf(),
                progress.wf(self.frame_log@),
                progress.phase is Queue,
                progress.budget <= old(progress).budget,
                progress.sent@ == sent,
                sent == old(progress).sent@,
                now_ms + 4 * rtt_ms <= u64::MAX || times_fit(
                    outcome.emission.state.resends.entries,
                ),
                outcome == old(progress).outcome(old(self)@, now_ms, rtt_ms),
                *self.frame_ack_queue == *old(self).frame_ack_queue,
                *final(self.packet_sender) == *final(old(self).packet_sender),
                *final(self.datagram_queue) == *final(old(self).datagram_queue),
                *final(self.resend_queue) == *final(old(self).resend_queue),
                *final(self.frame_log) == *final(old(self).frame_log),
                *final(self.frame_ack_queue) == *final(old(self).frame_ack_queue),
            ensures
                outcome == (DataOutcome {
                    emission: progress.emission(self@).finish(now_ms),
                    size_limited: false,
                }),
            decreases self@.sender.waiting.len(), self@.queue.len(),
        {
            let ghost before = progress.emission(self@);
            let ghost state = self@;
            if self.datagram_queue.is_empty() {
                self.packet_sender.emit_packet_datagrams(self.datagram_queue);
                if self.datagram_queue.is_empty() {
                    break;
                }
                assert(progress.emission(self@) =~= before.refill());
                continue;
            }
            match self.datagram_queue.front() {
                None => {},
                Some(entry) => {
                    match progress.make_room(
                        self.frame_log,
                        &entry.datagram,
                        now_ms,
                        Ghost(state),
                    ) {
                        Answer::NoRoom(frame) => {
                            return frame;
                        },
                        Answer::Fits => {},
                    }
                    proof {
                        lemma_datagrams_size_bound(before.open);
                        lemma_datagrams_size_push(before.open, entry.datagram@);
                    }
                    progress.builder.add(&entry.datagram);
                },
            }
            if let Some(entry) = self.datagram_queue.pop_front() {
                if entry.resend {
                    proof {
                        lemma_first_time_fits(before, now_ms, rtt_ms);
                    }
                    let key: u64 = self.resend_queue.fresh_key();
                    progress.keys.push(key);
                    self.resend_queue.push(
                        resend_queue::Entry::new(
                            PersistentDatagram::new(key, entry.datagram),
                            now_ms + rtt_ms,
                            1,
                        ),
                    );
                }
            }
            assert(progress.emission(self@) =~= before.add_queued(now_ms, rtt_ms));
        }
        let frame: Option<DataFrameBuilder> = if progress.builder.count() > 0 {
            let ghost state = self@;
            Some(progress.close(self.frame_log, now_ms, Ghost(state)))
        } else {
            None
        };
        progress.phase = Phase::Over { size_limited: false };
        frame
    }

    /// Puts together the data frames that are sent at `now_ms`: first the datagrams that are to be
    /// sent again, then those that have not been sent yet. Gives the frames, each still without a
    /// nonce; their total length, which is at most `max_send_size`; and whether a datagram was left
    /// for want of bytes.
    pub fn assemble_data_frames(
        &mut self,
        now_ms: u64,
        rtt_ms: u64,
        max_send_size: usize,
    ) -> (result: (VecDeque<DataFrameBuilder>, usize, bool))
        requires
            old(self).wf(),
            resend_times_fit(old(self)@, now_ms, rtt_ms, max_send_size),
        ensures
            final(self).wf(),
            ({
                let outcome = data_emission(old(self)@, now_ms, rtt_ms, max_send_size);
                &&& final(self)@ == outcome.emission.state
                &&& plans(result.0@) == outcome.emission.sent
                &&& result.1 == max_send_size - outcome.emission.budget
                &&& result.2 == outcome.size_limited
            }),
            forall|i: int| 0 <= i < result.0@.len() ==> (#[trigger] result.0@[i]).wf(),
            *final(self).frame_ack_queue == *old(self).frame_ack_queue,
            *final(final(self).packet_sender) == *final(old(self).packet_sender),
            *final(final(self).datagram_queue) == *final(old(self).datagram_queue),
            *final(final(self).resend_queue) == *final(old(self).resend_queue),
            *final(final(self).frame_log) == *final(old(self).frame_log),
            *final(final(self).frame_ack_queue) == *final(old(self).frame_ack_queue),
    {
        let ghost outcome = data_emission(self@, now_ms, rtt_ms, max_send_size);
        let mut progress: Progress = self.start_data_frames(max_send_size);
        let mut frames: VecDeque<DataFrameBuilder> = VecDeque::new();
        assert(progress.outcome(self@, now_ms, rtt_ms) == outcome);
        assert(plans(frames@) =~= progress.sent@);
        loop
            invariant
                self.wf(),
                progress.wf(self@.log),
                progress.budget <= max_send_size,
                progress.outcome(self@, now_ms, rtt_ms) == outcome,
                plans(frames@) == progress.sent@,
                forall|i: int| 0 <= i < frames@.len() ==> (#[trigger] frames@[i]).wf(),
                now_ms + 4 * rtt_ms <= u64::MAX || times_fit(
                    outcome.emission.state.resends.entries,
                ),
                *self.frame_ack_queue == *old(self).frame_ack_queue,
                *final(self.packet_sender) == *final(old(self).packet_sender),
                *final(self.datagram_queue) == *final(old(self).datagram_queue),
                *final(self.resend_queue) == *final(old(self).resend_queue),
                *final(self.frame_log) == *final(old(self).frame_log),
                *final(self.frame_ack_queue) == *final(old(self).frame_ack_queue),
            ensures
                progress.phase is Over,
            decreases outcome.emission.sent.len() - progress.sent@.len(),
        {
            let ghost before = frames@;
            match self.next_data_frame(&mut progress, now_ms, rtt_ms) {
                None => {
                    break;
                },
                Some(builder) => {
                    let ghost plan = builder@;
                    frames.push_back(builder);
                    assert(plans(frames@) =~= plans(before).push(plan));
                    proof {
                        progress.lemma_extends(self@, now_ms, rtt_ms);
                    }
                },
            }
        }
        let size_limited: bool = match progress.phase {
            Phase::Over { size_limited } => size_limited,
            _ => false,
        };
        (frames, max_send_size - progress.budget, size_limited)
    }

    /// Sends the data frames of `assemble_data_frames`, each with a random nonce: calls the
    /// function of `calls` with each frame's bytes, its ID and its nonce as soon as the frame has
    /// been put together. Gives the total length of the frames, whether a datagram was left for
    /// want of bytes, and the calls: one for each frame, in the same order, behind those made
    /// before.
    pub fn emit_data_frames_with<F>(
        &mut self,
        now_ms: u64,
        rtt_ms: u64,
        max_send_size: usize,
        calls: Calls3<Box<[u8]>, u32, bool, F>,
    ) -> (result: (usize, bool, Calls3<Box<[u8]>, u32, bool, F>)) where
        F: FnMut(Box<[u8]>, u32, bool),

        requires
            old(self).wf(),
            resend_times_fit(old(self)@, now_ms, rtt_ms, max_send_size),
            calls.wf(),
            frames_planned(
                calls.plan(),
                calls.made().len() as int,
                data_emission(old(self)@, now_ms, rtt_ms, max_send_size).emission.sent,
            ),
        ensures
            final(self).wf(),
            ({
                let outcome = data_emission(old(self)@, now_ms, rtt_ms, max_send_size);
                let count = calls.made().len() as int;
                &&& final(self)@ == outcome.emission.state
                &&& result.0 == max_send_size - outcome.emission.budget
                &&& result.1 == outcome.size_limited
                &&& count <= result.2.made().len()
                &&& result.2.made().take(count) == calls.made()
                &&& calls_with_frames(result.2.made().skip(count), outcome.emission.sent)
                &&& exists|nonces: Seq<bool>| #[trigger]
                    handed_over_all(calls.callee(), outcome.emission.sent, nonces)
            }),
            result.2.wf(),
            result.2.callee() == calls.callee(),
            result.2.plan() == calls.plan(),
            *final(self).frame_ack_queue == *old(self).frame_ack_queue,
            *final(final(self).packet_sender) == *final(old(self).packet_sender),
            *final(final(self).datagram_queue) == *final(old(self).datagram_queue),
            *final(final(self).resend_queue) == *final(old(self).resend_queue),
            *final(final(self).frame_log) == *final(old(self).frame_log),
            *final(final(self).frame_ack_queue) == *final(old(self).frame_ack_queue),
    {
        let ghost outcome = data_emission(self@, now_ms, rtt_ms, max_send_size);
        let ghost sent = outcome.emission.sent;
        let ghost first = calls;
        let ghost count = calls.made().len() as int;
        let ghost mut nonces: Seq<bool> = Seq::empty();
        let mut calls: Calls3<Box<[u8]>, u32, bool, F> = calls;
        let mut progress: Progress = self.start_data_frames(max_send_size);
        assert(progress.outcome(self@, now_ms, rtt_ms) == outcome);
        assert(calls.made().take(count) =~= first.made());
        loop
            invariant
                calls.wf(),
                calls.callee() == first.callee(),
                calls.plan() == first.plan(),
                count == first.made().len(),
                count <= calls.made().len(),
                calls.made().take(count) == first.made(),
                calls_with_frames(calls.made().skip(count), progress.sent@),
                frames_planned(first.plan(), count, sent),
                self.wf(),
                progress.wf(self@.log),
                progress.budget <= max_send_size,
                progress.outcome(self@, now_ms, rtt_ms) == outcome,
                sent == outcome.emission.sent,
                progress.sent@.is_prefix_of(sent),
                handed_over_all(first.callee(), progress.sent@, nonces),
                now_ms + 4 * rtt_ms <= u64::MAX || times_fit(
                    outcome.emission.state.resends.entries,
                ),
                *self.frame_ack_queue == *old(self).frame_ack_queue,
                *final(self.packet_sender) == *final(old(self).packet_sender),
                *final(self.datagram_queue) == *final(old(self).datagram_queue),
                *final(self.resend_queue) == *final(old(self).resend_queue),
                *final(self.frame_log) == *final(old(self).frame_log),
                *final(self.frame_ack_queue) == *final(old(self).frame_ack_queue),
            ensures
                progress.phase is Over,
            decreases sent.len() - progress.sent@.len(),
        {
            let ghost before = progress.sent@;
            let ghost index = before.len() as int;
            let ghost made = calls.made();
            match self.next_data_frame(&mut progress, now_ms, rtt_ms) {
                None => {
                    break;
                },
                Some(builder) => {
                    proof {
                        progress.lemma_extends(self@, now_ms, rtt_ms);
                    }
                    assert(progress.sent@[index] == sent[index]);
                    let frame_id: u32 = builder.sequence_id();
                    let nonce: bool = draw_nonce();
                    let data: Box<[u8]> = builder.build(nonce);
                    let ghost handed = data;
                    assert(made.skip(count).len() == index);
                    assert(calls.plan()(count + index, data, sent[index].sequence_id, nonce));
                    calls = calls.call(data, frame_id, nonce);
                    proof {
                        assert(handed_over(first.callee(), handed@, frame_id, nonce));
                        assert(calls.made().take(count) =~= made.take(count));
                        assert(calls.made().skip(count) =~= made.skip(count).push(
                            (handed, frame_id, nonce),
                        ));
                        let earlier = nonces;
                        nonces = nonces.push(nonce);
                        assert forall|i: int| 0 <= i < nonces.len() implies handed_over(
                            first.callee(),
                            data_frame_bytes(
                                progress.sent@[i].sequence_id,
                                nonces[i],
                                progress.sent@[i].datagrams,
                            ),
                            progress.sent@[i].sequence_id,
                            #[trigger] nonces[i],
                        ) by {
                            if i < index {
                                assert(nonces[i] == earlier[i]);
                                assert(progress.sent@[i] == before[i]);
                            }
                        }
                    }
                },
            }
        }
        let size_limited: bool = match progress.phase {
            Phase::Over { size_limited } => size_limited,
            _ => false,
        };
        assert(handed_over_all(first.callee(), sent, nonces));
        (max_send_size - progress.budget, size_limited, calls)
    }

    /// Sends the data frames of `assemble_data_frames`, each with a random nonce: hands to `f` each
    /// frame's bytes, its ID and its nonce as soon as the frame has been put together. Gives the
    /// total length of the frames, and whether a datagram was left for want of bytes.
    ///
    /// `f` needs to accept these frames only, each in its turn, and gets no others: its calls are
    /// those of `emit_data_frames_with`, and it cannot be called otherwise.
    pub fn emit_data_frames<F>(
        &mut self,
        now_ms: u64,
        rtt_ms: u64,
        max_send_size: usize,
        f: F,
    ) -> (result: (usize, bool)) where F: FnMut(Box<[u8]>, u32, bool)
        requires
            old(self).wf(),
            resend_times_fit(old(self)@, now_ms, rtt_ms, max_send_size),
            accepts_all(
                f,
                data_emission(old(self)@, now_ms, rtt_ms, max_send_size).emission.sent,
            ),
        ensures
            final(self).wf(),
            ({
                let outcome = data_emission(old(self)@, now_ms, rtt_ms, max_send_size);
                &&& final(self)@ == outcome.emission.state
                &&& result.0 == max_send_size - outcome.emission.budget
                &&& result.1 == outcome.size_limited
                &&& exists|nonces: Seq<bool>| #[trigger]
                    handed_over_all(f, outcome.emission.sent, nonces)
            }),
            *final(self).frame_ack_queue == *old(self).frame_ack_queue,
            *final(final(self).packet_sender) == *final(old(self).packet_sender),
            *final(final(self).datagram_queue) == *final(old(self).datagram_queue),
            *final(final(self).resend_queue) == *final(old(self).resend_queue),
            *final(final(self).frame_log) == *final(old(self).frame_log),
            *final(final(self).frame_ack_queue) == *final(old(self).frame_ack_queue),
    {
        let ghost sent = data_emission(self@, now_ms, rtt_ms, max_send_size).emission.sent;
        let ghost plan = |i: int, data: Box<[u8]>, id: u32, nonce: bool|
            {
                &&& 0 <= i < sent.len()
                &&& is_drawn(nonce)
                &&& id == sent[i].sequence_id
                &&& data@ == data_frame_bytes(id, nonce, sent[i].datagrams)
            };
        assert forall|i: int, data: Box<[u8]>, id: u32, nonce: bool|
            #![trigger plan(i, data, id, nonce)]
            plan(i, data, id, nonce) && left_as_call(
                f,
                i,
                (data, id, nonce),
            ) implies call_requires(f, (data, id, nonce)) by {
            assert(call_requires(f, (data, sent[i].sequence_id, nonce)));
        }
        let calls: Calls3<Box<[u8]>, u32, bool, F> = Calls3::new(f, Ghost(plan));
        let (size, size_limited, _) = self.emit_data_frames_with(
            now_ms,
            rtt_ms,
            max_send_size,
            calls,
        );
        (size, size_limited)
    }

    /// The sync frame that has the next data frame's ID.
    pub fn sync_frame(&self, sender_next_id: u32, nonce: bool) -> (data: Box<[u8]>)
        requires
            self.frame_log.wf(),
        ensures
            data@ == sync_frame_bytes(self@.log.next_id(), nonce, sender_next_id),
    {
        let sequence_id: u32 = self.frame_log.next_id();
        let frame: Frame = Frame::SyncFrame(SyncFrame { sequence_id, nonce, sender_next_id });
        frame.write()
    }

    /// Sends a sync frame with a random nonce, if there is nothing left to be sent, now or again,
    /// and the log would take a frame: calls the function of `calls` with the frame's bytes, its ID
    /// and its nonce. The log does not take the frame up. Gives the length of what was sent,
    /// whether the frame was held back for want of bytes, and the calls: one more if the frame was
    /// sent.
    pub fn emit_sync_frame_with<F>(
        &mut self,
        sender_next_id: u32,
        max_send_size: usize,
        calls: Calls3<Box<[u8]>, u32, bool, F>,
    ) -> (result: (usize, bool, Calls3<Box<[u8]>, u32, bool, F>)) where
        F: FnMut(Box<[u8]>, u32, bool),

        requires
            old(self).frame_log.wf(),
            calls.wf(),
            sync_result(old(self)@, max_send_size).0 > 0 ==> forall|data: Box<[u8]>, nonce: bool|
                is_drawn(nonce) && data@ == sync_frame_bytes(
                    old(self)@.log.next_id(),
                    nonce,
                    sender_next_id,
                ) ==> #[trigger] calls.plan()(
                    calls.made().len() as int,
                    data,
                    old(self)@.log.next_id(),
                    nonce,
                ),
        ensures
            *final(self) == *old(self),
            (result.0, result.1) == sync_result(old(self)@, max_send_size),
            result.0 == 0 ==> result.2.made() == calls.made(),
            result.0 > 0 ==> {
                let made = result.2.made();
                let id = old(self)@.log.next_id();
                &&& made.len() == calls.made().len() + 1
                &&& made.drop_last() == calls.made()
                &&& made.last().0@ == sync_frame_bytes(id, made.last().2, sender_next_id)
                &&& made.last().1 == id
                &&& is_drawn(made.last().2)
                &&& handed_over(
                    calls.callee(),
                    sync_frame_bytes(id, made.last().2, sender_next_id),
                    id,
                    made.last().2,
                )
            },
            result.2.wf(),
            result.2.callee() == calls.callee(),
            result.2.plan() == calls.plan(),
    {
        if self.resend_queue.len() != 0 || self.datagram_queue.len() != 0 {
            return (0, false, calls);
        }
        if self.frame_log.len() == MAX_FRAME_TRANSFER_WINDOW_SIZE {
            return (0, false, calls);
        }
        if SYNC_FRAME_SIZE > max_send_size {
            return (0, true, calls);
        }
        let ghost callee = calls.callee();
        let ghost made = calls.made();
        let sequence_id: u32 = self.frame_log.next_id();
        let nonce: bool = draw_nonce();
        let frame_data: Box<[u8]> = self.sync_frame(sender_next_id, nonce);
        let ghost handed = frame_data;
        let calls: Calls3<Box<[u8]>, u32, bool, F> = calls.call(frame_data, sequence_id, nonce);
        assert(handed_over(callee, handed@, sequence_id, nonce));
        assert(calls.made().drop_last() =~= made);
        (SYNC_FRAME_SIZE, false, calls)
    }

    /// Sends a sync frame with a random nonce, if there is nothing left to be sent, now or again,
    /// and the log would take a frame: hands to `f` the frame's bytes, its ID and its nonce. The
    /// log does not take the frame up. Gives the length of what was sent, and whether the frame was
    /// held back for want of bytes.
    ///
    /// `f` needs to accept this frame only, in its first call, and nothing where none is sent: its
    /// calls are those of `emit_sync_frame_with`, and it cannot be called otherwise.
    pub fn emit_sync_frame<F>(&mut self, sender_next_id: u32, max_send_size: usize, f: F) -> (
        result: (usize, bool)) where F: FnMut(Box<[u8]>, u32, bool)
        requires
            old(self).frame_log.wf(),
            sync_result(old(self)@, max_send_size).0 > 0 ==> accepts_sync(
                f,
                old(self)@.log.next_id(),
                sender_next_id,
            ),
        ensures
            *final(self) == *old(self),
            result == sync_result(old(self)@, max_send_size),
            result.0 > 0 ==> exists|nonce: bool| #[trigger]
                handed_over(
                    f,
                    sync_frame_bytes(old(self)@.log.next_id(), nonce, sender_next_id),
                    old(self)@.log.next_id(),
                    nonce,
                ),
    {
        let ghost next_id = self@.log.next_id();
        let ghost is_sent = sync_result(self@, max_send_size).0 > 0;
        let ghost plan = |i: int, data: Box<[u8]>, id: u32, nonce: bool|
            {
                &&& is_sent
                &&& i == 0
                &&& is_drawn(nonce)
                &&& id == next_id
                &&& data@ == sync_frame_bytes(id, nonce, sender_next_id)
            };
        let calls: Calls3<Box<[u8]>, u32, bool, F> = Calls3::new(f, Ghost(plan));
        let (size, size_limited, _) = self.emit_sync_frame_with(
            sender_next_id,
            max_send_size,
            calls,
        );
        (size, size_limited)
    }

    /// Goes on until the next ack frame is sent, or sending is over.
    fn next_ack_frame(&mut self, progress: &mut AckProgress, receiver_base_id: u32) -> (frame:
        Option<Box<[u8]>>)
        requires
            old(progress).wf(receiver_base_id),
        ensures
            final(progress).wf(receiver_base_id),
            final(progress).budget <= old(progress).budget,
            final(progress).outcome(final(self)@.acks) == old(progress).outcome(old(self)@.acks),
            is_new_ack_frame(frame, receiver_base_id, old(progress).sent@, final(progress).sent@),
            frame is None ==> final(progress).phase is Over,
            *final(self).packet_sender == *old(self).packet_sender,
            *final(self).datagram_queue == *old(self).datagram_queue,
            *final(self).resend_queue == *old(self).resend_queue,
            *final(self).frame_log == *old(self).frame_log,
            *final(final(self).packet_sender) == *final(old(self).packet_sender),
            *final(final(self).datagram_queue) == *final(old(self).datagram_queue),
            *final(final(self).resend_queue) == *final(old(self).resend_queue),
            *final(final(self).frame_log) == *final(old(self).frame_log),
            *final(final(self).frame_ack_queue) == *final(old(self).frame_ack_queue),
    {
        let ghost outcome = progress.outcome(self@.acks);
        let ghost sent = progress.sent@;
        if let AckPhase::Over { .. } = progress.phase {
            return None;
        }
        loop
            invariant_except_break
                ack_phase(progress.emission(self@.acks)) == outcome,
            invariant
                progress.wf(receiver_base_id),
                progress.phase is Acks,
                progress.budget <= old(progress).budget,
                progress.sent@ == sent,
                sent == old(progress).sent@,
                outcome == old(progress).outcome(old(self)@.acks),
                *self.packet_sender == *old(self).packet_sender,
                *self.datagram_queue == *old(self).datagram_queue,
                *self.resend_queue == *old(self).resend_queue,
                *self.frame_log == *old(self).frame_log,
                *final(self.packet_sender) == *final(old(self).packet_sender),
                *final(self.datagram_queue) == *final(old(self).datagram_queue),
                *final(self.resend_queue) == *final(old(self).resend_queue),
                *final(self.frame_log) == *final(old(self).frame_log),
                *final(self.frame_ack_queue) == *final(old(self).frame_ack_queue),
            ensures
                outcome == (AckOutcome {
                    emission: progress.emission(self@.acks).finish(),
                    size_limited: false,
                }),
            decreases self@.acks.len(),
        {
            let ghost queue = self@.acks;
            let ghost before = progress.emission(queue);
            match self.frame_ack_queue.peek() {
                None => {
                    break;
                },
                Some(frame_ack) => {
                    let potential_frame_size: usize = progress.builder.size()
                        + AckFrameBuilder::encoded_size(&frame_ack);
                    if potential_frame_size > progress.budget {
                        let frame: Option<Box<[u8]>> = if progress.builder.count() > 0 {
                            Some(progress.close(receiver_base_id, Ghost(queue)))
                        } else {
                            None
                        };
                        progress.phase = AckPhase::Over { size_limited: true };
                        return frame;
                    }
                    if potential_frame_size > MAX_TRANSFER_UNIT {
                        return Some(progress.close(receiver_base_id, Ghost(queue)));
                    }
                    progress.builder.add(&frame_ack);
                    self.frame_ack_queue.pop();
                    assert(progress.emission(self@.acks) =~= before.add_ack());
                },
            }
        }
        let ghost queue = self@.acks;
        let frame: Option<Box<[u8]>> = if progress.builder.count() > 0 {
            Some(progress.close(receiver_base_id, Ghost(queue)))
        } else {
            None
        };
        progress.phase = AckPhase::Over { size_limited: false };
        frame
    }

    /// Puts together the ack frames that are sent. Gives the frames; their total length, which is
    /// at most `max_send_size`; and whether an acknowledgement was left for want of bytes.
    pub fn assemble_ack_frames(&mut self, receiver_base_id: u32, max_send_size: usize) -> (result: (
        VecDeque<Box<[u8]>>,
        usize,
        bool,
    ))
        ensures
            ({
                let outcome = ack_emission(old(self)@.acks, max_send_size);
                &&& final(self)@ == (EmitterView { acks: outcome.emission.queue, ..old(self)@ })
                &&& contents(result.0@) == ack_frames(receiver_base_id, outcome.emission.sent)
                &&& result.1 == max_send_size - outcome.emission.budget
                &&& result.2 == outcome.size_limited
            }),
            *final(self).packet_sender == *old(self).packet_sender,
            *final(self).datagram_queue == *old(self).datagram_queue,
            *final(self).resend_queue == *old(self).resend_queue,
            *final(self).frame_log == *old(self).frame_log,
            *final(final(self).packet_sender) == *final(old(self).packet_sender),
            *final(final(self).datagram_queue) == *final(old(self).datagram_queue),
            *final(final(self).resend_queue) == *final(old(self).resend_queue),
            *final(final(self).frame_log) == *final(old(self).frame_log),
            *final(final(self).frame_ack_queue) == *final(old(self).frame_ack_queue),
    {
        let ghost outcome = ack_emission(self@.acks, max_send_size);
        let mut progress: AckProgress = AckProgress {
            phase: AckPhase::Acks,
            budget: max_send_size,
            builder: AckFrameBuilder::new(receiver_base_id),
            sent: Ghost(Seq::empty()),
        };
        let mut frames: VecDeque<Box<[u8]>> = VecDeque::new();
        assert(progress.emission(self@.acks) =~= AckEmission::start(self@.acks, max_send_size));
        assert(contents(frames@) =~= ack_frames(receiver_base_id, progress.sent@));
        loop
            invariant
                progress.wf(receiver_base_id),
                progress.budget <= max_send_size,
                progress.outcome(self@.acks) == outcome,
                contents(frames@) == ack_frames(receiver_base_id, progress.sent@),
                *self.packet_sender == *old(self).packet_sender,
                *self.datagram_queue == *old(self).datagram_queue,
                *self.resend_queue == *old(self).resend_queue,
                *self.frame_log == *old(self).frame_log,
                *final(self.packet_sender) == *final(old(self).packet_sender),
                *final(self.datagram_queue) == *final(old(self).datagram_queue),
                *final(self.resend_queue) == *final(old(self).resend_queue),
                *final(self.frame_log) == *final(old(self).frame_log),
                *final(self.frame_ack_queue) == *final(old(self).frame_ack_queue),
            ensures
                progress.phase is Over,
            decreases outcome.emission.sent.len() - progress.sent@.len(),
        {
            let ghost before = progress.sent@;
            match self.next_ack_frame(&mut progress, receiver_base_id) {
                None => {
                    break;
                },
                Some(data) => {
                    proof {
                        progress.lemma_extends(self@.acks);
                        assert(progress.sent@ =~= before.push(progress.sent@.last()));
                        lemma_ack_frames_push(
                            receiver_base_id,
                            frames@,
                            data,
                            before,
                            progress.sent@.last(),
                        );
                    }
                    frames.push_back(data);
                },
            }
        }
        let size_limited: bool = match progress.phase {
            AckPhase::Over { size_limited } => size_limited,
            _ => false,
        };
        (frames, max_send_size - progress.budget, size_limited)
    }

    /// Sends the ack frames of `assemble_ack_frames`: calls the function of `calls` with each
    /// frame's bytes as soon as the frame has been put together. Gives the total length of the
    /// frames, whether an acknowledgement was left for want of bytes, and the calls: one for each
    /// frame, in the same order, behind those made before.
    pub fn emit_ack_frames_with<F>(
        &mut self,
        receiver_base_id: u32,
        max_send_size: usize,
        calls: Calls1<Box<[u8]>, F>,
    ) -> (result: (usize, bool, Calls1<Box<[u8]>, F>)) where F: FnMut(Box<[u8]>)
        requires
            calls.wf(),
            acks_planned(
                calls.plan(),
                calls.made().len() as int,
                receiver_base_id,
                ack_emission(old(self)@.acks, max_send_size).emission.sent,
            ),
        ensures
            ({
                let outcome = ack_emission(old(self)@.acks, max_send_size);
                let count = calls.made().len() as int;
                &&& final(self)@ == (EmitterView { acks: outcome.emission.queue, ..old(self)@ })
                &&& result.0 == max_send_size - outcome.emission.budget
                &&& result.1 == outcome.size_limited
                &&& count <= result.2.made().len()
                &&& result.2.made().take(count) == calls.made()
                &&& calls_with_acks(
                    result.2.made().skip(count),
                    receiver_base_id,
                    outcome.emission.sent,
                )
                &&& acks_handed_over(calls.callee(), receiver_base_id, outcome.emission.sent)
            }),
            result.2.wf(),
            result.2.callee() == calls.callee(),
            result.2.plan() == calls.plan(),
            *final(self).packet_sender == *old(self).packet_sender,
            *final(self).datagram_queue == *old(self).datagram_queue,
            *final(self).resend_queue == *old(self).resend_queue,
            *final(self).frame_log == *old(self).frame_log,
            *final(final(self).packet_sender) == *final(old(self).packet_sender),
            *final(final(self).datagram_queue) == *final(old(self).datagram_queue),
            *final(final(self).resend_queue) == *final(old(self).resend_queue),
            *final(final(self).frame_log) == *final(old(self).frame_log),
            *final(final(self).frame_ack_queue) == *final(old(self).frame_ack_queue),
    {
        let ghost outcome = ack_emission(self@.acks, max_send_size);
        let ghost sent = outcome.emission.sent;
        let ghost first = calls;
        let ghost count = calls.made().len() as int;
        let mut calls: Calls1<Box<[u8]>, F> = calls;
        let mut progress: AckProgress = AckProgress {
            phase: AckPhase::Acks,
            budget: max_send_size,
            builder: AckFrameBuilder::new(receiver_base_id),
            sent: Ghost(Seq::empty()),
        };
        assert(progress.emission(self@.acks) =~= AckEmission::start(self@.acks, max_send_size));
        assert(calls.made().take(count) =~= first.made());
        loop
            invariant
                calls.wf(),
                calls.callee() == first.callee(),
                calls.plan() == first.plan(),
                count == first.made().len(),
                count <= calls.made().len(),
                calls.made().take(count) == first.made(),
                calls_with_acks(calls.made().skip(count), receiver_base_id, progress.sent@),
                acks_planned(first.plan(), count, receiver_base_id, sent),
                progress.wf(receiver_base_id),
                progress.budget <= max_send_size,
                progress.outcome(self@.acks) == outcome,
                sent == outcome.emission.sent,
                progress.sent@.is_prefix_of(sent),
                acks_handed_over(first.callee(), receiver_base_id, progress.sent@),
                *self.packet_sender == *old(self).packet_sender,
                *self.datagram_queue == *old(self).datagram_queue,
                *self.resend_queue == *old(self).resend_queue,
                *self.frame_log == *old(self).frame_log,
                *final(self.packet_sender) == *final(old(self).packet_sender),
                *final(self.datagram_queue) == *final(old(self).datagram_queue),
                *final(self.resend_queue) == *final(old(self).resend_queue),
                *final(self.frame_log) == *final(old(self).frame_log),
                *final(self.frame_ack_queue) == *final(old(self).frame_ack_queue),
            ensures
                progress.phase is Over,
            decreases sent.len() - progress.sent@.len(),
        {
            let ghost before = progress.sent@;
            let ghost index = before.len() as int;
            let ghost made = calls.made();
            match self.next_ack_frame(&mut progress, receiver_base_id) {
                None => {
                    break;
                },
                Some(data) => {
                    proof {
                        progress.lemma_extends(self@.acks);
                    }
                    assert(progress.sent@[index] == sent[index]);
                    assert(data@ == ack_frame_bytes(receiver_base_id, sent[index]));
                    let ghost handed = data;
                    assert(made.skip(count).len() == index);
                    assert(calls.plan()(count + index, data));
                    calls = calls.call(data);
                    assert(ack_handed_over(first.callee(), handed@));
                    assert(calls.made().take(count) =~= made.take(count));
                    assert(calls.made().skip(count) =~= made.skip(count).push(handed));
                    assert forall|i: int| 0 <= i < progress.sent@.len() implies ack_handed_over(
                        first.callee(),
                        ack_frame_bytes(receiver_base_id, #[trigger] progress.sent@[i]),
                    ) && calls.made().skip(count)[i]@ == ack_frame_bytes(
                        receiver_base_id,
                        progress.sent@[i],
                    ) by {
                        if i < index {
                            assert(progress.sent@[i] == progress.sent@.drop_last()[i]);
                            assert(progress.sent@[i] == before[i]);
                            assert(calls.made().skip(count)[i] == made.skip(count)[i]);
                        }
                    }
                },
            }
        }
        let size_limited: bool = match progress.phase {
            AckPhase::Over { size_limited } => size_limited,
            _ => false,
        };
        (max_send_size - progress.budget, size_limited, calls)
    }

    /// Sends the ack frames of `assemble_ack_frames`: hands to `f` each frame's bytes as soon as
    /// the frame has been put together. Gives the total length of the frames, and whether an
    /// acknowledgement was left for want of bytes.
    ///
    /// `f` needs to accept these frames only, each in its turn, and gets no others: its calls are
    /// those of `emit_ack_frames_with`, and it cannot be called otherwise.
    pub fn emit_ack_frames<F>(&mut self, receiver_base_id: u32, max_send_size: usize, f: F) -> (
        result: (usize, bool)) where F: FnMut(Box<[u8]>)
        requires
            accepts_acks(
                f,
                receiver_base_id,
                ack_emission(old(self)@.acks, max_send_size).emission.sent,
            ),
        ensures
            ({
                let outcome = ack_emission(old(self)@.acks, max_send_size);
                &&& final(self)@ == (EmitterView { acks: outcome.emission.queue, ..old(self)@ })
                &&& result.0 == max_send_size - outcome.emission.budget
                &&& result.1 == outcome.size_limited
                &&& acks_handed_over(f, receiver_base_id, outcome.emission.sent)
            }),
            *final(self).packet_sender == *old(self).packet_sender,
            *final(self).datagram_queue == *old(self).datagram_queue,
            *final(self).resend_queue == *old(self).resend_queue,
            *final(self).frame_log == *old(self).frame_log,
            *final(final(self).packet_sender) == *final(old(self).packet_sender),
            *final(final(self).datagram_queue) == *final(old(self).datagram_queue),
            *final(final(self).resend_queue) == *final(old(self).resend_queue),
            *final(final(self).frame_log) == *final(old(self).frame_log),
            *final(final(self).frame_ack_queue) == *final(old(self).frame_ack_queue),
    {
        let ghost sent = ack_emission(self@.acks, max_send_size).emission.sent;
        let ghost plan = |i: int, data: Box<[u8]>|
            0 <= i < sent.len() && data@ == ack_frame_bytes(receiver_base_id, sent[i]);
        let calls: Calls1<Box<[u8]>, F> = Calls1::new(f, Ghost(plan));
        let (size, size_limited, _) = self.emit_ack_frames_with(
            receiver_base_id,
            max_send_size,
            calls,
        );
        (size, size_limited)
    }
}

} // verus!
