use daten_meister::datagram_queue;
use daten_meister::datagram_queue::DatagramQueue;
use daten_meister::emit_frame::FrameEmitter;
use daten_meister::frame::wire::SYNC_FRAME_SIZE;
use daten_meister::frame::Datagram;
use daten_meister::frame::FragmentId;
use daten_meister::frame::Frame;
use daten_meister::frame::FrameAck;
use daten_meister::frame_ack_queue::FrameAckQueue;
use daten_meister::frame_log;
use daten_meister::frame_log::FrameLog;
use daten_meister::packet_sender::PacketSender;
use daten_meister::resend_queue;
use daten_meister::resend_queue::PersistentDatagram;
use daten_meister::resend_queue::ResendQueue;
use daten_meister::MAX_FRAME_TRANSFER_WINDOW_SIZE;

struct Endpoint {
    sender: PacketSender,
    queue: DatagramQueue,
    resends: ResendQueue,
    log: FrameLog,
    acks: FrameAckQueue,
}

impl Endpoint {
    fn new(frame_id: u32) -> Self {
        Endpoint {
            sender: PacketSender::new(1, 1000, 0),
            queue: DatagramQueue::new(),
            resends: ResendQueue::new(),
            log: FrameLog::new(frame_id),
            acks: FrameAckQueue::new(),
        }
    }

    fn emitter(&mut self) -> FrameEmitter<'_> {
        FrameEmitter::new(
            &mut self.sender,
            &mut self.queue,
            &mut self.resends,
            &mut self.log,
            &mut self.acks,
        )
    }

    fn emit_sync(&mut self, next_id: u32, max: usize) -> (Vec<(Box<[u8]>, u32, bool)>, usize, bool) {
        let mut frames = Vec::new();
        let (size, limited) = self.emitter().emit_sync_frame(next_id, max, |data, id, nonce| {
            frames.push((data, id, nonce));
        });
        (frames, size, limited)
    }

    fn emit_acks(&mut self, base_id: u32, max: usize) -> (Vec<Box<[u8]>>, usize, bool) {
        let mut frames = Vec::new();
        let (size, limited) = self.emitter().emit_ack_frames(base_id, max, |data| {
            frames.push(data);
        });
        (frames, size, limited)
    }

    fn push_acks(&mut self, count: u32) {
        for base_id in 0..count {
            self.acks.push(FrameAck { base_id, bitfield: base_id + 1, nonce: base_id % 2 == 1 });
        }
    }
}

fn datagram() -> Datagram {
    Datagram {
        sequence_id: 0,
        channel_id: 0,
        window_parent_lead: 0,
        channel_parent_lead: 0,
        fragment_id: FragmentId { id: 0, last: 0 },
        data: vec![1].into_boxed_slice(),
    }
}

fn frame_acks(data: &[u8], base_id: u32) -> Vec<FrameAck> {
    match Frame::read(data) {
        Some(Frame::AckFrame(frame)) => {
            assert_eq!(frame.receiver_base_id, base_id);
            frame.frame_acks
        }
        _ => panic!("expected an ack frame"),
    }
}

#[test]
fn sync_frame_is_sent_when_idle() {
    let mut endpoint = Endpoint::new(0x0102_0304);
    let (frames, size, limited) = endpoint.emit_sync(0x0506_0708, SYNC_FRAME_SIZE);
    assert_eq!((frames.len(), size, limited), (1, SYNC_FRAME_SIZE, false));
    let (data, id, nonce) = &frames[0];
    assert_eq!(*id, 0x0102_0304);
    let nonce_byte = if *nonce { 1 } else { 0 };
    assert_eq!(data.to_vec(), vec![2, 1, 2, 3, 4, nonce_byte, 5, 6, 7, 8]);
    match Frame::read(data) {
        Some(Frame::SyncFrame(frame)) => {
            assert_eq!(frame.sequence_id, 0x0102_0304);
            assert_eq!(frame.nonce, *nonce);
            assert_eq!(frame.sender_next_id, 0x0506_0708);
        }
        _ => panic!("expected a sync frame"),
    }
    // The log does not take it up.
    assert_eq!(endpoint.log.len(), 0);
    assert_eq!(endpoint.log.next_id(), 0x0102_0304);
}

#[test]
fn sync_frame_needs_its_bytes() {
    let mut endpoint = Endpoint::new(0);
    let (frames, size, limited) = endpoint.emit_sync(0, SYNC_FRAME_SIZE - 1);
    assert_eq!((frames.len(), size, limited), (0, 0, true));
}

#[test]
fn no_sync_frame_while_a_datagram_waits() {
    let mut endpoint = Endpoint::new(0);
    endpoint.queue.push_back(datagram_queue::Entry { datagram: datagram(), resend: false });
    let (frames, size, limited) = endpoint.emit_sync(0, 1000);
    assert_eq!((frames.len(), size, limited), (0, 0, false));
    // Nor is it held back for want of bytes.
    let (frames, size, limited) = endpoint.emit_sync(0, 0);
    assert_eq!((frames.len(), size, limited), (0, 0, false));
    endpoint.queue.pop_front();
    assert_eq!(endpoint.emit_sync(0, 1000).0.len(), 1);
}

#[test]
fn no_sync_frame_while_a_datagram_may_be_sent_again() {
    let mut endpoint = Endpoint::new(0);
    let key = endpoint.resends.fresh_key();
    endpoint.resends.push(resend_queue::Entry::new(
        PersistentDatagram::new(key, datagram()),
        1_000_000,
        1,
    ));
    let (frames, size, limited) = endpoint.emit_sync(0, 1000);
    assert_eq!((frames.len(), size, limited), (0, 0, false));
    endpoint.resends.pop();
    assert_eq!(endpoint.emit_sync(0, 1000).0.len(), 1);
}

#[test]
fn no_sync_frame_while_the_log_is_full() {
    let mut endpoint = Endpoint::new(0);
    for id in 0..MAX_FRAME_TRANSFER_WINDOW_SIZE {
        endpoint.log.push(
            id,
            frame_log::Entry { send_time_ms: 0, persistent_datagrams: Vec::new().into_boxed_slice() },
        );
    }
    let (frames, size, limited) = endpoint.emit_sync(0, 1000);
    assert_eq!((frames.len(), size, limited), (0, 0, false));
    endpoint.log.pop();
    let (frames, ..) = endpoint.emit_sync(0, 1000);
    assert_eq!(frames[0].1, MAX_FRAME_TRANSFER_WINDOW_SIZE);
}

#[test]
fn sync_frames_have_both_nonces() {
    let mut endpoint = Endpoint::new(0);
    let nonces: Vec<bool> = (0..128).map(|_| endpoint.emit_sync(0, 1000).0[0].2).collect();
    assert!(nonces.contains(&true));
    assert!(nonces.contains(&false));
    let data = endpoint.emitter().sync_frame(1, true);
    assert_eq!(data.to_vec(), vec![2, 0, 0, 0, 0, 1, 0, 0, 0, 1]);
}

#[test]
fn no_acks_no_frames() {
    let mut endpoint = Endpoint::new(0);
    let (frames, size, limited) = endpoint.emit_acks(0, 0);
    assert_eq!((frames.len(), size, limited), (0, 0, false));
}

#[test]
fn ack_frame_is_exact() {
    let mut endpoint = Endpoint::new(0);
    endpoint.acks.push(FrameAck { base_id: 0x0102_0304, bitfield: 0x0506_0708, nonce: true });
    let (frames, size, limited) = endpoint.emit_acks(0x090a_0b0c, 16);
    assert_eq!((frames.len(), size, limited), (1, 16, false));
    assert_eq!(
        frames[0].to_vec(),
        vec![3, 9, 10, 11, 12, 0, 1, 1, 2, 3, 4, 5, 6, 7, 8, 1]
    );
}

#[test]
fn acks_are_sent_in_order() {
    let mut endpoint = Endpoint::new(0);
    endpoint.push_acks(200);
    let (frames, size, limited) = endpoint.emit_acks(77, 10_000);
    let sizes: Vec<usize> = frames.iter().map(|frame| frame.len()).collect();
    assert_eq!(sizes, vec![7 + 9 * 162, 7 + 9 * 38]);
    assert_eq!((size, limited), (1465 + 349, false));
    let mut base_ids: Vec<u32> = Vec::new();
    for frame in &frames {
        for ack in frame_acks(frame, 77) {
            assert_eq!(ack.bitfield, ack.base_id + 1);
            assert_eq!(ack.nonce, ack.base_id % 2 == 1);
            base_ids.push(ack.base_id);
        }
    }
    assert_eq!(base_ids, (0..200).collect::<Vec<u32>>());

    let (frames, size, limited) = endpoint.emit_acks(77, 10_000);
    assert_eq!((frames.len(), size, limited), (0, 0, false));
}

#[test]
fn acks_are_left_for_want_of_bytes() {
    let mut endpoint = Endpoint::new(0);
    endpoint.push_acks(200);
    let (frames, size, limited) = endpoint.emit_acks(0, 15);
    assert_eq!((frames.len(), size, limited), (0, 0, true));

    let (frames, size, limited) = endpoint.emit_acks(0, 1465 + 24);
    assert_eq!((frames.len(), size, limited), (2, 1465 + 16, true));
    let (frames, size, limited) = endpoint.emit_acks(0, 10_000);
    assert_eq!((frames.len(), size, limited), (1, 7 + 9 * 37, false));
    assert_eq!(frame_acks(&frames[0], 0)[0].base_id, 163);
}

#[test]
fn ack_frames_do_not_touch_the_log() {
    let mut endpoint = Endpoint::new(5);
    endpoint.push_acks(3);
    endpoint.emit_acks(0, 10_000);
    assert_eq!(endpoint.log.next_id(), 5);
    assert_eq!(endpoint.log.len(), 0);
    let (frames, size, limited) = endpoint.emitter().assemble_ack_frames(0, 10_000);
    assert_eq!((frames.len(), size, limited), (0, 0, false));
}

#[test]
fn more_bytes_send_the_same_acks_first() {
    let mut counts: Vec<usize> = Vec::new();
    for max in [15, 16, 100, 1465, 1480, 1481, 5000, 6000] {
        let mut endpoint = Endpoint::new(0);
        endpoint.push_acks(200);
        let (frames, ..) = endpoint.emit_acks(0, max);
        let mut base_ids: Vec<u32> = Vec::new();
        for frame in &frames {
            base_ids.extend(frame_acks(frame, 0).iter().map(|ack| ack.base_id));
        }
        assert_eq!(base_ids, (0..base_ids.len() as u32).collect::<Vec<u32>>());
        counts.push(base_ids.len());
    }
    assert_eq!(counts, vec![0, 1, 10, 162, 162, 163, 200, 200]);
}

#[test]
fn one_ack_at_the_limit() {
    for (max, expected) in [(15, (0, 0, true)), (16, (1, 16, false))] {
        let mut endpoint = Endpoint::new(0);
        endpoint.push_acks(1);
        let (frames, size, limited) = endpoint.emit_acks(0, max);
        assert_eq!((frames.len(), size, limited), expected);
        assert_eq!(endpoint.acks.peek().is_none(), max == 16);
    }
}
