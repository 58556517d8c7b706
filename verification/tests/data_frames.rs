use daten_meister::datagram_queue;
use daten_meister::datagram_queue::DatagramQueue;
use daten_meister::emit_frame::FrameEmitter;
use daten_meister::frame::Datagram;
use daten_meister::frame::FragmentId;
use daten_meister::frame::Frame;
use daten_meister::frame::FrameAck;
use daten_meister::frame_ack_queue::FrameAckQueue;
use daten_meister::frame_log;
use daten_meister::frame_log::FrameLog;
use daten_meister::packet_sender::PacketSender;
use daten_meister::resend_queue::ResendQueue;
use daten_meister::SendMode;
use daten_meister::MAX_FRAGMENT_SIZE;
use daten_meister::MAX_FRAME_TRANSFER_WINDOW_SIZE;
use daten_meister::MAX_PACKET_TRANSFER_WINDOW_SIZE;
use daten_meister::MAX_TRANSFER_UNIT;

struct Endpoint {
    sender: PacketSender,
    queue: DatagramQueue,
    resends: ResendQueue,
    log: FrameLog,
    acks: FrameAckQueue,
}

struct Sent {
    data: Box<[u8]>,
    id: u32,
    nonce: bool,
}

impl Endpoint {
    fn new(max_alloc: usize) -> Self {
        Self::with_log(max_alloc, FrameLog::new(0))
    }

    fn with_log(max_alloc: usize, log: FrameLog) -> Self {
        Endpoint {
            sender: PacketSender::new(4, max_alloc, 0),
            queue: DatagramQueue::new(),
            resends: ResendQueue::new(),
            log,
            acks: FrameAckQueue::new(),
        }
    }

    fn enqueue(&mut self, data: &[u8], mode: SendMode) {
        self.sender.enqueue_packet(data.into(), 0, mode);
    }

    fn emit(&mut self, now_ms: u64, rtt_ms: u64, max: usize) -> (Vec<Sent>, usize, bool) {
        let mut emitter = FrameEmitter::new(
            &mut self.sender,
            &mut self.queue,
            &mut self.resends,
            &mut self.log,
            &mut self.acks,
        );
        let mut frames = Vec::new();
        let (size, limited) = emitter.emit_data_frames(now_ms, rtt_ms, max, |data, id, nonce| {
            frames.push(Sent { data, id, nonce });
        });
        (frames, size, limited)
    }
}

fn datagrams(frame: &Sent) -> Vec<Datagram> {
    match Frame::read(&frame.data) {
        Some(Frame::DataFrame(read)) => {
            assert_eq!(read.sequence_id, frame.id);
            assert_eq!(read.nonce, frame.nonce);
            read.datagrams
        }
        _ => panic!("expected a data frame"),
    }
}

fn first_bytes(frames: &[Sent]) -> Vec<u8> {
    let mut bytes = Vec::new();
    for frame in frames {
        for datagram in datagrams(frame) {
            bytes.push(datagram.data[0]);
        }
    }
    bytes
}

fn plain_datagram(tag: u8, len: usize) -> Datagram {
    Datagram {
        sequence_id: 0,
        channel_id: 0,
        window_parent_lead: 0,
        channel_parent_lead: 0,
        fragment_id: FragmentId { id: 0, last: 0 },
        data: vec![tag; len].into_boxed_slice(),
    }
}

fn log_with(count: u32) -> FrameLog {
    let mut log = FrameLog::new(0);
    for id in 0..count {
        log.push(
            id,
            frame_log::Entry { send_time_ms: 0, persistent_datagrams: Vec::new().into_boxed_slice() },
        );
    }
    log
}

#[test]
fn frames_are_packed_and_add_up() {
    let mut endpoint = Endpoint::new(100_000);
    for _ in 0..10 {
        endpoint.enqueue(&[1; 400], SendMode::Unreliable);
    }
    let (frames, size, limited) = endpoint.emit(0, 100, 100_000);
    let sizes: Vec<usize> = frames.iter().map(|frame| frame.data.len()).collect();
    assert_eq!(sizes, vec![1253, 1253, 1253, 423]);
    assert_eq!(size, 1253 * 3 + 423);
    assert!(!limited);
    let counts: Vec<usize> = frames.iter().map(|frame| datagrams(frame).len()).collect();
    assert_eq!(counts, vec![3, 3, 3, 1]);
}

#[test]
fn resends_come_before_new_datagrams() {
    let mut endpoint = Endpoint::new(100_000);
    endpoint.enqueue(&[1; 10], SendMode::Resend);
    endpoint.emit(0, 100, 10_000);
    endpoint.enqueue(&[2; 10], SendMode::Resend);
    endpoint.emit(10, 100, 10_000);

    endpoint.enqueue(&[4; 10], SendMode::Unreliable);
    endpoint.queue.push_back(datagram_queue::Entry {
        datagram: plain_datagram(3, 10),
        resend: false,
    });
    let (frames, size, limited) = endpoint.emit(110, 100, 10_000);
    assert_eq!(frames.len(), 1);
    assert_eq!(first_bytes(&frames), vec![1, 2, 3, 4]);
    assert_eq!(size, 8 + 4 * 25);
    assert!(!limited);
}

#[test]
fn nothing_new_is_sent_while_a_resend_is_due() {
    let mut endpoint = Endpoint::new(100_000);
    endpoint.enqueue(&[1; 100], SendMode::Resend);
    endpoint.emit(0, 100, 10_000);
    endpoint.enqueue(&[2; 1], SendMode::Unreliable);

    // Enough for the new datagram, but not for the one that is due.
    let (frames, size, limited) = endpoint.emit(100, 100, 50);
    assert_eq!((frames.len(), size, limited), (0, 0, true));
    let (frames, ..) = endpoint.emit(100, 100, 10_000);
    assert_eq!(first_bytes(&frames), vec![1, 2]);
}

#[test]
fn frames_are_logged_under_consecutive_ids() {
    let mut endpoint = Endpoint::with_log(100_000, FrameLog::new(u32::MAX));
    endpoint.enqueue(&[1; MAX_FRAGMENT_SIZE], SendMode::Resend);
    endpoint.enqueue(&[2; MAX_FRAGMENT_SIZE], SendMode::Unreliable);
    let (frames, ..) = endpoint.emit(7, 100, 10_000);
    let ids: Vec<u32> = frames.iter().map(|frame| frame.id).collect();
    assert_eq!(ids, vec![u32::MAX, 0]);
    assert_eq!(endpoint.log.len(), 2);
    assert_eq!(endpoint.log.next_id(), 1);

    let first = endpoint.log.get(u32::MAX).unwrap();
    assert_eq!(first.send_time_ms, 7);
    assert_eq!(first.persistent_datagrams.len(), 1);
    let second = endpoint.log.get(0).unwrap();
    assert_eq!(second.send_time_ms, 7);
    assert_eq!(second.persistent_datagrams.len(), 0);
}

#[test]
fn full_log_sends_nothing() {
    let mut endpoint = Endpoint::with_log(100_000, log_with(MAX_FRAME_TRANSFER_WINDOW_SIZE));
    endpoint.enqueue(&[1; 10], SendMode::Resend);
    let (frames, size, limited) = endpoint.emit(0, 100, 10_000);
    assert_eq!((frames.len(), size, limited), (0, 0, false));
    assert_eq!(endpoint.log.len(), MAX_FRAME_TRANSFER_WINDOW_SIZE);

    // Even where there are no bytes to send, the full log is what stops it.
    let (frames, size, limited) = endpoint.emit(0, 100, 0);
    assert_eq!((frames.len(), size, limited), (0, 0, false));

    endpoint.log.pop();
    let (frames, ..) = endpoint.emit(0, 100, 10_000);
    assert_eq!(frames.len(), 1);
    assert_eq!(frames[0].id, MAX_FRAME_TRANSFER_WINDOW_SIZE);
}

#[test]
fn log_filling_up_stops_sending() {
    let mut endpoint = Endpoint::with_log(100_000, log_with(MAX_FRAME_TRANSFER_WINDOW_SIZE - 1));
    endpoint.enqueue(&[1; 2 * MAX_FRAGMENT_SIZE], SendMode::Resend);
    let (frames, size, limited) = endpoint.emit(0, 100, 10_000);
    assert_eq!((frames.len(), size, limited), (1, MAX_TRANSFER_UNIT, false));
    assert_eq!(endpoint.queue.len(), 1);
    assert_eq!(endpoint.resends.len(), 1);

    // The same on the way of those that are sent again.
    endpoint.log = log_with(MAX_FRAME_TRANSFER_WINDOW_SIZE - 2);
    endpoint.emit(0, 100, 10_000);
    endpoint.log = log_with(MAX_FRAME_TRANSFER_WINDOW_SIZE - 1);
    let (frames, size, limited) = endpoint.emit(100, 100, 10_000);
    assert_eq!((frames.len(), size, limited), (1, MAX_TRANSFER_UNIT, false));
}

#[test]
fn acknowledged_datagrams_are_not_sent_again() {
    let mut endpoint = Endpoint::new(100_000);
    endpoint.enqueue(&[1; 10], SendMode::Resend);
    endpoint.enqueue(&[2; 10], SendMode::Resend);
    endpoint.emit(0, 100, 10_000);
    assert_eq!(endpoint.resends.len(), 2);

    let keys: Vec<u64> = endpoint.log.get(0).unwrap().persistent_datagrams.to_vec();
    assert_eq!(keys.len(), 2);
    assert_ne!(keys[0], keys[1]);
    endpoint.resends.acknowledge(keys[0]);
    let (frames, ..) = endpoint.emit(100, 100, 10_000);
    assert_eq!(first_bytes(&frames), vec![2]);
    assert_eq!(endpoint.resends.len(), 1);
    let again: Vec<u64> = endpoint.log.get(1).unwrap().persistent_datagrams.to_vec();
    assert_eq!(again, vec![keys[1]]);

    endpoint.resends.acknowledge(keys[1]);
    let (frames, size, limited) = endpoint.emit(300, 100, 10_000);
    assert_eq!((frames.len(), size, limited), (0, 0, false));
    assert_eq!(endpoint.resends.len(), 0);
}

#[test]
fn unreliable_datagrams_are_sent_once() {
    let mut endpoint = Endpoint::new(100_000);
    endpoint.enqueue(&[1; 10], SendMode::Unreliable);
    let (frames, ..) = endpoint.emit(0, 100, 10_000);
    assert_eq!(frames.len(), 1);
    assert_eq!(endpoint.resends.len(), 0);
    let (frames, ..) = endpoint.emit(100_000, 100, 10_000);
    assert_eq!(frames.len(), 0);
}

#[test]
fn delay_counts_from_the_transmission() {
    let mut endpoint = Endpoint::new(100_000);
    endpoint.enqueue(&[1; 10], SendMode::Resend);
    endpoint.emit(0, 100, 10_000);
    // Due at 100, sent at 150: the next delay is 200, and all others are 400.
    assert_eq!(endpoint.emit(99, 100, 10_000).0.len(), 0);
    assert_eq!(endpoint.emit(150, 100, 10_000).0.len(), 1);
    assert_eq!(endpoint.emit(349, 100, 10_000).0.len(), 0);
    assert_eq!(endpoint.emit(350, 100, 10_000).0.len(), 1);
    assert_eq!(endpoint.emit(749, 100, 10_000).0.len(), 0);
    assert_eq!(endpoint.emit(750, 100, 10_000).0.len(), 1);
    assert_eq!(endpoint.emit(1149, 100, 10_000).0.len(), 0);
    assert_eq!(endpoint.emit(1150, 100, 10_000).0.len(), 1);
}

#[test]
fn without_delay_a_datagram_is_due_at_once() {
    let mut endpoint = Endpoint::new(100_000);
    endpoint.enqueue(&[1; 10], SendMode::Resend);
    let (frames, size, limited) = endpoint.emit(5, 0, 100);
    assert_eq!((frames.len(), size, limited), (1, 33, false));

    let (frames, size, limited) = endpoint.emit(5, 0, 100);
    assert_eq!((frames.len(), size, limited), (1, 8 + 3 * 25, true));
    assert_eq!(first_bytes(&frames), vec![1, 1, 1]);
    assert_eq!(endpoint.resends.len(), 1);
}

#[test]
fn latest_times_can_be_represented() {
    let mut endpoint = Endpoint::new(100_000);
    endpoint.enqueue(&[1; 10], SendMode::Resend);
    let (frames, ..) = endpoint.emit(u64::MAX - 400, 100, 10_000);
    assert_eq!(frames.len(), 1);
    let (frames, ..) = endpoint.emit(u64::MAX - 300, 100, 10_000);
    assert_eq!(frames.len(), 1);
    let (frames, ..) = endpoint.emit(u64::MAX - 101, 100, 10_000);
    assert_eq!(frames.len(), 0);
}

#[test]
fn size_limit_is_exact() {
    let mut endpoint = Endpoint::new(100_000);
    endpoint.enqueue(&[1; 2], SendMode::Unreliable);
    let (frames, size, limited) = endpoint.emit(0, 100, 24);
    assert_eq!((frames.len(), size, limited), (0, 0, true));
    let (frames, size, limited) = endpoint.emit(0, 100, 25);
    assert_eq!((frames.len(), size, limited), (1, 25, false));

    // What has been put together is sent when the next datagram exceeds the limit.
    endpoint.enqueue(&[1; 2], SendMode::Unreliable);
    endpoint.enqueue(&[2; 2], SendMode::Unreliable);
    let (frames, size, limited) = endpoint.emit(0, 100, 41);
    assert_eq!((frames.len(), size, limited), (1, 25, true));
    let (frames, size, limited) = endpoint.emit(0, 100, 41);
    assert_eq!(first_bytes(&frames), vec![2]);
    assert_eq!((size, limited), (25, false));
}

#[test]
fn second_call_sends_nothing() {
    let mut endpoint = Endpoint::new(100_000);
    endpoint.enqueue(&[1; 3000], SendMode::Resend);
    let (frames, _, limited) = endpoint.emit(0, 100, 10_000);
    assert_eq!((frames.len(), limited), (3, false));
    let (frames, size, limited) = endpoint.emit(0, 100, 10_000);
    assert_eq!((frames.len(), size, limited), (0, 0, false));
    assert_eq!(endpoint.resends.len(), 3);
    assert_eq!(endpoint.log.len(), 3);
}

#[test]
fn packets_wait_for_room_in_transit() {
    let mut endpoint = Endpoint::new(10);
    endpoint.enqueue(&[1; 6], SendMode::Unreliable);
    endpoint.enqueue(&[2; 6], SendMode::Unreliable);
    let (frames, _, limited) = endpoint.emit(0, 100, 10_000);
    assert_eq!(first_bytes(&frames), vec![1]);
    assert!(!limited);

    // An ID that is not in transit changes nothing.
    endpoint.sender.acknowledge(2);
    assert_eq!(endpoint.emit(0, 100, 10_000).0.len(), 0);

    endpoint.sender.acknowledge(1);
    let (frames, ..) = endpoint.emit(0, 100, 10_000);
    assert_eq!(first_bytes(&frames), vec![2]);
    assert_eq!(datagrams(&frames[0])[0].sequence_id, 1);
    assert_eq!(endpoint.sender.next_id(), 2);
}

#[test]
fn packet_window_is_limited() {
    let mut endpoint = Endpoint::new(100_000);
    let window = MAX_PACKET_TRANSFER_WINDOW_SIZE as usize;
    for _ in 0..window + 1 {
        endpoint.enqueue(&[1], SendMode::Unreliable);
    }
    let (frames, ..) = endpoint.emit(0, 100, 1_000_000);
    assert_eq!(first_bytes(&frames).len(), window);
    assert_eq!(endpoint.emit(0, 100, 1_000_000).0.len(), 0);
    endpoint.sender.acknowledge(1);
    let (frames, ..) = endpoint.emit(0, 100, 1_000_000);
    assert_eq!(first_bytes(&frames).len(), 1);
}

#[test]
fn empty_packet_is_one_empty_datagram() {
    let mut endpoint = Endpoint::new(100_000);
    endpoint.enqueue(&[], SendMode::Unreliable);
    let (frames, size, limited) = endpoint.emit(0, 100, 10_000);
    assert_eq!((frames.len(), size, limited), (1, 23, false));
    assert_eq!(datagrams(&frames[0]), vec![plain_datagram(0, 0)]);
}

#[test]
fn fragments_hold_the_packet() {
    let packet: Vec<u8> = (0..2 * MAX_FRAGMENT_SIZE + 1).map(|i| (i / 7) as u8).collect();
    let mut endpoint = Endpoint::new(100_000);
    endpoint.sender.enqueue_packet(packet.clone().into_boxed_slice(), 3, SendMode::Resend);
    let (frames, ..) = endpoint.emit(0, 100, 10_000);
    let mut joined: Vec<u8> = Vec::new();
    let mut ids: Vec<FragmentId> = Vec::new();
    for frame in &frames {
        for datagram in datagrams(frame) {
            assert_eq!(datagram.channel_id, 3);
            ids.push(datagram.fragment_id);
            joined.extend_from_slice(&datagram.data);
        }
    }
    assert_eq!(joined, packet);
    assert_eq!(
        ids,
        vec![
            FragmentId { id: 0, last: 2 },
            FragmentId { id: 1, last: 2 },
            FragmentId { id: 2, last: 2 },
        ]
    );
}

#[test]
fn both_nonces_come() {
    let mut endpoint = Endpoint::new(1_000_000);
    for _ in 0..128 {
        endpoint.enqueue(&[1; MAX_FRAGMENT_SIZE], SendMode::Unreliable);
    }
    let (frames, ..) = endpoint.emit(0, 100, 1_000_000);
    assert_eq!(frames.len(), 128);
    assert!(frames.iter().any(|frame| frame.nonce));
    assert!(frames.iter().any(|frame| !frame.nonce));
    for frame in &frames {
        assert_eq!(frame.data[5], if frame.nonce { 1 } else { 0 });
    }
}

#[test]
fn data_frames_leave_acks() {
    let mut endpoint = Endpoint::new(100_000);
    let ack = FrameAck { base_id: 1, bitfield: 2, nonce: true };
    endpoint.acks.push(ack);
    endpoint.enqueue(&[1; 10], SendMode::Resend);
    endpoint.emit(0, 100, 10_000);
    assert_eq!(endpoint.acks.peek(), Some(ack));
}

#[test]
fn assembled_frames_are_exact() {
    let mut endpoint = Endpoint::new(100_000);
    endpoint.sender.enqueue_packet(vec![9, 8].into_boxed_slice(), 2, SendMode::Resend);
    let mut emitter = FrameEmitter::new(
        &mut endpoint.sender,
        &mut endpoint.queue,
        &mut endpoint.resends,
        &mut endpoint.log,
        &mut endpoint.acks,
    );
    let (mut frames, size, limited) = emitter.assemble_data_frames(0, 100, 10_000);
    assert_eq!((frames.len(), size, limited), (1, 25, false));
    let builder = frames.pop_front().unwrap();
    assert_eq!(builder.sequence_id(), 0);
    assert_eq!(builder.size(), 25);
    assert_eq!(builder.count(), 1);
    let expected: Vec<u8> = vec![
        1, 0, 0, 0, 0, 1, 0, 1, 0, 0, 0, 0, 2, 0, 0, 0, 0, 0, 0, 0, 0, 0, 2, 9, 8,
    ];
    assert_eq!(builder.build(true).to_vec(), expected);
}

#[test]
fn logged_keys_are_those_of_the_frame() {
    let mut endpoint = Endpoint::new(100_000);
    endpoint.enqueue(&[1; 10], SendMode::Resend);
    endpoint.emit(0, 100, 10_000);
    endpoint.enqueue(&[2; 10], SendMode::Resend);
    endpoint.enqueue(&[3; 10], SendMode::Unreliable);
    endpoint.enqueue(&[4; 10], SendMode::Resend);
    let (frames, ..) = endpoint.emit(100, 100, 10_000);
    assert_eq!(first_bytes(&frames), vec![1, 2, 3, 4]);
    // Keys are given out from zero; a datagram that is sent again keeps its key.
    assert_eq!(endpoint.log.get(0).unwrap().persistent_datagrams.to_vec(), vec![0]);
    assert_eq!(endpoint.log.get(1).unwrap().persistent_datagrams.to_vec(), vec![0, 1, 2]);
    let mut held: Vec<(u64, u8)> = Vec::new();
    while let Some(entry) = endpoint.resends.pop() {
        let persistent = entry.persistent_datagram;
        held.push((persistent.key, persistent.datagram.data[0]));
    }
    assert_eq!(held, vec![(1, 2), (2, 4), (0, 1)]);
}

#[test]
fn unsent_datagrams_stay_as_they_were() {
    let mut endpoint = Endpoint::new(100_000);
    for tag in 1..4 {
        endpoint.enqueue(&[tag; 100], SendMode::Resend);
        endpoint.emit(tag as u64, 100, 10_000);
    }
    endpoint.enqueue(&[4; 1], SendMode::Resend);
    // All three are due, and there is room for the first one only.
    let (frames, _, limited) = endpoint.emit(200, 100, 200);
    assert_eq!(first_bytes(&frames), vec![1]);
    assert!(limited);
    let mut held: Vec<(u8, u64, u8)> = Vec::new();
    while let Some(entry) = endpoint.resends.pop() {
        let tag = entry.persistent_datagram.datagram.data[0];
        held.push((tag, entry.resend_time, entry.send_count));
    }
    assert_eq!(held, vec![(2, 102, 1), (3, 103, 1), (1, 400, 2)]);
}

#[test]
fn acknowledged_datagrams_are_forgotten_once_first() {
    let mut endpoint = Endpoint::new(100_000);
    for tag in 1..4 {
        endpoint.enqueue(&[tag; 10], SendMode::Resend);
        endpoint.emit(tag as u64, 100, 10_000);
    }
    // The second one is behind one that is not due yet.
    endpoint.resends.acknowledge(1);
    assert_eq!(endpoint.emit(50, 100, 10_000).0.len(), 0);
    assert_eq!(endpoint.resends.len(), 3);
    // Not due itself, but first in line.
    endpoint.resends.acknowledge(0);
    assert_eq!(endpoint.emit(50, 100, 10_000).0.len(), 0);
    assert_eq!(endpoint.resends.len(), 1);
}

#[test]
fn more_bytes_send_the_same_frames_first() {
    let mut sent: Vec<Vec<u8>> = Vec::new();
    for max in [1000, 1300, 2000, 5000, 6000] {
        let mut endpoint = Endpoint::new(100_000);
        for tag in 0..10 {
            endpoint.enqueue(&[tag; 400], SendMode::Unreliable);
        }
        let (frames, size, limited) = endpoint.emit(0, 100, max);
        assert!(size <= max);
        assert_eq!(limited, max < 4182);
        sent.push(first_bytes(&frames));
    }
    assert_eq!(sent[0], vec![0, 1]);
    assert_eq!(sent[1], vec![0, 1, 2]);
    assert_eq!(sent[2], vec![0, 1, 2, 3]);
    assert_eq!(sent[3], (0..10).collect::<Vec<u8>>());
    assert_eq!(sent[4], sent[3]);
}
