use daten_meister::datagram_queue;
use daten_meister::datagram_queue::DatagramQueue;
use daten_meister::frame::Datagram;
use daten_meister::frame::FragmentId;
use daten_meister::frame::FrameAck;
use daten_meister::frame_ack_queue::FrameAckQueue;
use daten_meister::frame_log;
use daten_meister::frame_log::FrameLog;
use daten_meister::packet_sender::PacketSender;
use daten_meister::resend_queue;
use daten_meister::resend_queue::PersistentDatagram;
use daten_meister::resend_queue::ResendQueue;
use daten_meister::SendMode;

fn datagram(tag: u8) -> Datagram {
    Datagram {
        sequence_id: 0,
        channel_id: 0,
        window_parent_lead: 0,
        channel_parent_lead: 0,
        fragment_id: FragmentId { id: 0, last: 0 },
        data: vec![tag].into_boxed_slice(),
    }
}

fn push_resend(queue: &mut ResendQueue, tag: u8, time: u64) -> u64 {
    let key = queue.fresh_key();
    queue.push(resend_queue::Entry::new(PersistentDatagram::new(key, datagram(tag)), time, 1));
    key
}

fn log_entry(send_time_ms: u64, keys: &[u64]) -> frame_log::Entry {
    frame_log::Entry { send_time_ms, persistent_datagrams: keys.into() }
}

#[test]
fn resend_queue_is_ordered_by_time() {
    let mut queue = ResendQueue::new();
    for (tag, time) in [(1, 30), (2, 10), (3, 20), (4, 10), (5, 30)] {
        push_resend(&mut queue, tag, time);
    }
    assert_eq!(queue.len(), 5);
    assert_eq!(queue.peek().unwrap().resend_time, 10);
    let mut tags: Vec<u8> = Vec::new();
    while let Some(entry) = queue.pop() {
        tags.push(entry.persistent_datagram.datagram.data[0]);
    }
    assert_eq!(tags, vec![2, 4, 3, 1, 5]);
    assert!(queue.peek().is_none());
}

#[test]
fn acknowledging_marks_one_datagram() {
    let mut queue = ResendQueue::new();
    push_resend(&mut queue, 1, 10);
    let key = push_resend(&mut queue, 2, 20);
    push_resend(&mut queue, 3, 30);
    queue.acknowledge(key);
    queue.acknowledge(1000);
    let mut marks: Vec<bool> = Vec::new();
    while let Some(entry) = queue.pop() {
        marks.push(entry.persistent_datagram.acknowledged);
    }
    assert_eq!(marks, vec![false, true, false]);
}

#[test]
fn frame_log_is_a_window() {
    let mut log = FrameLog::new(u32::MAX - 1);
    log.push(u32::MAX - 1, log_entry(1, &[10]));
    log.push(u32::MAX, log_entry(2, &[]));
    log.push(0, log_entry(3, &[11, 12]));
    assert_eq!(log.len(), 3);
    assert_eq!(log.next_id(), 1);
    assert_eq!(log.get(0), Some(&log_entry(3, &[11, 12])));
    assert_eq!(log.get(1), None);
    assert_eq!(log.get(u32::MAX - 2), None);
    assert_eq!(log.pop(), Some(log_entry(1, &[10])));
    assert_eq!(log.get(u32::MAX - 1), None);
    assert_eq!(log.get(u32::MAX), Some(&log_entry(2, &[])));
    assert_eq!(log.next_id(), 1);
    log.pop();
    log.pop();
    assert_eq!(log.pop(), None);
    assert_eq!(log.next_id(), 1);
}

#[test]
fn datagram_queue_is_first_in_first_out() {
    let mut queue = DatagramQueue::new();
    assert!(queue.is_empty());
    queue.push_back(datagram_queue::Entry { datagram: datagram(1), resend: true });
    queue.push_back(datagram_queue::Entry { datagram: datagram(2), resend: false });
    assert_eq!(queue.len(), 2);
    assert!(!queue.is_empty());
    assert_eq!(queue.front().unwrap().datagram, datagram(1));
    let first = queue.pop_front().unwrap();
    assert_eq!((first.datagram, first.resend), (datagram(1), true));
    let second = queue.pop_front().unwrap();
    assert_eq!((second.datagram, second.resend), (datagram(2), false));
    assert!(queue.pop_front().is_none());
    assert!(queue.front().is_none());
}

#[test]
fn frame_ack_queue_is_first_in_first_out() {
    let first = FrameAck { base_id: 1, bitfield: 2, nonce: true };
    let second = FrameAck { base_id: 3, bitfield: 4, nonce: false };
    let mut queue = FrameAckQueue::new();
    assert_eq!(queue.peek(), None);
    queue.push(first);
    queue.push(second);
    assert_eq!(queue.peek(), Some(first));
    assert_eq!(queue.pop(), Some(first));
    assert_eq!(queue.pop(), Some(second));
    assert_eq!(queue.pop(), None);
}

#[test]
fn packet_ids_wrap() {
    let mut sender = PacketSender::new(1, 1000, u32::MAX);
    let mut queue = DatagramQueue::new();
    assert_eq!(sender.next_id(), u32::MAX);
    for tag in 1..4 {
        sender.enqueue_packet(vec![tag].into_boxed_slice(), 0, SendMode::Resend);
    }
    // One packet at a time.
    sender.emit_packet_datagrams(&mut queue);
    assert_eq!(queue.len(), 1);
    sender.emit_packet_datagrams(&mut queue);
    sender.emit_packet_datagrams(&mut queue);
    sender.emit_packet_datagrams(&mut queue);
    assert_eq!(queue.len(), 3);
    assert_eq!(sender.next_id(), 2);
    for (tag, id) in [(1, u32::MAX), (2, 0), (3, 1)] {
        let entry = queue.pop_front().unwrap();
        assert_eq!(entry.datagram.sequence_id, id);
        assert_eq!(entry.datagram.data[0], tag);
        assert!(entry.resend);
    }
    sender.acknowledge(1);
    assert_eq!(sender.next_id(), 2);
}

#[test]
fn packet_larger_than_the_limit_waits() {
    let mut sender = PacketSender::new(1, 3, 0);
    let mut queue = DatagramQueue::new();
    sender.enqueue_packet(vec![1; 4].into_boxed_slice(), 0, SendMode::Unreliable);
    sender.enqueue_packet(vec![2; 1].into_boxed_slice(), 0, SendMode::Unreliable);
    sender.emit_packet_datagrams(&mut queue);
    assert!(queue.is_empty());
}
