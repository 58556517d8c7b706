use daten_meister::datagram_queue::DatagramQueue;
use daten_meister::emit_frame::FrameEmitter;
use daten_meister::frame::Datagram;
use daten_meister::frame::FragmentId;
use daten_meister::frame::Frame;
use daten_meister::frame_ack_queue::FrameAckQueue;
use daten_meister::frame_log::FrameLog;
use daten_meister::packet_sender::PacketSender;
use daten_meister::resend_queue::ResendQueue;
use daten_meister::SendMode;
use daten_meister::MAX_FRAGMENT_SIZE;
use daten_meister::MAX_TRANSFER_UNIT;
use std::collections::VecDeque;

#[derive(Debug)]
struct DataFrame {
    data: Box<[u8]>,
    id: u32,
    nonce: bool,
}

fn test_emit_data_frames(
    ps: &mut PacketSender,
    dq: &mut DatagramQueue,
    rq: &mut ResendQueue,
    fl: &mut FrameLog,
    faq: &mut FrameAckQueue,
    now_ms: u64,
    rtt_ms: u64,
    max_send_size: usize,
) -> (VecDeque<DataFrame>, usize, bool) {
    let mut dfe = FrameEmitter::new(ps, dq, rq, fl, faq);
    let mut emitted = VecDeque::new();
    let (total_size, send_size_limited) =
        dfe.emit_data_frames(now_ms, rtt_ms, max_send_size, |data, id, nonce| {
            emitted.push_back(DataFrame { data, id, nonce });
        });
    (emitted, total_size, send_size_limited)
}

fn test_data_frame(frame: &DataFrame, sequence_id: u32, datagrams: Vec<Datagram>) {
    assert_eq!(frame.id, sequence_id);

    match Frame::read(&frame.data).unwrap() {
        Frame::DataFrame(read_data_frame) => {
            assert_eq!(read_data_frame.sequence_id, sequence_id);
            assert_eq!(read_data_frame.nonce, frame.nonce);
            assert_eq!(read_data_frame.datagrams, datagrams);
        }
        _ => panic!("Expected DataFrame"),
    }
}

#[test]
fn basic() {
    let now_ms = 0;
    let rtt_ms = 100;

    let ref mut ps = PacketSender::new(1, 10000, 0);
    let ref mut dq = DatagramQueue::new();
    let ref mut rq = ResendQueue::new();
    let ref mut fl = FrameLog::new(0);
    let ref mut faq = FrameAckQueue::new();

    ps.enqueue_packet(vec![0, 0, 0].into_boxed_slice(), 0, SendMode::Unreliable);

    let (frames, ..) = test_emit_data_frames(ps, dq, rq, fl, faq, now_ms, rtt_ms, 10000);

    let dg0 = Datagram {
        sequence_id: 0,
        channel_id: 0,
        window_parent_lead: 0,
        channel_parent_lead: 0,
        fragment_id: FragmentId { id: 0, last: 0 },
        data: vec![0, 0, 0].into_boxed_slice(),
    };

    test_data_frame(&frames[0], 0, vec![dg0]);
    assert_eq!(frames.len(), 1);
}

#[test]
fn max_frame_size() {
    let now_ms = 0;
    let rtt_ms = 100;

    let ref mut ps = PacketSender::new(1, 10000, 0);
    let ref mut dq = DatagramQueue::new();
    let ref mut rq = ResendQueue::new();
    let ref mut fl = FrameLog::new(0);
    let ref mut faq = FrameAckQueue::new();

    let packet_data = (0..2 * MAX_FRAGMENT_SIZE)
        .map(|i| i as u8)
        .collect::<Vec<u8>>()
        .into_boxed_slice();
    ps.enqueue_packet(packet_data.clone(), 0, SendMode::Unreliable);

    let (frames, ..) = test_emit_data_frames(ps, dq, rq, fl, faq, now_ms, rtt_ms, 10000);

    let dg0 = Datagram {
        sequence_id: 0,
        channel_id: 0,
        window_parent_lead: 0,
        channel_parent_lead: 0,
        fragment_id: FragmentId { id: 0, last: 1 },
        data: packet_data[..MAX_FRAGMENT_SIZE].into(),
    };

    let dg1 = Datagram {
        sequence_id: 0,
        channel_id: 0,
        window_parent_lead: 0,
        channel_parent_lead: 0,
        fragment_id: FragmentId { id: 1, last: 1 },
        data: packet_data[MAX_FRAGMENT_SIZE..].into(),
    };

    assert_eq!(frames.len(), 2);
    test_data_frame(&frames[0], 0, vec![dg0]);
    test_data_frame(&frames[1], 1, vec![dg1]);

    assert_eq!(frames[0].data.len(), MAX_TRANSFER_UNIT);
    assert_eq!(frames[1].data.len(), MAX_TRANSFER_UNIT);
}

#[test]
fn size_limited_flag() {
    let now_ms = 0;
    let rtt_ms = 100;

    let ref mut ps = PacketSender::new(1, 10000, 0);
    let ref mut dq = DatagramQueue::new();
    let ref mut rq = ResendQueue::new();
    let ref mut fl = FrameLog::new(0);
    let ref mut faq = FrameAckQueue::new();

    // No data
    let (frames, size, size_limit) =
        test_emit_data_frames(ps, dq, rq, fl, faq, now_ms, rtt_ms, 0);
    assert_eq!(frames.len(), 0);
    assert_eq!(size, 0);
    assert_eq!(size_limit, false);

    let (frames, size, size_limit) =
        test_emit_data_frames(ps, dq, rq, fl, faq, now_ms, rtt_ms, MAX_TRANSFER_UNIT);
    assert_eq!(frames.len(), 0);
    assert_eq!(size, 0);
    assert_eq!(size_limit, false);

    let p0 = (0..2 * MAX_FRAGMENT_SIZE)
        .map(|i| i as u8)
        .collect::<Vec<u8>>()
        .into_boxed_slice();
    ps.enqueue_packet(p0.clone(), 0, SendMode::Resend);

    // Send path
    let (frames, size, size_limit) =
        test_emit_data_frames(ps, dq, rq, fl, faq, now_ms, rtt_ms, MAX_TRANSFER_UNIT - 1);
    assert_eq!(frames.len(), 0);
    assert_eq!(size, 0);
    assert_eq!(size_limit, true);

    let (frames, size, size_limit) =
        test_emit_data_frames(ps, dq, rq, fl, faq, now_ms, rtt_ms, MAX_TRANSFER_UNIT);
    assert_eq!(frames.len(), 1);
    assert_eq!(size, MAX_TRANSFER_UNIT);
    assert_eq!(size_limit, true);

    let (frames, size, size_limit) =
        test_emit_data_frames(ps, dq, rq, fl, faq, now_ms, rtt_ms, MAX_TRANSFER_UNIT);
    assert_eq!(frames.len(), 1);
    assert_eq!(size, MAX_TRANSFER_UNIT);
    assert_eq!(size_limit, false);

    let (frames, size, size_limit) =
        test_emit_data_frames(ps, dq, rq, fl, faq, now_ms, rtt_ms, MAX_TRANSFER_UNIT);
    assert_eq!(frames.len(), 0);
    assert_eq!(size, 0);
    assert_eq!(size_limit, false);

    // Resend path
    let (frames, size, size_limit) = test_emit_data_frames(
        ps,
        dq,
        rq,
        fl,
        faq,
        now_ms + rtt_ms,
        rtt_ms,
        MAX_TRANSFER_UNIT - 1,
    );
    assert_eq!(frames.len(), 0);
    assert_eq!(size, 0);
    assert_eq!(size_limit, true);

    let (frames, size, size_limit) =
        test_emit_data_frames(ps, dq, rq, fl, faq, now_ms + rtt_ms, rtt_ms, MAX_TRANSFER_UNIT);
    assert_eq!(frames.len(), 1);
    assert_eq!(size, MAX_TRANSFER_UNIT);
    assert_eq!(size_limit, true);

    let (frames, size, size_limit) =
        test_emit_data_frames(ps, dq, rq, fl, faq, now_ms + rtt_ms, rtt_ms, MAX_TRANSFER_UNIT);
    assert_eq!(frames.len(), 1);
    assert_eq!(size, MAX_TRANSFER_UNIT);
    assert_eq!(size_limit, false);

    let (frames, size, size_limit) =
        test_emit_data_frames(ps, dq, rq, fl, faq, now_ms + rtt_ms, rtt_ms, MAX_TRANSFER_UNIT);
    assert_eq!(frames.len(), 0);
    assert_eq!(size, 0);
    assert_eq!(size_limit, false);
}

#[test]
fn resend_timing() {
    let rtt_ms = 100;

    let ref mut ps = PacketSender::new(1, 10000, 0);
    let ref mut dq = DatagramQueue::new();
    let ref mut rq = ResendQueue::new();
    let ref mut fl = FrameLog::new(0);
    let ref mut faq = FrameAckQueue::new();

    let p0 = (0..400).map(|i| i as u8).collect::<Vec<u8>>().into_boxed_slice();
    ps.enqueue_packet(p0.clone(), 0, SendMode::Resend);

    let (frames, ..) = test_emit_data_frames(ps, dq, rq, fl, faq, 0, rtt_ms, MAX_TRANSFER_UNIT);
    assert_eq!(frames.len(), 1);

    let (frames, ..) = test_emit_data_frames(ps, dq, rq, fl, faq, 1, rtt_ms, MAX_TRANSFER_UNIT);
    assert_eq!(frames.len(), 0);

    let resend_times =
        [rtt_ms, 3 * rtt_ms, 7 * rtt_ms, 11 * rtt_ms, 15 * rtt_ms, 19 * rtt_ms, 23 * rtt_ms];

    for time_ms in resend_times.iter() {
        let (frames, ..) =
            test_emit_data_frames(ps, dq, rq, fl, faq, *time_ms - 1, rtt_ms, MAX_TRANSFER_UNIT);
        assert_eq!(frames.len(), 0);

        let (frames, ..) =
            test_emit_data_frames(ps, dq, rq, fl, faq, *time_ms, rtt_ms, MAX_TRANSFER_UNIT);
        assert_eq!(frames.len(), 1);

        let (frames, ..) =
            test_emit_data_frames(ps, dq, rq, fl, faq, *time_ms + 1, rtt_ms, MAX_TRANSFER_UNIT);
        assert_eq!(frames.len(), 0);
    }
}
