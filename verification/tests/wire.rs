use daten_meister::frame::serial::AckFrameBuilder;
use daten_meister::frame::serial::DataFrameBuilder;
use daten_meister::frame::AckFrame;
use daten_meister::frame::DataFrame;
use daten_meister::frame::Datagram;
use daten_meister::frame::FragmentId;
use daten_meister::frame::Frame;
use daten_meister::frame::FrameAck;
use daten_meister::frame::SyncFrame;

fn datagram(data: &[u8]) -> Datagram {
    Datagram {
        sequence_id: 0x0102_0304,
        channel_id: 5,
        window_parent_lead: 0x0607,
        channel_parent_lead: 0x0809,
        fragment_id: FragmentId { id: 0x0a0b, last: 0x0c0d },
        data: data.into(),
    }
}

fn data_frame() -> Frame {
    Frame::DataFrame(DataFrame {
        sequence_id: 0xfffe_fdfc,
        nonce: true,
        datagrams: vec![datagram(&[1, 2, 3]), datagram(&[])],
    })
}

fn ack_frame() -> Frame {
    Frame::AckFrame(AckFrame {
        receiver_base_id: 17,
        frame_acks: vec![
            FrameAck { base_id: 1, bitfield: 0x8000_0001, nonce: true },
            FrameAck { base_id: u32::MAX, bitfield: 0, nonce: false },
        ],
    })
}

#[test]
fn data_frame_layout() {
    let expected: Vec<u8> = vec![
        1, 0xff, 0xfe, 0xfd, 0xfc, 1, 0, 2, // frame
        1, 2, 3, 4, 5, 6, 7, 8, 9, 10, 11, 12, 13, 0, 3, 1, 2, 3, // first datagram
        1, 2, 3, 4, 5, 6, 7, 8, 9, 10, 11, 12, 13, 0, 0, // second datagram
    ];
    assert_eq!(data_frame().write().to_vec(), expected);
}

#[test]
fn frames_are_read_back() {
    let frames = vec![
        data_frame(),
        ack_frame(),
        Frame::SyncFrame(SyncFrame { sequence_id: 0x8000_0000, nonce: false, sender_next_id: 3 }),
        Frame::DataFrame(DataFrame { sequence_id: 0, nonce: false, datagrams: Vec::new() }),
        Frame::AckFrame(AckFrame { receiver_base_id: 0, frame_acks: Vec::new() }),
    ];
    for frame in frames {
        let data = frame.write();
        assert_eq!(Frame::read(&data), Some(frame));
    }
}

#[test]
fn large_counts_are_read_back() {
    let frame_acks: Vec<FrameAck> = (0..u16::MAX as u32)
        .map(|base_id| FrameAck { base_id, bitfield: !base_id, nonce: false })
        .collect();
    let frame = Frame::AckFrame(AckFrame { receiver_base_id: 1, frame_acks });
    let data = frame.write();
    assert_eq!(data.len(), 7 + 9 * 65535);
    assert_eq!(Frame::read(&data), Some(frame));

    let frame = Frame::DataFrame(DataFrame {
        sequence_id: 1,
        nonce: true,
        datagrams: vec![datagram(&[7; 65535])],
    });
    let data = frame.write();
    assert_eq!(data.len(), 8 + 15 + 65535);
    assert_eq!(Frame::read(&data), Some(frame));
}

#[test]
fn incomplete_frames_are_rejected() {
    for frame in vec![data_frame(), ack_frame()] {
        let data = frame.write();
        for len in 0..data.len() {
            assert_eq!(Frame::read(&data[..len]), None);
        }
    }
    let sync = Frame::SyncFrame(SyncFrame { sequence_id: 1, nonce: true, sender_next_id: 2 });
    let data = sync.write();
    for len in 0..data.len() {
        assert_eq!(Frame::read(&data[..len]), None);
    }
}

#[test]
fn bytes_behind_a_frame_are_rejected() {
    let sync = Frame::SyncFrame(SyncFrame { sequence_id: 1, nonce: true, sender_next_id: 2 });
    for frame in vec![data_frame(), ack_frame(), sync] {
        let mut data = frame.write().to_vec();
        data.push(0);
        assert_eq!(Frame::read(&data), None);
    }
}

#[test]
fn unknown_tags_are_rejected() {
    for tag in [0, 4, 255] {
        let mut data = data_frame().write();
        data[0] = tag;
        assert_eq!(Frame::read(&data), None);
    }
}

#[test]
fn nonces_other_than_zero_and_one_are_rejected() {
    let mut data = data_frame().write();
    data[5] = 2;
    assert_eq!(Frame::read(&data), None);
    let sync = Frame::SyncFrame(SyncFrame { sequence_id: 1, nonce: true, sender_next_id: 2 });
    let mut data = sync.write();
    data[5] = 2;
    assert_eq!(Frame::read(&data), None);
    let mut data = ack_frame().write();
    data[15] = 2;
    assert_eq!(Frame::read(&data), None);
}

#[test]
fn data_frame_builder_counts() {
    let mut builder = DataFrameBuilder::new(3);
    assert_eq!((builder.size(), builder.count()), (8, 0));
    let first = datagram(&[1, 2, 3]);
    assert_eq!(DataFrameBuilder::encoded_size(&first), 18);
    builder.add(&first);
    assert_eq!((builder.size(), builder.count()), (26, 1));
    builder.add(&datagram(&[]));
    assert_eq!((builder.size(), builder.count()), (41, 2));
    assert_eq!(builder.sequence_id(), 3);
    let frame = DataFrame {
        sequence_id: 3,
        nonce: false,
        datagrams: vec![first, datagram(&[])],
    };
    assert_eq!(Frame::read(&builder.build(false)), Some(Frame::DataFrame(frame)));
}

#[test]
fn ack_frame_builder_counts() {
    let ack = FrameAck { base_id: 1, bitfield: 2, nonce: true };
    let mut builder = AckFrameBuilder::new(9);
    assert_eq!((builder.size(), builder.count()), (7, 0));
    assert_eq!(AckFrameBuilder::encoded_size(&ack), 9);
    builder.add(&ack);
    assert_eq!((builder.size(), builder.count()), (16, 1));
    let data = builder.build();
    assert_eq!(data.to_vec(), vec![3, 0, 0, 0, 9, 0, 1, 0, 0, 0, 1, 0, 0, 0, 2, 1]);
}
