//! Bytes and the frames that they encode: each encodable frame is read back from its bytes, and
//! from no others.
use super::wire::ack_frame_bytes;
use super::wire::bool_byte;
use super::wire::data_frame_bytes;
use super::wire::datagram_bytes;
use super::wire::datagram_size;
use super::wire::datagrams_bytes;
use super::wire::datagrams_encodable;
use super::wire::frame_ack_bytes;
use super::wire::frame_acks_bytes;
use super::wire::frame_bytes;
use super::wire::frame_encodable;
use super::wire::lemma_u16_at;
use super::wire::lemma_u32_at;
use super::wire::sync_frame_bytes;
use super::wire::u16_at;
use super::wire::u16_bytes;
use super::wire::u32_at;
use super::wire::u32_bytes;
use super::wire::ACK_FRAME_HEADER_SIZE;
use super::wire::ACK_FRAME_TAG;
use super::wire::DATAGRAM_HEADER_SIZE;
use super::wire::DATA_FRAME_HEADER_SIZE;
use super::wire::DATA_FRAME_TAG;
use super::wire::FRAME_ACK_SIZE;
use super::wire::SYNC_FRAME_SIZE;
use super::wire::SYNC_FRAME_TAG;
use super::DatagramView;
use super::FragmentId;
use super::FrameAck;
use super::FrameView;
use vstd::prelude::*;

verus! {

/// Whether `bytes` begin with a whole datagram.
pub open spec fn starts_with_datagram(bytes: Seq<u8>) -> bool {
    &&& DATAGRAM_HEADER_SIZE <= bytes.len()
    &&& DATAGRAM_HEADER_SIZE + u16_at(bytes, 13) <= bytes.len()
}

/// The datagram with which `bytes` begin.
pub open spec fn first_datagram(bytes: Seq<u8>) -> DatagramView {
    DatagramView {
        sequence_id: u32_at(bytes, 0),
        channel_id: bytes[4],
        window_parent_lead: u16_at(bytes, 5),
        channel_parent_lead: u16_at(bytes, 7),
        fragment_id: FragmentId { id: u16_at(bytes, 9), last: u16_at(bytes, 11) },
        data: bytes.subrange(15, 15 + u16_at(bytes, 13)),
    }
}

/// The `count` datagrams that `bytes` encode, if they encode that many and nothing else.
pub open spec fn decode_datagrams(bytes: Seq<u8>, count: nat) -> Option<Seq<DatagramView>>
    decreases count,
{
    if count == 0 {
        if bytes.len() == 0 {
            Some(Seq::empty())
        } else {
            None
        }
    } else if !starts_with_datagram(bytes) {
        None
    } else {
        let first = first_datagram(bytes);
        match decode_datagrams(bytes.skip(datagram_size(first)), (count - 1) as nat) {
            Some(rest) => Some(seq![first] + rest),
            None => None,
        }
    }
}

/// Whether `bytes` begin with a whole acknowledgement.
pub open spec fn starts_with_ack(bytes: Seq<u8>) -> bool {
    &&& FRAME_ACK_SIZE <= bytes.len()
    &&& bytes[8] <= 1
}

/// The acknowledgement with which `bytes` begin.
pub open spec fn first_ack(bytes: Seq<u8>) -> FrameAck {
    FrameAck { base_id: u32_at(bytes, 0), bitfield: u32_at(bytes, 4), nonce: bytes[8] == 1 }
}

/// The `count` acknowledgements that `bytes` encode, if they encode that many and nothing else.
pub open spec fn decode_acks(bytes: Seq<u8>, count: nat) -> Option<Seq<FrameAck>>
    decreases count,
{
    if count == 0 {
        if bytes.len() == 0 {
            Some(Seq::empty())
        } else {
            None
        }
    } else if !starts_with_ack(bytes) {
        None
    } else {
        match decode_acks(bytes.skip(FRAME_ACK_SIZE as int), (count - 1) as nat) {
            Some(rest) => Some(seq![first_ack(bytes)] + rest),
            None => None,
        }
    }
}

/// The frame that `bytes` encode, if they encode one.
pub open spec fn decode_frame(bytes: Seq<u8>) -> Option<FrameView> {
    if bytes.len() == 0 {
        None
    } else if bytes[0] == DATA_FRAME_TAG {
        if bytes.len() < DATA_FRAME_HEADER_SIZE || bytes[5] > 1 {
            None
        } else {
            match decode_datagrams(
                bytes.skip(DATA_FRAME_HEADER_SIZE as int),
                u16_at(bytes, 6) as nat,
            ) {
                Some(datagrams) => Some(
                    FrameView::Data {
                        sequence_id: u32_at(bytes, 1),
                        nonce: bytes[5] == 1,
                        datagrams,
                    },
                ),
                None => None,
            }
        }
    } else if bytes[0] == SYNC_FRAME_TAG {
        if bytes.len() != SYNC_FRAME_SIZE || bytes[5] > 1 {
            None
        } else {
            Some(
                FrameView::Sync {
                    sequence_id: u32_at(bytes, 1),
                    nonce: bytes[5] == 1,
                    sender_next_id: u32_at(bytes, 6),
                },
            )
        }
    } else if bytes[0] == ACK_FRAME_TAG {
        if bytes.len() < ACK_FRAME_HEADER_SIZE {
            None
        } else {
            match decode_acks(bytes.skip(ACK_FRAME_HEADER_SIZE as int), u16_at(bytes, 5) as nat) {
                Some(frame_acks) => Some(
                    FrameView::Ack { receiver_base_id: u32_at(bytes, 1), frame_acks },
                ),
                None => None,
            }
        }
    } else {
        None
    }
}

proof fn lemma_datagram_decodes(datagram: DatagramView, rest: Seq<u8>)
    requires
        datagram.data.len() <= u16::MAX,
    ensures
        starts_with_datagram(datagram_bytes(datagram) + rest),
        first_datagram(datagram_bytes(datagram) + rest) == datagram,
        (datagram_bytes(datagram) + rest).skip(datagram_size(datagram)) == rest,
{
    let bytes = datagram_bytes(datagram) + rest;
    assert(bytes.subrange(0, 4) =~= u32_bytes(datagram.sequence_id));
    lemma_u32_at(bytes, 0, datagram.sequence_id);
    assert(bytes.subrange(5, 7) =~= u16_bytes(datagram.window_parent_lead));
    lemma_u16_at(bytes, 5, datagram.window_parent_lead);
    assert(bytes.subrange(7, 9) =~= u16_bytes(datagram.channel_parent_lead));
    lemma_u16_at(bytes, 7, datagram.channel_parent_lead);
    assert(bytes.subrange(9, 11) =~= u16_bytes(datagram.fragment_id.id));
    lemma_u16_at(bytes, 9, datagram.fragment_id.id);
    assert(bytes.subrange(11, 13) =~= u16_bytes(datagram.fragment_id.last));
    lemma_u16_at(bytes, 11, datagram.fragment_id.last);
    assert(bytes.subrange(13, 15) =~= u16_bytes(datagram.data.len() as u16));
    lemma_u16_at(bytes, 13, datagram.data.len() as u16);
    assert(bytes.subrange(15, 15 + datagram.data.len() as int) =~= datagram.data);
    assert(bytes.skip(datagram_size(datagram)) =~= rest);
}

proof fn lemma_datagram_encodes(bytes: Seq<u8>)
    requires
        starts_with_datagram(bytes),
    ensures
        first_datagram(bytes).data.len() <= u16::MAX,
        bytes == datagram_bytes(first_datagram(bytes)) + bytes.skip(
            datagram_size(first_datagram(bytes)),
        ),
{
    let first = first_datagram(bytes);
    lemma_u32_at(bytes, 0, first.sequence_id);
    lemma_u16_at(bytes, 5, first.window_parent_lead);
    lemma_u16_at(bytes, 7, first.channel_parent_lead);
    lemma_u16_at(bytes, 9, first.fragment_id.id);
    lemma_u16_at(bytes, 11, first.fragment_id.last);
    lemma_u16_at(bytes, 13, first.data.len() as u16);
    let whole = bytes.subrange(0, 4) + seq![bytes[4]] + bytes.subrange(5, 7) + bytes.subrange(7, 9)
        + bytes.subrange(9, 11) + bytes.subrange(11, 13) + bytes.subrange(13, 15) + bytes.subrange(
        15,
        datagram_size(first),
    );
    assert(whole == datagram_bytes(first));
    assert(bytes =~= whole + bytes.skip(datagram_size(first)));
}

/// The bytes of a sequence of datagrams begin with those of the first one.
pub proof fn lemma_datagrams_bytes_first(first: DatagramView, rest: Seq<DatagramView>)
    ensures
        datagrams_bytes(seq![first] + rest) == datagram_bytes(first) + datagrams_bytes(rest),
    decreases rest.len(),
{
    let all = seq![first] + rest;
    if rest.len() == 0 {
        assert(all.drop_last() =~= Seq::empty());
        assert(all.last() == first);
        assert(datagrams_bytes(all.drop_last()) =~= Seq::<u8>::empty());
        assert(datagrams_bytes(rest) =~= Seq::<u8>::empty());
        assert(datagrams_bytes(all) =~= datagram_bytes(first) + datagrams_bytes(rest));
    } else {
        lemma_datagrams_bytes_first(first, rest.drop_last());
        assert(all.drop_last() =~= seq![first] + rest.drop_last());
        assert(all.last() == rest.last());
        assert(datagrams_bytes(all) =~= datagram_bytes(first) + datagrams_bytes(rest));
    }
}

proof fn lemma_datagrams_decode(datagrams: Seq<DatagramView>)
    requires
        datagrams_encodable(datagrams),
    ensures
        decode_datagrams(datagrams_bytes(datagrams), datagrams.len()) == Some(datagrams),
    decreases datagrams.len(),
{
    if datagrams.len() == 0 {
        assert(datagrams =~= Seq::empty());
    } else {
        let first = datagrams[0];
        let rest = datagrams.skip(1);
        assert(datagrams =~= seq![first] + rest);
        assert(datagrams_encodable(rest)) by {
            assert forall|i: int| 0 <= i < rest.len() implies (#[trigger] rest[i]).data.len()
                <= u16::MAX by {
                assert(rest[i] == datagrams[i + 1]);
            }
        }
        lemma_datagrams_bytes_first(first, rest);
        lemma_datagram_decodes(first, datagrams_bytes(rest));
        lemma_datagrams_decode(rest);
    }
}

proof fn lemma_datagrams_encode(bytes: Seq<u8>, count: nat)
    requires
        decode_datagrams(bytes, count) is Some,
    ensures
        ({
            let datagrams = decode_datagrams(bytes, count)->0;
            &&& datagrams.len() == count
            &&& datagrams_encodable(datagrams)
            &&& datagrams_bytes(datagrams) == bytes
        }),
    decreases count,
{
    if count == 0 {
        assert(bytes =~= Seq::empty());
    } else {
        let first = first_datagram(bytes);
        let tail = bytes.skip(datagram_size(first));
        let rest = decode_datagrams(tail, (count - 1) as nat)->0;
        lemma_datagram_encodes(bytes);
        lemma_datagrams_encode(tail, (count - 1) as nat);
        lemma_datagrams_bytes_first(first, rest);
        let datagrams = seq![first] + rest;
        assert forall|i: int| 0 <= i < datagrams.len() implies (#[trigger] datagrams[i]).data.len()
            <= u16::MAX by {
            if i > 0 {
                assert(datagrams[i] == rest[i - 1]);
            }
        }
    }
}

proof fn lemma_ack_decodes(ack: FrameAck, rest: Seq<u8>)
    ensures
        starts_with_ack(frame_ack_bytes(ack) + rest),
        first_ack(frame_ack_bytes(ack) + rest) == ack,
        (frame_ack_bytes(ack) + rest).skip(FRAME_ACK_SIZE as int) == rest,
{
    let bytes = frame_ack_bytes(ack) + rest;
    assert(bytes.subrange(0, 4) =~= u32_bytes(ack.base_id));
    lemma_u32_at(bytes, 0, ack.base_id);
    assert(bytes.subrange(4, 8) =~= u32_bytes(ack.bitfield));
    lemma_u32_at(bytes, 4, ack.bitfield);
    assert(bytes.skip(FRAME_ACK_SIZE as int) =~= rest);
}

proof fn lemma_ack_encodes(bytes: Seq<u8>)
    requires
        starts_with_ack(bytes),
    ensures
        bytes == frame_ack_bytes(first_ack(bytes)) + bytes.skip(FRAME_ACK_SIZE as int),
{
    let first = first_ack(bytes);
    lemma_u32_at(bytes, 0, first.base_id);
    lemma_u32_at(bytes, 4, first.bitfield);
    let whole = bytes.subrange(0, 4) + bytes.subrange(4, 8) + seq![bytes[8]];
    assert(whole == frame_ack_bytes(first));
    assert(bytes =~= whole + bytes.skip(FRAME_ACK_SIZE as int));
}

/// The bytes of a sequence of acknowledgements begin with those of the first one.
pub proof fn lemma_frame_acks_bytes_first(first: FrameAck, rest: Seq<FrameAck>)
    ensures
        frame_acks_bytes(seq![first] + rest) == frame_ack_bytes(first) + frame_acks_bytes(rest),
    decreases rest.len(),
{
    let all = seq![first] + rest;
    if rest.len() == 0 {
        assert(all.drop_last() =~= Seq::empty());
        assert(all.last() == first);
        assert(frame_acks_bytes(all.drop_last()) =~= Seq::<u8>::empty());
        assert(frame_acks_bytes(rest) =~= Seq::<u8>::empty());
        assert(frame_acks_bytes(all) =~= frame_ack_bytes(first) + frame_acks_bytes(rest));
    } else {
        lemma_frame_acks_bytes_first(first, rest.drop_last());
        assert(all.drop_last() =~= seq![first] + rest.drop_last());
        assert(all.last() == rest.last());
        assert(frame_acks_bytes(all) =~= frame_ack_bytes(first) + frame_acks_bytes(rest));
    }
}

proof fn lemma_acks_decode(acks: Seq<FrameAck>)
    ensures
        decode_acks(frame_acks_bytes(acks), acks.len()) == Some(acks),
    decreases acks.len(),
{
    if acks.len() == 0 {
        assert(acks =~= Seq::empty());
    } else {
        let first = acks[0];
        let rest = acks.skip(1);
        assert(acks =~= seq![first] + rest);
        lemma_frame_acks_bytes_first(first, rest);
        lemma_ack_decodes(first, frame_acks_bytes(rest));
        lemma_acks_decode(rest);
    }
}

proof fn lemma_acks_encode(bytes: Seq<u8>, count: nat)
    requires
        decode_acks(bytes, count) is Some,
    ensures
        ({
            let acks = decode_acks(bytes, count)->0;
            &&& acks.len() == count
            &&& frame_acks_bytes(acks) == bytes
        }),
    decreases count,
{
    if count == 0 {
        assert(bytes =~= Seq::empty());
    } else {
        let tail = bytes.skip(FRAME_ACK_SIZE as int);
        lemma_ack_encodes(bytes);
        lemma_acks_encode(tail, (count - 1) as nat);
        lemma_frame_acks_bytes_first(first_ack(bytes), decode_acks(tail, (count - 1) as nat)->0);
    }
}

proof fn lemma_data_frame_decodes(sequence_id: u32, nonce: bool, datagrams: Seq<DatagramView>)
    requires
        datagrams.len() <= u16::MAX,
        datagrams_encodable(datagrams),
    ensures
        decode_frame(data_frame_bytes(sequence_id, nonce, datagrams)) == Some(
            FrameView::Data { sequence_id, nonce, datagrams },
        ),
{
    let bytes = data_frame_bytes(sequence_id, nonce, datagrams);
    let rest = datagrams_bytes(datagrams);
    assert(bytes.subrange(1, 5) =~= u32_bytes(sequence_id));
    lemma_u32_at(bytes, 1, sequence_id);
    assert(bytes.subrange(6, 8) =~= u16_bytes(datagrams.len() as u16));
    lemma_u16_at(bytes, 6, datagrams.len() as u16);
    assert(bytes.skip(8) =~= rest);
    lemma_datagrams_decode(datagrams);
    assert(bytes[0] == DATA_FRAME_TAG && bytes[5] == bool_byte(nonce));
}

proof fn lemma_sync_frame_decodes(sequence_id: u32, nonce: bool, sender_next_id: u32)
    ensures
        decode_frame(sync_frame_bytes(sequence_id, nonce, sender_next_id)) == Some(
            FrameView::Sync { sequence_id, nonce, sender_next_id },
        ),
{
    let bytes = sync_frame_bytes(sequence_id, nonce, sender_next_id);
    assert(bytes.subrange(1, 5) =~= u32_bytes(sequence_id));
    lemma_u32_at(bytes, 1, sequence_id);
    assert(bytes.subrange(6, 10) =~= u32_bytes(sender_next_id));
    lemma_u32_at(bytes, 6, sender_next_id);
    assert(bytes[0] == SYNC_FRAME_TAG && bytes[5] == bool_byte(nonce));
}

proof fn lemma_ack_frame_decodes(receiver_base_id: u32, frame_acks: Seq<FrameAck>)
    requires
        frame_acks.len() <= u16::MAX,
    ensures
        decode_frame(ack_frame_bytes(receiver_base_id, frame_acks)) == Some(
            FrameView::Ack { receiver_base_id, frame_acks },
        ),
{
    let bytes = ack_frame_bytes(receiver_base_id, frame_acks);
    let rest = frame_acks_bytes(frame_acks);
    assert(bytes.subrange(1, 5) =~= u32_bytes(receiver_base_id));
    lemma_u32_at(bytes, 1, receiver_base_id);
    assert(bytes.subrange(5, 7) =~= u16_bytes(frame_acks.len() as u16));
    lemma_u16_at(bytes, 5, frame_acks.len() as u16);
    assert(bytes.skip(7) =~= rest);
    lemma_acks_decode(frame_acks);
    assert(bytes[0] == ACK_FRAME_TAG);
}

/// Every encodable frame is read back from its bytes.
pub proof fn lemma_frame_decodes(frame: FrameView)
    requires
        frame_encodable(frame),
    ensures
        decode_frame(frame_bytes(frame)) == Some(frame),
{
    match frame {
        FrameView::Data { sequence_id, nonce, datagrams } => {
            lemma_data_frame_decodes(sequence_id, nonce, datagrams);
        },
        FrameView::Sync { sequence_id, nonce, sender_next_id } => {
            lemma_sync_frame_decodes(sequence_id, nonce, sender_next_id);
        },
        FrameView::Ack { receiver_base_id, frame_acks } => {
            lemma_ack_frame_decodes(receiver_base_id, frame_acks);
        },
    }
}

/// The bytes from which a frame is read are those of that frame, and it is encodable.
pub proof fn lemma_frame_encodes(bytes: Seq<u8>)
    requires
        decode_frame(bytes) is Some,
    ensures
        frame_encodable(decode_frame(bytes)->0),
        frame_bytes(decode_frame(bytes)->0) == bytes,
{
    let frame = decode_frame(bytes)->0;
    match frame {
        FrameView::Data { sequence_id, nonce, datagrams } => {
            lemma_datagrams_encode(
                bytes.skip(DATA_FRAME_HEADER_SIZE as int),
                u16_at(bytes, 6) as nat,
            );
            lemma_u32_at(bytes, 1, sequence_id);
            lemma_u16_at(bytes, 6, datagrams.len() as u16);
            let whole = seq![bytes[0]] + bytes.subrange(1, 5) + seq![bytes[5]] + bytes.subrange(
                6,
                8,
            ) + bytes.skip(DATA_FRAME_HEADER_SIZE as int);
            assert(whole =~= bytes);
            assert(whole == frame_bytes(frame));
        },
        FrameView::Sync { sequence_id, nonce, sender_next_id } => {
            lemma_u32_at(bytes, 1, sequence_id);
            lemma_u32_at(bytes, 6, sender_next_id);
            let whole = seq![bytes[0]] + bytes.subrange(1, 5) + seq![bytes[5]] + bytes.subrange(
                6,
                10,
            );
            assert(whole =~= bytes);
            assert(whole == frame_bytes(frame));
        },
        FrameView::Ack { receiver_base_id, frame_acks } => {
            lemma_acks_encode(bytes.skip(ACK_FRAME_HEADER_SIZE as int), u16_at(bytes, 5) as nat);
            lemma_u32_at(bytes, 1, receiver_base_id);
            lemma_u16_at(bytes, 5, frame_acks.len() as u16);
            let whole = seq![bytes[0]] + bytes.subrange(1, 5) + bytes.subrange(5, 7) + bytes.skip(
                ACK_FRAME_HEADER_SIZE as int,
            );
            assert(whole =~= bytes);
            assert(whole == frame_bytes(frame));
        },
    }
}

} // verus!
