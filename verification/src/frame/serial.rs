//! Writing frames to bytes and reading them back.
use super::datagram_views;
use super::decode::decode_acks;
use super::decode::decode_datagrams;
use super::decode::decode_frame;
use super::decode::first_ack;
use super::decode::first_datagram;
use super::decode::lemma_frame_decodes;
use super::decode::lemma_frame_encodes;
use super::decode::starts_with_ack;
use super::decode::starts_with_datagram;
use super::wire::ack_frame_bytes;
use super::wire::ack_frame_size;
use super::wire::bool_byte;
use super::wire::data_frame_bytes;
use super::wire::data_frame_size;
use super::wire::datagram_bytes;
use super::wire::datagram_size;
use super::wire::datagrams_bytes;
use super::wire::datagrams_encodable;
use super::wire::datagrams_size;
use super::wire::frame_ack_bytes;
use super::wire::frame_acks_bytes;
use super::wire::frame_bytes;
use super::wire::frame_encodable;
use super::wire::u16_at;
use super::wire::u16_bytes;
use super::wire::u32_at;
use super::wire::u32_bytes;
use super::wire::ACK_FRAME_HEADER_SIZE;
use super::wire::ACK_FRAME_TAG;
use super::wire::DATAGRAM_HEADER_SIZE;
use super::wire::DATA_FRAME_HEADER_SIZE;
use super::wire::DATA_FRAME_TAG;
use super::wire::FRAME_ACK_SIZE;
use super::wire::SYNC_FRAME_SIZE;
use super::wire::SYNC_FRAME_TAG;
use super::AckFrame;
use super::DataFrame;
use super::Datagram;
use super::DatagramView;
use super::FragmentId;
use super::Frame;
use super::FrameAck;
use super::FrameView;
use super::SyncFrame;
use crate::boxed::into_boxed_slice;
use vstd::prelude::*;

verus! {

fn bool_to_byte(b: bool) -> (byte: u8)
    ensures
        byte == bool_byte(b),
{
    if b {
        1
    } else {
        0
    }
}

fn push_u16(buffer: &mut Vec<u8>, x: u16)
    ensures
        final(buffer)@ == old(buffer)@ + u16_bytes(x),
{
    buffer.push((x / 0x100) as u8);
    buffer.push((x % 0x100) as u8);
    assert(buffer@ =~= old(buffer)@ + u16_bytes(x));
}

fn push_u32(buffer: &mut Vec<u8>, x: u32)
    ensures
        final(buffer)@ == old(buffer)@ + u32_bytes(x),
{
    buffer.push((x / 0x100_0000) as u8);
    buffer.push((x / 0x1_0000 % 0x100) as u8);
    buffer.push((x / 0x100 % 0x100) as u8);
    buffer.push((x % 0x100) as u8);
    assert(buffer@ =~= old(buffer)@ + u32_bytes(x));
}

fn push_slice(buffer: &mut Vec<u8>, bytes: &[u8])
    ensures
        final(buffer)@ == old(buffer)@ + bytes@,
{
    let mut i: usize = 0;
    while i < bytes.len()
        invariant
            i <= bytes@.len(),
            buffer@ == old(buffer)@ + bytes@.take(i as int),
        decreases bytes@.len() - i,
    {
        buffer.push(bytes[i]);
        assert(buffer@ =~= old(buffer)@ + bytes@.take(i + 1));
        i += 1;
    }
    assert(bytes@.take(i as int) =~= bytes@);
}

fn push_datagram(buffer: &mut Vec<u8>, datagram: &Datagram)
    requires
        datagram@.data.len() <= u16::MAX,
    ensures
        final(buffer)@ == old(buffer)@ + datagram_bytes(datagram@),
{
    push_u32(buffer, datagram.sequence_id);
    buffer.push(datagram.channel_id);
    push_u16(buffer, datagram.window_parent_lead);
    push_u16(buffer, datagram.channel_parent_lead);
    push_u16(buffer, datagram.fragment_id.id);
    push_u16(buffer, datagram.fragment_id.last);
    push_u16(buffer, datagram.data.len() as u16);
    push_slice(buffer, &datagram.data);
    assert(buffer@ =~= old(buffer)@ + datagram_bytes(datagram@));
}

fn push_ack(buffer: &mut Vec<u8>, ack: &FrameAck)
    ensures
        final(buffer)@ == old(buffer)@ + frame_ack_bytes(*ack),
{
    push_u32(buffer, ack.base_id);
    push_u32(buffer, ack.bitfield);
    buffer.push(bool_to_byte(ack.nonce));
    assert(buffer@ =~= old(buffer)@ + frame_ack_bytes(*ack));
}

pub proof fn lemma_datagram_bytes_len(datagram: DatagramView)
    ensures
        datagram_bytes(datagram).len() == datagram_size(datagram),
{
}

/// The size of a run of datagrams is the number of bytes that they take.
pub proof fn lemma_datagrams_bytes_len(datagrams: Seq<DatagramView>)
    ensures
        datagrams_bytes(datagrams).len() == datagrams_size(datagrams),
    decreases datagrams.len(),
{
    if datagrams.len() > 0 {
        lemma_datagrams_bytes_len(datagrams.drop_last());
        lemma_datagram_bytes_len(datagrams.last());
    }
}

/// One more datagram adds its own size.
pub proof fn lemma_datagrams_size_push(datagrams: Seq<DatagramView>, datagram: DatagramView)
    ensures
        datagrams_size(datagrams.push(datagram)) == datagrams_size(datagrams) + datagram_size(
            datagram,
        ),
        datagrams_bytes(datagrams.push(datagram)) == datagrams_bytes(datagrams) + datagram_bytes(
            datagram,
        ),
{
    assert(datagrams.push(datagram).drop_last() =~= datagrams);
}

/// Every datagram takes its header at least.
pub proof fn lemma_datagrams_size_bound(datagrams: Seq<DatagramView>)
    ensures
        datagrams_size(datagrams) >= DATAGRAM_HEADER_SIZE * datagrams.len(),
    decreases datagrams.len(),
{
    if datagrams.len() > 0 {
        lemma_datagrams_size_bound(datagrams.drop_last());
    }
}

pub proof fn lemma_frame_acks_bytes_len(acks: Seq<FrameAck>)
    ensures
        frame_acks_bytes(acks).len() == FRAME_ACK_SIZE * acks.len(),
    decreases acks.len(),
{
    if acks.len() > 0 {
        lemma_frame_acks_bytes_len(acks.drop_last());
    }
}

pub proof fn lemma_frame_acks_bytes_push(acks: Seq<FrameAck>, ack: FrameAck)
    ensures
        frame_acks_bytes(acks.push(ack)) == frame_acks_bytes(acks) + frame_ack_bytes(ack),
{
    assert(acks.push(ack).drop_last() =~= acks);
}

/// A data frame as far as it has been put together: all of it but the nonce.
#[verifier::ext_equal]
pub struct DataFramePlan {
    pub sequence_id: u32,
    pub datagrams: Seq<DatagramView>,
}

/// Puts a data frame together, datagram by datagram.
pub struct DataFrameBuilder {
    sequence_id: u32,
    count: u16,
    buffer: Vec<u8>,
    datagrams: Ghost<Seq<DatagramView>>,
}

impl View for DataFrameBuilder {
    type V = DataFramePlan;

    closed spec fn view(&self) -> DataFramePlan {
        DataFramePlan { sequence_id: self.sequence_id, datagrams: self.datagrams@ }
    }
}

impl DataFrameBuilder {
    /// The buffer holds the frame, with a zero nonce and a zero count.
    pub closed spec fn wf(&self) -> bool {
        &&& self.count == self.datagrams@.len()
        &&& datagrams_encodable(self.datagrams@)
        &&& self.buffer@ == seq![DATA_FRAME_TAG] + u32_bytes(self.sequence_id) + seq![0u8, 0, 0]
            + datagrams_bytes(self.datagrams@)
    }

    /// A frame without datagrams.
    pub fn new(sequence_id: u32) -> (builder: Self)
        ensures
            builder.wf(),
            builder@ == (DataFramePlan { sequence_id, datagrams: Seq::empty() }),
    {
        let mut buffer: Vec<u8> = Vec::new();
        buffer.push(DATA_FRAME_TAG);
        push_u32(&mut buffer, sequence_id);
        buffer.push(0);
        buffer.push(0);
        buffer.push(0);
        assert(buffer@ =~= seq![DATA_FRAME_TAG] + u32_bytes(sequence_id) + seq![0u8, 0, 0]
            + datagrams_bytes(Seq::empty()));
        DataFrameBuilder { sequence_id, count: 0, buffer, datagrams: Ghost(Seq::empty()) }
    }

    pub fn sequence_id(&self) -> (sequence_id: u32)
        ensures
            sequence_id == self@.sequence_id,
    {
        self.sequence_id
    }

    /// Appends `datagram`.
    pub fn add(&mut self, datagram: &Datagram)
        requires
            old(self).wf(),
            old(self)@.datagrams.len() < u16::MAX,
            datagram@.data.len() <= u16::MAX,
        ensures
            final(self).wf(),
            final(self)@ == (DataFramePlan {
                sequence_id: old(self)@.sequence_id,
                datagrams: old(self)@.datagrams.push(datagram@),
            }),
    {
        push_datagram(&mut self.buffer, datagram);
        self.count = self.count + 1;
        proof {
            lemma_datagrams_size_push(self.datagrams@, datagram@);
            self.datagrams@ = self.datagrams@.push(datagram@);
        }
        assert(self.buffer@ =~= seq![DATA_FRAME_TAG] + u32_bytes(self.sequence_id) + seq![0u8, 0, 0]
            + datagrams_bytes(self.datagrams@));
    }

    /// The length of the frame so far.
    pub fn size(&self) -> (size: usize)
        requires
            self.wf(),
        ensures
            size == data_frame_size(self@.datagrams),
    {
        proof {
            lemma_datagrams_bytes_len(self.datagrams@);
        }
        self.buffer.len()
    }

    /// The number of datagrams so far.
    pub fn count(&self) -> (count: u16)
        requires
            self.wf(),
        ensures
            count == self@.datagrams.len(),
    {
        self.count
    }

    /// By how much `datagram` would lengthen a frame.
    pub fn encoded_size(datagram: &Datagram) -> (size: usize)
        requires
            datagram_size(datagram@) <= usize::MAX,
        ensures
            size == datagram_size(datagram@),
    {
        DATAGRAM_HEADER_SIZE + datagram.data.len()
    }

    /// The finished frame.
    pub fn build(self, nonce: bool) -> (data: Box<[u8]>)
        requires
            self.wf(),
        ensures
            data@ == data_frame_bytes(self@.sequence_id, nonce, self@.datagrams),
    {
        let mut buffer: Vec<u8> = self.buffer;
        buffer[5] = bool_to_byte(nonce);
        buffer[6] = (self.count / 0x100) as u8;
        buffer[7] = (self.count % 0x100) as u8;
        assert(buffer@ =~= data_frame_bytes(self.sequence_id, nonce, self.datagrams@));
        into_boxed_slice(buffer)
    }
}

/// Puts an ack frame together, acknowledgement by acknowledgement.
pub struct AckFrameBuilder {
    receiver_base_id: u32,
    count: u16,
    buffer: Vec<u8>,
    frame_acks: Ghost<Seq<FrameAck>>,
}

impl AckFrameBuilder {
    pub closed spec fn receiver_base_id(&self) -> u32 {
        self.receiver_base_id
    }

    pub closed spec fn frame_acks(&self) -> Seq<FrameAck> {
        self.frame_acks@
    }

    /// The buffer holds the frame, with a zero count.
    pub closed spec fn wf(&self) -> bool {
        &&& self.count == self.frame_acks@.len()
        &&& self.buffer@ == seq![ACK_FRAME_TAG] + u32_bytes(self.receiver_base_id) + seq![0u8, 0]
            + frame_acks_bytes(self.frame_acks@)
    }

    /// A frame without acknowledgements.
    pub fn new(receiver_base_id: u32) -> (builder: Self)
        ensures
            builder.wf(),
            builder.receiver_base_id() == receiver_base_id,
            builder.frame_acks() == Seq::<FrameAck>::empty(),
    {
        let mut buffer: Vec<u8> = Vec::new();
        buffer.push(ACK_FRAME_TAG);
        push_u32(&mut buffer, receiver_base_id);
        buffer.push(0);
        buffer.push(0);
        assert(buffer@ =~= seq![ACK_FRAME_TAG] + u32_bytes(receiver_base_id) + seq![0u8, 0]
            + frame_acks_bytes(Seq::empty()));
        AckFrameBuilder { receiver_base_id, count: 0, buffer, frame_acks: Ghost(Seq::empty()) }
    }

    /// Appends `frame_ack`.
    pub fn add(&mut self, frame_ack: &FrameAck)
        requires
            old(self).wf(),
            old(self).frame_acks().len() < u16::MAX,
        ensures
            final(self).wf(),
            final(self).receiver_base_id() == old(self).receiver_base_id(),
            final(self).frame_acks() == old(self).frame_acks().push(*frame_ack),
    {
        push_ack(&mut self.buffer, frame_ack);
        self.count = self.count + 1;
        proof {
            lemma_frame_acks_bytes_push(self.frame_acks@, *frame_ack);
            self.frame_acks@ = self.frame_acks@.push(*frame_ack);
        }
        assert(self.buffer@ =~= seq![ACK_FRAME_TAG] + u32_bytes(self.receiver_base_id) + seq![
            0u8,
            0,
        ] + frame_acks_bytes(self.frame_acks@));
    }

    /// The length of the frame so far.
    pub fn size(&self) -> (size: usize)
        requires
            self.wf(),
        ensures
            size == ack_frame_size(self.frame_acks().len()),
    {
        proof {
            lemma_frame_acks_bytes_len(self.frame_acks@);
        }
        self.buffer.len()
    }

    /// The number of acknowledgements so far.
    pub fn count(&self) -> (count: u16)
        requires
            self.wf(),
        ensures
            count == self.frame_acks().len(),
    {
        self.count
    }

    /// By how much `frame_ack` would lengthen a frame.
    pub fn encoded_size(frame_ack: &FrameAck) -> (size: usize)
        ensures
            size == frame_ack_bytes(*frame_ack).len(),
    {
        FRAME_ACK_SIZE
    }

    /// The finished frame.
    pub fn build(self) -> (data: Box<[u8]>)
        requires
            self.wf(),
        ensures
            data@ == ack_frame_bytes(self.receiver_base_id(), self.frame_acks()),
    {
        let mut buffer: Vec<u8> = self.buffer;
        buffer[5] = (self.count / 0x100) as u8;
        buffer[6] = (self.count % 0x100) as u8;
        assert(buffer@ =~= ack_frame_bytes(self.receiver_base_id, self.frame_acks@));
        into_boxed_slice(buffer)
    }
}

fn get_u16(bytes: &[u8], at: usize) -> (x: u16)
    requires
        at + 2 <= bytes@.len(),
    ensures
        x == u16_at(bytes@, at as int),
{
    bytes[at] as u16 * 0x100 + bytes[at + 1] as u16
}

fn get_u32(bytes: &[u8], at: usize) -> (x: u32)
    requires
        at + 4 <= bytes@.len(),
    ensures
        x == u32_at(bytes@, at as int),
{
    bytes[at] as u32 * 0x100_0000 + bytes[at + 1] as u32 * 0x1_0000 + bytes[at + 2] as u32 * 0x100
        + bytes[at + 3] as u32
}

fn get_slice(bytes: &[u8], start: usize, end: usize) -> (part: Box<[u8]>)
    requires
        start <= end <= bytes@.len(),
    ensures
        part@ == bytes@.subrange(start as int, end as int),
{
    let mut part: Vec<u8> = Vec::new();
    let mut at: usize = start;
    while at < end
        invariant
            start <= at <= end <= bytes@.len(),
            part@ == bytes@.subrange(start as int, at as int),
        decreases end - at,
    {
        part.push(bytes[at]);
        assert(part@ =~= bytes@.subrange(start as int, at + 1));
        at += 1;
    }
    into_boxed_slice(part)
}

/// The datagram that stands in `bytes` at `at`, if a whole one stands there.
fn get_datagram(bytes: &[u8], at: usize) -> (datagram: Option<Datagram>)
    requires
        at <= bytes@.len(),
    ensures
        match datagram {
            Some(datagram) => starts_with_datagram(bytes@.skip(at as int)) && datagram@
                == first_datagram(bytes@.skip(at as int)),
            None => !starts_with_datagram(bytes@.skip(at as int)),
        },
{
    let ghost tail = bytes@.skip(at as int);
    assert(forall|i: int| 0 <= i < tail.len() ==> #[trigger] tail[i] == bytes@[at + i]);
    if bytes.len() - at < DATAGRAM_HEADER_SIZE {
        return None;
    }
    let len: usize = get_u16(bytes, at + 13) as usize;
    if bytes.len() - at - DATAGRAM_HEADER_SIZE < len {
        return None;
    }
    let data: Box<[u8]> = get_slice(bytes, at + 15, at + 15 + len);
    assert(data@ =~= tail.subrange(15, 15 + len));
    Some(
        Datagram {
            sequence_id: get_u32(bytes, at),
            channel_id: bytes[at + 4],
            window_parent_lead: get_u16(bytes, at + 5),
            channel_parent_lead: get_u16(bytes, at + 7),
            fragment_id: FragmentId { id: get_u16(bytes, at + 9), last: get_u16(bytes, at + 11) },
            data,
        },
    )
}

/// The `count` datagrams that make up `bytes` from `start` to their end.
fn get_datagrams(bytes: &[u8], start: usize, count: u16) -> (datagrams: Option<Vec<Datagram>>)
    requires
        start <= bytes@.len(),
    ensures
        match datagrams {
            Some(datagrams) => decode_datagrams(bytes@.skip(start as int), count as nat) == Some(
                datagram_views(datagrams@),
            ),
            None => decode_datagrams(bytes@.skip(start as int), count as nat) is None,
        },
{
    let ghost whole = decode_datagrams(bytes@.skip(start as int), count as nat);
    let mut datagrams: Vec<Datagram> = Vec::new();
    let end: usize = bytes.len();
    let mut at: usize = start;
    let mut left: u16 = count;
    assert(datagram_views(datagrams@) =~= Seq::empty());
    proof {
        let rest = decode_datagrams(bytes@.skip(at as int), left as nat);
        if rest is Some {
            assert(Seq::<DatagramView>::empty() + rest->0 =~= rest->0);
        }
    }
    while left > 0
        invariant
            at <= end == bytes@.len(),
            whole == decode_datagrams(bytes@.skip(start as int), count as nat),
            whole == match decode_datagrams(bytes@.skip(at as int), left as nat) {
                Some(rest) => Some(datagram_views(datagrams@) + rest),
                None => None,
            },
        decreases left,
    {
        let ghost before = datagram_views(datagrams@);
        let ghost tail = bytes@.skip(at as int);
        match get_datagram(bytes, at) {
            Some(datagram) => {
                let ghost first = datagram@;
                at = at + DATAGRAM_HEADER_SIZE + datagram.data.len();
                left = left - 1;
                datagrams.push(datagram);
                proof {
                    assert(datagram_views(datagrams@) =~= before.push(first));
                    assert(tail.skip(datagram_size(first)) =~= bytes@.skip(at as int));
                    let rest = decode_datagrams(bytes@.skip(at as int), left as nat);
                    if rest is Some {
                        assert(before + (seq![first] + rest->0) =~= before.push(first) + rest->0);
                    }
                }
            },
            None => {
                return None;
            },
        }
    }
    if at != end {
        return None;
    }
    assert(datagram_views(datagrams@) + Seq::<DatagramView>::empty() =~= datagram_views(
        datagrams@,
    ));
    Some(datagrams)
}

/// The `count` acknowledgements that make up `bytes` from `start` to their end.
fn get_acks(bytes: &[u8], start: usize, count: u16) -> (acks: Option<Vec<FrameAck>>)
    requires
        start <= bytes@.len(),
    ensures
        match acks {
            Some(acks) => decode_acks(bytes@.skip(start as int), count as nat) == Some(acks@),
            None => decode_acks(bytes@.skip(start as int), count as nat) is None,
        },
{
    let ghost whole = decode_acks(bytes@.skip(start as int), count as nat);
    let mut acks: Vec<FrameAck> = Vec::new();
    let end: usize = bytes.len();
    let mut at: usize = start;
    let mut left: u16 = count;
    proof {
        let rest = decode_acks(bytes@.skip(at as int), left as nat);
        if rest is Some {
            assert(Seq::<FrameAck>::empty() + rest->0 =~= rest->0);
        }
    }
    while left > 0
        invariant
            at <= end == bytes@.len(),
            whole == decode_acks(bytes@.skip(start as int), count as nat),
            whole == match decode_acks(bytes@.skip(at as int), left as nat) {
                Some(rest) => Some(acks@ + rest),
                None => None,
            },
        decreases left,
    {
        let ghost before = acks@;
        let ghost tail = bytes@.skip(at as int);
        assert(forall|i: int| 0 <= i < tail.len() ==> #[trigger] tail[i] == bytes@[at + i]);
        if end - at < FRAME_ACK_SIZE {
            return None;
        }
        if bytes[at + 8] > 1 {
            return None;
        }
        let ack: FrameAck = FrameAck {
            base_id: get_u32(bytes, at),
            bitfield: get_u32(bytes, at + 4),
            nonce: bytes[at + 8] == 1,
        };
        assert(starts_with_ack(tail) && ack == first_ack(tail));
        at = at + FRAME_ACK_SIZE;
        left = left - 1;
        acks.push(ack);
        proof {
            assert(tail.skip(FRAME_ACK_SIZE as int) =~= bytes@.skip(at as int));
            let rest = decode_acks(bytes@.skip(at as int), left as nat);
            if rest is Some {
                assert(before + (seq![ack] + rest->0) =~= before.push(ack) + rest->0);
            }
        }
    }
    if at != end {
        return None;
    }
    assert(acks@ + Seq::<FrameAck>::empty() =~= acks@);
    Some(acks)
}

impl Frame {
    /// The frame that `bytes` encode, if they encode one.
    pub fn read(bytes: &[u8]) -> (frame: Option<Frame>)
        ensures
            match frame {
                Some(frame) => frame_encodable(frame@) && frame_bytes(frame@) == bytes@,
                None => forall|frame: FrameView|
                    frame_encodable(frame) ==> #[trigger] frame_bytes(frame) != bytes@,
            },
    {
        proof {
            assert forall|frame: FrameView| frame_encodable(frame) && #[trigger] frame_bytes(frame)
                == bytes@ implies decode_frame(bytes@) == Some(frame) by {
                lemma_frame_decodes(frame);
            }
            if decode_frame(bytes@) is Some {
                lemma_frame_encodes(bytes@);
            }
        }
        if bytes.len() == 0 {
            return None;
        }
        let tag: u8 = bytes[0];
        if tag == DATA_FRAME_TAG {
            if bytes.len() < DATA_FRAME_HEADER_SIZE {
                return None;
            }
            if bytes[5] > 1 {
                return None;
            }
            match get_datagrams(bytes, DATA_FRAME_HEADER_SIZE, get_u16(bytes, 6)) {
                Some(datagrams) => Some(
                    Frame::DataFrame(
                        DataFrame {
                            sequence_id: get_u32(bytes, 1),
                            nonce: bytes[5] == 1,
                            datagrams,
                        },
                    ),
                ),
                None => None,
            }
        } else if tag == SYNC_FRAME_TAG {
            if bytes.len() != SYNC_FRAME_SIZE {
                return None;
            }
            if bytes[5] > 1 {
                return None;
            }
            Some(
                Frame::SyncFrame(
                    SyncFrame {
                        sequence_id: get_u32(bytes, 1),
                        nonce: bytes[5] == 1,
                        sender_next_id: get_u32(bytes, 6),
                    },
                ),
            )
        } else if tag == ACK_FRAME_TAG {
            if bytes.len() < ACK_FRAME_HEADER_SIZE {
                return None;
            }
            match get_acks(bytes, ACK_FRAME_HEADER_SIZE, get_u16(bytes, 5)) {
                Some(frame_acks) => Some(
                    Frame::AckFrame(AckFrame { receiver_base_id: get_u32(bytes, 1), frame_acks }),
                ),
                None => None,
            }
        } else {
            None
        }
    }

    /// The bytes of the frame.
    pub fn write(&self) -> (data: Box<[u8]>)
        requires
            frame_encodable(self@),
        ensures
            data@ == frame_bytes(self@),
    {
        match self {
            Frame::DataFrame(frame) => {
                let ghost views = datagram_views(frame.datagrams@);
                let mut builder: DataFrameBuilder = DataFrameBuilder::new(frame.sequence_id);
                let mut i: usize = 0;
                assert(views.take(0) =~= Seq::empty());
                while i < frame.datagrams.len()
                    invariant
                        i <= frame.datagrams@.len() <= u16::MAX,
                        views == datagram_views(frame.datagrams@),
                        datagrams_encodable(views),
                        builder.wf(),
                        builder@ == (DataFramePlan {
                            sequence_id: frame.sequence_id,
                            datagrams: views.take(i as int),
                        }),
                    decreases frame.datagrams@.len() - i,
                {
                    assert(views[i as int] == frame.datagrams@[i as int]@);
                    builder.add(&frame.datagrams[i]);
                    assert(views.take(i as int).push(views[i as int]) =~= views.take(i + 1));
                    i += 1;
                }
                assert(views.take(i as int) =~= views);
                builder.build(frame.nonce)
            },
            Frame::SyncFrame(frame) => {
                let mut buffer: Vec<u8> = Vec::new();
                buffer.push(SYNC_FRAME_TAG);
                push_u32(&mut buffer, frame.sequence_id);
                buffer.push(bool_to_byte(frame.nonce));
                push_u32(&mut buffer, frame.sender_next_id);
                assert(buffer@ =~= frame_bytes(self@));
                into_boxed_slice(buffer)
            },
            Frame::AckFrame(frame) => {
                let mut builder: AckFrameBuilder = AckFrameBuilder::new(frame.receiver_base_id);
                let mut i: usize = 0;
                assert(frame.frame_acks@.take(0) =~= Seq::empty());
                while i < frame.frame_acks.len()
                    invariant
                        i <= frame.frame_acks@.len() <= u16::MAX,
                        builder.wf(),
                        builder.receiver_base_id() == frame.receiver_base_id,
                        builder.frame_acks() == frame.frame_acks@.take(i as int),
                    decreases frame.frame_acks@.len() - i,
                {
                    builder.add(&frame.frame_acks[i]);
                    assert(frame.frame_acks@.take(i as int).push(frame.frame_acks@[i as int])
                        =~= frame.frame_acks@.take(i + 1));
                    i += 1;
                }
                assert(frame.frame_acks@.take(i as int) =~= frame.frame_acks@);
                builder.build()
            },
        }
    }
}

} // verus!
