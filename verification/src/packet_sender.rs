//! The packets that wait to be sent, and how they are cut into datagrams.
use crate::boxed::into_boxed_slice;
use crate::datagram_queue;
use crate::datagram_queue::DatagramQueue;
use crate::datagram_queue::QueuedDatagram;
use crate::frame::Datagram;
use crate::frame::DatagramView;
use crate::frame::FragmentId;
use crate::frame_log::id_after;
use crate::SendMode;
use crate::MAX_FRAGMENT_SIZE;
use crate::MAX_PACKET_SIZE;
use crate::MAX_PACKET_TRANSFER_WINDOW_SIZE;
use std::collections::VecDeque;
use vstd::prelude::*;

verus! {

struct Packet {
    data: Box<[u8]>,
    channel_id: u8,
    mode: SendMode,
}

/// A packet that waits to be sent.
#[verifier::ext_equal]
pub struct WaitingPacket {
    pub data: Seq<u8>,
    pub channel_id: u8,
    pub mode: SendMode,
}

impl View for Packet {
    type V = WaitingPacket;

    closed spec fn view(&self) -> WaitingPacket {
        WaitingPacket { data: self.data@, channel_id: self.channel_id, mode: self.mode }
    }
}

/// The index of the last fragment of a packet of `len` bytes: all fragments before it are full,
/// and it is not empty unless the packet is.
pub open spec fn last_fragment(len: int) -> int {
    if len == 0 {
        0
    } else {
        (len - 1) / (MAX_FRAGMENT_SIZE as int)
    }
}

/// The bytes of `data` that its fragment `index` holds.
pub open spec fn fragment_data(data: Seq<u8>, index: int) -> Seq<u8> {
    data.subrange(
        index * MAX_FRAGMENT_SIZE,
        if index == last_fragment(data.len() as int) {
            data.len() as int
        } else {
            (index + 1) * MAX_FRAGMENT_SIZE
        },
    )
}

/// The datagram with the fragment `index` of `packet`, sent under `sequence_id`.
pub open spec fn fragment(packet: WaitingPacket, sequence_id: u32, index: int) -> QueuedDatagram {
    QueuedDatagram {
        datagram: DatagramView {
            sequence_id,
            channel_id: packet.channel_id,
            window_parent_lead: 0,
            channel_parent_lead: 0,
            fragment_id: FragmentId {
                id: index as u16,
                last: last_fragment(packet.data.len() as int) as u16,
            },
            data: fragment_data(packet.data, index),
        },
        resend: packet.mode == SendMode::Resend,
    }
}

/// All datagrams of `packet`, sent under `sequence_id`, in order.
pub open spec fn fragments(packet: WaitingPacket, sequence_id: u32) -> Seq<QueuedDatagram> {
    Seq::new(
        (last_fragment(packet.data.len() as int) + 1) as nat,
        |index: int| fragment(packet, sequence_id, index),
    )
}

pub open spec fn sum(sizes: Seq<nat>) -> nat
    decreases sizes.len(),
{
    if sizes.len() == 0 {
        0
    } else {
        sizes[0] + sum(sizes.skip(1))
    }
}

/// What a `PacketSender` holds. The packets in transit have the IDs from `base_id` on; `in_transit`
/// gives the size of each.
#[verifier::ext_equal]
pub struct PacketSenderView {
    pub channel_count: usize,
    pub max_alloc: usize,
    pub base_id: u32,
    pub in_transit: Seq<nat>,
    pub waiting: Seq<WaitingPacket>,
}

impl PacketSenderView {
    /// The ID of the next packet.
    pub open spec fn next_id(self) -> u32 {
        id_after(self.base_id, self.in_transit.len() as int)
    }

    /// Whether no more packets, and no more bytes of packets, are in transit than may be.
    pub open spec fn within_limits(self) -> bool {
        &&& self.in_transit.len() <= MAX_PACKET_TRANSFER_WINDOW_SIZE
        &&& sum(self.in_transit) <= self.max_alloc
    }

    /// Whether a packet waits for which there is room in transit.
    pub open spec fn can_emit(self) -> bool {
        &&& self.waiting.len() > 0
        &&& self.in_transit.len() < MAX_PACKET_TRANSFER_WINDOW_SIZE
        &&& sum(self.in_transit) + self.waiting[0].data.len() <= self.max_alloc
    }

    /// The datagrams of the packet that waits in front.
    pub open spec fn next_datagrams(self) -> Seq<QueuedDatagram> {
        fragments(self.waiting[0], self.next_id())
    }

    /// The sender with the packet that waits in front put into transit.
    pub open spec fn emit(self) -> PacketSenderView {
        PacketSenderView {
            in_transit: self.in_transit.push(self.waiting[0].data.len()),
            waiting: self.waiting.skip(1),
            ..self
        }
    }
}

pub proof fn lemma_sum_push(sizes: Seq<nat>, size: nat)
    ensures
        sum(sizes.push(size)) == sum(sizes) + size,
    decreases sizes.len(),
{
    if sizes.len() == 0 {
        assert(sizes.push(size).skip(1) =~= Seq::empty());
        assert(sum(sizes.push(size).skip(1)) == 0);
    } else {
        lemma_sum_push(sizes.skip(1), size);
        assert(sizes.push(size).skip(1) =~= sizes.skip(1).push(size));
    }
}

/// The fragments of a packet cover it without a gap, and each of them fits in a frame.
pub proof fn lemma_fragment_bounds(len: int, index: int)
    requires
        0 <= len,
        0 <= index <= last_fragment(len),
    ensures
        0 <= index * MAX_FRAGMENT_SIZE <= len,
        index < last_fragment(len) ==> (index + 1) * MAX_FRAGMENT_SIZE < len,
        index == last_fragment(len) ==> len <= (index + 1) * MAX_FRAGMENT_SIZE,
        len <= MAX_PACKET_SIZE ==> last_fragment(len) <= u16::MAX,
{
    let size = MAX_FRAGMENT_SIZE as int;
    let last = last_fragment(len);
    if len > 0 {
        vstd::arithmetic::div_mod::lemma_fundamental_div_mod(len - 1, size);
        assert(index * size <= last * size) by (nonlinear_arith)
            requires
                index <= last,
                0 <= size,
        ;
        assert(last * size == size * last) by (nonlinear_arith);
        assert((index + 1) * size == index * size + size) by (nonlinear_arith);
        if index < last {
            assert((index + 1) * size <= last * size) by (nonlinear_arith)
                requires
                    index + 1 <= last,
                    0 <= size,
            ;
        }
        if len <= MAX_PACKET_SIZE && last >= 0x1_0000 {
            assert(last * size >= 0x1_0000 * size) by (nonlinear_arith)
                requires
                    last >= 0x1_0000,
                    0 <= size,
            ;
        }
    }
    assert(0 <= index * size) by (nonlinear_arith)
        requires
            0 <= index,
            0 <= size,
    ;
}

/// Takes packets, and hands out their datagrams while the packets in transit leave room.
pub struct PacketSender {
    channel_count: usize,
    max_alloc: usize,
    base_id: u32,
    alloc: usize,
    in_transit: VecDeque<usize>,
    waiting: VecDeque<Packet>,
}

impl View for PacketSender {
    type V = PacketSenderView;

    closed spec fn view(&self) -> PacketSenderView {
        PacketSenderView {
            channel_count: self.channel_count,
            max_alloc: self.max_alloc,
            base_id: self.base_id,
            in_transit: self.in_transit@.map_values(|size: usize| size as nat),
            waiting: self.waiting@.map_values(|packet: Packet| packet@),
        }
    }
}

impl PacketSender {
    /// The bytes in transit are counted.
    pub closed spec fn counted(&self) -> bool {
        self.alloc == sum(self@.in_transit)
    }

    /// The bytes in transit are counted, the limits on them are kept, and no packet is larger
    /// than its fragments can count.
    pub open spec fn wf(&self) -> bool {
        &&& self.counted()
        &&& self@.within_limits()
        &&& forall|i: int|
            0 <= i < self@.waiting.len() ==> (#[trigger] self@.waiting[i]).data.len()
                <= MAX_PACKET_SIZE
    }

    /// A sender for `channel_count` channels, which keeps at most `max_alloc` bytes in transit and
    /// gives its first packet the ID `base_id`.
    pub fn new(channel_count: usize, max_alloc: usize, base_id: u32) -> (sender: Self)
        ensures
            sender.wf(),
            sender@ == (PacketSenderView {
                channel_count,
                max_alloc,
                base_id,
                in_transit: Seq::empty(),
                waiting: Seq::empty(),
            }),
    {
        let sender: PacketSender = PacketSender {
            channel_count,
            max_alloc,
            base_id,
            alloc: 0,
            in_transit: VecDeque::new(),
            waiting: VecDeque::new(),
        };
        assert(sender@.in_transit =~= Seq::empty());
        assert(sender@.waiting =~= Seq::empty());
        sender
    }

    /// The ID of the next packet.
    pub fn next_id(&self) -> (id: u32)
        requires
            self.wf(),
        ensures
            id == self@.next_id(),
    {
        self.base_id.wrapping_add(self.in_transit.len() as u32)
    }

    /// Puts a packet behind all those that wait.
    pub fn enqueue_packet(&mut self, data: Box<[u8]>, channel_id: u8, mode: SendMode)
        requires
            old(self).wf(),
            data@.len() <= MAX_PACKET_SIZE,
            channel_id < old(self)@.channel_count,
        ensures
            final(self).wf(),
            final(self)@ == (PacketSenderView {
                waiting: old(self)@.waiting.push(
                    WaitingPacket { data: data@, channel_id, mode },
                ),
                ..old(self)@
            }),
    {
        let packet: Packet = Packet { data, channel_id, mode };
        let ghost pushed = packet@;
        self.waiting.push_back(packet);
        assert(self@.waiting =~= old(self)@.waiting.push(pushed));
        assert(self@.in_transit =~= old(self)@.in_transit);
    }

    /// Appends to `queue` the datagrams of the packet that waits in front, if there is room for it
    /// in transit.
    pub fn emit_packet_datagrams(&mut self, queue: &mut DatagramQueue)
        requires
            old(self).wf(),
            old(queue).wf(),
        ensures
            final(self).wf(),
            final(queue).wf(),
            old(self)@.can_emit() ==> {
                &&& final(self)@ == old(self)@.emit()
                &&& final(queue)@ == old(queue)@ + old(self)@.next_datagrams()
            },
            !old(self)@.can_emit() ==> {
                &&& final(self)@ == old(self)@
                &&& final(queue)@ == old(queue)@
            },
    {
        if self.waiting.len() == 0 {
            return;
        }
        if self.in_transit.len() >= MAX_PACKET_TRANSFER_WINDOW_SIZE as usize {
            return;
        }
        assert(self@.waiting[0] == self.waiting@[0]@);
        let len: usize = self.waiting[0].data.len();
        if self.max_alloc - self.alloc < len {
            return;
        }
        let sequence_id: u32 = self.next_id();
        let popped: Option<Packet> = self.waiting.pop_front();
        if let Some(packet) = popped {
            self.in_transit.push_back(len);
            self.alloc = self.alloc + len;
            proof {
                lemma_sum_push(old(self)@.in_transit, len as nat);
                assert(self@.in_transit =~= old(self)@.emit().in_transit);
                assert(self@.waiting =~= old(self)@.emit().waiting);
            }
            push_fragments(&packet, sequence_id, queue);
        }
    }

    /// Takes the packets before `new_base_id` out of transit, unless it lies outside of the
    /// packets in transit.
    pub fn acknowledge(&mut self, new_base_id: u32)
        requires
            old(self).wf(),
        ensures
            final(self).wf(),
            forall|n: int|
                0 <= n <= old(self)@.in_transit.len() && new_base_id == #[trigger] id_after(
                    old(self)@.base_id,
                    n,
                ) ==> final(self)@ == (PacketSenderView {
                    base_id: new_base_id,
                    in_transit: old(self)@.in_transit.skip(n),
                    ..old(self)@
                }),
            (forall|n: int|
                0 <= n <= old(self)@.in_transit.len() ==> new_base_id != #[trigger] id_after(
                    old(self)@.base_id,
                    n,
                )) ==> final(self)@ == old(self)@,
    {
        let count: u32 = new_base_id.wrapping_sub(self.base_id);
        assert(new_base_id == id_after(self.base_id, count as int));
        if count > self.in_transit.len() as u32 {
            return;
        }
        let ghost sizes = self@.in_transit;
        let mut i: u32 = 0;
        assert(sizes.skip(0) =~= sizes);
        while i < count
            invariant
                i <= count <= sizes.len(),
                self.wf(),
                self@.in_transit == sizes.skip(i as int),
                self@.waiting == old(self)@.waiting,
                self.channel_count == old(self).channel_count,
                self.max_alloc == old(self).max_alloc,
            decreases count - i,
        {
            let ghost before = self@.in_transit;
            let popped: Option<usize> = self.in_transit.pop_front();
            if let Some(size) = popped {
                assert(before[0] == size);
                assert(self@.in_transit =~= before.skip(1));
                self.alloc = self.alloc - size;
            }
            assert(self@.in_transit =~= sizes.skip(i + 1));
            i += 1;
        }
        self.base_id = new_base_id;
    }
}

/// Appends the datagrams of `packet` to `queue`.
fn push_fragments(packet: &Packet, sequence_id: u32, queue: &mut DatagramQueue)
    requires
        old(queue).wf(),
        packet@.data.len() <= MAX_PACKET_SIZE,
    ensures
        final(queue).wf(),
        final(queue)@ == old(queue)@ + fragments(packet@, sequence_id),
{
    let len: usize = packet.data.len();
    let last: usize = if len == 0 {
        0
    } else {
        (len - 1) / MAX_FRAGMENT_SIZE
    };
    proof {
        lemma_fragment_bounds(len as int, last as int);
    }
    let resend: bool = match packet.mode {
        SendMode::Resend => true,
        SendMode::Unreliable => false,
    };
    let ghost all = fragments(packet@, sequence_id);
    let mut index: usize = 0;
    assert(all.take(0) =~= Seq::empty());
    while index <= last
        invariant
            index <= last + 1,
            last == last_fragment(len as int),
            last <= u16::MAX,
            len == packet.data@.len(),
            len <= MAX_PACKET_SIZE,
            resend == (packet.mode == SendMode::Resend),
            all == fragments(packet@, sequence_id),
            queue.wf(),
            queue@ == old(queue)@ + all.take(index as int),
        decreases last + 1 - index,
    {
        proof {
            lemma_fragment_bounds(len as int, index as int);
        }
        let start: usize = index * MAX_FRAGMENT_SIZE;
        let end: usize = if index == last {
            len
        } else {
            start + MAX_FRAGMENT_SIZE
        };
        assert((index + 1) * MAX_FRAGMENT_SIZE == index * MAX_FRAGMENT_SIZE + MAX_FRAGMENT_SIZE)
            by (nonlinear_arith);
        let mut data: Vec<u8> = Vec::new();
        let mut at: usize = start;
        while at < end
            invariant
                start <= at <= end <= packet.data@.len(),
                data@ == packet.data@.subrange(start as int, at as int),
            decreases end - at,
        {
            data.push(packet.data[at]);
            assert(data@ =~= packet.data@.subrange(start as int, at + 1));
            at += 1;
        }
        let datagram: Datagram = Datagram {
            sequence_id,
            channel_id: packet.channel_id,
            window_parent_lead: 0,
            channel_parent_lead: 0,
            fragment_id: FragmentId { id: index as u16, last: last as u16 },
            data: into_boxed_slice(data),
        };
        assert(datagram@ == fragment(packet@, sequence_id, index as int).datagram);
        queue.push_back(datagram_queue::Entry { datagram, resend });
        assert(all[index as int] == fragment(packet@, sequence_id, index as int));
        assert(all.take(index + 1) =~= all.take(index as int).push(all[index as int]));
        assert(queue@ =~= old(queue)@ + all.take(index + 1));
        index += 1;
    }
    assert(all.take(index as int) =~= all);
}

} // verus!
