//! What becomes of packets: they are cut up without loss, and the limits on what is in transit are
//! kept.
use super::induction::emission_wf;
use super::induction::lemma_both_phases_keep;
use super::induction::state_wf;
use super::induction::takes_queued;
use crate::datagram_queue::QueuedDatagram;
use crate::emission::data_emission;
use crate::emission::DataEmission;
use crate::emission::EmitterView;
use crate::packet_sender::fragment;
use crate::packet_sender::fragment_data;
use crate::packet_sender::fragments;
use crate::packet_sender::last_fragment;
use crate::packet_sender::lemma_fragment_bounds;
use crate::packet_sender::lemma_sum_push;
use crate::packet_sender::sum;
use crate::packet_sender::PacketSenderView;
use crate::packet_sender::WaitingPacket;
use crate::SendMode;
use crate::MAX_FRAGMENT_SIZE;
use crate::MAX_PACKET_SIZE;
use vstd::prelude::*;

verus! {

/// The data of `datagrams`, one after the other.
pub open spec fn joined_data(datagrams: Seq<QueuedDatagram>) -> Seq<u8>
    decreases datagrams.len(),
{
    if datagrams.len() == 0 {
        Seq::empty()
    } else {
        joined_data(datagrams.drop_last()) + datagrams.last().datagram.data
    }
}

proof fn lemma_last_fragment(len: int)
    requires
        len >= 0,
    ensures
        last_fragment(len) >= 0,
{
    if len > 0 {
        vstd::arithmetic::div_mod::lemma_div_pos_is_pos(len - 1, MAX_FRAGMENT_SIZE as int);
    }
}

proof fn lemma_joined_prefix(packet: WaitingPacket, sequence_id: u32, count: int)
    requires
        0 <= count <= last_fragment(packet.data.len() as int) + 1,
    ensures
        joined_data(fragments(packet, sequence_id).take(count)) == packet.data.take(
            if count == last_fragment(packet.data.len() as int) + 1 {
                packet.data.len() as int
            } else {
                count * MAX_FRAGMENT_SIZE
            },
        ),
    decreases count,
{
    let len = packet.data.len() as int;
    let last = last_fragment(len);
    let all = fragments(packet, sequence_id);
    lemma_last_fragment(len);
    if count == 0 {
        assert(all.take(0) =~= Seq::empty());
        assert(packet.data.take(0) =~= Seq::empty());
    } else {
        let index = count - 1;
        lemma_joined_prefix(packet, sequence_id, index);
        lemma_fragment_bounds(len, index);
        assert(all.take(count).drop_last() =~= all.take(index));
        assert(all.take(count).last() == fragment(packet, sequence_id, index));
        let start = index * MAX_FRAGMENT_SIZE;
        let end = if index == last {
            len
        } else {
            count * MAX_FRAGMENT_SIZE
        };
        assert(count * MAX_FRAGMENT_SIZE == start + MAX_FRAGMENT_SIZE) by (nonlinear_arith)
            requires
                start == index * MAX_FRAGMENT_SIZE,
                index == count - 1,
        ;
        assert(fragment_data(packet.data, index) == packet.data.subrange(start, end));
        assert(packet.data.take(start) + packet.data.subrange(start, end) =~= packet.data.take(
            end,
        ));
    }
}

/// The datagrams of a packet hold all of its data, in order.
pub proof fn law_fragments_hold_packet(packet: WaitingPacket, sequence_id: u32)
    ensures
        joined_data(fragments(packet, sequence_id)) == packet.data,
{
    let len = packet.data.len() as int;
    let count = last_fragment(len) + 1;
    let all = fragments(packet, sequence_id);
    lemma_last_fragment(len);
    lemma_joined_prefix(packet, sequence_id, count);
    assert(all.take(count) =~= all);
    assert(packet.data.take(len) =~= packet.data);
}

/// Each datagram of a packet tells which fragment it is and which one is the last. All but the last
/// are of the largest size, and the last is no larger; it is empty only if the packet is.
pub proof fn law_fragments_are_numbered(packet: WaitingPacket, sequence_id: u32, index: int)
    requires
        packet.data.len() <= MAX_PACKET_SIZE,
        0 <= index < fragments(packet, sequence_id).len(),
    ensures
        ({
            let all = fragments(packet, sequence_id);
            let datagram = all[index].datagram;
            &&& datagram.sequence_id == sequence_id
            &&& datagram.channel_id == packet.channel_id
            &&& datagram.fragment_id.id == index
            &&& datagram.fragment_id.last == all.len() - 1
            &&& datagram.data.len() <= MAX_FRAGMENT_SIZE
            &&& index < all.len() - 1 ==> datagram.data.len() == MAX_FRAGMENT_SIZE
            &&& packet.data.len() > 0 ==> datagram.data.len() > 0
            &&& all[index].resend == (packet.mode == SendMode::Resend)
        }),
{
    let len = packet.data.len() as int;
    let last = last_fragment(len);
    lemma_fragment_bounds(len, index);
    assert((index + 1) * MAX_FRAGMENT_SIZE == index * MAX_FRAGMENT_SIZE + MAX_FRAGMENT_SIZE)
        by (nonlinear_arith);
    if len > 0 && index == last {
        vstd::arithmetic::div_mod::lemma_fundamental_div_mod(len - 1, MAX_FRAGMENT_SIZE as int);
        assert(index * MAX_FRAGMENT_SIZE == MAX_FRAGMENT_SIZE * last) by (nonlinear_arith)
            requires
                index == last,
        ;
    }
}

/// Sending data frames keeps the limits on what is in transit.
pub proof fn law_limits_are_kept(state: EmitterView, now_ms: u64, rtt_ms: u64, max_send_size: usize)
    requires
        state_wf(state),
        state.sender.within_limits(),
    ensures
        data_emission(
            state,
            now_ms,
            rtt_ms,
            max_send_size,
        ).emission.state.sender.within_limits(),
{
    let start = DataEmission::start(state, max_send_size);
    let inv = |emission: DataEmission| emission.state.sender.within_limits();
    assert forall|emission: DataEmission|
        #![trigger inv(emission)]
        emission_wf(emission) && inv(emission) implies {
        &&& emission.state.queue.len() == 0 && emission.state.sender.can_emit() ==> inv(
            emission.refill(),
        )
        &&& takes_queued(emission, now_ms) ==> inv(emission.add_queued(now_ms, rtt_ms))
    } by {
        let sender = emission.state.sender;
        lemma_sum_push(sender.in_transit, sender.waiting[0].data.len());
    }
    if !state.log.is_full() {
        lemma_both_phases_keep(inv, start, now_ms, rtt_ms);
    }
}

/// The bytes of the packets of which `sizes` gives the sizes.
pub open spec fn total_bytes(sizes: Seq<nat>) -> nat
    decreases sizes.len(),
{
    if sizes.len() == 0 {
        0
    } else {
        total_bytes(sizes.drop_last()) + sizes.last()
    }
}

proof fn lemma_total_bytes(sizes: Seq<nat>)
    ensures
        sum(sizes) == total_bytes(sizes),
    decreases sizes.len(),
{
    if sizes.len() > 0 {
        lemma_total_bytes(sizes.drop_last());
        lemma_sum_push(sizes.drop_last(), sizes.last());
        assert(sizes.drop_last().push(sizes.last()) =~= sizes);
    }
}

/// A packet can be put into transit exactly if one waits, fewer than 4096 are in transit, and the
/// limit on the bytes in transit leaves room for it.
pub proof fn law_packet_needs_room(sender: PacketSenderView)
    ensures
        sender.can_emit() <==> {
            &&& sender.waiting.len() > 0
            &&& sender.in_transit.len() < 4096
            &&& total_bytes(sender.in_transit) + sender.waiting[0].data.len() <= sender.max_alloc
        },
        sender.within_limits() <==> {
            &&& sender.in_transit.len() <= 4096
            &&& total_bytes(sender.in_transit) <= sender.max_alloc
        },
{
    lemma_total_bytes(sender.in_transit);
}

/// A packet that is put into transit no longer waits, and counts with all its bytes; nothing else
/// changes. Its ID lies behind those of the packets in transit.
pub proof fn law_packet_goes_into_transit(sender: PacketSenderView)
    requires
        sender.waiting.len() > 0,
    ensures
        ({
            let after = sender.emit();
            &&& after.channel_count == sender.channel_count
            &&& after.max_alloc == sender.max_alloc
            &&& after.base_id == sender.base_id
            &&& after.in_transit == sender.in_transit.push(sender.waiting[0].data.len())
            &&& after.waiting == sender.waiting.skip(1)
        }),
        sender.next_id() == (sender.base_id + sender.in_transit.len()) % 0x1_0000_0000,
{
}

/// The datagrams that are sent of a packet hold all of its data, in order, and nothing else: all
/// but the last hold as much as a datagram can, and the last holds the rest. Each tells which
/// fragment it is and which is the last one, carries the packet's channel and ID, and is sent until
/// it is acknowledged exactly if the packet is.
pub proof fn law_packet_is_sent_whole(sender: PacketSenderView)
    requires
        sender.waiting.len() > 0,
        sender.waiting[0].data.len() <= MAX_PACKET_SIZE,
    ensures
        ({
            let packet = sender.waiting[0];
            let datagrams = sender.next_datagrams();
            let last = datagrams.len() - 1;
            &&& joined_data(datagrams) == packet.data
            &&& datagrams.len() > 0
            &&& forall|i: int|
                0 <= i < datagrams.len() ==> {
                    let datagram = (#[trigger] datagrams[i]).datagram;
                    &&& datagram.sequence_id == (sender.base_id + sender.in_transit.len())
                        % 0x1_0000_0000
                    &&& datagram.channel_id == packet.channel_id
                    &&& datagram.window_parent_lead == 0
                    &&& datagram.channel_parent_lead == 0
                    &&& datagram.fragment_id.id == i
                    &&& datagram.fragment_id.last == last
                    &&& i < last ==> datagram.data.len() == MAX_FRAGMENT_SIZE
                    &&& datagram.data.len() <= MAX_FRAGMENT_SIZE
                    &&& datagram.data.len() == 0 ==> packet.data.len() == 0
                    &&& datagrams[i].resend == (packet.mode == SendMode::Resend)
                }
        }),
{
    let packet = sender.waiting[0];
    let id = sender.next_id();
    let datagrams = sender.next_datagrams();
    law_fragments_hold_packet(packet, id);
    lemma_last_fragment(packet.data.len() as int);
    assert forall|i: int| 0 <= i < datagrams.len() implies {
        let datagram = (#[trigger] datagrams[i]).datagram;
        let last = datagrams.len() - 1;
        &&& datagram.sequence_id == (sender.base_id + sender.in_transit.len()) % 0x1_0000_0000
        &&& datagram.channel_id == packet.channel_id
        &&& datagram.window_parent_lead == 0
        &&& datagram.channel_parent_lead == 0
        &&& datagram.fragment_id.id == i
        &&& datagram.fragment_id.last == last
        &&& i < last ==> datagram.data.len() == MAX_FRAGMENT_SIZE
        &&& datagram.data.len() <= MAX_FRAGMENT_SIZE
        &&& datagram.data.len() == 0 ==> packet.data.len() == 0
        &&& datagrams[i].resend == (packet.mode == SendMode::Resend)
    } by {
        law_fragments_are_numbered(packet, id, i);
    }
}

} // verus!
