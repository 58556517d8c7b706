//! The acknowledgements that have not been sent yet.
use crate::frame::FrameAck;
use std::collections::VecDeque;
use vstd::prelude::*;

verus! {

/// Acknowledgements in the order in which they are to be sent.
pub struct FrameAckQueue {
    entries: VecDeque<FrameAck>,
}

impl View for FrameAckQueue {
    type V = Seq<FrameAck>;

    closed spec fn view(&self) -> Seq<FrameAck> {
        self.entries@
    }
}

impl FrameAckQueue {
    pub fn new() -> (queue: Self)
        ensures
            queue@ == Seq::<FrameAck>::empty(),
    {
        FrameAckQueue { entries: VecDeque::new() }
    }

    /// Puts `frame_ack` behind all others.
    pub fn push(&mut self, frame_ack: FrameAck)
        ensures
            final(self)@ == old(self)@.push(frame_ack),
    {
        self.entries.push_back(frame_ack);
    }

    /// The acknowledgement to be sent next.
    pub fn peek(&self) -> (frame_ack: Option<FrameAck>)
        ensures
            match frame_ack {
                Some(frame_ack) => self@.len() > 0 && frame_ack == self@[0],
                None => self@.len() == 0,
            },
    {
        if self.entries.len() == 0 {
            None
        } else {
            Some(self.entries[0])
        }
    }

    /// Takes out the acknowledgement to be sent next.
    pub fn pop(&mut self) -> (frame_ack: Option<FrameAck>)
        ensures
            match frame_ack {
                Some(frame_ack) => {
                    &&& old(self)@.len() > 0
                    &&& frame_ack == old(self)@[0]
                    &&& final(self)@ == old(self)@.skip(1)
                },
                None => old(self)@.len() == 0 && final(self)@ == old(self)@,
            },
    {
        let frame_ack: Option<FrameAck> = self.entries.pop_front();
        assert(frame_ack is Some ==> self@ =~= old(self)@.skip(1));
        frame_ack
    }
}

} // verus!
