//! The datagrams that have not been sent yet.
use crate::frame::Datagram;
use crate::frame::DatagramView;
use crate::MAX_FRAGMENT_SIZE;
use std::collections::VecDeque;
use vstd::prelude::*;

verus! {

/// A datagram that has not been sent yet, and whether it is to be sent until it is acknowledged.
pub struct Entry {
    pub datagram: Datagram,
    pub resend: bool,
}

/// What an `Entry` holds.
#[verifier::ext_equal]
pub struct QueuedDatagram {
    pub datagram: DatagramView,
    pub resend: bool,
}

impl View for Entry {
    type V = QueuedDatagram;

    open spec fn view(&self) -> QueuedDatagram {
        QueuedDatagram { datagram: self.datagram@, resend: self.resend }
    }
}

/// Whether a data frame has room for `datagram`, alone.
pub open spec fn fits_a_frame(datagram: DatagramView) -> bool {
    datagram.data.len() <= MAX_FRAGMENT_SIZE
}

/// Datagrams in the order in which they are to be sent.
pub struct DatagramQueue {
    entries: VecDeque<Entry>,
}

impl View for DatagramQueue {
    type V = Seq<QueuedDatagram>;

    closed spec fn view(&self) -> Seq<QueuedDatagram> {
        self.entries@.map_values(|entry: Entry| entry@)
    }
}

impl DatagramQueue {
    /// Each datagram fits in a frame of its own.
    pub open spec fn wf(&self) -> bool {
        forall|i: int| 0 <= i < self@.len() ==> fits_a_frame((#[trigger] self@[i]).datagram)
    }

    pub fn new() -> (queue: Self)
        ensures
            queue.wf(),
            queue@ == Seq::<QueuedDatagram>::empty(),
    {
        let queue: DatagramQueue = DatagramQueue { entries: VecDeque::new() };
        assert(queue@ =~= Seq::<QueuedDatagram>::empty());
        queue
    }

    pub fn len(&self) -> (len: usize)
        ensures
            len == self@.len(),
    {
        self.entries.len()
    }

    pub fn is_empty(&self) -> (empty: bool)
        ensures
            empty == (self@.len() == 0),
    {
        self.entries.len() == 0
    }

    /// The datagram to be sent next.
    pub fn front(&self) -> (entry: Option<&Entry>)
        ensures
            match entry {
                Some(entry) => self@.len() > 0 && entry@ == self@[0],
                None => self@.len() == 0,
            },
    {
        if self.entries.len() == 0 {
            None
        } else {
            Some(&self.entries[0])
        }
    }

    /// Takes out the datagram to be sent next.
    pub fn pop_front(&mut self) -> (entry: Option<Entry>)
        ensures
            match entry {
                Some(entry) => {
                    &&& old(self)@.len() > 0
                    &&& entry@ == old(self)@[0]
                    &&& final(self)@ == old(self)@.skip(1)
                },
                None => old(self)@.len() == 0 && final(self)@ == old(self)@,
            },
    {
        let entry: Option<Entry> = self.entries.pop_front();
        assert(entry is Some ==> self@ =~= old(self)@.skip(1));
        entry
    }

    /// Puts `entry` behind all others.
    pub fn push_back(&mut self, entry: Entry)
        requires
            old(self).wf(),
            fits_a_frame(entry.datagram@),
        ensures
            final(self).wf(),
            final(self)@ == old(self)@.push(entry@),
    {
        let ghost pushed = entry@;
        self.entries.push_back(entry);
        assert(self@ =~= old(self)@.push(pushed));
    }
}

} // verus!
