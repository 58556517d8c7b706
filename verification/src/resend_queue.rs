//! The datagrams that have been sent and are sent again until they are acknowledged.
use crate::datagram_queue::fits_a_frame;
use crate::frame::Datagram;
use crate::frame::DatagramView;
use std::collections::VecDeque;
use vstd::prelude::*;

verus! {

/// After this many transmissions the delay until the next one no longer grows.
pub const MAX_SEND_COUNT: u8 = 2;

/// A datagram that stays until it is acknowledged. Frames refer to it by its key.
pub struct PersistentDatagram {
    pub key: u64,
    pub datagram: Datagram,
    pub acknowledged: bool,
}

impl PersistentDatagram {
    /// A datagram that has not been acknowledged.
    pub fn new(key: u64, datagram: Datagram) -> (persistent_datagram: Self)
        ensures
            persistent_datagram.key == key,
            persistent_datagram.datagram == datagram,
            !persistent_datagram.acknowledged,
    {
        PersistentDatagram { key, datagram, acknowledged: false }
    }
}

/// A datagram, when it is to be sent again, and how often it has been sent; the count stops at
/// `MAX_SEND_COUNT`.
pub struct Entry {
    pub persistent_datagram: PersistentDatagram,
    pub resend_time: u64,
    pub send_count: u8,
}

/// What an `Entry` holds.
#[verifier::ext_equal]
pub struct PendingResend {
    pub key: u64,
    pub datagram: DatagramView,
    pub acknowledged: bool,
    pub resend_time: int,
    pub send_count: int,
}

impl View for Entry {
    type V = PendingResend;

    open spec fn view(&self) -> PendingResend {
        PendingResend {
            key: self.persistent_datagram.key,
            datagram: self.persistent_datagram.datagram@,
            acknowledged: self.persistent_datagram.acknowledged,
            resend_time: self.resend_time as int,
            send_count: self.send_count as int,
        }
    }
}

impl Entry {
    pub fn new(persistent_datagram: PersistentDatagram, resend_time: u64, send_count: u8) -> (entry:
        Self)
        ensures
            entry.persistent_datagram == persistent_datagram,
            entry.resend_time == resend_time,
            entry.send_count == send_count,
    {
        Entry { persistent_datagram, resend_time, send_count }
    }
}

/// Whether `entry` fits in a frame of its own and has a send count that an entry can have.
pub open spec fn resend_wf(entry: PendingResend) -> bool {
    &&& fits_a_frame(entry.datagram)
    &&& 1 <= entry.send_count <= MAX_SEND_COUNT
}

/// Whether each of `entries` is to be sent no later than those behind it.
pub open spec fn sorted_by_time(entries: Seq<PendingResend>) -> bool {
    forall|i: int, j: int|
        0 <= i <= j < entries.len() ==> (#[trigger] entries[i]).resend_time <= (
        #[trigger] entries[j]).resend_time
}

/// How many of `entries`, which are sorted by time, are to be sent at `time` or before.
pub open spec fn rank(entries: Seq<PendingResend>, time: int) -> int
    decreases entries.len(),
{
    if entries.len() == 0 {
        0
    } else if entries.last().resend_time <= time {
        entries.len() as int
    } else {
        rank(entries.drop_last(), time)
    }
}

/// `entries` with `entry` behind all those that are to be sent at its time or before.
pub open spec fn insert_by_time(entries: Seq<PendingResend>, entry: PendingResend) -> Seq<
    PendingResend,
> {
    entries.insert(rank(entries, entry.resend_time), entry)
}

/// `entry`, acknowledged if it has the key `key`.
pub open spec fn acknowledge_key(entry: PendingResend, key: u64) -> PendingResend {
    PendingResend { acknowledged: entry.acknowledged || entry.key == key, ..entry }
}

pub proof fn lemma_rank(entries: Seq<PendingResend>, time: int)
    ensures
        0 <= rank(entries, time) <= entries.len(),
        forall|i: int|
            rank(entries, time) <= i < entries.len() ==> (#[trigger] entries[i]).resend_time > time,
        rank(entries, time) > 0 ==> entries[rank(entries, time) - 1].resend_time <= time,
    decreases entries.len(),
{
    if entries.len() > 0 && entries.last().resend_time > time {
        lemma_rank(entries.drop_last(), time);
        assert forall|i: int| rank(entries, time) <= i < entries.len() implies (
        #[trigger] entries[i]).resend_time > time by {
            if i < entries.len() - 1 {
                assert(entries[i] == entries.drop_last()[i]);
            }
        }
    }
}

/// Where each entry comes from once `entry` has been put where its time belongs.
pub proof fn lemma_insert_by_time(entries: Seq<PendingResend>, entry: PendingResend)
    ensures
        0 <= rank(entries, entry.resend_time) <= entries.len(),
        insert_by_time(entries, entry).len() == entries.len() + 1,
        insert_by_time(entries, entry)[rank(entries, entry.resend_time)] == entry,
        forall|i: int|
            0 <= i <= entries.len() && i != rank(entries, entry.resend_time)
                ==> #[trigger] insert_by_time(entries, entry)[i] == entries[if i < rank(
                entries,
                entry.resend_time,
            ) {
                i
            } else {
                i - 1
            }],
        forall|other: PendingResend| #[trigger]
            insert_by_time(entries, entry).contains(other) <==> other == entry
                || entries.contains(other),
{
    lemma_rank(entries, entry.resend_time);
    let at = rank(entries, entry.resend_time);
    let inserted = insert_by_time(entries, entry);
    assert(inserted[at] == entry);
    assert forall|other: PendingResend| #[trigger] inserted.contains(other) <==> other == entry
        || entries.contains(other) by {
        if entries.contains(other) {
            let i = choose|i: int| 0 <= i < entries.len() && entries[i] == other;
            let moved = if i < at {
                i
            } else {
                i + 1
            };
            assert(inserted[moved] == other);
        }
        if inserted.contains(other) && other != entry {
            let i = choose|i: int| 0 <= i < inserted.len() && inserted[i] == other;
            let from = if i < at {
                i
            } else {
                i - 1
            };
            assert(entries[from] == other);
        }
    }
}

/// An entry put where its time belongs leaves the entries sorted.
pub proof fn lemma_insert_by_time_sorted(entries: Seq<PendingResend>, entry: PendingResend)
    requires
        sorted_by_time(entries),
    ensures
        sorted_by_time(insert_by_time(entries, entry)),
{
    lemma_insert_by_time(entries, entry);
    lemma_rank(entries, entry.resend_time);
}

/// What a `ResendQueue` holds: its entries, those to be sent first in front, and the key that it
/// gives out next.
#[verifier::ext_equal]
pub struct ResendQueueView {
    pub entries: Seq<PendingResend>,
    pub next_key: u64,
}

/// Datagrams in the order in which they are to be sent again.
pub struct ResendQueue {
    entries: VecDeque<Entry>,
    next_key: u64,
}

impl View for ResendQueue {
    type V = ResendQueueView;

    closed spec fn view(&self) -> ResendQueueView {
        ResendQueueView {
            entries: self.entries@.map_values(|entry: Entry| entry@),
            next_key: self.next_key,
        }
    }
}

impl ResendQueue {
    /// The entries are sorted by time, and each of them could have been sent.
    pub open spec fn wf(&self) -> bool {
        &&& sorted_by_time(self@.entries)
        &&& forall|i: int| 0 <= i < self@.entries.len() ==> resend_wf(#[trigger] self@.entries[i])
    }

    pub fn new() -> (queue: Self)
        ensures
            queue.wf(),
            queue@ == (ResendQueueView { entries: Seq::empty(), next_key: 0 }),
    {
        let queue: ResendQueue = ResendQueue { entries: VecDeque::new(), next_key: 0 };
        assert(queue@.entries =~= Seq::empty());
        queue
    }

    pub fn len(&self) -> (len: usize)
        ensures
            len == self@.entries.len(),
    {
        self.entries.len()
    }

    /// The entry to be sent first.
    pub fn peek(&self) -> (entry: Option<&Entry>)
        ensures
            match entry {
                Some(entry) => self@.entries.len() > 0 && entry@ == self@.entries[0],
                None => self@.entries.len() == 0,
            },
    {
        if self.entries.len() == 0 {
            None
        } else {
            Some(&self.entries[0])
        }
    }

    /// Takes out the entry to be sent first.
    pub fn pop(&mut self) -> (entry: Option<Entry>)
        requires
            old(self).wf(),
        ensures
            final(self).wf(),
            match entry {
                Some(entry) => {
                    &&& old(self)@.entries.len() > 0
                    &&& entry@ == old(self)@.entries[0]
                    &&& final(self)@ == (ResendQueueView {
                        entries: old(self)@.entries.skip(1),
                        ..old(self)@
                    })
                },
                None => old(self)@.entries.len() == 0 && final(self)@ == old(self)@,
            },
    {
        let entry: Option<Entry> = self.entries.pop_front();
        if entry.is_some() {
            assert(self@.entries =~= old(self)@.entries.skip(1));
        }
        entry
    }

    /// Puts `entry` behind all those that are to be sent at its time or before.
    pub fn push(&mut self, entry: Entry)
        requires
            old(self).wf(),
            resend_wf(entry@),
        ensures
            final(self).wf(),
            final(self)@ == (ResendQueueView {
                entries: insert_by_time(old(self)@.entries, entry@),
                ..old(self)@
            }),
    {
        let ghost pushed = entry@;
        let ghost time = pushed.resend_time;
        let ghost before = self@.entries;
        let mut at: usize = self.entries.len();
        assert(before.take(at as int) =~= before);
        while at > 0 && self.entries[at - 1].resend_time > entry.resend_time
            invariant
                at <= self.entries@.len(),
                self.entries@.len() == before.len(),
                before == self@.entries,
                time == entry.resend_time,
                rank(before.take(at as int), time) == rank(before, time),
            decreases at,
        {
            assert(before.take(at as int).last() == self.entries@[at - 1]@);
            assert(before.take(at as int).drop_last() =~= before.take(at - 1));
            at -= 1;
        }
        proof {
            if at > 0 {
                assert(before.take(at as int).last() == self.entries@[at - 1]@);
            }
            lemma_insert_by_time_sorted(before, pushed);
            lemma_insert_by_time(before, pushed);
        }
        self.entries.insert(at, entry);
        assert(self@.entries =~= insert_by_time(before, pushed));
    }

    /// Gives out a key. A key comes again only once all others have been given out.
    pub fn fresh_key(&mut self) -> (key: u64)
        ensures
            key == old(self)@.next_key,
            final(self)@ == (ResendQueueView {
                next_key: old(self)@.next_key.wrapping_add(1),
                ..old(self)@
            }),
    {
        let key: u64 = self.next_key;
        self.next_key = key.wrapping_add(1);
        key
    }

    /// Marks the datagram with the key `key` as acknowledged, if the queue still holds it.
    pub fn acknowledge(&mut self, key: u64)
        requires
            old(self).wf(),
        ensures
            final(self).wf(),
            final(self)@ == (ResendQueueView {
                entries: old(self)@.entries.map_values(|entry| acknowledge_key(entry, key)),
                ..old(self)@
            }),
    {
        let ghost before = self@.entries;
        let len: usize = self.entries.len();
        let mut i: usize = 0;
        while i < len
            invariant
                i <= len == before.len(),
                self.entries@.len() == len,
                before == old(self)@.entries,
                self@.next_key == old(self)@.next_key,
                forall|j: int|
                    0 <= j < i ==> (#[trigger] self.entries@[j])@ == acknowledge_key(
                        before[j],
                        key,
                    ),
                forall|j: int| i <= j < len ==> (#[trigger] self.entries@[j])@ == before[j],
            decreases len - i,
        {
            let ghost entries = self.entries@;
            if self.entries[i].persistent_datagram.key == key {
                if let Some(mut entry) = self.entries.remove(i) {
                    entry.persistent_datagram.acknowledged = true;
                    let ghost marked = entry;
                    self.entries.insert(i, entry);
                    assert(self.entries@ =~= entries.update(i as int, marked));
                    assert(entries[i as int]@ == before[i as int]);
                }
            } else {
                assert(entries[i as int]@ == before[i as int]);
            }
            i += 1;
        }
        assert(self@.entries =~= before.map_values(|entry| acknowledge_key(entry, key)));
    }
}

} // verus!
