//! The data frames that await an acknowledgement.
use crate::MAX_FRAME_TRANSFER_WINDOW_SIZE;
use std::collections::VecDeque;
use vstd::prelude::*;

verus! {

/// When a frame was sent, and the keys of its persistent datagrams.
#[derive(Debug, PartialEq, Eq)]
pub struct Entry {
    pub send_time_ms: u64,
    pub persistent_datagrams: Box<[u64]>,
}

/// What an `Entry` holds.
#[verifier::ext_equal]
pub struct LoggedFrame {
    pub send_time_ms: u64,
    pub persistent_datagrams: Seq<u64>,
}

impl View for Entry {
    type V = LoggedFrame;

    open spec fn view(&self) -> LoggedFrame {
        LoggedFrame {
            send_time_ms: self.send_time_ms,
            persistent_datagrams: self.persistent_datagrams@,
        }
    }
}

/// `id + n`, where IDs start again at zero after the largest one.
pub open spec fn id_after(id: u32, n: int) -> u32 {
    ((id + n) % 0x1_0000_0000) as u32
}

/// The frames that a `FrameLog` holds, oldest first; their IDs count up from `base_id`.
#[verifier::ext_equal]
pub struct FrameLogView {
    pub base_id: u32,
    pub frames: Seq<LoggedFrame>,
}

impl FrameLogView {
    /// The ID of the next frame.
    pub open spec fn next_id(self) -> u32 {
        id_after(self.base_id, self.frames.len() as int)
    }

    /// Whether the log takes no more frames.
    pub open spec fn is_full(self) -> bool {
        self.frames.len() >= MAX_FRAME_TRANSFER_WINDOW_SIZE
    }

    pub open spec fn push(self, frame: LoggedFrame) -> FrameLogView {
        FrameLogView { base_id: self.base_id, frames: self.frames.push(frame) }
    }
}

/// A window of consecutive frames.
pub struct FrameLog {
    base_id: u32,
    entries: VecDeque<Entry>,
}

impl View for FrameLog {
    type V = FrameLogView;

    closed spec fn view(&self) -> FrameLogView {
        FrameLogView {
            base_id: self.base_id,
            frames: self.entries@.map_values(|entry: Entry| entry@),
        }
    }
}

impl FrameLog {
    /// The window does not hold more frames than it may.
    pub open spec fn wf(&self) -> bool {
        self@.frames.len() <= MAX_FRAME_TRANSFER_WINDOW_SIZE
    }

    /// An empty log, whose first frame will have the ID `base_id`.
    pub fn new(base_id: u32) -> (log: Self)
        ensures
            log.wf(),
            log@ == (FrameLogView { base_id, frames: Seq::empty() }),
    {
        let log: FrameLog = FrameLog { base_id, entries: VecDeque::new() };
        assert(log@.frames =~= Seq::empty());
        log
    }

    pub fn len(&self) -> (len: u32)
        requires
            self.wf(),
        ensures
            len == self@.frames.len(),
    {
        self.entries.len() as u32
    }

    /// The ID of the next frame.
    pub fn next_id(&self) -> (id: u32)
        requires
            self.wf(),
        ensures
            id == self@.next_id(),
    {
        self.base_id.wrapping_add(self.entries.len() as u32)
    }

    /// Appends the frame with the next ID.
    pub fn push(&mut self, frame_id: u32, entry: Entry)
        requires
            old(self).wf(),
            !old(self)@.is_full(),
            frame_id == old(self)@.next_id(),
        ensures
            final(self).wf(),
            final(self)@ == old(self)@.push(entry@),
    {
        let ghost pushed = entry@;
        self.entries.push_back(entry);
        assert(self@.frames =~= old(self)@.frames.push(pushed));
    }

    /// The frame with the ID `frame_id`, if the log holds it.
    pub fn get(&self, frame_id: u32) -> (entry: Option<&Entry>)
        requires
            self.wf(),
        ensures
            match entry {
                Some(entry) => exists|i: int|
                    0 <= i < self@.frames.len() && frame_id == id_after(self@.base_id, i)
                        && entry@ == #[trigger] self@.frames[i],
                None => forall|i: int|
                    0 <= i < self@.frames.len() ==> frame_id != #[trigger] id_after(
                        self@.base_id,
                        i,
                    ),
            },
    {
        let index: u32 = frame_id.wrapping_sub(self.base_id);
        assert(frame_id == id_after(self.base_id, index as int));
        if index < self.entries.len() as u32 {
            let entry: &Entry = &self.entries[index as usize];
            assert(entry@ == self@.frames[index as int]);
            Some(entry)
        } else {
            None
        }
    }

    /// Takes out the oldest frame.
    pub fn pop(&mut self) -> (entry: Option<Entry>)
        requires
            old(self).wf(),
        ensures
            final(self).wf(),
            match entry {
                Some(entry) => {
                    &&& old(self)@.frames.len() > 0
                    &&& entry@ == old(self)@.frames[0]
                    &&& final(self)@ == (FrameLogView {
                        base_id: id_after(old(self)@.base_id, 1),
                        frames: old(self)@.frames.skip(1),
                    })
                },
                None => old(self)@.frames.len() == 0 && final(self)@ == old(self)@,
            },
    {
        let entry: Option<Entry> = self.entries.pop_front();
        if entry.is_some() {
            self.base_id = self.base_id.wrapping_add(1);
            assert(self@.frames =~= old(self)@.frames.skip(1));
        }
        entry
    }
}

} // verus!
