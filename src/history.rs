use vstd::prelude::*;

verus! {

/// How many snapshots a history keeps before the oldest is dropped.
pub const HISTORY_CAPACITY: usize = 20;

/// Where the `i`-th oldest snapshot lives in the ring, counting from `start`.
pub open spec fn slot_of(start: int, i: int) -> int {
    if start + i < HISTORY_CAPACITY {
        start + i
    } else {
        start + i - HISTORY_CAPACITY
    }
}

/// The timeline after checkpointing `content` with the cursor at `cursor`:
/// snapshots after the cursor are dropped, `content` becomes the latest one,
/// and the oldest is evicted when the ring would overflow.
pub open spec fn checkpointed(snaps: Seq<Seq<char>>, cursor: int, content: Seq<char>) -> Seq<Seq<char>> {
    let grown = snaps.subrange(0, cursor + 1).push(content);
    if grown.len() > HISTORY_CAPACITY {
        grown.drop_first()
    } else {
        grown
    }
}

/// Checkpointing at the latest snapshot keeps all snapshots, but the oldest
/// once the ring is full, and puts the new content last: the count grows by
/// one up to the capacity and then stays there.
pub proof fn lemma_checkpoint_at_latest(snaps: Seq<Seq<char>>, content: Seq<char>)
    requires
        1 <= snaps.len() <= HISTORY_CAPACITY,
    ensures
        snaps.len() < HISTORY_CAPACITY ==> checkpointed(snaps, snaps.len() - 1, content) == snaps.push(
            content,
        ),
        snaps.len() == HISTORY_CAPACITY ==> checkpointed(snaps, snaps.len() - 1, content)
            == snaps.drop_first().push(content),
{
    assert(snaps.subrange(0, snaps.len() as int) =~= snaps);
    if snaps.len() == HISTORY_CAPACITY {
        assert(snaps.push(content).drop_first() =~= snaps.drop_first().push(content));
    }
}

/// A bounded timeline of content snapshots with a cursor for undo and redo.
///
/// The snapshots live in a fixed-capacity ring: `len` of them, the oldest at
/// slot `start`, so that evicting the oldest one costs no copying.
pub struct VersionHistory {
    slots: Vec<String>,
    start: usize,
    len: usize,
    cursor: usize,
}

impl VersionHistory {
    /// The snapshots, oldest first.
    pub closed spec fn snapshots(&self) -> Seq<Seq<char>> {
        Seq::new(self.len as nat, |i: int| self.slots@[slot_of(self.start as int, i)]@)
    }

    /// The index of the snapshot currently shown.
    pub closed spec fn cursor_spec(&self) -> int {
        self.cursor as int
    }

    pub closed spec fn wf(&self) -> bool {
        &&& self.slots@.len() <= HISTORY_CAPACITY
        &&& 1 <= self.len <= self.slots@.len()
        &&& self.start < self.slots@.len()
        &&& self.slots@.len() < HISTORY_CAPACITY ==> self.start == 0
        &&& self.cursor < self.len
    }

    /// Starts a history whose only snapshot is `initial_content`.
    pub fn new(initial_content: String) -> (h: Self)
        ensures
            h.wf(),
            h.snapshots() == seq![initial_content@],
            h.cursor_spec() == 0,
    {
        let mut slots: Vec<String> = Vec::new();
        slots.push(initial_content);
        let h = VersionHistory { slots, start: 0, len: 1, cursor: 0 };
        assert(h.snapshots() =~= seq![initial_content@]);
        h
    }

    /// The number of snapshots held.
    pub fn snapshot_count(&self) -> (n: usize)
        requires
            self.wf(),
        ensures
            n == self.snapshots().len(),
    {
        self.len
    }

    /// The index of the snapshot currently shown.
    pub fn cursor(&self) -> (c: usize)
        requires
            self.wf(),
        ensures
            c == self.cursor_spec(),
    {
        self.cursor
    }

    /// A copy of the snapshot at `index` (0 is the oldest), if there is one.
    pub fn snapshot(&self, index: usize) -> (r: Option<String>)
        requires
            self.wf(),
        ensures
            index < self.snapshots().len() <==> r.is_some(),
            r matches Some(s) ==> s@ == self.snapshots()[index as int],
    {
        if index < self.len {
            let s = self.slots[self.slot(index)].clone();
            Some(s)
        } else {
            None
        }
    }

    fn slot(&self, i: usize) -> (k: usize)
        requires
            self.wf(),
            i < self.len,
        ensures
            k == slot_of(self.start as int, i as int),
            k < self.slots@.len(),
    {
        if self.start + i < HISTORY_CAPACITY {
            self.start + i
        } else {
            self.start + i - HISTORY_CAPACITY
        }
    }

    /// Steps back one snapshot and returns it; `None` when the cursor is at
    /// the oldest one.
    pub fn undo(&mut self) -> (r: Option<String>)
        requires
            old(self).wf(),
        ensures
            final(self).wf(),
            final(self).snapshots() == old(self).snapshots(),
            old(self).cursor_spec() == 0 ==> r.is_none() && final(self).cursor_spec() == 0,
            old(self).cursor_spec() > 0 ==> final(self).cursor_spec() == old(self).cursor_spec() - 1
                && (r matches Some(s) && s@ == old(self).snapshots()[old(self).cursor_spec() - 1]),
    {
        if self.cursor == 0 {
            None
        } else {
            self.cursor = self.cursor - 1;
            let s = self.slots[self.slot(self.cursor)].clone();
            Some(s)
        }
    }

    /// Steps forward one snapshot and returns it; `None` when the cursor is
    /// at the latest one.
    pub fn redo(&mut self) -> (r: Option<String>)
        requires
            old(self).wf(),
        ensures
            final(self).wf(),
            final(self).snapshots() == old(self).snapshots(),
            old(self).cursor_spec() == old(self).snapshots().len() - 1 ==> r.is_none()
                && final(self).cursor_spec() == old(self).cursor_spec(),
            old(self).cursor_spec() < old(self).snapshots().len() - 1 ==> final(self).cursor_spec()
                == old(self).cursor_spec() + 1 && (r matches Some(s) && s@ == old(
                self,
            ).snapshots()[old(self).cursor_spec() + 1]),
    {
        if self.cursor + 1 == self.len {
            None
        } else {
            self.cursor = self.cursor + 1;
            let s = self.slots[self.slot(self.cursor)].clone();
            Some(s)
        }
    }

    /// Records `content` as the latest snapshot and moves the cursor to it.
    ///
    /// Snapshots after the cursor, those that undo stepped back over, are
    /// discarded first; when the ring is full the oldest one is evicted.
    pub fn add_content(&mut self, content: String)
        requires
            old(self).wf(),
        ensures
            final(self).wf(),
            final(self).snapshots() == checkpointed(
                old(self).snapshots(),
                old(self).cursor_spec(),
                content@,
            ),
            final(self).snapshots().len() <= HISTORY_CAPACITY,
            final(self).cursor_spec() == final(self).snapshots().len() - 1,
    {
        let ghost old_snaps = self.snapshots();
        let ghost added = content@;
        let keep = self.cursor + 1;
        if keep == HISTORY_CAPACITY {
            let s = self.start;
            self.slots.set(s, content);
            self.start = if s + 1 == HISTORY_CAPACITY {
                0
            } else {
                s + 1
            };
            self.len = HISTORY_CAPACITY;
            self.cursor = HISTORY_CAPACITY - 1;
            assert(self.snapshots() =~= checkpointed(old_snaps, keep - 1, added));
        } else {
            let pos = if self.start + keep < HISTORY_CAPACITY {
                self.start + keep
            } else {
                self.start + keep - HISTORY_CAPACITY
            };
            if pos == self.slots.len() {
                self.slots.push(content);
            } else {
                self.slots.set(pos, content);
            }
            self.len = keep + 1;
            self.cursor = keep;
            assert(self.snapshots() =~= checkpointed(old_snaps, keep - 1, added));
        }
    }
}

} // verus!
