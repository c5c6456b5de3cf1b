use vstd::prelude::*;

use std::collections::VecDeque;

use crate::pattern::PatternId;

verus! {

/// A removal of a pattern from a cell, packed as the cell index in the high 32 bits and the
/// pattern id in the low 32 bits.
#[derive(Debug, Clone, Copy)]
pub struct UndoEntry(pub u64);

impl UndoEntry {
    /// The cell the entry speaks of.
    pub open spec fn cell(self) -> usize {
        (self.0 >> 32u64) as usize
    }

    /// The pattern the entry speaks of.
    pub open spec fn pattern(self) -> PatternId {
        (self.0 & 0xffff_ffffu64) as usize
    }

    /// Packs a cell index and a pattern id: the cell index shifted into the high half, or-ed with
    /// the pattern id; both come back out when they are below 2^32.
    pub fn new(cell_index: usize, pattern_id: PatternId) -> (r: Self)
        ensures
            r.0 == ((cell_index as u64) << 32u64) | (pattern_id as u64),
            cell_index <= u32::MAX && pattern_id <= u32::MAX ==> r.cell() == cell_index && r.pattern() == pattern_id,
    {
        let c = cell_index as u64;
        let p = pattern_id as u64;
        let packed = (c << 32u64) | p;
        proof {
            if cell_index <= u32::MAX && pattern_id <= u32::MAX {
                lemma_pack_unpack(c, p);
            }
        }
        Self(packed)
    }

    pub fn cell_index(self) -> (r: usize)
        ensures
            r == self.cell(),
    {
        (self.0 >> 32u64) as usize
    }

    pub fn pattern_id(self) -> (r: PatternId)
        ensures
            r == self.pattern(),
    {
        (self.0 & 0xffff_ffffu64) as usize
    }
}

/// Unpacking a packed pair gives back both halves.
pub proof fn lemma_pack_unpack(c: u64, p: u64)
    requires
        c <= u32::MAX,
        p <= u32::MAX,
    ensures
        ((c << 32u64) | p) >> 32u64 == c,
        ((c << 32u64) | p) & 0xffff_ffffu64 == p,
{
    assert(((c << 32u64) | p) >> 32u64 == c) by (bit_vector)
        requires
            c <= 0xffff_ffffu64,
            p <= 0xffff_ffffu64,
    ;
    assert(((c << 32u64) | p) & 0xffff_ffffu64 == p) by (bit_vector)
        requires
            c <= 0xffff_ffffu64,
            p <= 0xffff_ffffu64,
    ;
}

/// The removals made since some point, oldest first; `base_position` counts the entries already
/// dropped from the front, so that a checkpoint names a place in the whole history.
pub struct UndoLog {
    entries: VecDeque<UndoEntry>,
    base_position: u64,
}

impl UndoLog {
    /// The entries kept, oldest first.
    pub closed spec fn entries_view(&self) -> Seq<UndoEntry> {
        self.entries@
    }

    /// Number of entries dropped from the front so far.
    pub closed spec fn base(&self) -> nat {
        self.base_position as nat
    }

    /// The checkpoint after the last entry.
    pub open spec fn end(&self) -> nat {
        self.base() + self.entries_view().len()
    }

    pub fn new() -> (r: Self)
        ensures
            r.entries_view() == Seq::<UndoEntry>::empty(),
            r.base() == 0,
    {
        Self { entries: VecDeque::new(), base_position: 0 }
    }

    /// The checkpoint after the last entry.
    pub fn checkpoint(&self) -> (r: u64)
        requires
            self.end() <= u64::MAX,
        ensures
            r == self.end(),
    {
        self.base_position + (self.entries.len() as u64)
    }

    /// Number of entries kept.
    pub fn len(&self) -> (r: usize)
        ensures
            r == self.entries_view().len(),
    {
        self.entries.len()
    }

    pub fn push(&mut self, entry: UndoEntry)
        ensures
            final(self).entries_view() == old(self).entries_view().push(entry),
            final(self).base() == old(self).base(),
    {
        self.entries.push_back(entry);
    }

    /// Takes the newest entry off.
    pub fn pop_back(&mut self) -> (r: Option<UndoEntry>)
        ensures
            final(self).base() == old(self).base(),
            old(self).entries_view().len() == 0 ==> r is None && final(self).entries_view() == old(self).entries_view(),
            old(self).entries_view().len() > 0 ==> r == Some(old(self).entries_view().last())
                && final(self).entries_view() == old(self).entries_view().drop_last(),
    {
        let r = self.entries.pop_back();
        proof {
            if old(self).entries@.len() > 0 {
                assert(self.entries@ =~= old(self).entries@.drop_last());
            }
        }
        r
    }

    /// Drops the entries before `checkpoint`.
    pub fn discard_before(&mut self, checkpoint: u64)
        requires
            old(self).base() <= checkpoint <= old(self).end(),
        ensures
            final(self).base() == checkpoint,
            final(self).entries_view() == old(self).entries_view().skip(checkpoint - old(self).base()),
    {
        while self.base_position < checkpoint
            invariant
                old(self).base() <= self.base() <= checkpoint <= old(self).end(),
                self.entries_view() == old(self).entries_view().skip(self.base() - old(self).base()),
            decreases checkpoint - self.base_position,
        {
            self.entries.pop_front();
            self.base_position = self.base_position + 1;
            proof {
                assert(self.entries@ =~= old(self).entries_view().skip(self.base() - old(self).base()));
            }
        }
    }

    /// Drops every entry, keeping the checkpoint where it is.
    pub fn clear_committed(&mut self)
        requires
            old(self).end() <= u64::MAX,
        ensures
            final(self).base() == old(self).end(),
            final(self).entries_view() == Seq::<UndoEntry>::empty(),
    {
        self.base_position = self.checkpoint();
        self.entries.clear();
    }
}

/// What is pushed on the history is what the next pop takes off, leaving the history as it was.
pub proof fn lemma_push_pop(entries: Seq<UndoEntry>, entry: UndoEntry)
    ensures
        entries.push(entry).len() > 0,
        entries.push(entry).last() == entry,
        entries.push(entry).drop_last() == entries,
{
    assert(entries.push(entry).drop_last() =~= entries);
}

} // verus!
