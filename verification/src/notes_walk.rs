//! Walks over the notes of a voice: each note with where it starts and
//! ends, or each note with the one after it.

use vstd::prelude::*;

use crate::note::{Note, Notes};

verus! {

/// Walks the notes, counting where each starts and ends.
pub struct NotesPositions<'a> {
    pub notes: &'a Notes,
    pub idx: usize,
    pub pos: usize,
}

impl<'a> NotesPositions<'a> {
    pub fn new(notes: &'a Notes) -> (r: Self)
        ensures
            r.notes == notes,
            r.idx == 0,
            r.pos == 0,
    {
        Self { notes, idx: 0, pos: 0 }
    }

    /// The next note with its index and where it starts and ends, counted
    /// from where the walk started; none once all are given.
    pub fn next(&mut self) -> (r: Option<(usize, usize, usize, &'a Note)>)
        requires
            old(self).idx < old(self).notes.items@.len() ==> old(self).pos + old(self).notes.items@[old(
                self,
            ).idx as int].duration <= usize::MAX,
        ensures
            final(self).notes == old(self).notes,
            ({
                let i = old(self).idx;
                let p = old(self).pos;
                if i < old(self).notes.items@.len() {
                    let n = old(self).notes.items@[i as int];
                    &&& r == Some((i, p, (p + n.duration) as usize, &old(self).notes.items@[i as int]))
                    &&& final(self).idx == i + 1
                    &&& final(self).pos == p + n.duration
                } else {
                    &&& r is None
                    &&& final(self).idx == i
                    &&& final(self).pos == p
                }
            }),
    {
        if self.idx < self.notes.items.len() {
            let n = &self.notes.items[self.idx];
            let cur_idx = self.idx;
            let cur_pos = self.pos;
            let end_pos = cur_pos + n.duration;
            self.idx = self.idx + 1;
            self.pos = end_pos;
            return Some((cur_idx, cur_pos, end_pos, n));
        }
        None
    }
}

/// Walks the notes two by two.
pub struct NotesPairs<'a> {
    pub notes: &'a Notes,
    pub idx: usize,
}

impl<'a> NotesPairs<'a> {
    pub fn new(notes: &'a Notes) -> (r: Self)
        ensures
            r.notes == notes,
            r.idx == 0,
    {
        Self { notes, idx: 0 }
    }

    /// The next pair: of one note, that note alone, once; of more, each
    /// note with the one after it; then none.
    pub fn next(&mut self) -> (r: Option<(usize, Option<&'a Note>, Option<&'a Note>)>)
        ensures
            final(self).notes == old(self).notes,
            ({
                let s = old(self).notes.items@;
                let i = old(self).idx;
                if s.len() == 1 && i == 0 {
                    r == Some((0usize, Some(&s[0]), None::<&'a Note>)) && final(self).idx == 1
                } else if s.len() >= 2 && i < s.len() - 1 {
                    r == Some((i, Some(&s[i as int]), Some(&s[i + 1]))) && final(self).idx == i + 1
                } else {
                    r is None && final(self).idx == i
                }
            }),
    {
        let n = self.notes.items.len();
        if n == 0 {
            return None;
        }
        if n == 1 {
            if self.idx == 0 {
                self.idx = self.idx + 1;
                return Some((0, Some(&self.notes.items[0]), None));
            }
            return None;
        }
        if self.idx < n - 1 {
            let n1 = &self.notes.items[self.idx];
            let n2 = &self.notes.items[self.idx + 1];
            let cur_idx = self.idx;
            self.idx = self.idx + 1;
            return Some((cur_idx, Some(n1), Some(n2)));
        }
        None
    }
}

} // verus!
