//! Optional items walked in order, each present item given with the
//! present item before it.

use vstd::prelude::*;

verus! {

/// A list of optional items.
#[derive(Debug)]
pub struct SomeCloneablePairs<T> where T: Clone {
    pub items: Vec<Option<T>>,
}

/// A walk over the present items of a borrowed list.
pub struct SomeCloneablesRefsIter<'a, T> where T: Clone {
    pub holder: &'a SomeCloneablePairs<T>,
    pub idx: usize,
    pub prev_idx: Option<usize>,
}

/// A walk over the present items of an owned list.
pub struct SomeCloneablesOwnedIter<T> where T: Clone {
    pub holder: SomeCloneablePairs<T>,
    pub idx: usize,
    pub prev_idx: Option<usize>,
}

/// The first present item at or after `i`, if there is one.
pub open spec fn next_present<T>(items: Seq<Option<T>>, i: int) -> Option<int>
    decreases items.len() - i,
{
    if i < 0 || i >= items.len() {
        None
    } else if items[i] is Some {
        Some(i)
    } else {
        next_present(items, i + 1)
    }
}

/// A walk's state is sound: the item before is a present item before the
/// place reached.
pub open spec fn walk_ok<T>(items: Seq<Option<T>>, idx: usize, prev: Option<usize>) -> bool {
    prev matches Some(p) ==> p < idx && p < items.len() && items[p as int] is Some
}

/// What one step of a walk gives: the next present item at or after
/// `idx`, with (a copy of) the present item before it and its index.
pub open spec fn step_ok<T: Clone>(
    items: Seq<Option<T>>,
    idx: usize,
    prev: Option<usize>,
    r: Option<(Option<T>, Option<usize>, Option<T>, usize)>,
    idx2: usize,
    prev2: Option<usize>,
) -> bool {
    match next_present(items, idx as int) {
        None => r is None && prev2 == prev,
        Some(j) => r matches Some((p, pi, it, k)) && {
            &&& k == j
            &&& pi == prev
            &&& idx2 == j + 1
            &&& prev2 == Some(j as usize)
            &&& it is Some && cloned(items[j]->0, it->0)
            &&& match prev {
                Some(q) => p is Some && cloned(items[q as int]->0, p->0),
                None => p is None,
            }
        },
    }
}

/// One step over the items (see `step_ok`).
fn step<T: Clone>(items: &Vec<Option<T>>, idx: usize, prev_idx: Option<usize>) -> (r: (
    Option<(Option<T>, Option<usize>, Option<T>, usize)>,
    usize,
    Option<usize>,
))
    requires
        walk_ok(items@, idx, prev_idx),
    ensures
        step_ok(items@, idx, prev_idx, r.0, r.1, r.2),
        walk_ok(items@, r.1, r.2),
        r.1 >= idx,
{
    if idx >= items.len() {
        return (None, idx, prev_idx);
    }
    let mut i = idx;
    while i < items.len() && items[i].is_none()
        invariant
            idx <= i <= items@.len(),
            walk_ok(items@, idx, prev_idx),
            next_present(items@, idx as int) == next_present(items@, i as int),
        decreases items@.len() - i,
    {
        i = i + 1;
    }
    if i >= items.len() {
        return (None, i, prev_idx);
    }
    let prev = match prev_idx {
        Some(p) => match &items[p] {
            Some(x) => Some(x.clone()),
            None => None,
        },
        None => None,
    };
    let item = items[i].clone();
    (Some((prev, prev_idx, item, i)), i + 1, Some(i))
}

impl<T> SomeCloneablePairs<T> where T: Clone {
    /// A walk over the borrowed list from its start.
    pub fn iter(&self) -> (r: SomeCloneablesRefsIter<'_, T>)
        ensures
            r.holder == self,
            r.idx == 0,
            r.prev_idx is None,
    {
        SomeCloneablesRefsIter { holder: self, idx: 0, prev_idx: None }
    }

    /// A walk over the owned list from its start.
    pub fn into_iter(self) -> (r: SomeCloneablesOwnedIter<T>)
        ensures
            r.holder == self,
            r.idx == 0,
            r.prev_idx is None,
    {
        SomeCloneablesOwnedIter { holder: self, idx: 0, prev_idx: None }
    }
}

impl<'a, T> SomeCloneablesRefsIter<'a, T> where T: Clone {
    /// The next present item with the present item before it (see
    /// `step_ok`); none after the last.
    pub fn next(&mut self) -> (r: Option<(Option<T>, Option<usize>, Option<T>, usize)>)
        requires
            walk_ok(old(self).holder.items@, old(self).idx, old(self).prev_idx),
        ensures
            final(self).holder == old(self).holder,
            step_ok(old(self).holder.items@, old(self).idx, old(self).prev_idx, r, final(self).idx, final(self).prev_idx),
            walk_ok(final(self).holder.items@, final(self).idx, final(self).prev_idx),
    {
        let (r, idx, prev) = step(&self.holder.items, self.idx, self.prev_idx);
        self.idx = idx;
        self.prev_idx = prev;
        r
    }
}

impl<T> SomeCloneablesOwnedIter<T> where T: Clone {
    /// The next present item with the present item before it (see
    /// `step_ok`); none after the last.
    pub fn next(&mut self) -> (r: Option<(Option<T>, Option<usize>, Option<T>, usize)>)
        requires
            walk_ok(old(self).holder.items@, old(self).idx, old(self).prev_idx),
        ensures
            final(self).holder == old(self).holder,
            step_ok(old(self).holder.items@, old(self).idx, old(self).prev_idx, r, final(self).idx, final(self).prev_idx),
            walk_ok(final(self).holder.items@, final(self).idx, final(self).prev_idx),
    {
        let (r, idx, prev) = step(&self.holder.items, self.idx, self.prev_idx);
        self.idx = idx;
        self.prev_idx = prev;
        r
    }
}

} // verus!
