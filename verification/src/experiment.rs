//! Items with values, walked with the running sum of the values before
//! each.

use vstd::prelude::*;
use vstd::std_specs::iter::IteratorSpec;

verus! {

#[derive(Debug, Clone, Copy, PartialEq, Eq)]
pub struct VItem {
    pub value: u32,
}

pub struct VItems {
    pub items: Vec<VItem>,
}

impl VItems {
    pub fn new(items: Vec<VItem>) -> (r: Self)
        ensures
            r.items@ == items@,
    {
        Self { items }
    }

    /// An iterator over the items, in order.
    pub fn iter(&self) -> (r: std::slice::Iter<'_, VItem>)
        ensures
            IteratorSpec::remaining(&r) == self.items@.as_ref(),
    {
        self.items.as_slice().iter()
    }
}

/// A walk over items that gives, for each, its count from 1, the sum of
/// the values before it, and the item.
pub struct ValueSumIterator<'a> {
    pub items: &'a Vec<&'a VItem>,
    pub count: usize,
    pub pos: usize,
}

impl<'a> ValueSumIterator<'a> {
    /// The next item: its count from 1, the sum of the values before it
    /// and the item; none after the last.
    pub fn next(&mut self) -> (r: Option<(usize, usize, &'a VItem)>)
        requires
            old(self).count < old(self).items@.len() ==> old(self).pos + old(self).items@[old(
                self,
            ).count as int].value <= usize::MAX,
        ensures
            old(self).count >= old(self).items@.len() ==> r is None && *final(self) == *old(self),
            old(self).count < old(self).items@.len() ==> {
                let item = old(self).items@[old(self).count as int];
                &&& r == Some(((old(self).count + 1) as usize, old(self).pos, item))
                &&& final(self).items == old(self).items
                &&& final(self).count == old(self).count + 1
                &&& final(self).pos == old(self).pos + item.value
            },
    {
        if self.count < self.items.len() {
            let item: &'a VItem = self.items[self.count];
            self.count = self.count + 1;
            let current_pos = self.pos;
            self.pos = self.pos + item.value as usize;
            return Some((self.count, current_pos, item));
        }
        None
    }
}

} // verus!
