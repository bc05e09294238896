//! A walk over the neighbouring pairs of a list.

use vstd::prelude::*;

verus! {

#[derive(Debug)]
pub struct PairIterator<'a, T> {
    pub items: &'a Vec<&'a T>,
    pub idx: usize,
    pub pos: usize,
}

impl<'a, T> PairIterator<'a, T> {
    pub fn new(items: &'a Vec<&'a T>) -> (r: Self)
        ensures
            r.items == items,
            r.idx == 0,
            r.pos == 0,
    {
        Self { items, idx: 0, pos: 0 }
    }

    /// The next pair: a list of one item gives that item alone once; a
    /// longer one gives each item with the one after it; then none.
    pub fn next(&mut self) -> (r: Option<(Option<&'a T>, Option<&'a T>)>)
        requires
            old(self).items@.len() > 0,
        ensures
            final(self).items == old(self).items,
            final(self).pos == old(self).pos,
            ({
                let n = old(self).items@.len();
                let i = old(self).idx;
                if i == 0 && n < 2 {
                    r == Some((Some(old(self).items@[0]), None::<&'a T>)) && final(self).idx == i + 1
                } else if i < n - 1 {
                    r == Some((Some(old(self).items@[i as int]), Some(old(self).items@[i + 1])))
                        && final(self).idx == i + 1
                } else {
                    r is None && final(self).idx == i
                }
            }),
    {
        if self.idx == 0 && self.items.len() < 2 {
            self.idx = self.idx + 1;
            return Some((Some(self.items[0]), None));
        }
        if self.idx < self.items.len() - 1 {
            let item_left = Some(self.items[self.idx]);
            let item_right = Some(self.items[self.idx + 1]);
            self.idx = self.idx + 1;
            return Some((item_left, item_right));
        }
        None
    }
}

} // verus!
