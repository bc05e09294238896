//! A chord of heads held by value, sorted by level.

use vstd::prelude::*;
use vstd::std_specs::iter::IteratorSpec;

use crate::head::{sort_heads, sorted_by_level, stable_sorted_by_level, Head};

verus! {

#[derive(Debug, PartialEq, Eq)]
pub struct Heads {
    pub items: Vec<Head>,
}

impl Heads {
    /// Sorts the heads by level, heads on one level kept in their order.
    pub fn new(items: Vec<Head>) -> (r: Self)
        requires
            items@.len() > 0,
        ensures
            stable_sorted_by_level(items@, r.items@),
            r.items@.len() == items@.len(),
    {
        let items = sort_heads(items);
        Self { items }
    }

    /// An iterator over the heads, in order.
    pub fn iter(&self) -> (r: std::slice::Iter<'_, Head>)
        ensures
            IteratorSpec::remaining(&r) == self.items@.as_ref(),
    {
        self.items.as_slice().iter()
    }

    /// The heads, to be changed in place.
    pub fn iter_mut(&mut self) -> (r: &mut [Head])
        ensures
            r@ == old(self).items@,
            final(self).items@ == final(r)@,
    {
        self.items.as_mut_slice()
    }

    /// The first level, the smallest of a sorted chord.
    pub fn get_level_top(&self) -> (r: i8)
        requires
            self.items@.len() > 0,
        ensures
            r == self.items@[0].level,
            sorted_by_level(self.items@) ==> forall|i: int|
                0 <= i < self.items@.len() ==> r <= #[trigger] self.items@[i].level,
    {
        self.items[0].level
    }

    /// The last level, the largest of a sorted chord.
    pub fn get_level_bottom(&self) -> (r: i8)
        requires
            self.items@.len() > 0,
        ensures
            r == self.items@.last().level,
            sorted_by_level(self.items@) ==> forall|i: int|
                0 <= i < self.items@.len() ==> #[trigger] self.items@[i].level <= r,
    {
        self.items[self.items.len() - 1].level
    }

    /// The levels of the heads, in order.
    pub fn get_levels(&self) -> (r: Vec<i8>)
        ensures
            r@ == self.items@.map_values(|h: Head| h.level),
    {
        let mut r: Vec<i8> = Vec::new();
        let mut i: usize = 0;
        while i < self.items.len()
            invariant
                i <= self.items@.len(),
                r@ == self.items@.take(i as int).map_values(|h: Head| h.level),
            decreases self.items.len() - i,
        {
            r.push(self.items[i].level);
            i = i + 1;
            assert(r@ =~= self.items@.take(i as int).map_values(|h: Head| h.level));
        }
        assert(self.items@.take(self.items@.len() as int) =~= self.items@);
        r
    }
}

} // verus!
