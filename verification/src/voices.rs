//! A list of voices with a value attached.

use vstd::prelude::*;

use crate::voice::Voice;

verus! {

#[derive(Debug)]
pub struct Voices {
    pub items: Vec<Voice>,
    pub val: u32,
}

impl Voices {
    /// The voices, with the value 128.
    pub fn new(items: Vec<Voice>) -> (r: Self)
        ensures
            r.items@ == items@,
            r.val == 128,
    {
        let val: u32 = 128;
        Self { items, val }
    }
}

} // verus!
