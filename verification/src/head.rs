//! Note heads and chords of heads.

use vstd::prelude::*;

use crate::core_defs::{Accidental, TieFromType, TieToType};

verus! {

#[derive(Debug, PartialEq, Eq, Hash, Clone, Copy, Structural)]
pub enum HeadPlacement {
    Left,
    Center,
    Right,
}

impl Default for HeadPlacement {
    fn default() -> (r: Self)
        ensures
            r == HeadPlacement::Center,
    {
        HeadPlacement::Center
    }
}

/// A colour that a line between heads can have.
#[derive(Debug, PartialEq, Eq, Hash, Clone, Copy, Structural)]
pub enum NColor {
    Red,
    Blue,
    Green,
    Orange,
    Tomato,
    Dodgerblue,
    Lime,
}

/// The kind of line drawn from a head to the head of the next note.
#[derive(Debug, PartialEq, Eq, Hash, Clone, Copy, Structural)]
pub enum HeadLineType {
    Halfstep,
    Wholestep,
    LineColor(NColor),
    Line,
}

/// A line that leaves a head: the indexes of the heads it joins and its kind.
#[derive(Debug, PartialEq, Eq, Hash, Clone, Copy, Structural)]
pub struct HeadLine(pub u8, pub u8, pub HeadLineType);

/// A line that arrives at a note: the levels it joins and its kind.
#[derive(Debug, PartialEq, Eq, Hash, Clone, Copy, Structural)]
pub struct HeadLineTo(pub i8, pub i8, pub HeadLineType);

/// One head of a note: its level on the staff (0 the middle line, a
/// higher number a lower place) and what is attached to it.
#[derive(Debug, PartialEq, Eq, Hash, Clone, Copy, Structural)]
pub struct Head {
    pub level: i8,
    pub accidental: Option<Accidental>,
    pub tie: Option<TieFromType>,
    pub tie_to: Option<TieToType>,
    pub line: Option<HeadLine>,
    // calculated
    pub placement: HeadPlacement,
}

impl Head {
    /// A plain head on a level.
    pub fn new(level: i8) -> (r: Self)
        ensures
            r == (Head {
                level,
                accidental: None,
                tie: None,
                tie_to: None,
                line: None,
                placement: HeadPlacement::Center,
            }),
    {
        Self { level, tie: None, tie_to: None, line: None, accidental: None, placement: HeadPlacement::Center }
    }

    /// A plain head on a level.
    pub fn from_level(level: i8) -> (r: Self)
        ensures
            r == Head::spec_plain(level),
    {
        Self::new(level)
    }

    pub open spec fn spec_plain(level: i8) -> Head {
        Head {
            level,
            accidental: None,
            tie: None,
            tie_to: None,
            line: None,
            placement: HeadPlacement::Center,
        }
    }

    /// A head on a level with an accidental, a tie, a tie arriving at it and
    /// a line leaving it.
    pub fn new_with_attributes(
        level: i8,
        accidental: Option<Accidental>,
        tie: Option<TieFromType>,
        tie_to: Option<TieToType>,
        line: Option<HeadLine>,
    ) -> (r: Self)
        ensures
            r == (Head { level, accidental, tie, tie_to, line, placement: HeadPlacement::Center }),
    {
        Self { level, accidental, tie, tie_to, line, placement: HeadPlacement::Center }
    }
}

impl Default for Head {
    fn default() -> (r: Self)
        ensures
            r == Head::spec_plain(0),
    {
        Self::new(0)
    }
}

/// The heads of `s` that stand on level `l`, in order.
pub open spec fn on_level(s: Seq<Head>, l: i8) -> Seq<Head>
    decreases s.len(),
{
    if s.len() == 0 {
        s
    } else if s.last().level == l {
        on_level(s.drop_last(), l).push(s.last())
    } else {
        on_level(s.drop_last(), l)
    }
}

/// Heads in order of their levels, from the top down.
pub open spec fn sorted_by_level(s: Seq<Head>) -> bool {
    forall|i: int, j: int| 0 <= i < j < s.len() ==> s[i].level <= s[j].level
}

/// `out` is `input` sorted by level, heads on the same level kept in their
/// order: what a stable sort by level gives.
pub open spec fn stable_sorted_by_level(input: Seq<Head>, out: Seq<Head>) -> bool {
    &&& sorted_by_level(out)
    &&& forall|l: i8| #[trigger] on_level(out, l) == on_level(input, l)
}

pub proof fn lemma_on_level_add(a: Seq<Head>, b: Seq<Head>, l: i8)
    ensures
        on_level(a + b, l) == on_level(a, l) + on_level(b, l),
    decreases b.len(),
{
    if b.len() == 0 {
        assert(a + b =~= a);
        assert(on_level(a, l) + on_level(b, l) =~= on_level(a, l));
    } else {
        lemma_on_level_add(a, b.drop_last(), l);
        assert((a + b).drop_last() =~= a + b.drop_last());
        assert((a + b).last() == b.last());
        if b.last().level == l {
            assert(on_level(a, l) + on_level(b, l) =~= (on_level(a, l) + on_level(b.drop_last(), l)).push(b.last()));
        }
    }
}

pub proof fn lemma_on_level_none(s: Seq<Head>, l: i8)
    requires
        forall|k: int| 0 <= k < s.len() ==> s[k].level != l,
    ensures
        on_level(s, l) == Seq::<Head>::empty(),
    decreases s.len(),
{
    if s.len() > 0 {
        lemma_on_level_none(s.drop_last(), l);
    }
}

pub proof fn lemma_on_level_single(h: Head, l: i8)
    ensures
        on_level(seq![h], l) == (if h.level == l { seq![h] } else { Seq::<Head>::empty() }),
{
    let e = Seq::<Head>::empty();
    assert(seq![h].drop_last() =~= e);
    assert(seq![h].last() == h);
    assert(on_level(e, l) == e);
    assert(on_level(seq![h], l) == if h.level == l { on_level(e, l).push(h) } else { on_level(e, l) });
    if h.level == l {
        assert(e.push(h) =~= seq![h]);
    }
}

/// Sorts heads by level, keeping heads on one level in their order.
pub fn sort_heads(items: Vec<Head>) -> (out: Vec<Head>)
    ensures
        stable_sorted_by_level(items@, out@),
        out@.len() == items@.len(),
{
    let mut out: Vec<Head> = Vec::new();
    let mut i: usize = 0;
    assert(items@.take(0) =~= out@);
    while i < items.len()
        invariant
            i <= items@.len(),
            out@.len() == i,
            stable_sorted_by_level(items@.take(i as int), out@),
        decreases items.len() - i,
    {
        let x = items[i];
        let mut p: usize = 0;
        while p < out.len() && out[p].level <= x.level
            invariant
                p <= out@.len(),
                forall|k: int| 0 <= k < p ==> out@[k].level <= x.level,
            decreases out.len() - p,
        {
            p = p + 1;
        }
        let ghost old_out = out@;
        out.insert(p, x);
        proof {
            assert(old_out.take(p as int) + seq![x] + old_out.skip(p as int) =~= out@);
            assert(items@.take(i + 1) =~= items@.take(i as int) + seq![x]);
            assert forall|k: int| p < k < old_out.len() implies old_out[k].level > x.level by {
                assert(old_out[p as int].level > x.level);
            }
            assert forall|a: int, b: int| 0 <= a < b < out@.len() implies out@[a].level <= out@[b].level by {
                if b < p {
                } else if b == p {
                } else if a < p {
                    assert(out@[b] == old_out[b - 1]);
                } else if a == p {
                    assert(out@[b] == old_out[b - 1]);
                    assert(old_out[p as int].level > x.level);
                    if b - 1 > p {
                        assert(old_out[p as int].level <= old_out[b - 1].level);
                    }
                } else {
                    assert(out@[a] == old_out[a - 1]);
                    assert(out@[b] == old_out[b - 1]);
                }
            }
            assert forall|l: i8| #[trigger] on_level(out@, l) == on_level(items@.take(i + 1), l) by {
                let pre = old_out.take(p as int);
                let post = old_out.skip(p as int);
                assert(old_out =~= pre + post);
                lemma_on_level_add(pre, post, l);
                lemma_on_level_add(pre + seq![x], post, l);
                lemma_on_level_add(pre, seq![x], l);
                lemma_on_level_add(items@.take(i as int), seq![x], l);
                lemma_on_level_single(x, l);
                if x.level == l {
                    assert forall|k: int| 0 <= k < post.len() implies post[k].level != l by {
                        assert(post[k] == old_out[p + k]);
                    }
                    lemma_on_level_none(post, l);
                    assert(on_level(pre, l) + on_level(post, l) =~= on_level(pre, l));
                    assert(on_level(pre, l) + seq![x] + on_level(post, l) =~= on_level(pre, l) + seq![x]);
                } else {
                    assert(on_level(pre, l) + Seq::<Head>::empty() =~= on_level(pre, l));
                    assert(on_level(items@.take(i as int), l) + Seq::<Head>::empty() =~= on_level(items@.take(i as int), l));
                }
            }
        }
        i = i + 1;
    }
    assert(items@.take(items@.len() as int) =~= items@);
    out
}

/// The heads of one note, sorted by level; `top` is the highest level
/// number's opposite end: the first level, `bottom` the last.
#[derive(Debug, PartialEq, Eq)]
pub struct Heads {
    pub heads: Vec<Head>,
    pub top: i8,
    pub bottom: i8,
}

impl Heads {
    /// Heads that `Heads::new` can make: at least one, sorted, with the
    /// first and last level recorded.
    pub open spec fn wf(&self) -> bool {
        &&& self.heads@.len() > 0
        &&& sorted_by_level(self.heads@)
        &&& self.top == self.heads@[0].level
        &&& self.bottom == self.heads@.last().level
    }

    /// Sorts the heads by level (a stable sort); `top` is the smallest
    /// level, `bottom` the largest.
    pub fn new(heads: Vec<Head>) -> (r: Self)
        requires
            heads@.len() > 0,
        ensures
            r.wf(),
            stable_sorted_by_level(heads@, r.heads@),
            r.heads@.len() == heads@.len(),
            forall|i: int| 0 <= i < heads@.len() ==> r.top <= #[trigger] heads@[i].level <= r.bottom,
    {
        let ghost input = heads@;
        let sorted = sort_heads(heads);
        let top = sorted[0].level;
        let bottom = sorted[sorted.len() - 1].level;
        proof {
            assert forall|i: int| 0 <= i < input.len() implies top <= #[trigger] input[i].level <= bottom by {
                lemma_stable_sort_keeps(input, sorted@, i);
            }
        }
        Self { heads: sorted, top, bottom }
    }

    /// The levels of the heads, in order.
    pub fn levels(&self) -> (r: Vec<i8>)
        ensures
            r@ == self.heads@.map_values(|h: Head| h.level),
    {
        let mut r: Vec<i8> = Vec::new();
        let mut i: usize = 0;
        while i < self.heads.len()
            invariant
                i <= self.heads@.len(),
                r@ == self.heads@.take(i as int).map_values(|h: Head| h.level),
            decreases self.heads.len() - i,
        {
            r.push(self.heads[i].level);
            i = i + 1;
            assert(r@ =~= self.heads@.take(i as int).map_values(|h: Head| h.level));
        }
        assert(self.heads@.take(self.heads@.len() as int) =~= self.heads@);
        r
    }

    /// Each head with its level, in order.
    pub fn levels_heads(&self) -> (r: Vec<(i8, Head)>)
        ensures
            r@ == self.heads@.map_values(|h: Head| (h.level, h)),
    {
        let mut r: Vec<(i8, Head)> = Vec::new();
        let mut i: usize = 0;
        while i < self.heads.len()
            invariant
                i <= self.heads@.len(),
                r@ == self.heads@.take(i as int).map_values(|h: Head| (h.level, h)),
            decreases self.heads.len() - i,
        {
            let h = self.heads[i];
            r.push((h.level, h));
            i = i + 1;
            assert(r@ =~= self.heads@.take(i as int).map_values(|h: Head| (h.level, h)));
        }
        assert(self.heads@.take(self.heads@.len() as int) =~= self.heads@);
        r
    }

    /// The level and accidental of each head that has an accidental, in order.
    pub fn levels_accidentals(&self) -> (r: Vec<(i8, Accidental)>)
        ensures
            r@ == spec_levels_accidentals(self.heads@),
    {
        let mut r: Vec<(i8, Accidental)> = Vec::new();
        let mut i: usize = 0;
        while i < self.heads.len()
            invariant
                i <= self.heads@.len(),
                r@ == spec_levels_accidentals(self.heads@.take(i as int)),
            decreases self.heads.len() - i,
        {
            let h = self.heads[i];
            assert(self.heads@.take(i + 1).drop_last() =~= self.heads@.take(i as int));
            match h.accidental {
                Some(a) => {
                    r.push((h.level, a));
                },
                None => {},
            }
            i = i + 1;
        }
        assert(self.heads@.take(self.heads@.len() as int) =~= self.heads@);
        r
    }

    /// The level and tie of each head that has a tie, in order.
    pub fn levels_ties(&self) -> (r: Vec<(i8, TieFromType)>)
        ensures
            r@ == spec_levels_ties(self.heads@),
    {
        let mut r: Vec<(i8, TieFromType)> = Vec::new();
        let mut i: usize = 0;
        while i < self.heads.len()
            invariant
                i <= self.heads@.len(),
                r@ == spec_levels_ties(self.heads@.take(i as int)),
            decreases self.heads.len() - i,
        {
            let h = self.heads[i];
            assert(self.heads@.take(i + 1).drop_last() =~= self.heads@.take(i as int));
            match h.tie {
                Some(t) => {
                    r.push((h.level, t));
                },
                None => {},
            }
            i = i + 1;
        }
        assert(self.heads@.take(self.heads@.len() as int) =~= self.heads@);
        r
    }

    /// Whether a head stands on the level.
    pub fn has_level(&self, level: i8) -> (r: bool)
        ensures
            r == exists|i: int| 0 <= i < self.heads@.len() && #[trigger] self.heads@[i].level == level,
    {
        let mut i: usize = 0;
        while i < self.heads.len()
            invariant
                i <= self.heads@.len(),
                forall|k: int| 0 <= k < i ==> self.heads@[k].level != level,
            decreases self.heads.len() - i,
        {
            if self.heads[i].level == level {
                return true;
            }
            i = i + 1;
        }
        false
    }

    /// The first head on the level, if there is one.
    pub fn get_head(&self, level: i8) -> (r: Option<Head>)
        ensures
            r == spec_first_on_level(self.heads@, level),
    {
        let mut i: usize = 0;
        assert(self.heads@.skip(0) =~= self.heads@);
        while i < self.heads.len()
            invariant
                i <= self.heads@.len(),
                spec_first_on_level(self.heads@, level) == spec_first_on_level(self.heads@.skip(i as int), level),
            decreases self.heads.len() - i,
        {
            assert(self.heads@.skip(i as int).drop_first() =~= self.heads@.skip(i + 1));
            if self.heads[i].level == level {
                return Some(self.heads[i]);
            }
            i = i + 1;
        }
        None
    }

    /// The tie arriving at the first head on the level, if there is one.
    pub fn get_level_tie_to(&self, level: i8) -> (r: Option<TieToType>)
        ensures
            r == (match spec_first_on_level(self.heads@, level) {
                Some(h) => h.tie_to,
                None => None,
            }),
    {
        match self.get_head(level) {
            Some(h) => h.tie_to,
            None => None,
        }
    }
}

/// The first head of `s` on level `l`.
pub open spec fn spec_first_on_level(s: Seq<Head>, l: i8) -> Option<Head>
    decreases s.len(),
{
    if s.len() == 0 {
        None
    } else if s[0].level == l {
        Some(s[0])
    } else {
        spec_first_on_level(s.drop_first(), l)
    }
}

/// The level and accidental of each head of `s` that has one.
pub open spec fn spec_levels_accidentals(s: Seq<Head>) -> Seq<(i8, Accidental)>
    decreases s.len(),
{
    if s.len() == 0 {
        Seq::empty()
    } else {
        let prev = spec_levels_accidentals(s.drop_last());
        match s.last().accidental {
            Some(a) => prev.push((s.last().level, a)),
            None => prev,
        }
    }
}

/// The level and tie of each head of `s` that has one.
pub open spec fn spec_levels_ties(s: Seq<Head>) -> Seq<(i8, TieFromType)>
    decreases s.len(),
{
    if s.len() == 0 {
        Seq::empty()
    } else {
        let prev = spec_levels_ties(s.drop_last());
        match s.last().tie {
            Some(t) => prev.push((s.last().level, t)),
            None => prev,
        }
    }
}

/// A head of the input stands, in the stably sorted output, between the
/// first and the last level.
pub proof fn lemma_stable_sort_keeps(input: Seq<Head>, out: Seq<Head>, i: int)
    requires
        stable_sorted_by_level(input, out),
        0 <= i < input.len(),
    ensures
        out.len() > 0,
        out[0].level <= input[i].level <= out.last().level,
{
    let l = input[i].level;
    lemma_on_level_contains(input, l, i);
    assert(on_level(out, l) == on_level(input, l));
    let k = lemma_on_level_member(out, l);
    assert(out[k].level == l);
    if k > 0 {
        assert(out[0].level <= out[k].level);
    }
    if k < out.len() - 1 {
        assert(out[k].level <= out[out.len() - 1].level);
    }
}

/// A head on level `l` makes `on_level` non-empty.
pub proof fn lemma_on_level_contains(s: Seq<Head>, l: i8, i: int)
    requires
        0 <= i < s.len(),
        s[i].level == l,
    ensures
        on_level(s, l).len() > 0,
    decreases s.len(),
{
    if i < s.len() - 1 {
        lemma_on_level_contains(s.drop_last(), l, i);
    }
}

/// A non-empty `on_level` has a witness in the sequence.
pub proof fn lemma_on_level_member(s: Seq<Head>, l: i8) -> (k: int)
    requires
        on_level(s, l).len() > 0,
    ensures
        0 <= k < s.len(),
        s[k].level == l,
    decreases s.len(),
{
    if s.last().level == l {
        s.len() - 1
    } else {
        lemma_on_level_member(s.drop_last(), l)
    }
}

#[derive(Debug, PartialEq, Eq, Clone, Copy, Structural)]
pub struct HeadAttributes {}

#[derive(Debug, Copy, Clone, PartialEq, Eq, Structural)]
pub enum HeadType {
    NormalHead,
    WideHead,
}

#[derive(Debug, Copy, Clone, PartialEq, Eq, Structural)]
pub enum HeadShape {
    BlackHead,
    WhiteHead,
    WholeHead,
}

} // verus!
