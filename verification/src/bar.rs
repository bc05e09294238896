//! Bars: the parts of a bar, bar attributes (clefs, times, keys), barlines
//! and spacers, and the sequence of bars with their positions.

use vstd::prelude::*;

use crate::core_defs::{ClefSignature, Duration, Position};
use crate::note::Notes;
use crate::part::{Part, PartMusicType, PartType};
use crate::playback::Key;
use crate::voice::{VoiceType, Voices};

verus! {

/// Where a tie is drawn on a head.
#[derive(Debug, PartialEq, Eq, Clone, Copy, Structural)]
pub enum TiePlacement {
    Top,
    Mid,
    Bottom,
}

#[derive(Debug, PartialEq, Eq, Clone, Copy, Structural)]
pub enum BarlineType {
    Single,
    Double,
    Final,
    RepeatTo,
    RepeatFrom,
    RepeatToAndFrom,
    FraseTick,
}

/// A bar without music: a barline, a vertical line, or a spacer whose
/// width and height are given as written in the code (each read as a
/// number where the bar is drawn).
#[derive(Debug, PartialEq, Eq)]
pub enum NonContentType {
    Barline(BarlineType),
    VerticalLine,
    Spacer(Option<String>, Option<String>),
}

/// The upper number of a time signature, as written.
#[derive(Debug, PartialEq, Eq)]
pub struct TimeNominator(pub String);

/// The lower number of a time signature, as written.
#[derive(Debug, PartialEq, Eq)]
pub struct TimeDenominator(pub String);

#[derive(Debug, PartialEq, Eq)]
pub enum Time {
    Standard(TimeNominator, TimeDenominator),
    Cut,
    Common,
}

pub type TimeSignature = Option<Time>;

pub type KeySignature = Option<Key>;

/// A bar that sets clefs, times or keys, one entry per part.
#[derive(Debug, PartialEq, Eq)]
pub enum BarAttributeType {
    Clefs(Vec<Option<ClefSignature>>),
    Times(Vec<Option<TimeSignature>>),
    Keys(Vec<Option<KeySignature>>),
}

#[derive(Debug, PartialEq, Eq)]
pub enum BarType {
    Standard(Vec<Part>),
    BarAttribute(BarAttributeType),
    /// A rest over several bars.
    MultiRest(usize),
    NonContent(NonContentType),
    CountIn(Notes),
}

/// A bar with its length and its position in the whole.
#[derive(Debug, PartialEq, Eq)]
pub struct Bar {
    pub btype: BarType,
    pub duration: Duration,
    pub position: Position,
}

/// The length of the longest of the parts.
pub open spec fn parts_max_duration(parts: Seq<Part>) -> Duration
    decreases parts.len(),
{
    if parts.len() == 0 {
        0
    } else {
        let m = parts_max_duration(parts.drop_last());
        let d = parts.last().duration;
        if d > m { d } else { m }
    }
}

/// The length of a bar of this kind: that of its longest part, of its
/// count-in notes, or 0.
pub open spec fn btype_duration(btype: BarType) -> Duration {
    match btype {
        BarType::Standard(parts) => parts_max_duration(parts@),
        BarType::CountIn(notes) => notes.duration,
        _ => 0,
    }
}

impl BarType {
    /// The length of the bar (see `btype_duration`); a rest over several
    /// bars has none.
    pub fn duration(&self) -> (r: Duration)
        requires
            !(*self is MultiRest),
        ensures
            r == btype_duration(*self),
    {
        match self {
            BarType::Standard(parts) => {
                let mut duration: usize = 0;
                let mut i: usize = 0;
                while i < parts.len()
                    invariant
                        i <= parts@.len(),
                        duration == parts_max_duration(parts@.take(i as int)),
                    decreases parts@.len() - i,
                {
                    assert(parts@.take(i + 1).drop_last() =~= parts@.take(i as int));
                    let d = parts[i].duration;
                    if d > duration {
                        duration = d;
                    }
                    i = i + 1;
                }
                assert(parts@.take(parts@.len() as int) =~= parts@);
                duration
            },
            BarType::CountIn(notes) => notes.duration,
            _ => 0,
        }
    }
}

impl Bar {
    /// A bar of the kind, at position 0.
    pub fn new(btype: BarType) -> (r: Self)
        requires
            !(btype is MultiRest),
        ensures
            r.btype == btype,
            r.duration == btype_duration(btype),
            r.position == 0,
    {
        let duration = btype.duration();
        Self { btype, duration, position: 0 }
    }

    pub fn from_parts(parts: Vec<Part>) -> (r: Self)
        ensures
            r.btype == BarType::Standard(parts),
            r.duration == parts_max_duration(parts@),
            r.position == 0,
    {
        Bar::new(BarType::Standard(parts))
    }

    pub fn from_clefs(clefs: Vec<Option<ClefSignature>>) -> (r: Self)
        ensures
            r.btype == BarType::BarAttribute(BarAttributeType::Clefs(clefs)),
            r.duration == 0,
            r.position == 0,
    {
        Bar::new(BarType::BarAttribute(BarAttributeType::Clefs(clefs)))
    }

    pub fn from_keys(keys: Vec<Option<KeySignature>>) -> (r: Self)
        ensures
            r.btype == BarType::BarAttribute(BarAttributeType::Keys(keys)),
            r.duration == 0,
            r.position == 0,
    {
        Bar::new(BarType::BarAttribute(BarAttributeType::Keys(keys)))
    }

    pub fn from_times(times: Vec<Option<TimeSignature>>) -> (r: Self)
        ensures
            r.btype == BarType::BarAttribute(BarAttributeType::Times(times)),
            r.duration == 0,
            r.position == 0,
    {
        Bar::new(BarType::BarAttribute(BarAttributeType::Times(times)))
    }
}

/// The bars of a score, in order.
#[derive(Debug, PartialEq, Eq)]
pub struct Bars {
    pub items: Vec<Bar>,
}

/// Where bar `k` starts: the sum of the lengths of the bars before it.
pub open spec fn bar_start(bars: Seq<Bar>, k: int) -> int
    decreases k,
{
    if k <= 0 {
        0
    } else {
        bar_start(bars, k - 1) + bars[k - 1].duration
    }
}

/// The bars are the given ones, each placed where the ones before it end.
pub open spec fn bars_placed(input: Seq<Bar>, out: Seq<Bar>) -> bool {
    &&& out.len() == input.len()
    &&& forall|i: int|
        #![trigger out[i]]
        0 <= i < out.len() ==> out[i] == (Bar { position: bar_start(input, i) as usize, ..input[i] })
}

/// `bar_start` grows with the count of bars.
pub proof fn lemma_bar_start_monotone(bars: Seq<Bar>, a: int, b: int)
    requires
        0 <= a <= b <= bars.len(),
    ensures
        bar_start(bars, a) <= bar_start(bars, b),
    decreases b - a,
{
    if a < b {
        lemma_bar_start_monotone(bars, a, b - 1);
    }
}

/// `bar_start` only reads the lengths.
pub proof fn lemma_bar_start_same(s: Seq<Bar>, t: Seq<Bar>, k: int)
    requires
        0 <= k <= s.len(),
        s.len() == t.len(),
        forall|i: int| 0 <= i < s.len() ==> #[trigger] s[i].duration == t[i].duration,
    ensures
        bar_start(s, k) == bar_start(t, k),
    decreases k,
{
    if k > 0 {
        lemma_bar_start_same(s, t, k - 1);
    }
}

/// How many voices with notes a part has: one, two (where the lower of
/// two holds notes), or none.
pub open spec fn part_voice_count(part: Part) -> u8 {
    match part.ptype {
        PartType::Music(PartMusicType::Voices(Voices::One(v))) => if v.vtype is Notes { 1 } else { 0 },
        PartType::Music(PartMusicType::Voices(Voices::Two(_, lower))) => if lower.vtype is Notes {
            2
        } else {
            0
        },
        _ => 0,
    }
}

/// The counts so far, updated by a bar: as long as the longer of the two,
/// each the larger of the old count and that of the bar's part.
pub open spec fn merge_voice_counts(prev: Seq<u8>, bar: Bar) -> Seq<u8> {
    match bar.btype {
        BarType::Standard(parts) => {
            let n = if parts@.len() > prev.len() { parts@.len() } else { prev.len() };
            Seq::new(
                n,
                |p: int|
                    {
                        let a: u8 = if p < prev.len() { prev[p] } else { 0 };
                        let b: u8 = if p < parts@.len() { part_voice_count(parts@[p]) } else { 0 };
                        if b > a { b } else { a }
                    },
            )
        },
        _ => prev,
    }
}

/// For each part index, the most voices with notes that a part of that
/// index has in any bar.
pub open spec fn parts_voice_counts(bars: Seq<Bar>) -> Seq<u8>
    decreases bars.len(),
{
    if bars.len() == 0 {
        Seq::empty()
    } else {
        merge_voice_counts(parts_voice_counts(bars.drop_last()), bars.last())
    }
}

/// The number of parts over all bars of parts.
pub open spec fn total_parts(bars: Seq<Bar>) -> int
    decreases bars.len(),
{
    if bars.len() == 0 {
        0
    } else {
        total_parts(bars.drop_last()) + match bars.last().btype {
            BarType::Standard(parts) => parts@.len() as int,
            _ => 0,
        }
    }
}

impl Bars {
    /// The bars, each placed where the ones before it end.
    pub fn new(items: Vec<Bar>) -> (r: Self)
        requires
            bar_start(items@, items@.len() as int) <= usize::MAX,
        ensures
            bars_placed(items@, r.items@),
    {
        let ghost input = items@;
        let mut items = items;
        let mut position: usize = 0;
        let mut i: usize = 0;
        while i < items.len()
            invariant
                items@.len() == input.len(),
                i <= input.len(),
                position == bar_start(input, i as int),
                bar_start(input, input.len() as int) <= usize::MAX,
                forall|k: int|
                    #![trigger items@[k]]
                    0 <= k < i ==> items@[k] == (Bar { position: bar_start(input, k) as usize, ..input[k] }),
                forall|k: int| #![trigger items@[k]] i <= k < input.len() ==> items@[k] == input[k],
            decreases input.len() - i,
        {
            proof {
                lemma_bar_start_monotone(input, i + 1, input.len() as int);
            }
            let d = items[i].duration;
            items[i].position = position;
            position = position + d;
            i = i + 1;
        }
        Self { items }
    }

    /// The number of parts over all bars of parts; none where there are
    /// no parts.
    pub fn parts_count(&self) -> (r: Option<usize>)
        requires
            total_parts(self.items@) <= usize::MAX,
        ensures
            total_parts(self.items@) == 0 ==> r is None,
            total_parts(self.items@) > 0 ==> r == Some(total_parts(self.items@) as usize),
    {
        let mut count: usize = 0;
        let mut i: usize = 0;
        while i < self.items.len()
            invariant
                i <= self.items@.len(),
                count == total_parts(self.items@.take(i as int)),
                total_parts(self.items@) <= usize::MAX,
            decreases self.items@.len() - i,
        {
            assert(self.items@.take(i + 1).drop_last() =~= self.items@.take(i as int));
            proof {
                lemma_total_parts_prefix(self.items@, i + 1);
            }
            match &self.items[i].btype {
                BarType::Standard(parts) => {
                    count = count + parts.len();
                },
                _ => {},
            }
            i = i + 1;
        }
        assert(self.items@.take(self.items@.len() as int) =~= self.items@);
        if count == 0 {
            None
        } else {
            Some(count)
        }
    }

    /// For each part index, the most voices with notes that a part of that
    /// index has in any bar (see `parts_voice_counts`).
    pub fn count_music_parts_voices(&self) -> (r: Vec<u8>)
        ensures
            r@ == parts_voice_counts(self.items@),
    {
        let mut counts: Vec<u8> = Vec::new();
        let mut i: usize = 0;
        while i < self.items.len()
            invariant
                i <= self.items@.len(),
                counts@ == parts_voice_counts(self.items@.take(i as int)),
            decreases self.items@.len() - i,
        {
            assert(self.items@.take(i + 1).drop_last() =~= self.items@.take(i as int));
            let ghost prev = counts@;
            match &self.items[i].btype {
                BarType::Standard(parts) => {
                    let mut p: usize = 0;
                    while p < parts.len()
                        invariant
                            p <= parts@.len(),
                            counts@.len() == if p > prev.len() { p as int } else { prev.len() as int },
                            forall|q: int|
                                #![trigger counts@[q]]
                                0 <= q < counts@.len() ==> counts@[q] == {
                                    let a: u8 = if q < prev.len() { prev[q] } else { 0 };
                                    let b: u8 = if q < p { part_voice_count(parts@[q]) } else { 0 };
                                    if b > a { b } else { a }
                                },
                        decreases parts@.len() - p,
                    {
                        if p + 1 > counts.len() {
                            counts.push(0);
                        }
                        let c: u8 = voice_count(&parts[p]);
                        if counts[p] < c {
                            counts.set(p, c);
                        }
                        p = p + 1;
                    }
                    proof {
                        assert(counts@ =~= merge_voice_counts(prev, self.items@[i as int]));
                    }
                },
                _ => {},
            }
            i = i + 1;
        }
        assert(self.items@.take(self.items@.len() as int) =~= self.items@);
        counts
    }
}

/// How many voices with notes a part has (see `part_voice_count`).
fn voice_count(part: &Part) -> (r: u8)
    ensures
        r == part_voice_count(*part),
{
    match &part.ptype {
        PartType::Music(PartMusicType::Voices(Voices::One(v))) => match v.vtype {
            VoiceType::Notes(_) => 1,
            _ => 0,
        },
        PartType::Music(PartMusicType::Voices(Voices::Two(_, lower))) => match lower.vtype {
            VoiceType::Notes(_) => 2,
            _ => 0,
        },
        _ => 0,
    }
}

/// The count of parts of a prefix is no more than that of the whole.
pub proof fn lemma_total_parts_prefix(bars: Seq<Bar>, k: int)
    requires
        0 <= k <= bars.len(),
    ensures
        0 <= total_parts(bars.take(k)) <= total_parts(bars),
    decreases bars.len() - k,
{
    if k < bars.len() {
        lemma_total_parts_prefix(bars, k + 1);
        assert(bars.take(k + 1).drop_last() =~= bars.take(k));
    } else {
        assert(bars.take(k) =~= bars);
    }
    lemma_total_parts_nonneg(bars.take(k));
}

proof fn lemma_total_parts_nonneg(bars: Seq<Bar>)
    ensures
        total_parts(bars) >= 0,
    decreases bars.len(),
{
    if bars.len() > 0 {
        lemma_total_parts_nonneg(bars.drop_last());
    }
}

} // verus!
