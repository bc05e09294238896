//! Notes: a note type (heads, pause, lyric, symbol, ...) with a duration,
//! and sequences of notes placed one after the other in time.

use vstd::prelude::*;

use crate::core_defs::{
    duration_has_stem, duration_is_beamable, spec_is_beamable, Accidental, DirUD, Duration,
    Position, TieData, TieToData, TieToType,
};
use crate::head::{
    spec_first_on_level, spec_levels_accidentals, Head, HeadLine, HeadLineTo, Heads,
};

verus! {

#[derive(Debug, PartialEq, Eq)]
pub enum NoteType {
    Heads(Heads),
    Pause,
    Lyric(Syllable),
    Spacer(i8),
    Tpl(char, TplOctave, TplAccidental, i8),
    Symbol(SymbolType),
    Function(FunctionType, FunctionColor, FunctionBass, bool, bool),
    ChordSymbol(ChordRoot, ChordFlavour, ChordColor, ChordRoot),
}

#[derive(Debug, PartialEq, Eq, Clone, Copy, Structural)]
pub enum ChordRoot {
    NoRoot,
    CFlat,
    CNatural,
    CSharp,
    DFlat,
    DNatural,
    DSharp,
    EFlat,
    ENatural,
    ESharp,
    FFlat,
    FNatural,
    FSharp,
    GFlat,
    GNatural,
    GSharp,
    AFlat,
    ANatural,
    ASharp,
    BFlat,
    BNatural,
    BSharp,
}

impl ChordRoot {
    pub open spec fn spec_char(self) -> char {
        match self {
            ChordRoot::NoRoot => ' ',
            ChordRoot::CFlat | ChordRoot::CNatural | ChordRoot::CSharp => 'C',
            ChordRoot::DFlat | ChordRoot::DNatural | ChordRoot::DSharp => 'D',
            ChordRoot::EFlat | ChordRoot::ENatural | ChordRoot::ESharp => 'E',
            ChordRoot::FFlat | ChordRoot::FNatural | ChordRoot::FSharp => 'F',
            ChordRoot::GFlat | ChordRoot::GNatural | ChordRoot::GSharp => 'G',
            ChordRoot::AFlat | ChordRoot::ANatural | ChordRoot::ASharp => 'A',
            ChordRoot::BFlat | ChordRoot::BNatural | ChordRoot::BSharp => 'B',
        }
    }

    /// The letter of the root, or a space for no root.
    pub fn get_char(self) -> (r: char)
        ensures
            r == self.spec_char(),
    {
        match self {
            ChordRoot::NoRoot => ' ',
            ChordRoot::CFlat | ChordRoot::CNatural | ChordRoot::CSharp => 'C',
            ChordRoot::DFlat | ChordRoot::DNatural | ChordRoot::DSharp => 'D',
            ChordRoot::EFlat | ChordRoot::ENatural | ChordRoot::ESharp => 'E',
            ChordRoot::FFlat | ChordRoot::FNatural | ChordRoot::FSharp => 'F',
            ChordRoot::GFlat | ChordRoot::GNatural | ChordRoot::GSharp => 'G',
            ChordRoot::AFlat | ChordRoot::ANatural | ChordRoot::ASharp => 'A',
            ChordRoot::BFlat | ChordRoot::BNatural | ChordRoot::BSharp => 'B',
        }
    }
}

#[derive(Debug, PartialEq, Eq, Clone, Copy, Structural)]
pub enum ChordFlavour {
    Major,
    Minor,
}

#[derive(Debug, PartialEq, Eq, Clone, Copy, Structural)]
pub enum ChordColor {
    NoColor,
    SusTwo,
    SusFour,
    Five,
    PlusFive,
    Six,
    Seven,
    MajSeven,
    Nine,
    MinusNine,
    PlusNine,
    Thirteen,
}

/// A symbol standing in place of a note. A square symbol's size is not
/// held here.
#[derive(Debug, PartialEq, Eq, Clone, Copy, Structural)]
pub enum SymbolType {
    RightArrow,
    LeftArrow,
    Square,
    ChordProgress2ndUp,
    ChordProgress2ndDown,
    ChordProgress3rdUp,
    ChordProgress3rdDown,
    ChordProgress5thUp,
    ChordProgress5thDown,
}

#[derive(Debug, PartialEq, Eq, Clone, Copy, Structural)]
pub enum NoteComplexType {
    Unset,
    Single,
    Upper,
    Lower,
}

#[derive(Debug, PartialEq, Eq, Hash, Clone, Copy, Structural)]
pub enum FunctionColor {
    FcNone,
    Fc2,
    Fc3,
    Fc4,
    Fc5,
    Fc53,
    Fc6,
    Fc65,
    Fc64,
    Fc7,
    Fc9,
    Fc9flat,
}

#[derive(Debug, PartialEq, Eq, Hash, Clone, Copy, Structural)]
pub enum FunctionBass {
    FbNone,
    Fb3,
    Fb5,
    Fb7,
}

#[derive(Debug, PartialEq, Eq, Hash, Clone, Copy, Structural)]
pub enum FunctionType {
    Spacer,
    T,
    Sp,
    DD,
    Dp,
    S,
    D,
    DNonComplete,
    Tp,
    Tk,
}

#[derive(Debug, PartialEq, Eq, Hash, Clone, Copy, Structural)]
pub enum TplOctave {
    Higher,
    Mid,
    Lower,
}

#[derive(Debug, PartialEq, Eq, Hash, Clone, Copy, Structural)]
pub enum TplAccidental {
    Raised,
    Neutral,
    Lowered,
}

#[derive(Debug, PartialEq, Eq, Hash, Clone, Copy, Structural)]
pub enum NoteArticulation {
    NoArticulation,
    Staccato,
    Tenuto,
    TenutoStaccato,
    Marcato,
    MarcatoStaccato,
    MoltoMarcato,
}

#[derive(Debug, PartialEq, Eq, Hash)]
pub enum SyllableType {
    Text(String),
    TextWithHyphen(String),
    Hyphen,
    Extension(i32),
}

#[derive(Debug, PartialEq, Eq)]
pub struct Syllable {
    pub syllable_type: SyllableType,
}

impl Syllable {
    pub fn new(syllable_type: SyllableType) -> (r: Self)
        ensures
            r.syllable_type == syllable_type,
    {
        Self { syllable_type }
    }
}

#[derive(Debug, PartialEq, Eq, Hash, Clone, Copy, Structural)]
pub struct NoteAttributes {
    pub color: Option<u16>,
}

/// A note. `position` and `end_position` are set when the note is placed in
/// a sequence of notes; `beamgroup` is the index of its beam group in its
/// voice once the voice's beam groups are made.
#[derive(Debug, PartialEq, Eq)]
pub struct Note {
    pub id: usize,
    pub ntype: NoteType,
    pub duration: Duration,
    pub attr: NoteAttributes,
    // calculated
    pub position: Position,
    pub end_position: Position,
    pub beamgroup: Option<usize>,
    pub direction: Option<DirUD>,
    pub ties: Vec<TieData>,
    pub ties_to: Vec<TieToData>,
    pub articulation: NoteArticulation,
    pub complex_type: NoteComplexType,
    pub lines: Vec<HeadLine>,
    pub lines_to: Vec<HeadLineTo>,
}

/// The ties that leave the heads, in order, as a note with the id records them.
pub open spec fn spec_ties(hs: Seq<Head>, id: usize) -> Seq<TieData>
    decreases hs.len(),
{
    if hs.len() == 0 {
        Seq::empty()
    } else {
        let prev = spec_ties(hs.drop_last(), id);
        match hs.last().tie {
            Some(t) => prev.push(TieData { note_id: id, ttype: t, level: hs.last().level }),
            None => prev,
        }
    }
}

/// The ties that arrive at the heads, in order, as a note with the id
/// records them.
pub open spec fn spec_ties_to(hs: Seq<Head>, id: usize) -> Seq<TieToData>
    decreases hs.len(),
{
    if hs.len() == 0 {
        Seq::empty()
    } else {
        let prev = spec_ties_to(hs.drop_last(), id);
        match hs.last().tie_to {
            Some(t) => prev.push(TieToData { note_id: id, ttype: t, level: hs.last().level }),
            None => prev,
        }
    }
}

/// The lines that leave the heads, each from and to the index of its head.
pub open spec fn spec_lines(hs: Seq<Head>) -> Seq<HeadLine>
    decreases hs.len(),
{
    if hs.len() == 0 {
        Seq::empty()
    } else {
        let prev = spec_lines(hs.drop_last());
        let idx = (hs.len() - 1) as usize;
        match hs.last().line {
            Some(l) => prev.push(HeadLine(idx as u8, idx as u8, l.2)),
            None => prev,
        }
    }
}

/// The heads of a note type, none for notes that are not heads.
pub open spec fn heads_of(ntype: NoteType) -> Seq<Head> {
    match ntype {
        NoteType::Heads(h) => h.heads@,
        _ => Seq::empty(),
    }
}

impl Note {
    /// A note of a type and duration, with the id given; the ties and lines
    /// of its heads are recorded on the note.
    pub fn new(ntype: NoteType, duration: Duration, id: usize) -> (r: Self)
        ensures
            r.id == id,
            r.ntype == ntype,
            r.duration == duration,
            r.attr == (NoteAttributes { color: None }),
            r.position == 0,
            r.end_position == 0,
            r.beamgroup is None,
            r.direction is None,
            r.ties@ == spec_ties(heads_of(ntype), id),
            r.ties_to@ == spec_ties_to(heads_of(ntype), id),
            r.lines@ == spec_lines(heads_of(ntype)),
            r.lines_to@ == Seq::<HeadLineTo>::empty(),
            r.articulation == NoteArticulation::NoArticulation,
            r.complex_type == NoteComplexType::Unset,
    {
        let mut ties: Vec<TieData> = Vec::new();
        let mut ties_to: Vec<TieToData> = Vec::new();
        let mut lines: Vec<HeadLine> = Vec::new();
        match &ntype {
            NoteType::Heads(heads) => {
                let hs = &heads.heads;
                let mut i: usize = 0;
                while i < hs.len()
                    invariant
                        i <= hs@.len(),
                        ties@ == spec_ties(hs@.take(i as int), id),
                        ties_to@ == spec_ties_to(hs@.take(i as int), id),
                        lines@ == spec_lines(hs@.take(i as int)),
                    decreases hs.len() - i,
                {
                    let head = hs[i];
                    assert(hs@.take(i + 1).drop_last() =~= hs@.take(i as int));
                    match head.tie {
                        Some(t) => {
                            ties.push(TieData { note_id: id, ttype: t, level: head.level });
                        },
                        None => {},
                    }
                    match head.tie_to {
                        Some(t) => {
                            ties_to.push(TieToData { note_id: id, ttype: t, level: head.level });
                        },
                        None => {},
                    }
                    match head.line {
                        Some(l) => {
                            let idx: u8 = i as u8;
                            lines.push(HeadLine(idx, idx, l.2));
                        },
                        None => {},
                    }
                    i = i + 1;
                }
                assert(hs@.take(hs@.len() as int) =~= hs@);
            },
            _ => {},
        }
        Self {
            id,
            ntype,
            duration,
            attr: NoteAttributes { color: None },
            position: 0,
            end_position: 0,
            beamgroup: None,
            direction: None,
            ties,
            ties_to,
            articulation: NoteArticulation::NoArticulation,
            complex_type: NoteComplexType::Unset,
            lines,
            lines_to: Vec::new(),
        }
    }

    pub open spec fn spec_is_heads(&self) -> bool {
        self.ntype is Heads
    }

    /// Notes with heads have a stem unless they are whole notes.
    pub fn has_stem(&self) -> (r: bool)
        ensures
            r == (self.spec_is_heads() && !(self.duration == 144 || self.duration == 96)),
    {
        match &self.ntype {
            NoteType::Heads(_) => duration_has_stem(&self.duration),
            _ => false,
        }
    }

    pub open spec fn spec_is_beamable(&self) -> bool {
        self.spec_is_heads() && spec_is_beamable(self.duration)
    }

    /// Notes with heads and a beamable value can be beamed.
    pub fn is_beamable(&self) -> (r: bool)
        ensures
            r == self.spec_is_beamable(),
    {
        match &self.ntype {
            NoteType::Heads(_) => duration_is_beamable(&self.duration),
            _ => false,
        }
    }

    /// The levels of the heads, none for other notes.
    pub fn head_levels(&self) -> (r: Vec<i8>)
        ensures
            r@ == heads_of(self.ntype).map_values(|h: Head| h.level),
    {
        match &self.ntype {
            NoteType::Heads(heads) => heads.levels(),
            _ => {
                let r: Vec<i8> = Vec::new();
                assert(r@ =~= heads_of(self.ntype).map_values(|h: Head| h.level));
                r
            },
        }
    }

    pub open spec fn spec_top_level(&self) -> i8 {
        match self.ntype {
            NoteType::Heads(h) => h.top,
            _ => 0,
        }
    }

    pub open spec fn spec_bottom_level(&self) -> i8 {
        match self.ntype {
            NoteType::Heads(h) => h.bottom,
            _ => 0,
        }
    }

    /// The topmost level of the heads, 0 for other notes.
    pub fn top_level(&self) -> (r: i8)
        ensures
            r == self.spec_top_level(),
    {
        match &self.ntype {
            NoteType::Heads(heads) => heads.top,
            _ => 0,
        }
    }

    /// The bottommost level of the heads, 0 for other notes.
    pub fn bottom_level(&self) -> (r: i8)
        ensures
            r == self.spec_bottom_level(),
    {
        match &self.ntype {
            NoteType::Heads(heads) => heads.bottom,
            _ => 0,
        }
    }

    /// The levels and accidentals of the heads that have one.
    pub fn levels_accidentals(&self) -> (r: Vec<(i8, Accidental)>)
        ensures
            r@ == spec_levels_accidentals(heads_of(self.ntype)),
    {
        match &self.ntype {
            NoteType::Heads(heads) => heads.levels_accidentals(),
            _ => {
                let r: Vec<(i8, Accidental)> = Vec::new();
                assert(r@ =~= spec_levels_accidentals(heads_of(self.ntype)));
                r
            },
        }
    }

    pub fn is_heads(&self) -> (r: bool)
        ensures
            r == self.spec_is_heads(),
    {
        match &self.ntype {
            NoteType::Heads(_) => true,
            _ => false,
        }
    }

    pub open spec fn spec_is_pause(&self) -> bool {
        self.ntype is Pause
    }

    pub fn is_pause(&self) -> (r: bool)
        ensures
            r == self.spec_is_pause(),
    {
        match &self.ntype {
            NoteType::Pause => true,
            _ => false,
        }
    }

    pub open spec fn spec_has_level(&self, level: i8) -> bool {
        exists|i: int|
            0 <= i < heads_of(self.ntype).len() && #[trigger] heads_of(self.ntype)[i].level == level
    }

    /// Whether a head stands on the level.
    pub fn has_level(&self, level: i8) -> (r: bool)
        ensures
            r == self.spec_has_level(level),
    {
        match &self.ntype {
            NoteType::Heads(heads) => heads.has_level(level),
            _ => false,
        }
    }

    /// The first tie recorded as arriving at the level, if there is one.
    pub fn has_tie_to(&self, level: i8) -> (r: Option<TieToData>)
        ensures
            r == spec_first_tie_to(self.ties_to@, level),
    {
        let mut i: usize = 0;
        assert(self.ties_to@.skip(0) =~= self.ties_to@);
        while i < self.ties_to.len()
            invariant
                i <= self.ties_to@.len(),
                spec_first_tie_to(self.ties_to@, level) == spec_first_tie_to(
                    self.ties_to@.skip(i as int),
                    level,
                ),
            decreases self.ties_to.len() - i,
        {
            assert(self.ties_to@.skip(i as int).drop_first() =~= self.ties_to@.skip(i + 1));
            if self.ties_to[i].level == level {
                return Some(self.ties_to[i]);
            }
            i = i + 1;
        }
        None
    }

    /// The tie arriving at the first head on the level, if any.
    pub fn get_level_tie_to(&self, level: i8) -> (r: Option<TieToType>)
        ensures
            r == (match spec_first_on_level(heads_of(self.ntype), level) {
                Some(h) => h.tie_to,
                None => None,
            }),
    {
        match &self.ntype {
            NoteType::Heads(heads) => heads.get_level_tie_to(level),
            _ => None,
        }
    }

    /// The first head on the level, if any.
    pub fn get_head(&self, level: i8) -> (r: Option<Head>)
        ensures
            r == spec_first_on_level(heads_of(self.ntype), level),
    {
        match &self.ntype {
            NoteType::Heads(heads) => heads.get_head(level),
            _ => None,
        }
    }

    /// A copy of the heads, none for a note that has no heads.
    pub fn get_heads(&self) -> (r: Option<Vec<Head>>)
        ensures
            match self.ntype {
                NoteType::Heads(h) => r matches Some(v) && v@ == h.heads@,
                _ => r is None,
            },
    {
        match &self.ntype {
            NoteType::Heads(heads) => Some(copy_heads(&heads.heads)),
            _ => None,
        }
    }
}

/// A copy of a vector of heads.
pub fn copy_heads(v: &Vec<Head>) -> (r: Vec<Head>)
    ensures
        r@ == v@,
{
    let mut r: Vec<Head> = Vec::new();
    let mut i: usize = 0;
    while i < v.len()
        invariant
            i <= v@.len(),
            r@ == v@.take(i as int),
        decreases v.len() - i,
    {
        r.push(v[i]);
        i = i + 1;
        assert(r@ =~= v@.take(i as int));
    }
    assert(v@.take(v@.len() as int) =~= v@);
    r
}

/// The first tie data of `s` on level `l`.
pub open spec fn spec_first_tie_to(s: Seq<TieToData>, l: i8) -> Option<TieToData>
    decreases s.len(),
{
    if s.len() == 0 {
        None
    } else if s[0].level == l {
        Some(s[0])
    } else {
        spec_first_tie_to(s.drop_first(), l)
    }
}

/// The sum of the durations of the first `k` notes.
pub open spec fn start_of(s: Seq<Note>, k: int) -> int
    decreases k,
{
    if k <= 0 {
        0
    } else {
        start_of(s, k - 1) + s[k - 1].duration
    }
}

/// `out` holds the notes of `input`, unchanged but for their places in time:
/// each starts where the one before it ends, the first at 0.
pub open spec fn placed_in_sequence(input: Seq<Note>, out: Seq<Note>) -> bool {
    &&& out.len() == input.len()
    &&& forall|i: int|
        #![trigger out[i]]
        0 <= i < out.len() ==> {
            &&& out[i].position == start_of(input, i)
            &&& out[i].end_position == start_of(input, i) + input[i].duration
            &&& same_but_place(out[i], input[i])
        }
}

/// Two notes alike in everything but position and end position.
pub open spec fn same_but_place(a: Note, b: Note) -> bool {
    &&& a.id == b.id
    &&& a.ntype == b.ntype
    &&& a.duration == b.duration
    &&& a.attr == b.attr
    &&& a.beamgroup == b.beamgroup
    &&& a.direction == b.direction
    &&& a.ties == b.ties
    &&& a.ties_to == b.ties_to
    &&& a.articulation == b.articulation
    &&& a.complex_type == b.complex_type
    &&& a.lines == b.lines
    &&& a.lines_to == b.lines_to
}

/// Notes placed one after the other; `duration` is their total length.
#[derive(Debug, PartialEq, Eq)]
pub struct Notes {
    pub items: Vec<Note>,
    pub duration: Duration,
}

impl Notes {
    /// Notes as `Notes::new` leaves them: each starts where the one before
    /// ends, the first at 0, and `duration` is where the last one ends.
    pub open spec fn wf(&self) -> bool {
        &&& forall|i: int|
            #![trigger self.items@[i]]
            0 <= i < self.items@.len() ==> {
                &&& self.items@[i].position == start_of(self.items@, i)
                &&& self.items@[i].end_position == start_of(self.items@, i) + self.items@[i].duration
            }
        &&& self.duration == start_of(self.items@, self.items@.len() as int)
    }

    /// Places the notes one after the other from position 0.
    pub fn new(items: Vec<Note>) -> (r: Self)
        requires
            start_of(items@, items@.len() as int) <= usize::MAX,
        ensures
            placed_in_sequence(items@, r.items@),
            r.duration == start_of(items@, items@.len() as int),
            r.wf(),
    {
        let ghost input = items@;
        let mut items = items;
        let mut pos: usize = 0;
        let mut i: usize = 0;
        while i < items.len()
            invariant
                items@.len() == input.len(),
                i <= input.len(),
                pos == start_of(input, i as int),
                start_of(input, input.len() as int) <= usize::MAX,
                forall|k: int|
                    #![trigger items@[k]]
                    0 <= k < i ==> {
                        &&& items@[k].position == start_of(input, k)
                        &&& items@[k].end_position == start_of(input, k) + input[k].duration
                    },
                forall|k: int| #![trigger items@[k]] 0 <= k < input.len() ==> same_but_place(items@[k], input[k]),
            decreases input.len() - i,
        {
            proof {
                lemma_start_of_monotone(input, i + 1, input.len() as int);
            }
            let d = items[i].duration;
            items[i].position = pos;
            items[i].end_position = pos + d;
            pos = pos + d;
            i = i + 1;
        }
        proof {
            assert forall|k: int| 0 <= k <= items@.len() implies start_of(items@, k) == start_of(input, k) by {
                lemma_start_of_same(items@, input, k);
            }
        }
        Self { items, duration: pos }
    }
}

/// `start_of` grows with the count of notes.
pub proof fn lemma_start_of_monotone(s: Seq<Note>, a: int, b: int)
    requires
        0 <= a <= b <= s.len(),
    ensures
        start_of(s, a) <= start_of(s, b),
    decreases b - a,
{
    if a < b {
        lemma_start_of_monotone(s, a, b - 1);
    }
}

/// `start_of` only reads the durations.
pub proof fn lemma_start_of_same(s: Seq<Note>, t: Seq<Note>, k: int)
    requires
        0 <= k <= s.len(),
        s.len() == t.len(),
        forall|i: int| 0 <= i < s.len() ==> #[trigger] s[i].duration == t[i].duration,
    ensures
        start_of(s, k) == start_of(t, k),
    decreases k,
{
    if k > 0 {
        lemma_start_of_same(s, t, k - 1);
    }
}

} // verus!
