//! Note values, accidentals, ties, clefs, directions and beam types.

use vstd::prelude::*;
use vstd::string::*;

use crate::decimal::{decimal, u64_to_decimal};
use crate::error::NotationError;
use crate::bar::TiePlacement;
use crate::head::{HeadShape, HeadType};
use crate::text::{chars_eq, lower_seq, push_chars, to_chars, to_lower};

verus! {

#[derive(Debug, PartialEq, Eq, Hash, Clone, Copy, Structural)]
pub enum Accidental {
    DblSharp,
    Sharp,
    Natural,
    Flat,
    DblFlat,
}

#[derive(Debug, PartialEq, Eq, Hash, Clone, Copy, Structural)]
pub enum TieFromType {
    Standard,
    LetRing,
    UnresolvedInChunk,
}

#[derive(Debug, PartialEq, Eq, Hash, Clone, Copy, Structural)]
pub struct TieData {
    pub note_id: usize,
    pub level: i8,
    pub ttype: TieFromType,
}

#[derive(Debug, PartialEq, Eq, Hash, Clone, Copy, Structural)]
pub enum TieToType {
    ResolveTieFrom(usize, i8),
    LetRing,
}

#[derive(Debug, PartialEq, Eq, Hash, Clone, Copy, Structural)]
pub struct TieToData {
    pub note_id: usize,
    pub level: i8,
    pub ttype: TieToType,
}

#[derive(Debug, PartialEq, Eq, Hash, Clone, Copy, Structural)]
pub enum Clef {
    G,
    F,
    C,
}

pub type ClefSignature = Option<Clef>;

#[derive(Debug, PartialEq, Eq, Hash, Clone, Copy, Structural)]
pub enum DirUD {
    Up,
    Down,
}

/// The opposite direction.
pub open spec fn flipped(d: DirUD) -> DirUD {
    match d {
        DirUD::Up => DirUD::Down,
        DirUD::Down => DirUD::Up,
    }
}

/// Flipping a direction twice gives it back, and flipping always changes it.
pub proof fn lemma_flip_twice(d: DirUD)
    ensures
        flipped(flipped(d)) == d,
        flipped(d) != d,
{
}

impl DirUD {
    /// The opposite direction.
    pub fn flip(&self) -> (r: DirUD)
        ensures
            r == flipped(*self),
    {
        match self {
            DirUD::Up => DirUD::Down,
            DirUD::Down => DirUD::Up,
        }
    }
}

#[derive(Debug, PartialEq, Eq, Clone, Copy, Structural)]
pub enum DirUAD {
    Up,
    Auto,
    Down,
}

/// A note value, counted in 96ths of a whole note: a quarter is 24.
pub type Duration = usize;

/// A place in time, in the units of `Duration`, from the start.
pub type Position = usize;

pub const NV1DOT: usize = 144;
pub const NV1: usize = 96;
pub const NV2DOT: usize = 72;
pub const NV2: usize = 48;
pub const NV4DOT: usize = 36;
pub const NV2TRI: usize = 32;
pub const NV4: usize = 24;
pub const NV8DOT: usize = 18;
pub const NV4TRI: usize = 16;
pub const NV8: usize = 12;
pub const NV16DOT: usize = 9;
pub const NV8TRI: usize = 8;
pub const NV16: usize = 6;
pub const NV16TRI: usize = 4;
pub const NV32: usize = 3;

/// The note values that have a name.
pub open spec fn is_note_value(v: usize) -> bool {
    v == 144 || v == 96 || v == 72 || v == 48 || v == 36 || v == 32 || v == 24 || v == 18
        || v == 16 || v == 12 || v == 9 || v == 8 || v == 6 || v == 4 || v == 3
}

/// The note value that a (lower-case) code names: "4" a quarter, "8dot" or
/// "8." a dotted eighth, "8tri" a triplet eighth, and so on.
pub open spec fn duration_of_code(s: Seq<char>) -> Option<usize> {
    if s == seq!['1', 'd', 'o', 't'] || s == seq!['1', '.'] {
        Some(144usize)
    } else if s == seq!['1'] {
        Some(96usize)
    } else if s == seq!['2', 'd', 'o', 't'] || s == seq!['2', '.'] {
        Some(72usize)
    } else if s == seq!['2'] {
        Some(48usize)
    } else if s == seq!['2', 't', 'r', 'i'] {
        Some(32usize)
    } else if s == seq!['4', 'd', 'o', 't'] || s == seq!['4', '.'] {
        Some(36usize)
    } else if s == seq!['4'] {
        Some(24usize)
    } else if s == seq!['8', 'd', 'o', 't'] || s == seq!['8', '.'] {
        Some(18usize)
    } else if s == seq!['4', 't', 'r', 'i'] {
        Some(16usize)
    } else if s == seq!['8'] {
        Some(12usize)
    } else if s == seq!['1', '6', 'd', 'o', 't'] || s == seq!['1', '6', '.'] {
        Some(9usize)
    } else if s == seq!['8', 't', 'r', 'i'] {
        Some(8usize)
    } else if s == seq!['1', '6'] {
        Some(6usize)
    } else if s == seq!['1', '6', 't', 'r', 'i'] {
        Some(4usize)
    } else if s == seq!['3', '2'] {
        Some(3usize)
    } else {
        None
    }
}

/// Every named note value is one of the fifteen note values.
pub proof fn lemma_duration_of_code(s: Seq<char>)
    ensures
        duration_of_code(s) matches Some(v) ==> is_note_value(v) && v <= 144,
{
}

/// The note value of a code, compared without regard to ASCII case.
pub open spec fn duration_of_str(s: Seq<char>) -> Option<usize> {
    duration_of_code(lower_seq(s))
}

/// The message of the error for a code that names no note value.
pub open spec fn duration_str_message(s: Seq<char>) -> Seq<char> {
    "Can not convert string '"@ + s + "' into usize Duration"@
}

/// The message of the error for a number that is no note value.
pub open spec fn duration_value_message(v: usize) -> Seq<char> {
    "Can not convert value "@ + decimal(v as nat) + " to usize Duration"@
}

/// A string made of a literal, some characters and another literal.
pub fn message(a: &str, middle: &[char], b: &str) -> (r: String)
    ensures
        r@ == a@ + middle@ + b@,
{
    let mut r = a.to_string();
    push_chars(&mut r, middle);
    r.append(b);
    r
}

/// Whether the lower-cased code equals the given pattern.
fn code_is(code: &Vec<char>, pat: &[char]) -> (r: bool)
    ensures
        r == (code@ == pat@),
{
    chars_eq(code.as_slice(), pat)
}

/// Reads a note value from its code ("4", "8dot", "16tri", ...), without
/// regard to ASCII case.
pub fn duration_from_str(s: &str) -> (r: Result<Duration, NotationError>)
    ensures
        match r {
            Ok(d) => duration_of_str(s@) == Some(d),
            Err(e) => duration_of_str(s@) is None && (e matches NotationError::DurationError(m)
                && m@ == duration_str_message(s@)),
        },
{
    let chars = to_chars(s);
    let code = to_lower(chars.as_slice());
    assert(code@ == lower_seq(s@));
    let p1: &[char] = &['1', 'd', 'o', 't'];
    assert(p1@ =~= seq!['1', 'd', 'o', 't']);
    let p2: &[char] = &['1', '.'];
    assert(p2@ =~= seq!['1', '.']);
    let p3: &[char] = &['1'];
    assert(p3@ =~= seq!['1']);
    let p4: &[char] = &['2', 'd', 'o', 't'];
    assert(p4@ =~= seq!['2', 'd', 'o', 't']);
    let p5: &[char] = &['2', '.'];
    assert(p5@ =~= seq!['2', '.']);
    let p6: &[char] = &['2'];
    assert(p6@ =~= seq!['2']);
    let p7: &[char] = &['2', 't', 'r', 'i'];
    assert(p7@ =~= seq!['2', 't', 'r', 'i']);
    let p8: &[char] = &['4', 'd', 'o', 't'];
    assert(p8@ =~= seq!['4', 'd', 'o', 't']);
    let p9: &[char] = &['4', '.'];
    assert(p9@ =~= seq!['4', '.']);
    let p10: &[char] = &['4'];
    assert(p10@ =~= seq!['4']);
    let p11: &[char] = &['8', 'd', 'o', 't'];
    assert(p11@ =~= seq!['8', 'd', 'o', 't']);
    let p12: &[char] = &['8', '.'];
    assert(p12@ =~= seq!['8', '.']);
    let p13: &[char] = &['4', 't', 'r', 'i'];
    assert(p13@ =~= seq!['4', 't', 'r', 'i']);
    let p14: &[char] = &['8'];
    assert(p14@ =~= seq!['8']);
    let p15: &[char] = &['1', '6', 'd', 'o', 't'];
    assert(p15@ =~= seq!['1', '6', 'd', 'o', 't']);
    let p16: &[char] = &['1', '6', '.'];
    assert(p16@ =~= seq!['1', '6', '.']);
    let p17: &[char] = &['8', 't', 'r', 'i'];
    assert(p17@ =~= seq!['8', 't', 'r', 'i']);
    let p18: &[char] = &['1', '6'];
    assert(p18@ =~= seq!['1', '6']);
    let p19: &[char] = &['1', '6', 't', 'r', 'i'];
    assert(p19@ =~= seq!['1', '6', 't', 'r', 'i']);
    let p20: &[char] = &['3', '2'];
    assert(p20@ =~= seq!['3', '2']);
    if code_is(&code, p1) || code_is(&code, p2) {
        assert(duration_of_code(code@) == Some(144usize));
        Ok(NV1DOT)
    } else if code_is(&code, p3) {
        assert(duration_of_code(code@) == Some(96usize));
        Ok(NV1)
    } else if code_is(&code, p4) || code_is(&code, p5) {
        assert(duration_of_code(code@) == Some(72usize));
        Ok(NV2DOT)
    } else if code_is(&code, p6) {
        assert(duration_of_code(code@) == Some(48usize));
        Ok(NV2)
    } else if code_is(&code, p7) {
        assert(duration_of_code(code@) == Some(32usize));
        Ok(NV2TRI)
    } else if code_is(&code, p8) || code_is(&code, p9) {
        assert(duration_of_code(code@) == Some(36usize));
        Ok(NV4DOT)
    } else if code_is(&code, p10) {
        assert(duration_of_code(code@) == Some(24usize));
        Ok(NV4)
    } else if code_is(&code, p11) || code_is(&code, p12) {
        assert(duration_of_code(code@) == Some(18usize));
        Ok(NV8DOT)
    } else if code_is(&code, p13) {
        assert(duration_of_code(code@) == Some(16usize));
        Ok(NV4TRI)
    } else if code_is(&code, p14) {
        assert(duration_of_code(code@) == Some(12usize));
        Ok(NV8)
    } else if code_is(&code, p15) || code_is(&code, p16) {
        assert(duration_of_code(code@) == Some(9usize));
        Ok(NV16DOT)
    } else if code_is(&code, p17) {
        assert(duration_of_code(code@) == Some(8usize));
        Ok(NV8TRI)
    } else if code_is(&code, p18) {
        assert(duration_of_code(code@) == Some(6usize));
        Ok(NV16)
    } else if code_is(&code, p19) {
        assert(duration_of_code(code@) == Some(4usize));
        Ok(NV16TRI)
    } else if code_is(&code, p20) {
        assert(duration_of_code(code@) == Some(3usize));
        Ok(NV32)
    } else {
        assert(duration_of_code(code@) is None);
        Err(NotationError::DurationError(message("Can not convert string '", chars.as_slice(), "' into usize Duration")))
    }
}

/// Accepts a number that is a note value.
pub fn duration_from(v: usize) -> (r: Result<Duration, NotationError>)
    ensures
        match r {
            Ok(d) => is_note_value(v) && d == v,
            Err(e) => !is_note_value(v) && (e matches NotationError::DurationError(m)
                && m@ == duration_value_message(v)),
        },
{
    if v == NV1DOT || v == NV1 || v == NV2DOT || v == NV2 || v == NV4DOT || v == NV2TRI || v == NV4
        || v == NV8DOT || v == NV4TRI || v == NV8 || v == NV16DOT || v == NV8TRI || v == NV16
        || v == NV16TRI || v == NV32 {
        Ok(v)
    } else {
        let digits = u64_to_decimal(v as u64);
        Err(NotationError::DurationError(message("Can not convert value ", digits.as_slice(), " to usize Duration")))
    }
}

pub open spec fn spec_is_beamable(d: usize) -> bool {
    d == 12 || d == 18 || d == 8 || d == 6 || d == 9 || d == 3
}

/// Eighths, sixteenths and thirty-seconds, dotted or in triplets as far as
/// they have a name here, can be beamed.
pub fn duration_is_beamable(duration: &Duration) -> (r: bool)
    ensures
        r == spec_is_beamable(*duration),
{
    let d = *duration;
    d == NV8 || d == NV8DOT || d == NV8TRI || d == NV16 || d == NV16DOT || d == NV32
}

/// Every note value but the whole notes has a stem.
pub fn duration_has_stem(duration: &Duration) -> (r: bool)
    ensures
        r == !(*duration == 144 || *duration == 96),
{
    !(*duration == NV1DOT || *duration == NV1)
}

/// Whole notes have wide heads, all others normal ones.
pub fn duration_get_headtype(duration: &Duration) -> (r: HeadType)
    ensures
        r == (if *duration == 144 || *duration == 96 {
            HeadType::WideHead
        } else {
            HeadType::NormalHead
        }),
{
    if *duration == NV1DOT || *duration == NV1 {
        HeadType::WideHead
    } else {
        HeadType::NormalHead
    }
}

pub open spec fn spec_headshape(d: usize) -> HeadShape {
    if d == 144 || d == 96 {
        HeadShape::WholeHead
    } else if d == 48 || d == 72 || d == 32 {
        HeadShape::WhiteHead
    } else {
        HeadShape::BlackHead
    }
}

/// Whole notes have whole heads, halves white heads, all others black ones.
pub fn duration_get_headshape(duration: &Duration) -> (r: HeadShape)
    ensures
        r == spec_headshape(*duration),
{
    let d = *duration;
    if d == NV1DOT || d == NV1 {
        HeadShape::WholeHead
    } else if d == NV2 || d == NV2DOT || d == NV2TRI {
        HeadShape::WhiteHead
    } else {
        HeadShape::BlackHead
    }
}

pub open spec fn spec_dots(d: usize) -> u8 {
    if d == 144 || d == 72 || d == 36 || d == 18 || d == 9 {
        1
    } else {
        0
    }
}

/// Dotted note values have one dot, all others none.
pub fn duration_get_dots(duration: &Duration) -> (r: u8)
    ensures
        r == spec_dots(*duration),
{
    let d = *duration;
    if d == NV1DOT || d == NV2DOT || d == NV4DOT || d == NV8DOT || d == NV16DOT {
        1
    } else {
        0
    }
}

#[derive(Debug, PartialEq, Eq, Clone, Copy, Structural)]
pub enum BeamType {
    NoBeam,
    B8,
    B16,
    B32,
    B64,
}

impl BeamType {
    /// The number a beam type stands for: 0, 8, 16, 32 and 34.
    pub open spec fn spec_value(self) -> usize {
        match self {
            BeamType::NoBeam => 0,
            BeamType::B8 => 8,
            BeamType::B16 => 16,
            BeamType::B32 => 32,
            BeamType::B64 => 34,
        }
    }

    /// The number a beam type stands for, by which beam types are ranked.
    pub fn value(&self) -> (r: usize)
        ensures
            r == self.spec_value(),
    {
        match self {
            BeamType::NoBeam => 0,
            BeamType::B8 => 8,
            BeamType::B16 => 16,
            BeamType::B32 => 32,
            BeamType::B64 => 34,
        }
    }
}

pub open spec fn spec_beamtype(d: usize) -> BeamType {
    if d == 12 || d == 18 || d == 8 {
        BeamType::B8
    } else if d == 6 || d == 9 || d == 4 {
        BeamType::B16
    } else if d == 3 {
        BeamType::B32
    } else {
        BeamType::NoBeam
    }
}

/// The number of beams a note value takes: one for eighths, two for
/// sixteenths, three for thirty-seconds, none otherwise.
pub fn duration_to_beamtype(duration: &Duration) -> (r: BeamType)
    ensures
        r == spec_beamtype(*duration),
{
    let d = *duration;
    if d == NV8 || d == NV8DOT || d == NV8TRI {
        BeamType::B8
    } else if d == NV16 || d == NV16DOT || d == NV16TRI {
        BeamType::B16
    } else if d == NV32 {
        BeamType::B32
    } else {
        BeamType::NoBeam
    }
}

/// The beam type of the first duration whose beam type ranks highest, or
/// `None` when there are no durations.
pub open spec fn spec_max_beamtype(ds: Seq<usize>) -> BeamType
    decreases ds.len(),
{
    if ds.len() == 0 {
        BeamType::NoBeam
    } else {
        let prev = spec_max_beamtype(ds.drop_last());
        let b = spec_beamtype(ds.last());
        if b.spec_value() > prev.spec_value() {
            b
        } else {
            prev
        }
    }
}

/// The beam type that the most beamed of the durations takes (`NoBeam` for none).
pub fn durations_to_beamtypes(durations: &Vec<Duration>) -> (r: BeamType)
    ensures
        r == spec_max_beamtype(durations@),
        forall|i: int|
            0 <= i < durations@.len() ==> spec_beamtype(#[trigger] durations@[i]).spec_value()
                <= r.spec_value(),
{
    let mut result = BeamType::NoBeam;
    let mut i: usize = 0;
    while i < durations.len()
        invariant
            i <= durations@.len(),
            result == spec_max_beamtype(durations@.take(i as int)),
            forall|k: int|
                0 <= k < i ==> spec_beamtype(#[trigger] durations@[k]).spec_value()
                    <= result.spec_value(),
        decreases durations.len() - i,
    {
        let beamtype = duration_to_beamtype(&durations[i]);
        assert(durations@.take(i + 1).drop_last() =~= durations@.take(i as int));
        if beamtype.value() > result.value() {
            result = beamtype;
        }
        i = i + 1;
    }
    assert(durations@.take(durations@.len() as int) =~= durations@);
    result
}

#[derive(Debug, PartialEq, Eq, Clone, Copy, Structural)]
pub enum PauseShape {
    Whole,
    Half,
    Quarter,
    Eighth,
    Sixteenth,
    ThirtySecond,
}

/// What a drawn rectangle of a score shows.
#[derive(Debug, PartialEq, Eq)]
pub enum NRectType {
    Head(HeadType, HeadShape),
    Dotted(u8),
    Pause(PauseShape),
    Clef(Clef),
    Accidental(Accidental),
    /// A tie from a note: the note's id, the level, the kind of tie, the
    /// note's length, the note's and the tie's direction, and where on the
    /// head it starts.
    TieFrom(usize, i8, TieFromType, Duration, DirUD, DirUD, TiePlacement),
    TieTo(TieToType),
    LyricChar(char),
    Flag(BeamType, DirUD),
    WIP(String),
    DevStem(String),
    DUMMY,
    Dev(bool, String),
    Spacer(String),
}

} // verus!
