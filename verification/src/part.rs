//! Parts: the music or lyrics of one staff within a bar.

use vstd::prelude::*;

use crate::complex::Complex;
use crate::core_defs::Duration;
use crate::voice::{Voice, Voices};

verus! {

/// What a part holds.
#[derive(Debug, PartialEq, Eq)]
pub enum PartType {
    Music(PartMusicType),
    Nonmusic(PartNonmusicType),
}

#[derive(Debug, PartialEq, Eq)]
pub enum PartMusicType {
    Voices(Voices),
    /// A bar repeated, by count.
    RepeatBar(usize),
}

#[derive(Debug, PartialEq, Eq)]
pub enum PartNonmusicType {
    Lyrics(Voices),
    Other,
}

/// A part of a bar, with its length and, once made, its complexes.
#[derive(Debug, PartialEq, Eq)]
pub struct Part {
    pub ptype: PartType,
    pub duration: Duration,
    pub complexes: Option<Vec<Complex>>,
}

/// The staff that a part is drawn on.
#[derive(Debug, PartialEq, Eq, Clone, Copy, Structural)]
pub enum PartBackground {
    FiveLines,
}

/// Whether a part of a bar layout is music or not.
#[derive(Debug, PartialEq, Eq, Clone, Copy, Structural)]
pub enum PartTemplate {
    Music,
    Nonmusic,
}

/// The kinds of the parts of a bar, in order.
#[derive(Debug, PartialEq, Eq, Clone)]
pub struct BarTemplate(pub Vec<PartTemplate>);

/// The length of one or two voices: the longer of the two.
pub open spec fn voices_duration(voices: Voices) -> Duration {
    match voices {
        Voices::One(v) => v.duration,
        Voices::Two(a, b) => if a.duration >= b.duration { a.duration } else { b.duration },
    }
}

/// A part type has a length: it is not a repeated bar nor an "other" part.
pub open spec fn has_duration(ptype: PartType) -> bool {
    !(ptype matches PartType::Music(PartMusicType::RepeatBar(_)))
        && !(ptype matches PartType::Nonmusic(PartNonmusicType::Other))
}

/// The length of a part type that has one: that of its voices.
pub open spec fn ptype_duration(ptype: PartType) -> Duration {
    match ptype {
        PartType::Music(PartMusicType::Voices(v)) => voices_duration(v),
        PartType::Nonmusic(PartNonmusicType::Lyrics(v)) => voices_duration(v),
        _ => 0,
    }
}

/// The length of one or two voices.
fn get_voices_duration(voices: &Voices) -> (r: Duration)
    ensures
        r == voices_duration(*voices),
{
    match voices {
        Voices::One(v) => v.duration,
        Voices::Two(a, b) => if a.duration >= b.duration {
            a.duration
        } else {
            b.duration
        },
    }
}

impl PartType {
    /// The length of the voices of the part.
    pub fn get_duration(&self) -> (r: Duration)
        requires
            has_duration(*self),
        ensures
            r == ptype_duration(*self),
    {
        match self {
            PartType::Music(PartMusicType::Voices(v)) => get_voices_duration(v),
            PartType::Nonmusic(PartNonmusicType::Lyrics(v)) => get_voices_duration(v),
            _ => 0,
        }
    }
}

impl Part {
    pub fn new(ptype: PartType) -> (r: Self)
        requires
            has_duration(ptype),
        ensures
            r.ptype == ptype,
            r.duration == ptype_duration(ptype),
            r.complexes is None,
    {
        let duration = ptype.get_duration();
        Self { ptype, duration, complexes: None }
    }

    /// A music part of the voices.
    pub fn from_voices(voices: Voices) -> (r: Result<Part, crate::error::NotationError>)
        ensures
            r matches Ok(p) && p.ptype == PartType::Music(PartMusicType::Voices(voices))
                && p.duration == voices_duration(voices) && p.complexes is None,
    {
        let duration = get_voices_duration(&voices);
        Ok(Self { ptype: PartType::Music(PartMusicType::Voices(voices)), duration, complexes: None })
    }

    /// A lyrics part of the voices.
    pub fn from_lyrics(voices: Voices) -> (r: Result<Part, crate::error::NotationError>)
        ensures
            r matches Ok(p) && p.ptype == PartType::Nonmusic(PartNonmusicType::Lyrics(voices))
                && p.duration == voices_duration(voices) && p.complexes is None,
    {
        let duration = get_voices_duration(&voices);
        Ok(Self { ptype: PartType::Nonmusic(PartNonmusicType::Lyrics(voices)), duration, complexes: None })
    }
}

} // verus!
