//! The notes of a score by where they stand, and replacing one of them.

use vstd::prelude::*;

use crate::bar::{Bar, BarType};
use crate::chunks::NoteLoc;
use crate::note::Note;
use crate::part::{Part, PartMusicType, PartType};
use crate::voice::{Voice, VoiceType, Voices};

verus! {

/// Voice `v` of the voices: 0 the upper or only one, 1 the lower.
pub open spec fn voice_of(vs: Voices, v: int) -> Option<Voice> {
    match vs {
        Voices::One(x) => if v == 0 {
            Some(x)
        } else {
            None
        },
        Voices::Two(x, y) => if v == 0 {
            Some(x)
        } else if v == 1 {
            Some(y)
        } else {
            None
        },
    }
}

/// The note of a voice at an index.
pub open spec fn voice_note(voice: Voice, i: int) -> Option<Note> {
    match voice.vtype {
        VoiceType::Notes(ns) => if 0 <= i < ns.items@.len() {
            Some(ns.items@[i])
        } else {
            None
        },
        _ => None,
    }
}

/// The note of a part at a voice and index.
pub open spec fn part_note(part: Part, v: int, i: int) -> Option<Note> {
    match part.ptype {
        PartType::Music(PartMusicType::Voices(vs)) => match voice_of(vs, v) {
            Some(voice) => voice_note(voice, i),
            None => None,
        },
        _ => None,
    }
}

/// The note of a bar at a part, voice and index.
pub open spec fn bar_note(bar: Bar, p: int, v: int, i: int) -> Option<Note> {
    match bar.btype {
        BarType::Standard(parts) => if 0 <= p < parts@.len() {
            part_note(parts@[p], v, i)
        } else {
            None
        },
        _ => None,
    }
}

/// The note that stands at a place of the bars, if any.
pub open spec fn note_at(bars: Seq<Bar>, loc: NoteLoc) -> Option<Note> {
    if loc.bar < bars.len() {
        bar_note(bars[loc.bar as int], loc.part as int, loc.voice as int, loc.note as int)
    } else {
        None
    }
}

/// Two voices alike but for the notes they hold: the same length, groups
/// and kind, and as many notes.
pub open spec fn voice_shape(a: Voice, b: Voice) -> bool {
    &&& a.duration == b.duration
    &&& a.beamgroups == b.beamgroups
    &&& match (a.vtype, b.vtype) {
        (VoiceType::Notes(x), VoiceType::Notes(y)) => x.duration == y.duration && x.items@.len() == y.items@.len(),
        (s, t) => s == t,
    }
}

pub open spec fn voices_shape(a: Voices, b: Voices) -> bool {
    match (a, b) {
        (Voices::One(x), Voices::One(y)) => voice_shape(x, y),
        (Voices::Two(x1, x2), Voices::Two(y1, y2)) => voice_shape(x1, y1) && voice_shape(x2, y2),
        _ => false,
    }
}

/// Two parts alike but for the notes their voices hold.
pub open spec fn part_shape(a: Part, b: Part) -> bool {
    &&& a.duration == b.duration
    &&& a.complexes == b.complexes
    &&& match (a.ptype, b.ptype) {
        (PartType::Music(PartMusicType::Voices(x)), PartType::Music(PartMusicType::Voices(y))) => voices_shape(x, y),
        (s, t) => s == t,
    }
}

/// Two bars alike but for the notes their parts hold.
pub open spec fn bar_shape(a: Bar, b: Bar) -> bool {
    &&& a.duration == b.duration
    &&& a.position == b.position
    &&& match (a.btype, b.btype) {
        (BarType::Standard(x), BarType::Standard(y)) => x@.len() == y@.len() && forall|p: int|
            0 <= p < x@.len() ==> part_shape(#[trigger] x@[p], y@[p]),
        (s, t) => s == t,
    }
}

/// Two scores alike but for the notes they hold.
pub open spec fn bars_shape(a: Seq<Bar>, b: Seq<Bar>) -> bool {
    &&& a.len() == b.len()
    &&& forall|i: int| 0 <= i < a.len() ==> bar_shape(#[trigger] a[i], b[i])
}

/// Puts a note in place of the note of a voice at an index, where there is
/// one, and gives back the note it replaced.
fn swap_in_voice(voice: &mut Voice, i: usize, note: Note) -> (r: Option<Note>)
    ensures
        r == voice_note(*old(voice), i as int),
        voice_shape(*old(voice), *final(voice)),
        forall|j: int| j != i ==> voice_note(*final(voice), j) == voice_note(*old(voice), j),
        r is Some ==> voice_note(*final(voice), i as int) == Some(note),
        r is None ==> *final(voice) == *old(voice),
{
    match &mut voice.vtype {
        VoiceType::Notes(ns) => {
            if i < ns.items.len() {
                let mut n = note;
                std::mem::swap(&mut n, &mut ns.items[i]);
                Some(n)
            } else {
                None
            }
        },
        _ => None,
    }
}

/// Puts a note in place of the note of a part at a voice and index.
fn swap_in_part(part: &mut Part, v: usize, i: usize, note: Note) -> (r: Option<Note>)
    ensures
        r == part_note(*old(part), v as int, i as int),
        part_shape(*old(part), *final(part)),
        forall|w: int, j: int|
            !(w == v && j == i) ==> part_note(*final(part), w, j) == part_note(*old(part), w, j),
        r is Some ==> part_note(*final(part), v as int, i as int) == Some(note),
{
    match &mut part.ptype {
        PartType::Music(PartMusicType::Voices(vs)) => match vs {
            Voices::One(x) => if v == 0 {
                swap_in_voice(x, i, note)
            } else {
                None
            },
            Voices::Two(x, y) => if v == 0 {
                swap_in_voice(x, i, note)
            } else if v == 1 {
                swap_in_voice(y, i, note)
            } else {
                None
            },
        },
        _ => None,
    }
}

/// Puts a note in place of the note of a bar at a part, voice and index.
fn swap_in_bar(bar: &mut Bar, p: usize, v: usize, i: usize, note: Note) -> (r: Option<Note>)
    ensures
        r == bar_note(*old(bar), p as int, v as int, i as int),
        bar_shape(*old(bar), *final(bar)),
        forall|q: int, w: int, j: int|
            !(q == p && w == v && j == i) ==> bar_note(*final(bar), q, w, j) == bar_note(*old(bar), q, w, j),
        r is Some ==> bar_note(*final(bar), p as int, v as int, i as int) == Some(note),
{
    match &mut bar.btype {
        BarType::Standard(parts) => {
            if p < parts.len() {
                swap_in_part(&mut parts[p], v, i, note)
            } else {
                None
            }
        },
        _ => None,
    }
}

/// Puts a note in place of the note at a place of the bars, where there
/// is one, and gives back the note it replaced; nothing else changes.
pub fn swap_note(bars: &mut Vec<Bar>, loc: NoteLoc, note: Note) -> (r: Option<Note>)
    ensures
        r == note_at(old(bars)@, loc),
        bars_shape(old(bars)@, final(bars)@),
        forall|l: NoteLoc| l != loc ==> note_at(final(bars)@, l) == note_at(old(bars)@, l),
        r is Some ==> note_at(final(bars)@, loc) == Some(note),
{
    if loc.bar < bars.len() {
        swap_in_bar(&mut bars[loc.bar], loc.part, loc.voice, loc.note, note)
    } else {
        None
    }
}

proof fn lemma_voice_shape_trans(a: Voice, b: Voice, c: Voice)
    requires
        voice_shape(a, b),
        voice_shape(b, c),
    ensures
        voice_shape(a, c),
{
}

proof fn lemma_part_shape_trans(a: Part, b: Part, c: Part)
    requires
        part_shape(a, b),
        part_shape(b, c),
    ensures
        part_shape(a, c),
{
    match (a.ptype, b.ptype, c.ptype) {
        (
            PartType::Music(PartMusicType::Voices(x)),
            PartType::Music(PartMusicType::Voices(y)),
            PartType::Music(PartMusicType::Voices(z)),
        ) => {
            match (x, y, z) {
                (Voices::One(x1), Voices::One(y1), Voices::One(z1)) => {
                    lemma_voice_shape_trans(x1, y1, z1);
                },
                (Voices::Two(x1, x2), Voices::Two(y1, y2), Voices::Two(z1, z2)) => {
                    lemma_voice_shape_trans(x1, y1, z1);
                    lemma_voice_shape_trans(x2, y2, z2);
                },
                _ => {},
            }
        },
        _ => {},
    }
}

proof fn lemma_bar_shape_trans(a: Bar, b: Bar, c: Bar)
    requires
        bar_shape(a, b),
        bar_shape(b, c),
    ensures
        bar_shape(a, c),
{
    match (a.btype, b.btype, c.btype) {
        (BarType::Standard(x), BarType::Standard(y), BarType::Standard(z)) => {
            assert forall|p: int| 0 <= p < x@.len() implies part_shape(#[trigger] x@[p], z@[p]) by {
                lemma_part_shape_trans(x@[p], y@[p], z@[p]);
            }
        },
        _ => {},
    }
}

/// Being alike but for the notes passes on.
pub proof fn lemma_bars_shape_trans(a: Seq<Bar>, b: Seq<Bar>, c: Seq<Bar>)
    requires
        bars_shape(a, b),
        bars_shape(b, c),
    ensures
        bars_shape(a, c),
{
    assert forall|i: int| 0 <= i < a.len() implies bar_shape(#[trigger] a[i], c[i]) by {
        lemma_bar_shape_trans(a[i], b[i], c[i]);
    }
}

/// A score is alike itself.
pub proof fn lemma_bars_shape_refl(a: Seq<Bar>)
    ensures
        bars_shape(a, a),
{
    assert forall|i: int| 0 <= i < a.len() implies bar_shape(#[trigger] a[i], a[i]) by {
        match a[i].btype {
            BarType::Standard(x) => {
                assert forall|p: int| 0 <= p < x@.len() implies part_shape(#[trigger] x@[p], x@[p]) by {
                    match x@[p].ptype {
                        PartType::Music(PartMusicType::Voices(vs)) => {
                            match vs {
                                Voices::One(v) => {},
                                Voices::Two(v, w) => {},
                            }
                        },
                        _ => {},
                    }
                }
            },
            _ => {},
        }
    }
}

} // verus!
