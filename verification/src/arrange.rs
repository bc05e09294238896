//! Arranging the voices of a part: beam groups, where their beams lie, and
//! the stem directions of the notes.

use vstd::prelude::*;

use crate::beamgroup::{beam_levels, beam_levels_spec, keep_within_stem, within_stem, Beamgroup, BeamingPattern};
use crate::core_defs::DirUD;
use crate::note::Note;
use crate::part::{Part, PartMusicType, PartNonmusicType, PartType};
use crate::voice::{can_group, voice_grouped, Voice, VoiceType, Voices};

verus! {

/// The (top, bottom) levels of the notes at the indexes.
pub open spec fn levels_of(notes: Seq<Note>, idx: Seq<usize>) -> Seq<(i8, i8)> {
    idx.map_values(|i: usize| (notes[i as int].spec_top_level(), notes[i as int].spec_bottom_level()))
}

/// The beam groups of a voice can be measured: the voice holds notes, and
/// each group has a direction and notes of the voice.
pub open spec fn groups_measurable(v: Voice) -> bool {
    v.beamgroups matches Some(gs) ==> v.vtype matches VoiceType::Notes(ns) && forall|g: int|
        0 <= g < gs@.len() ==> {
            &&& (#[trigger] gs@[g]).direction is Some
            &&& gs@[g].notes@.len() > 0
            &&& forall|j: int| 0 <= j < gs@[g].notes@.len() ==> gs@[g].notes@[j] < ns.items@.len()
        }
}

/// Each beam group of the voice gets the levels where its beam starts and
/// ends (see `beam_levels_spec`), kept within a stem's length of the
/// middle line (see `within_stem`); nothing else changes.
pub open spec fn voice_measured(before: Voice, after: Voice) -> bool {
    &&& after.duration == before.duration
    &&& after.vtype == before.vtype
    &&& match before.beamgroups {
        None => after.beamgroups is None,
        Some(gs) => after.beamgroups matches Some(hs) && hs@.len() == gs@.len() && forall|g: int|
            0 <= g < gs@.len() ==> {
                let ns = before.vtype->Notes_0.items@;
                let d = gs@[g].direction->0;
                let lv = beam_levels_spec(d, levels_of(ns, gs@[g].notes@));
                #[trigger] hs@[g] == (Beamgroup { start_level: within_stem(d, lv.0), end_level: within_stem(d, lv.1), ..gs@[g] })
            },
    }
}

/// The (top, bottom) levels of the notes at the indexes.
fn group_levels(notes: &Vec<Note>, idx: &Vec<usize>) -> (r: Vec<(i8, i8)>)
    requires
        forall|j: int| 0 <= j < idx@.len() ==> idx@[j] < notes@.len(),
    ensures
        r@ == levels_of(notes@, idx@),
{
    let mut r: Vec<(i8, i8)> = Vec::new();
    let mut j: usize = 0;
    while j < idx.len()
        invariant
            j <= idx@.len(),
            forall|k: int| 0 <= k < idx@.len() ==> idx@[k] < notes@.len(),
            r@ == levels_of(notes@, idx@.take(j as int)),
        decreases idx@.len() - j,
    {
        let note = &notes[idx[j]];
        r.push((note.top_level(), note.bottom_level()));
        assert(levels_of(notes@, idx@.take(j + 1)) =~= levels_of(notes@, idx@.take(j as int)).push(
            (notes@[idx@[j as int] as int].spec_top_level(), notes@[idx@[j as int] as int].spec_bottom_level()),
        ));
        j = j + 1;
    }
    assert(idx@.take(idx@.len() as int) =~= idx@);
    r
}

/// Sets where the beams of a voice's groups start and end.
fn measure_voice(v: &mut Voice)
    requires
        groups_measurable(*old(v)),
    ensures
        voice_measured(*old(v), *final(v)),
{
    let mut taken: Option<Vec<Beamgroup>> = None;
    std::mem::swap(&mut taken, &mut v.beamgroups);
    match taken {
        None => {},
        Some(mut gs) => {
            let ghost gs0 = gs@;
            match &v.vtype {
                VoiceType::Notes(ns) => {
                    let mut g: usize = 0;
                    while g < gs.len()
                        invariant
                            g <= gs@.len(),
                            gs@.len() == gs0.len(),
                            forall|h: int|
                                0 <= h < gs0.len() ==> {
                                    &&& (#[trigger] gs0[h]).direction is Some
                                    &&& gs0[h].notes@.len() > 0
                                    &&& forall|j: int| 0 <= j < gs0[h].notes@.len() ==> gs0[h].notes@[j] < ns.items@.len()
                                },
                            forall|h: int| g <= h < gs0.len() ==> #[trigger] gs@[h] == gs0[h],
                            forall|h: int|
                                0 <= h < g ==> {
                                    let d = gs0[h].direction->0;
                                    let lv = beam_levels_spec(d, levels_of(ns.items@, gs0[h].notes@));
                                    #[trigger] gs@[h] == (Beamgroup { start_level: within_stem(d, lv.0), end_level: within_stem(d, lv.1), ..gs0[h] })
                                },
                        decreases gs@.len() - g,
                    {
                        assert(gs0[g as int].direction is Some);
                        let dir = match gs[g].direction {
                            Some(d) => d,
                            None => DirUD::Up,
                        };
                        let ls = group_levels(&ns.items, &gs[g].notes);
                        let (a, b) = beam_levels(dir, &ls);
                        gs[g].start_level = keep_within_stem(dir, a);
                        gs[g].end_level = keep_within_stem(dir, b);
                        g = g + 1;
                    }
                },
                _ => {},
            }
            v.beamgroups = Some(gs);
        },
    }
}

/// Voices are measurable: each voice's groups (see `groups_measurable`).
pub open spec fn voices_measurable(vs: Voices) -> bool {
    match vs {
        Voices::One(v) => groups_measurable(v),
        Voices::Two(u, l) => groups_measurable(u) && groups_measurable(l),
    }
}

/// The voices with their beams measured (see `voice_measured`).
pub open spec fn voices_measured(before: Voices, after: Voices) -> bool {
    match before {
        Voices::One(v) => after matches Voices::One(w) && voice_measured(v, w),
        Voices::Two(u, l) => after matches Voices::Two(x, y) && voice_measured(u, x) && voice_measured(l, y),
    }
}

/// Measures the beams of the voices.
fn measure_voices(vs: Voices) -> (r: Voices)
    requires
        voices_measurable(vs),
    ensures
        voices_measured(vs, r),
{
    match vs {
        Voices::One(mut v) => {
            measure_voice(&mut v);
            Voices::One(v)
        },
        Voices::Two(mut u, mut l) => {
            measure_voice(&mut u);
            measure_voice(&mut l);
            Voices::Two(u, l)
        },
    }
}

/// The voices can be grouped by the pattern (see `can_group`).
pub open spec fn voices_groupable(vs: Voices, pattern: BeamingPattern) -> bool {
    let ok = |v: Voice| v.vtype matches VoiceType::Notes(ns) ==> can_group(ns, pattern);
    match vs {
        Voices::One(v) => ok(v),
        Voices::Two(u, l) => ok(u) && ok(l),
    }
}

/// Each voice with notes has its beam groups, made by the pattern (see
/// `voice_grouped`).
pub open spec fn voices_grouped(before: Voices, after: Voices, pattern: BeamingPattern) -> bool {
    match before {
        Voices::One(v) => after matches Voices::One(w) && voice_grouped(v, w, pattern),
        Voices::Two(u, l) => after matches Voices::Two(x, y) && voice_grouped(u, x, pattern) && voice_grouped(
            l,
            y,
            pattern,
        ),
    }
}

/// A part's voices, where it has voices.
pub open spec fn part_voices(p: PartType) -> Option<Voices> {
    match p {
        PartType::Music(PartMusicType::Voices(vs)) => Some(vs),
        _ => None,
    }
}

/// A part after its beam groups are made by the pattern (see
/// `voices_grouped`); a part without music voices is left as it is.
pub open spec fn beamgroups_created(a: Part, b: Part, pattern: BeamingPattern) -> bool {
    &&& b.duration == a.duration
    &&& b.complexes == a.complexes
    &&& match part_voices(a.ptype) {
        Some(vs) => part_voices(b.ptype) matches Some(ws) && voices_grouped(vs, ws, pattern),
        None => b.ptype == a.ptype,
    }
}

/// A part after the levels of its beams are set (see `voices_measured`);
/// a part without music voices is left as it is.
pub open spec fn beams_measured(a: Part, b: Part) -> bool {
    &&& b.duration == a.duration
    &&& b.complexes == a.complexes
    &&& match part_voices(a.ptype) {
        Some(vs) => part_voices(b.ptype) matches Some(ws) && voices_measured(vs, ws),
        None => b.ptype == a.ptype,
    }
}

impl Part {
    /// Makes the beam groups of the voices of a music part (see
    /// `Voice::create_beamgroups`); a part of lyrics is left as it is.
    pub fn create_beamgroups(&mut self, pattern: BeamingPattern)
        requires
            !(old(self).ptype matches PartType::Music(PartMusicType::RepeatBar(_))),
            part_voices(old(self).ptype) matches Some(vs) ==> voices_groupable(vs, pattern),
        ensures
            beamgroups_created(*old(self), *final(self), pattern),
    {
        let mut pt = PartType::Nonmusic(PartNonmusicType::Other);
        std::mem::swap(&mut pt, &mut self.ptype);
        match pt {
            PartType::Music(PartMusicType::Voices(vs)) => {
                let vs2 = match vs {
                    Voices::One(mut v) => {
                        v.create_beamgroups(&pattern);
                        Voices::One(v)
                    },
                    Voices::Two(mut a, mut b) => {
                        a.create_beamgroups(&pattern);
                        b.create_beamgroups(&pattern);
                        Voices::Two(a, b)
                    },
                };
                self.ptype = PartType::Music(PartMusicType::Voices(vs2));
            },
            other => {
                self.ptype = other;
            },
        }
    }

    /// Sets where the beams of the groups of a music part's voices start
    /// and end (see `beam_levels`), kept within a stem's length of the
    /// middle line (see `within_stem`); a part of lyrics is left as it is.
    pub fn calculate_beamgoups_properties(&mut self)
        requires
            !(old(self).ptype matches PartType::Music(PartMusicType::RepeatBar(_))),
            part_voices(old(self).ptype) matches Some(vs) ==> voices_measurable(vs),
        ensures
            beams_measured(*old(self), *final(self)),
    {
        let mut pt = PartType::Nonmusic(PartNonmusicType::Other);
        std::mem::swap(&mut pt, &mut self.ptype);
        match pt {
            PartType::Music(PartMusicType::Voices(vs)) => {
                let vs2 = measure_voices(vs);
                self.ptype = PartType::Music(PartMusicType::Voices(vs2));
            },
            other => {
                self.ptype = other;
            },
        }
    }
}

/// Every note of a voice of notes lies in one of the voice's groups.
pub open spec fn notes_grouped(v: Voice) -> bool {
    v.vtype matches VoiceType::Notes(ns) ==> v.beamgroups matches Some(gs) && forall|i: int|
        0 <= i < ns.items@.len() ==> ((#[trigger] ns.items@[i]).beamgroup matches Some(g) && g < gs@.len())
}

/// Each note of the voice takes the direction of its group; nothing else
/// changes.
pub open spec fn directions_set(before: Voice, after: Voice) -> bool {
    &&& after.duration == before.duration
    &&& after.beamgroups == before.beamgroups
    &&& match before.vtype {
        VoiceType::Barpause(_) => after.vtype == before.vtype,
        VoiceType::Notes(ns) => after.vtype matches VoiceType::Notes(ms) && {
            &&& ms.duration == ns.duration
            &&& ms.items@.len() == ns.items@.len()
            &&& forall|i: int|
                0 <= i < ns.items@.len() ==> #[trigger] ms.items@[i] == (Note {
                    direction: before.beamgroups->0@[ns.items@[i].beamgroup->0 as int].direction,
                    ..ns.items@[i]
                })
        },
    }
}

/// Gives each note of the voice the direction of its group.
fn direct_voice(v: Voice) -> (r: Voice)
    requires
        notes_grouped(v),
    ensures
        directions_set(v, r),
{
    let Voice { duration, vtype, beamgroups } = v;
    match vtype {
        VoiceType::Notes(ns) => {
            let ghost before = ns.items@;
            let mut items = ns.items;
            let mut i: usize = 0;
            match &beamgroups {
                Some(gs) => {
                    while i < items.len()
                        invariant
                            i <= items@.len(),
                            items@.len() == before.len(),
                            forall|k: int|
                                0 <= k < before.len() ==> ((#[trigger] before[k]).beamgroup matches Some(g) && g
                                    < gs@.len()),
                            forall|k: int| i <= k < before.len() ==> #[trigger] items@[k] == before[k],
                            forall|k: int|
                                0 <= k < i ==> #[trigger] items@[k] == (Note {
                                    direction: gs@[before[k].beamgroup->0 as int].direction,
                                    ..before[k]
                                }),
                        decreases items@.len() - i,
                    {
                        assert(before[i as int].beamgroup is Some);
                        let g = match items[i].beamgroup {
                            Some(g) => g,
                            None => 0,
                        };
                        let d = gs[g].direction;
                        items[i].direction = d;
                        i = i + 1;
                    }
                },
                None => {},
            }
            Voice { duration, vtype: VoiceType::Notes(crate::note::Notes { items, duration: ns.duration }), beamgroups }
        },
        other => Voice { duration, vtype: other, beamgroups },
    }
}

/// A music part after each note takes the direction of its group (see
/// `directions_set`).
pub open spec fn note_directions_set(a: Part, b: Part) -> bool {
    &&& b.duration == a.duration
    &&& b.complexes == a.complexes
    &&& match part_voices(a.ptype) {
        Some(Voices::One(v)) => part_voices(b.ptype) matches Some(Voices::One(w)) && directions_set(v, w),
        Some(Voices::Two(u, l)) => part_voices(b.ptype) matches Some(Voices::Two(x, y)) && directions_set(u, x)
            && directions_set(l, y),
        None => false,
    }
}

impl Part {
    /// Gives each note of a music part the direction of its beam group.
    pub fn set_note_directions(&mut self) -> (r: Option<()>)
        requires
            part_voices(old(self).ptype) matches Some(vs) && match vs {
                Voices::One(v) => notes_grouped(v),
                Voices::Two(u, l) => notes_grouped(u) && notes_grouped(l),
            },
        ensures
            r is None,
            note_directions_set(*old(self), *final(self)),
    {
        let mut pt = PartType::Nonmusic(PartNonmusicType::Other);
        std::mem::swap(&mut pt, &mut self.ptype);
        match pt {
            PartType::Music(PartMusicType::Voices(vs)) => {
                let vs2 = match vs {
                    Voices::One(v) => Voices::One(direct_voice(v)),
                    Voices::Two(u, l) => {
                        let x = direct_voice(u);
                        let y = direct_voice(l);
                        Voices::Two(x, y)
                    },
                };
                self.ptype = PartType::Music(PartMusicType::Voices(vs2));
            },
            other => {
                self.ptype = other;
            },
        }
        None
    }
}

} // verus!
