//! The beam marks of the complexes of a part: for the note of each voice in
//! each complex, whether it stands alone under its beam group, starts it,
//! lies within it or ends it, with what the beam is drawn from; and the
//! tie marks and the lines that arrive at the notes of each complex. How
//! wide the heads are is measured elsewhere.

use vstd::prelude::*;

use crate::beamgroup::{BeamLevel, Beamgroup};
use crate::complex::{complex_voices, voice_pair, Complex, ComplexType, ComplexXAdjustment};
use crate::core_defs::{DirUD, Duration};
use crate::head::HeadLineTo;
use crate::marks::{
    complex_in_voices, complex_lines, complex_lines_of, complex_markable, complex_tie_marks, complex_tie_marks_of, directed,
};
use crate::core_defs::NRectType;
use crate::note::Note;
use crate::part::{Part, PartMusicType, PartNonmusicType, PartType};
use crate::voice::{Voice, VoiceType, Voices};

verus! {

/// What a beam is drawn from at one note: the group's id and direction,
/// the note's id, place, length and levels, the level of the beam's tip
/// there, whether the note has a stem, how the note is set apart from the
/// other voice's note, and whether it belongs to the lower voice.
#[derive(Debug, Clone, Copy, PartialEq, Eq, Structural)]
pub struct BeamData {
    pub id: usize,
    pub note_id: usize,
    pub note_position: usize,
    pub direction: DirUD,
    pub duration: Duration,
    pub tip_level: BeamLevel,
    pub top_level: i8,
    pub bottom_level: i8,
    pub has_stem: bool,
    pub adjustment_x: Option<ComplexXAdjustment>,
    pub lower_voice: bool,
}

/// Where a note stands in its beam group; the last note of a group also
/// carries the lengths of the group's notes.
#[derive(Debug, Clone, PartialEq, Eq)]
pub enum BeamRole {
    NoBeam,
    Single(BeamData),
    Start(BeamData),
    Middle(BeamData),
    End(BeamData, Vec<Duration>),
}

/// Two roles agree: the same role with the same data, and, for the last
/// note of a group, the same lengths.
pub open spec fn same_role(a: BeamRole, b: BeamRole) -> bool {
    match (a, b) {
        (BeamRole::End(d, v), BeamRole::End(e, w)) => d == e && v@ == w@,
        (BeamRole::End(_, _), _) => false,
        (_, BeamRole::End(_, _)) => false,
        _ => a == b,
    }
}

/// Two sequences of pairs of roles agree pairwise (see `same_role`).
pub open spec fn same_roles(a: Seq<(BeamRole, BeamRole)>, b: Seq<(BeamRole, BeamRole)>) -> bool {
    &&& a.len() == b.len()
    &&& forall|k: int|
        0 <= k < a.len() ==> same_role((#[trigger] a[k]).0, b[k].0) && same_role(a[k].1, b[k].1)
}

/// The beam data of a note of a group, with the tip level given.
pub open spec fn beam_data(g: Beamgroup, n: Note, tip: BeamLevel, adjust: Option<ComplexXAdjustment>, lower: bool) -> BeamData {
    BeamData {
        id: g.id,
        note_id: n.id,
        note_position: n.position,
        direction: g.direction->0,
        duration: n.duration,
        tip_level: tip,
        top_level: n.spec_top_level(),
        bottom_level: n.spec_bottom_level(),
        has_stem: n.spec_is_heads() && !(n.duration == 144 || n.duration == 96),
        adjustment_x: adjust,
        lower_voice: lower,
    }
}

/// The walk of one voice: the id of the group met last, if any, and how
/// many of its notes followed its first.
pub type BeamWalk = (Option<usize>, nat);

/// One note of a voice walked: a note of heads in a group other than the
/// last one met starts that group (or stands alone in a group of one note)
/// at the group's start level; a further note of the same group lies
/// within it, or ends it where it is the group's last, at the end level.
/// Other notes leave the walk as it was and get no beam.
pub open spec fn beam_step(
    st: BeamWalk,
    n: Note,
    groups: Seq<Beamgroup>,
    adjust: Option<ComplexXAdjustment>,
    lower: bool,
) -> (BeamWalk, BeamRole) {
    if !n.spec_is_heads() {
        (st, BeamRole::NoBeam)
    } else {
        let g = groups[n.beamgroup->0 as int];
        if st.0 != Some(g.id) {
            (
                (Some(g.id), 0nat),
                if g.notes@.len() == 1 {
                    BeamRole::Single(beam_data(g, n, g.start_level, adjust, lower))
                } else {
                    BeamRole::Start(beam_data(g, n, g.start_level, adjust, lower))
                },
            )
        } else {
            let c = st.1 + 1;
            (
                (st.0, c),
                if c < g.notes@.len() - 1 {
                    BeamRole::Middle(beam_data(g, n, g.end_level, adjust, lower))
                } else {
                    BeamRole::End(beam_data(g, n, g.end_level, adjust, lower), g.note_durations)
                },
            )
        }
    }
}

/// The note of the upper (or only) voice in a complex, if any.
pub open spec fn upper_note(c: ComplexType) -> Option<usize> {
    match c {
        ComplexType::Single(a, _) => Some(a),
        ComplexType::Upper(a, _) => Some(a),
        ComplexType::Two(a, _, _) => Some(a),
        _ => None,
    }
}

/// The note of the lower voice in a complex, if any.
pub open spec fn lower_note(c: ComplexType) -> Option<usize> {
    match c {
        ComplexType::Lower(b, _) => Some(b),
        ComplexType::Two(_, b, _) => Some(b),
        _ => None,
    }
}

/// How the notes of a complex are set apart.
pub open spec fn complex_adjust(c: ComplexType) -> Option<ComplexXAdjustment> {
    match c {
        ComplexType::Two(_, _, adj) => adj,
        _ => None,
    }
}

/// The complexes walked in order, each voice on its own: the walks after
/// them and, for each complex, the beam role of its upper and its lower
/// note.
pub open spec fn beams_fold(
    cs: Seq<Complex>,
    un: Seq<Note>,
    ug: Seq<Beamgroup>,
    ln: Seq<Note>,
    lg: Seq<Beamgroup>,
) -> (BeamWalk, BeamWalk, Seq<(BeamRole, BeamRole)>)
    decreases cs.len(),
{
    if cs.len() == 0 {
        ((None, 0nat), (None, 0nat), Seq::empty())
    } else {
        let prev = beams_fold(cs.drop_last(), un, ug, ln, lg);
        let c = cs.last().ctype;
        let adj = complex_adjust(c);
        let up = match upper_note(c) {
            Some(a) => beam_step(prev.0, un[a as int], ug, adj, false),
            None => (prev.0, BeamRole::NoBeam),
        };
        let lo = match lower_note(c) {
            Some(b) => beam_step(prev.1, ln[b as int], lg, adj, true),
            None => (prev.1, BeamRole::NoBeam),
        };
        (up.0, lo.0, prev.2.push((up.1, lo.1)))
    }
}

/// A note of heads lies in a group that has a direction and notes.
pub open spec fn beamable(n: Note, groups: Seq<Beamgroup>) -> bool {
    n.spec_is_heads() ==> (n.beamgroup matches Some(g) && g < groups.len() && groups[g as int].direction is Some
        && groups[g as int].notes@.len() > 0)
}

/// The notes of the complexes are notes of their voices, and those of
/// heads lie in groups that have a direction and notes.
pub open spec fn complexes_beamable(
    cs: Seq<Complex>,
    un: Seq<Note>,
    ug: Seq<Beamgroup>,
    ln: Seq<Note>,
    lg: Seq<Beamgroup>,
) -> bool {
    forall|k: int|
        #![trigger cs[k]]
        0 <= k < cs.len() ==> {
            &&& upper_note(cs[k].ctype) matches Some(a) ==> a < un.len() && beamable(un[a as int], ug)
            &&& lower_note(cs[k].ctype) matches Some(b) ==> b < ln.len() && beamable(ln[b as int], lg)
        }
}

/// One note of a voice walked (see `beam_step`).
fn step_exec(
    st: (Option<usize>, usize),
    n: &Note,
    groups: &Vec<Beamgroup>,
    adjust: Option<ComplexXAdjustment>,
    lower: bool,
    Ghost(k): Ghost<nat>,
) -> (r: ((Option<usize>, usize), BeamRole))
    requires
        beamable(*n, groups@),
        st.1 <= k,
        k < usize::MAX,
    ensures
        ({
            let s = beam_step((st.0, st.1 as nat), *n, groups@, adjust, lower);
            &&& r.0.0 == s.0.0
            &&& r.0.1 == s.0.1
            &&& same_role(r.1, s.1)
            &&& r.0.1 <= k + 1
        }),
{
    if !n.is_heads() {
        return (st, BeamRole::NoBeam);
    }
    let gi = match n.beamgroup {
        Some(g) => g,
        None => 0,
    };
    let g = &groups[gi];
    let dir = match g.direction {
        Some(d) => d,
        None => DirUD::Up,
    };
    let same = match st.0 {
        Some(id) => id == g.id,
        None => false,
    };
    if !same {
        let data = BeamData {
            id: g.id,
            note_id: n.id,
            note_position: n.position,
            direction: dir,
            duration: n.duration,
            tip_level: g.start_level,
            top_level: n.top_level(),
            bottom_level: n.bottom_level(),
            has_stem: n.has_stem(),
            adjustment_x: adjust,
            lower_voice: lower,
        };
        let role = if g.notes.len() == 1 {
            BeamRole::Single(data)
        } else {
            BeamRole::Start(data)
        };
        ((Some(g.id), 0), role)
    } else {
        let c = st.1 + 1;
        let data = BeamData {
            id: g.id,
            note_id: n.id,
            note_position: n.position,
            direction: dir,
            duration: n.duration,
            tip_level: g.end_level,
            top_level: n.top_level(),
            bottom_level: n.bottom_level(),
            has_stem: n.has_stem(),
            adjustment_x: adjust,
            lower_voice: lower,
        };
        let role = if c < g.notes.len() - 1 {
            BeamRole::Middle(data)
        } else {
            BeamRole::End(data, g.note_durations.clone())
        };
        ((st.0, c), role)
    }
}

/// The beam roles of the notes of each complex, in order (see
/// `beams_fold`).
pub fn complex_beams(
    cs: &Vec<Complex>,
    upper: &Vec<Note>,
    upper_groups: &Vec<Beamgroup>,
    lower: &Vec<Note>,
    lower_groups: &Vec<Beamgroup>,
) -> (r: Vec<(BeamRole, BeamRole)>)
    requires
        complexes_beamable(cs@, upper@, upper_groups@, lower@, lower_groups@),
    ensures
        same_roles(r@, beams_fold(cs@, upper@, upper_groups@, lower@, lower_groups@).2),
{
    let mut r: Vec<(BeamRole, BeamRole)> = Vec::new();
    let mut su: (Option<usize>, usize) = (None, 0);
    let mut sl: (Option<usize>, usize) = (None, 0);
    let mut k: usize = 0;
    assert(cs@.take(0) =~= Seq::<Complex>::empty());
    while k < cs.len()
        invariant
            k <= cs@.len(),
            complexes_beamable(cs@, upper@, upper_groups@, lower@, lower_groups@),
            su.1 <= k,
            sl.1 <= k,
            ({
                let f = beams_fold(cs@.take(k as int), upper@, upper_groups@, lower@, lower_groups@);
                &&& su.0 == f.0.0
                &&& su.1 == f.0.1
                &&& sl.0 == f.1.0
                &&& sl.1 == f.1.1
                &&& same_roles(r@, f.2)
            }),
        decreases cs@.len() - k,
    {
        proof {
            assert(cs@.take(k + 1).drop_last() =~= cs@.take(k as int));
            assert(cs@.take(k + 1).last() == cs@[k as int]);
        }
        let c = cs[k].ctype;
        let adj = match c {
            ComplexType::Two(_, _, a) => a,
            _ => None,
        };
        let (su2, up) = match c {
            ComplexType::Single(a, _) | ComplexType::Upper(a, _) | ComplexType::Two(a, _, _) => step_exec(
                su,
                &upper[a],
                upper_groups,
                adj,
                false,
                Ghost(k as nat),
            ),
            _ => (su, BeamRole::NoBeam),
        };
        let (sl2, lo) = match c {
            ComplexType::Lower(b, _) | ComplexType::Two(_, b, _) => step_exec(
                sl,
                &lower[b],
                lower_groups,
                adj,
                true,
                Ghost(k as nat),
            ),
            _ => (sl, BeamRole::NoBeam),
        };
        su = su2;
        sl = sl2;
        r.push((up, lo));
        k = k + 1;
    }
    assert(cs@.take(cs@.len() as int) =~= cs@);
    r
}

/// Whether a note of heads lies in a group with a direction (see
/// `beamable`).
fn note_beamable(n: &Note, groups: &Vec<Beamgroup>) -> (r: bool)
    ensures
        r == beamable(*n, groups@),
{
    if !n.is_heads() {
        return true;
    }
    match n.beamgroup {
        Some(g) => {
            if g < groups.len() {
                match groups[g].direction {
                    Some(_) => groups[g].notes.len() > 0,
                    None => false,
                }
            } else {
                false
            }
        },
        None => false,
    }
}

/// Whether the complexes can be walked for beams (see
/// `complexes_beamable`).
fn check_beamable(
    cs: &Vec<Complex>,
    upper: &Vec<Note>,
    upper_groups: &Vec<Beamgroup>,
    lower: &Vec<Note>,
    lower_groups: &Vec<Beamgroup>,
) -> (r: bool)
    ensures
        r == complexes_beamable(cs@, upper@, upper_groups@, lower@, lower_groups@),
{
    let mut k: usize = 0;
    while k < cs.len()
        invariant
            k <= cs@.len(),
            forall|j: int|
                #![trigger cs@[j]]
                0 <= j < k ==> {
                    &&& upper_note(cs@[j].ctype) matches Some(a) ==> a < upper@.len() && beamable(
                        upper@[a as int],
                        upper_groups@,
                    )
                    &&& lower_note(cs@[j].ctype) matches Some(b) ==> b < lower@.len() && beamable(
                        lower@[b as int],
                        lower_groups@,
                    )
                },
        decreases cs@.len() - k,
    {
        let c = cs[k].ctype;
        let up_ok = match c {
            ComplexType::Single(a, _) | ComplexType::Upper(a, _) | ComplexType::Two(a, _, _) => a < upper.len()
                && note_beamable(&upper[a], upper_groups),
            _ => true,
        };
        let lo_ok = match c {
            ComplexType::Lower(b, _) | ComplexType::Two(_, b, _) => b < lower.len() && note_beamable(
                &lower[b],
                lower_groups,
            ),
            _ => true,
        };
        if !(up_ok && lo_ok) {
            assert(cs@[k as int].ctype == c);
            return false;
        }
        k = k + 1;
    }
    true
}

/// The notes of a voice, none for a bar pause.
fn voice_notes<'a>(v: &'a Voice, empty: &'a Vec<Note>) -> (r: &'a Vec<Note>)
    requires
        empty@.len() == 0,
    ensures
        r@ == crate::complex::notes_of(*v),
{
    match &v.vtype {
        VoiceType::Notes(ns) => &ns.items,
        _ => {
            assert(empty@ =~= Seq::<Note>::empty());
            empty
        },
    }
}

/// The beam groups of a voice, none before they are made.
fn voice_groups<'a>(v: &'a Voice, empty: &'a Vec<Beamgroup>) -> (r: &'a Vec<Beamgroup>)
    requires
        empty@.len() == 0,
    ensures
        r@ == crate::complex::groups_of(*v),
{
    match &v.beamgroups {
        Some(gs) => gs,
        None => {
            assert(empty@ =~= Seq::<Beamgroup>::empty());
            empty
        },
    }
}

impl Part {
    /// The beam roles of the notes of each complex of the part, upper then
    /// lower (see `beams_fold`); `None` where the part has no complexes or
    /// no voices, or where a note of heads in a complex lies in no group
    /// with a direction.
    pub fn beam_roles(&self) -> (r: Option<Vec<(BeamRole, BeamRole)>>)
        ensures
            r is Some <==> (self.complexes matches Some(cs) && complex_voices(self.ptype) matches Some(vs)
                && complexes_beamable(
                cs@,
                voice_pair(vs).0,
                voice_pair(vs).1,
                voice_pair(vs).2,
                voice_pair(vs).3,
            )),
            r matches Some(roles) ==> (self.complexes matches Some(cs) && complex_voices(self.ptype) matches Some(
                vs,
            ) && same_roles(
                roles@,
                beams_fold(cs@, voice_pair(vs).0, voice_pair(vs).1, voice_pair(vs).2, voice_pair(vs).3).2,
            )),
    {
        let cs = match &self.complexes {
            Some(cs) => cs,
            None => return None,
        };
        let vs = match &self.ptype {
            PartType::Music(PartMusicType::Voices(vs)) => vs,
            PartType::Nonmusic(PartNonmusicType::Lyrics(vs)) => vs,
            _ => return None,
        };
        let no_notes: Vec<Note> = Vec::new();
        let no_groups: Vec<Beamgroup> = Vec::new();
        let (un, ug, ln, lg) = match vs {
            Voices::One(v) => (
                voice_notes(v, &no_notes),
                voice_groups(v, &no_groups),
                &no_notes,
                &no_groups,
            ),
            Voices::Two(a, b) => (
                voice_notes(a, &no_notes),
                voice_groups(a, &no_groups),
                voice_notes(b, &no_notes),
                voice_groups(b, &no_groups),
            ),
        };
        proof {
            assert(no_notes@ =~= Seq::<Note>::empty());
            assert(no_groups@ =~= Seq::<Beamgroup>::empty());
        }
        if !check_beamable(cs, un, ug, ln, lg) {
            return None;
        }
        Some(complex_beams(cs, un, ug, ln, lg))
    }
}

/// The notes of every complex are notes of their voices.
pub open spec fn complexes_in_voices(cs: Seq<Complex>, upper: Seq<Note>, lower: Seq<Note>) -> bool {
    forall|k: int| 0 <= k < cs.len() ==> complex_in_voices(#[trigger] cs[k].ctype, upper, lower)
}

impl Part {
    /// The lines that arrive at the notes of each complex of the part (see
    /// `complex_lines`); `None` where the part has no complexes or no
    /// voices, or where a complex names a note its voice lacks.
    pub fn arriving_lines(&self) -> (r: Option<Vec<Vec<HeadLineTo>>>)
        ensures
            r is Some <==> (self.complexes matches Some(cs) && complex_voices(self.ptype) matches Some(vs)
                && complexes_in_voices(cs@, voice_pair(vs).0, voice_pair(vs).2)),
            r matches Some(lines) ==> (self.complexes matches Some(cs) && complex_voices(self.ptype) matches Some(
                vs,
            ) && lines@.len() == cs@.len() && forall|k: int|
                0 <= k < cs@.len() ==> (#[trigger] lines@[k])@ == complex_lines(
                    cs@[k].ctype,
                    voice_pair(vs).0,
                    voice_pair(vs).2,
                )),
    {
        let cs = match &self.complexes {
            Some(cs) => cs,
            None => return None,
        };
        let vs = match &self.ptype {
            PartType::Music(PartMusicType::Voices(vs)) => vs,
            PartType::Nonmusic(PartNonmusicType::Lyrics(vs)) => vs,
            _ => return None,
        };
        let no_notes: Vec<Note> = Vec::new();
        let (un, ln) = match vs {
            Voices::One(v) => (voice_notes(v, &no_notes), &no_notes),
            Voices::Two(a, b) => (voice_notes(a, &no_notes), voice_notes(b, &no_notes)),
        };
        proof {
            assert(no_notes@ =~= Seq::<Note>::empty());
        }
        let ghost p = voice_pair(*vs);
        assert(un@ == p.0 && ln@ == p.2);
        assert(complex_voices(self.ptype) == Some(*vs));
        let mut out: Vec<Vec<HeadLineTo>> = Vec::new();
        let mut k: usize = 0;
        while k < cs.len()
            invariant
                k <= cs@.len(),
                complex_voices(self.ptype) == Some(*vs),
                self.complexes == Some(*cs),
                p == voice_pair(*vs),
                un@ == p.0,
                ln@ == p.2,
                out@.len() == k,
                forall|j: int| 0 <= j < k ==> complex_in_voices(#[trigger] cs@[j].ctype, p.0, p.2),
                forall|j: int| 0 <= j < k ==> (#[trigger] out@[j])@ == complex_lines(cs@[j].ctype, p.0, p.2),
            decreases cs@.len() - k,
        {
            let c = &cs[k].ctype;
            let ok = match c {
                ComplexType::Single(a, _) | ComplexType::Upper(a, _) => *a < un.len(),
                ComplexType::Lower(b, _) => *b < ln.len(),
                ComplexType::Two(a, b, _) => *a < un.len() && *b < ln.len(),
                _ => true,
            };
            if !ok {
                assert(!complex_in_voices(cs@[k as int].ctype, p.0, p.2));
                return None;
            }
            out.push(complex_lines_of(c, un, ln));
            k = k + 1;
        }
        Some(out)
    }
}

/// Whether a note of heads has a stem direction (see `directed`).
fn note_directed(n: &Note) -> (r: bool)
    ensures
        r == directed(*n),
{
    if n.is_heads() {
        match n.direction {
            Some(_) => true,
            None => false,
        }
    } else {
        true
    }
}

impl Part {
    /// The tie marks of each complex of the part (see `complex_tie_marks`);
    /// `None` where the part has no complexes or no voices, or where a
    /// complex names a note its voice lacks or a note of heads without a
    /// stem direction.
    pub fn tie_marks(&self) -> (r: Option<Vec<Vec<NRectType>>>)
        ensures
            r is Some <==> (self.complexes matches Some(cs) && complex_voices(self.ptype) matches Some(vs)
                && forall|k: int|
                0 <= k < cs@.len() ==> complex_markable(#[trigger] cs@[k].ctype, voice_pair(vs).0, voice_pair(vs).2)),
            r matches Some(marks) ==> (self.complexes matches Some(cs) && complex_voices(self.ptype) matches Some(
                vs,
            ) && marks@.len() == cs@.len() && forall|k: int|
                0 <= k < cs@.len() ==> (#[trigger] marks@[k])@ == complex_tie_marks(
                    cs@[k].ctype,
                    voice_pair(vs).0,
                    voice_pair(vs).2,
                )),
    {
        let cs = match &self.complexes {
            Some(cs) => cs,
            None => return None,
        };
        let vs = match &self.ptype {
            PartType::Music(PartMusicType::Voices(vs)) => vs,
            PartType::Nonmusic(PartNonmusicType::Lyrics(vs)) => vs,
            _ => return None,
        };
        let no_notes: Vec<Note> = Vec::new();
        let (un, ln) = match vs {
            Voices::One(v) => (voice_notes(v, &no_notes), &no_notes),
            Voices::Two(a, b) => (voice_notes(a, &no_notes), voice_notes(b, &no_notes)),
        };
        proof {
            assert(no_notes@ =~= Seq::<Note>::empty());
        }
        let ghost p = voice_pair(*vs);
        assert(un@ == p.0 && ln@ == p.2);
        assert(complex_voices(self.ptype) == Some(*vs));
        let mut out: Vec<Vec<NRectType>> = Vec::new();
        let mut k: usize = 0;
        while k < cs.len()
            invariant
                k <= cs@.len(),
                complex_voices(self.ptype) == Some(*vs),
                self.complexes == Some(*cs),
                p == voice_pair(*vs),
                un@ == p.0,
                ln@ == p.2,
                out@.len() == k,
                forall|j: int| 0 <= j < k ==> complex_markable(#[trigger] cs@[j].ctype, p.0, p.2),
                forall|j: int| 0 <= j < k ==> (#[trigger] out@[j])@ == complex_tie_marks(cs@[j].ctype, p.0, p.2),
            decreases cs@.len() - k,
        {
            let c = &cs[k].ctype;
            let ok = match c {
                ComplexType::Single(a, _) | ComplexType::Upper(a, _) => *a < un.len() && note_directed(&un[*a]),
                ComplexType::Lower(b, _) => *b < ln.len() && note_directed(&ln[*b]),
                ComplexType::Two(a, b, _) => *a < un.len() && *b < ln.len() && note_directed(&un[*a])
                    && note_directed(&ln[*b]),
                _ => true,
            };
            if !ok {
                assert(!complex_markable(cs@[k as int].ctype, p.0, p.2));
                return None;
            }
            out.push(complex_tie_marks_of(c, un, ln));
            k = k + 1;
        }
        Some(out)
    }
}

} // verus!
