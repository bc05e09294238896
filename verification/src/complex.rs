//! Complexes: what sounds at one position of a part, one note of its one
//! voice, or the notes of its two voices that start there.

use vstd::prelude::*;

use crate::bar::{Bar, BarType};
use crate::beamgroup::Beamgroup;
use crate::core_defs::{DirUAD, DirUD, duration_get_dots, duration_get_headshape, spec_dots, spec_headshape, Duration, Position};
use crate::head::HeadShape;
use crate::note::{lemma_start_of_monotone, start_of, Note, NoteType, Notes};
use crate::part::{Part, PartMusicType, PartNonmusicType, PartType};
use crate::voice::{Voice, VoiceType, Voices};

verus! {

/// A width made of the head of a note of the shape, its dots, and, where
/// `diagonal`, less the overlap of two heads on neighbouring levels.
#[derive(Debug, Clone, Copy, PartialEq, Eq, Structural)]
pub struct XShift {
    pub shape: HeadShape,
    pub dots: u8,
    pub diagonal: bool,
}

/// Which of two notes sounding together moves right, and by how much.
#[derive(Debug, Clone, Copy, PartialEq, Eq, Structural)]
pub enum ComplexXAdjustment {
    UpperRight(XShift),
    LowerRight(XShift),
}

/// What a complex holds; a note is given by its index in its voice, and
/// the flag of an upper or lower note tells whether it starts where the
/// shorter voice has ended.
#[derive(Debug, Clone, Copy, PartialEq, Eq, Structural)]
pub enum ComplexType {
    Single(usize, bool),
    Two(usize, usize, Option<ComplexXAdjustment>),
    Upper(usize, bool),
    Lower(usize, bool),
    OneBarpause(Duration),
    TwoBarpauses(Duration, Duration),
}

/// A complex with its position in the bar and its length.
#[derive(Debug, Clone, Copy, PartialEq, Eq, Structural)]
pub struct Complex {
    pub id: usize,
    pub ctype: ComplexType,
    pub position: Position,
    pub duration: Duration,
}

impl Complex {
    /// A complex of no length yet, with the id given.
    pub fn new(ctype: ComplexType, position: Position, id: usize) -> (r: Self)
        ensures
            r == (Complex { id, ctype, position, duration: 0 }),
    {
        Complex { id, ctype, position, duration: 0 }
    }
}

/// How two notes of heads that start together are set apart: where the
/// lower voice's top head lies above the upper voice's bottom head, the
/// upper note moves right by the lower note's head and dots; on the same
/// level, by the lower note's head, unless both last as long; where the
/// lower voice's top head lies one level below, the lower note moves right
/// by the upper note's head and dots, less the overlap; else nothing.
pub open spec fn x_adjustment(upper: Note, lower: Note) -> Option<ComplexXAdjustment> {
    match (upper.ntype, lower.ntype) {
        (NoteType::Heads(uh), NoteType::Heads(lh)) => {
            let diff = lh.top - uh.bottom;
            if diff < 0 {
                Some(
                    ComplexXAdjustment::UpperRight(
                        XShift { shape: spec_headshape(lower.duration), dots: spec_dots(lower.duration), diagonal: false },
                    ),
                )
            } else if diff == 0 {
                if upper.duration == lower.duration {
                    None
                } else {
                    Some(
                        ComplexXAdjustment::UpperRight(
                            XShift { shape: spec_headshape(lower.duration), dots: 0, diagonal: false },
                        ),
                    )
                }
            } else if diff == 1 {
                Some(
                    ComplexXAdjustment::LowerRight(
                        XShift { shape: spec_headshape(upper.duration), dots: spec_dots(upper.duration), diagonal: true },
                    ),
                )
            } else {
                None
            }
        },
        _ => None,
    }
}

/// How two notes that start together are set apart (see `x_adjustment`).
pub fn complex_calculate_x_adjustment(upper: &Note, lower: &Note) -> (r: Option<ComplexXAdjustment>)
    ensures
        r == x_adjustment(*upper, *lower),
{
    match (&upper.ntype, &lower.ntype) {
        (NoteType::Heads(uh), NoteType::Heads(lh)) => {
            let diff: i16 = lh.top as i16 - uh.bottom as i16;
            if diff < 0 {
                Some(
                    ComplexXAdjustment::UpperRight(
                        XShift {
                            shape: duration_get_headshape(&lower.duration),
                            dots: duration_get_dots(&lower.duration),
                            diagonal: false,
                        },
                    ),
                )
            } else if diff == 0 {
                if upper.duration == lower.duration {
                    None
                } else {
                    Some(
                        ComplexXAdjustment::UpperRight(
                            XShift { shape: duration_get_headshape(&lower.duration), dots: 0, diagonal: false },
                        ),
                    )
                }
            } else if diff == 1 {
                Some(
                    ComplexXAdjustment::LowerRight(
                        XShift {
                            shape: duration_get_headshape(&upper.duration),
                            dots: duration_get_dots(&upper.duration),
                            diagonal: true,
                        },
                    ),
                )
            } else {
                None
            }
        },
        _ => None,
    }
}

/// Some note of `s` starts at `x`.
pub open spec fn starts_at(s: Seq<Note>, x: int) -> bool {
    exists|i: int| 0 <= i < s.len() && #[trigger] s[i].position == x
}

/// Note `i` is the last note of `s` that starts at `x`.
pub open spec fn last_at(s: Seq<Note>, x: int, i: int) -> bool {
    &&& 0 <= i < s.len()
    &&& s[i].position == x
    &&& forall|j: int| i < j < s.len() ==> #[trigger] s[j].position != x
}

/// The notes start in order.
pub open spec fn positions_ordered(s: Seq<Note>) -> bool {
    forall|i: int, j: int| 0 <= i <= j < s.len() ==> s[i].position <= s[j].position
}

/// A complex of two voices of notes at its position: the last note of each
/// voice that starts there (with how they are set apart), or that of the
/// one voice that has one, flagged where the position lies at or past the
/// end of the shorter voice.
pub open spec fn two_complex(u: Seq<Note>, l: Seq<Note>, shorter: int, c: (ComplexType, Position)) -> bool {
    let x = c.1 as int;
    match c.0 {
        ComplexType::Two(a, b, adj) => last_at(u, x, a as int) && last_at(l, x, b as int) && adj == x_adjustment(
            u[a as int],
            l[b as int],
        ),
        ComplexType::Upper(a, over) => last_at(u, x, a as int) && !starts_at(l, x) && over == (x >= shorter),
        ComplexType::Lower(b, over) => last_at(l, x, b as int) && !starts_at(u, x) && over == (x >= shorter),
        _ => false,
    }
}

/// Some complex lies at `x`.
pub open spec fn has_position(r: Seq<(ComplexType, Position)>, x: int) -> bool {
    exists|k: int| 0 <= k < r.len() && #[trigger] r[k].1 == x
}

/// The complexes of two voices of notes: one for each position where a
/// note starts, in increasing order of position.
pub open spec fn two_voice_complexes(u: Seq<Note>, l: Seq<Note>, shorter: int, r: Seq<(ComplexType, Position)>) -> bool {
    &&& forall|k1: int, k2: int| 0 <= k1 < k2 < r.len() ==> r[k1].1 < r[k2].1
    &&& forall|k: int| 0 <= k < r.len() ==> two_complex(u, l, shorter, #[trigger] r[k])
    &&& forall|i: int| 0 <= i < u.len() ==> has_position(r, #[trigger] u[i].position as int)
    &&& forall|j: int| 0 <= j < l.len() ==> has_position(r, #[trigger] l[j].position as int)
}

/// Merges the positions of two voices of notes into complexes (see
/// `two_voice_complexes`).
fn merge_two(u: &Vec<Note>, l: &Vec<Note>, shorter: usize) -> (r: Vec<(ComplexType, Position)>)
    requires
        positions_ordered(u@),
        positions_ordered(l@),
    ensures
        two_voice_complexes(u@, l@, shorter as int, r@),
        r@.len() <= u@.len() + l@.len(),
{
    let mut r: Vec<(ComplexType, Position)> = Vec::new();
    let mut i: usize = 0;
    let mut j: usize = 0;
    let ghost mut ku: Seq<int> = Seq::empty();
    let ghost mut kl: Seq<int> = Seq::empty();
    while i < u.len() || j < l.len()
        invariant
            positions_ordered(u@),
            positions_ordered(l@),
            i <= u@.len(),
            j <= l@.len(),
            ku.len() == i,
            kl.len() == j,
            r@.len() <= i + j,
            forall|k1: int, k2: int| 0 <= k1 < k2 < r@.len() ==> r@[k1].1 < r@[k2].1,
            forall|k: int| 0 <= k < r@.len() ==> two_complex(u@, l@, shorter as int, #[trigger] r@[k]),
            forall|k: int, a: int|
                #![trigger r@[k], u@[a]]
                0 <= k < r@.len() && i <= a < u@.len() ==> r@[k].1 < u@[a].position,
            forall|k: int, b: int|
                #![trigger r@[k], l@[b]]
                0 <= k < r@.len() && j <= b < l@.len() ==> r@[k].1 < l@[b].position,
            forall|a: int| 0 <= a < i ==> 0 <= #[trigger] ku[a] < r@.len() && r@[ku[a]].1 == u@[a].position,
            forall|b: int| 0 <= b < j ==> 0 <= #[trigger] kl[b] < r@.len() && r@[kl[b]].1 == l@[b].position,
        decreases u@.len() - i + l@.len() - j,
    {
        let x: usize = if i < u.len() && (j >= l.len() || u[i].position <= l[j].position) {
            u[i].position
        } else {
            l[j].position
        };
        let ghost i0 = i;
        let ghost j0 = j;
        let ghost n = r@.len() as int;
        let ghost ku0 = ku;
        let ghost kl0 = kl;
        assert(forall|a: int| i0 <= a < u@.len() ==> x <= #[trigger] u@[a].position) by {
            assert forall|a: int| i0 <= a < u@.len() implies x <= #[trigger] u@[a].position by {
                assert(u@[i0 as int].position <= u@[a].position);
            }
        }
        assert(forall|b: int| j0 <= b < l@.len() ==> x <= #[trigger] l@[b].position) by {
            assert forall|b: int| j0 <= b < l@.len() implies x <= #[trigger] l@[b].position by {
                assert(l@[j0 as int].position <= l@[b].position);
            }
        }
        let mut ui: Option<usize> = None;
        while i < u.len() && u[i].position == x
            invariant
                i0 <= i <= u@.len(),
                ku.len() == i,
                forall|a: int| i0 <= a < i ==> #[trigger] u@[a].position == x,
                forall|a: int| i0 <= a < i ==> #[trigger] ku[a] == n,
                forall|a: int| 0 <= a < i0 ==> #[trigger] ku[a] == ku0[a],
                match ui {
                    Some(a) => a + 1 == i && i > i0,
                    None => i == i0,
                },
            decreases u@.len() - i,
        {
            ui = Some(i);
            proof {
                ku = ku.push(n);
            }
            i = i + 1;
        }
        let mut li: Option<usize> = None;
        while j < l.len() && l[j].position == x
            invariant
                j0 <= j <= l@.len(),
                kl.len() == j,
                forall|b: int| j0 <= b < j ==> #[trigger] l@[b].position == x,
                forall|b: int| j0 <= b < j ==> #[trigger] kl[b] == n,
                forall|b: int| 0 <= b < j0 ==> #[trigger] kl[b] == kl0[b],
                match li {
                    Some(b) => b + 1 == j && j > j0,
                    None => j == j0,
                },
            decreases l@.len() - j,
        {
            li = Some(j);
            proof {
                kl = kl.push(n);
            }
            j = j + 1;
        }
        proof {
            assert forall|a: int| i <= a < u@.len() implies x < #[trigger] u@[a].position by {
                assert(u@[i as int].position <= u@[a].position);
            }
            assert forall|b: int| j <= b < l@.len() implies x < #[trigger] l@[b].position by {
                assert(l@[j as int].position <= l@[b].position);
            }
            assert forall|k: int| 0 <= k < n implies #[trigger] r@[k].1 < x by {
                if i0 < u@.len() {
                    assert(r@[k].1 < u@[i0 as int].position);
                }
                if j0 < l@.len() {
                    assert(r@[k].1 < l@[j0 as int].position);
                }
            }
            if ui is None {
                assert forall|a: int| 0 <= a < u@.len() implies #[trigger] u@[a].position != x by {
                    if a < i0 {
                        assert(r@[ku[a]].1 == u@[a].position);
                    }
                }
            }
            if li is None {
                assert forall|b: int| 0 <= b < l@.len() implies #[trigger] l@[b].position != x by {
                    if b < j0 {
                        assert(r@[kl[b]].1 == l@[b].position);
                    }
                }
            }
            assert(ui is Some || li is Some);
        }
        let c: ComplexType = match (ui, li) {
            (Some(a), Some(b)) => ComplexType::Two(a, b, complex_calculate_x_adjustment(&u[a], &l[b])),
            (Some(a), None) => ComplexType::Upper(a, x >= shorter),
            (None, Some(b)) => ComplexType::Lower(b, x >= shorter),
            (None, None) => ComplexType::Upper(0, false),
        };
        r.push((c, x));
        proof {
            assert(two_complex(u@, l@, shorter as int, r@[n]));
        }
    }
    proof {
        assert forall|a: int| 0 <= a < u@.len() implies has_position(r@, #[trigger] u@[a].position as int) by {
            assert(r@[ku[a]].1 == u@[a].position);
        }
        assert forall|b: int| 0 <= b < l@.len() implies has_position(r@, #[trigger] l@[b].position as int) by {
            assert(r@[kl[b]].1 == l@[b].position);
        }
    }
    r
}

/// One complex of the kind for each note of a voice: `Single` for the one
/// voice of a part, `Upper` or `Lower` for a voice beside a bar pause.
pub open spec fn single_complexes(s: Seq<Note>, kind: int) -> Seq<(ComplexType, Position)> {
    Seq::new(
        s.len(),
        |k: int|
            (
                if kind == 0 {
                    ComplexType::Single(k as usize, false)
                } else if kind == 1 {
                    ComplexType::Upper(k as usize, false)
                } else {
                    ComplexType::Lower(k as usize, false)
                },
                s[k].position,
            ),
    )
}

pub open spec fn min_d(a: Duration, b: Duration) -> int {
    if a <= b { a as int } else { b as int }
}

/// The complexes of one or two voices: one for each note of a single voice
/// of notes; for two voices, one for each note of the one with notes beside
/// a bar pause, or the merge of both (see `two_voice_complexes`), with the
/// length of the shorter; none where there are only bar pauses.
pub open spec fn voices_complexes(vs: Voices, r: Seq<(ComplexType, Position)>) -> bool {
    match vs {
        Voices::One(v) => match v.vtype {
            VoiceType::Notes(ns) => r == single_complexes(ns.items@, 0),
            _ => r.len() == 0,
        },
        Voices::Two(a, b) => match (a.vtype, b.vtype) {
            (VoiceType::Notes(us), VoiceType::Notes(ls)) => two_voice_complexes(
                us.items@,
                ls.items@,
                min_d(us.duration, ls.duration),
                r,
            ),
            (VoiceType::Notes(us), _) => r == single_complexes(us.items@, 1),
            (_, VoiceType::Notes(ls)) => r == single_complexes(ls.items@, 2),
            _ => r.len() == 0,
        },
    }
}

/// Complexes can be made of the voices: two voices of notes are laid out
/// as `Notes::new` lays them out, and hold one note at least.
pub open spec fn voices_complexable(vs: Voices) -> bool {
    vs matches Voices::Two(a, b) ==> (a.vtype matches VoiceType::Notes(us) ==> (b.vtype matches VoiceType::Notes(
        ls,
    ) ==> us.wf() && ls.wf() && us.items@.len() + ls.items@.len() > 0))
}

/// How many notes the voices hold.
pub open spec fn voices_note_count(vs: Voices) -> int {
    match vs {
        Voices::One(v) => voice_note_count(v),
        Voices::Two(a, b) => voice_note_count(a) + voice_note_count(b),
    }
}

pub open spec fn voice_note_count(v: Voice) -> int {
    match v.vtype {
        VoiceType::Notes(ns) => ns.items@.len() as int,
        _ => 0,
    }
}

/// Notes laid out by `Notes::new` start in order.
proof fn lemma_wf_ordered(ns: Notes)
    requires
        ns.wf(),
    ensures
        positions_ordered(ns.items@),
{
    assert forall|i: int, j: int| 0 <= i <= j < ns.items@.len() implies ns.items@[i].position
        <= ns.items@[j].position by {
        lemma_start_of_monotone(ns.items@, i, j);
    }
}

/// One complex of the kind for each note (see `single_complexes`).
fn singles(s: &Vec<Note>, kind: u8) -> (r: Vec<(ComplexType, Position)>)
    requires
        kind <= 2,
    ensures
        r@ == single_complexes(s@, kind as int),
{
    let mut r: Vec<(ComplexType, Position)> = Vec::new();
    let mut k: usize = 0;
    while k < s.len()
        invariant
            k <= s@.len(),
            kind <= 2,
            r@ == single_complexes(s@.take(k as int), kind as int),
        decreases s@.len() - k,
    {
        let c = if kind == 0 {
            ComplexType::Single(k, false)
        } else if kind == 1 {
            ComplexType::Upper(k, false)
        } else {
            ComplexType::Lower(k, false)
        };
        r.push((c, s[k].position));
        assert(r@ =~= single_complexes(s@.take(k + 1), kind as int));
        k = k + 1;
    }
    assert(s@.take(s@.len() as int) =~= s@);
    r
}

/// The complexes of one or two voices (see `voices_complexes`).
fn do_voices(vs: &Voices) -> (r: Vec<(ComplexType, Position)>)
    requires
        voices_complexable(*vs),
    ensures
        voices_complexes(*vs, r@),
        r@.len() <= voices_note_count(*vs),
{
    match vs {
        Voices::One(v) => match &v.vtype {
            VoiceType::Notes(ns) => singles(&ns.items, 0),
            _ => Vec::new(),
        },
        Voices::Two(a, b) => match (&a.vtype, &b.vtype) {
            (VoiceType::Notes(us), VoiceType::Notes(ls)) => {
                proof {
                    lemma_wf_ordered(*us);
                    lemma_wf_ordered(*ls);
                }
                let shorter = if us.duration <= ls.duration {
                    us.duration
                } else {
                    ls.duration
                };
                merge_two(&us.items, &ls.items, shorter)
            },
            (VoiceType::Notes(us), _) => singles(&us.items, 1),
            (_, VoiceType::Notes(ls)) => singles(&ls.items, 2),
            _ => Vec::new(),
        },
    }
}

/// A part's voices, where it has voices (music or lyrics).
pub open spec fn complex_voices(p: PartType) -> Option<Voices> {
    match p {
        PartType::Music(PartMusicType::Voices(vs)) => Some(vs),
        PartType::Nonmusic(PartNonmusicType::Lyrics(vs)) => Some(vs),
        _ => None,
    }
}

/// The kinds and positions of complexes.
pub open spec fn complexes_view(cs: Seq<Complex>) -> Seq<(ComplexType, Position)> {
    cs.map_values(|c: Complex| (c.ctype, c.position))
}

/// The length a complex gets: up to the next complex, the last one up to
/// the end of the part where there are two or more; a lone complex keeps
/// its length.
pub open spec fn complex_duration(cs: Seq<Complex>, k: int, total: int) -> int {
    if k + 1 < cs.len() {
        cs[k + 1].position - cs[k].position
    } else if cs.len() >= 2 {
        total - cs[k].position
    } else {
        cs[k].duration as int
    }
}

/// The complexes can be given lengths: they lie in order, the last one
/// within the part where there are two or more.
pub open spec fn complexes_ordered(cs: Seq<Complex>, total: int) -> bool {
    &&& forall|k: int| 0 <= k < cs.len() - 1 ==> #[trigger] cs[k].position <= cs[k + 1].position
    &&& cs.len() >= 2 ==> cs.last().position <= total
}

/// A part after its complexes are made (see `voices_complexes`),
/// numbered from `first_id` on, of no length yet; nothing else changes.
pub open spec fn complexes_created(a: Part, b: Part, first_id: usize) -> bool {
    &&& b.ptype == a.ptype
    &&& b.duration == a.duration
    &&& b.complexes matches Some(cs) && (match complex_voices(a.ptype) {
        Some(vs) => voices_complexes(vs, complexes_view(cs@)),
        None => false,
    }) && forall|k: int| 0 <= k < cs@.len() ==> (#[trigger] cs@[k]).id == first_id + k && cs@[k].duration == 0
}

/// A part after its complexes are given their lengths (see
/// `complex_duration`); nothing else changes.
pub open spec fn complex_durations_set(a: Part, b: Part) -> bool {
    &&& b.ptype == a.ptype
    &&& b.duration == a.duration
    &&& match a.complexes {
        None => b.complexes is None,
        Some(cs) => b.complexes matches Some(ds) && ds@.len() == cs@.len() && forall|k: int|
            0 <= k < cs@.len() ==> #[trigger] ds@[k] == (Complex {
                duration: complex_duration(cs@, k, a.duration as int) as usize,
                ..cs@[k]
            }),
    }
}

impl Part {
    /// Makes the complexes of the part's voices (see `voices_complexes`),
    /// numbered from `first_id` on, of no length yet.
    pub fn create_complexes(&mut self, first_id: usize)
        requires
            complex_voices(old(self).ptype) matches Some(vs) && voices_complexable(vs) && first_id
                + voices_note_count(vs) <= usize::MAX,
        ensures
            complexes_created(*old(self), *final(self), first_id),
    {
        let items: Vec<(ComplexType, Position)> = match &self.ptype {
            PartType::Music(PartMusicType::Voices(vs)) => do_voices(vs),
            PartType::Nonmusic(PartNonmusicType::Lyrics(vs)) => do_voices(vs),
            _ => Vec::new(),
        };
        let ghost bound = match complex_voices(self.ptype) {
            Some(vs) => voices_note_count(vs),
            None => 0,
        };
        let mut cs: Vec<Complex> = Vec::new();
        let mut k: usize = 0;
        while k < items.len()
            invariant
                k <= items@.len(),
                items@.len() <= bound,
                first_id + bound <= usize::MAX,
                cs@.len() == k,
                forall|j: int|
                    0 <= j < k ==> #[trigger] cs@[j] == (Complex {
                        id: (first_id + j) as usize,
                        ctype: items@[j].0,
                        position: items@[j].1,
                        duration: 0,
                    }),
            decreases items@.len() - k,
        {
            cs.push(Complex::new(items[k].0, items[k].1, first_id + k));
            k = k + 1;
        }
        assert(complexes_view(cs@) =~= items@);
        self.complexes = Some(cs);
    }

    /// Gives each complex its length (see `complex_duration`).
    pub fn set_complex_durations(&mut self) -> (r: Option<()>)
        requires
            old(self).complexes matches Some(cs) ==> complexes_ordered(cs@, old(self).duration as int),
        ensures
            r is None,
            complex_durations_set(*old(self), *final(self)),
    {
        let mut taken: Option<Vec<Complex>> = None;
        std::mem::swap(&mut taken, &mut self.complexes);
        match taken {
            None => {},
            Some(mut cs) => {
                let ghost cs0 = cs@;
                let total = self.duration;
                let n = cs.len();
                if n >= 2 {
                    let mut k: usize = 0;
                    while k < n - 1
                        invariant
                            n == cs0.len(),
                            n >= 2,
                            cs@.len() == n,
                            complexes_ordered(cs0, total as int),
                            k <= n - 1,
                            forall|j: int| k <= j < n ==> #[trigger] cs@[j] == cs0[j],
                            forall|j: int|
                                0 <= j < k ==> #[trigger] cs@[j] == (Complex {
                                    duration: complex_duration(cs0, j, total as int) as usize,
                                    ..cs0[j]
                                }),
                        decreases n - k,
                    {
                        assert(cs0[k as int].position <= cs0[k + 1].position);
                        let d = cs[k + 1].position - cs[k].position;
                        cs[k].duration = d;
                        k = k + 1;
                    }
                    let e = total - cs[n - 1].position;
                    cs[n - 1].duration = e;
                    assert forall|j: int| 0 <= j < n implies #[trigger] cs@[j] == (Complex {
                        duration: complex_duration(cs0, j, total as int) as usize,
                        ..cs0[j]
                    }) by {}
                }
                self.complexes = Some(cs);
            },
        }
        None
    }
}

/// A group without a direction takes the one given; one with a direction
/// keeps it.
pub open spec fn set_dir(gs: Seq<Beamgroup>, g: int, d: DirUD) -> Seq<Beamgroup> {
    if gs[g].direction is None {
        gs.update(g, Beamgroup { direction: Some(d), ..gs[g] })
    } else {
        gs
    }
}

/// The direction forced on groups that may go either way, or, where none
/// is forced, the one the group's notes call for (see `calc_direction`).
pub open spec fn free_dir(force: DirUAD, bg: Beamgroup) -> DirUD {
    match force {
        DirUAD::Up => DirUD::Up,
        DirUAD::Down => DirUD::Down,
        DirUAD::Auto => if bg.bottom + bg.top <= 0 {
            DirUD::Down
        } else {
            DirUD::Up
        },
    }
}

/// The group of note `a` of a voice.
pub open spec fn group_at(ns: Seq<Note>, a: int) -> int {
    ns[a].beamgroup->0 as int
}

/// One complex sets the directions of the groups of its notes: a single
/// note's group goes either way; of two notes, the upper one's group goes
/// up and the lower one's down; a note beside the other voice's silence
/// goes up (upper) or down (lower), unless it starts past the end of the
/// shorter voice, when it goes either way. Groups with a direction keep it.
pub open spec fn dirs_step(
    un: Seq<Note>,
    ln: Seq<Note>,
    gs: (Seq<Beamgroup>, Seq<Beamgroup>),
    c: ComplexType,
    force: DirUAD,
) -> (Seq<Beamgroup>, Seq<Beamgroup>) {
    match c {
        ComplexType::Single(a, _) => {
            let g = group_at(un, a as int);
            (set_dir(gs.0, g, free_dir(force, gs.0[g])), gs.1)
        },
        ComplexType::Two(a, b, _) => (
            set_dir(gs.0, group_at(un, a as int), DirUD::Up),
            set_dir(gs.1, group_at(ln, b as int), DirUD::Down),
        ),
        ComplexType::Upper(a, over) => {
            let g = group_at(un, a as int);
            (set_dir(gs.0, g, if !over { DirUD::Up } else { free_dir(force, gs.0[g]) }), gs.1)
        },
        ComplexType::Lower(b, over) => {
            let g = group_at(ln, b as int);
            (gs.0, set_dir(gs.1, g, if !over { DirUD::Down } else { free_dir(force, gs.1[g]) }))
        },
        _ => gs,
    }
}

/// The complexes set the directions of the groups in turn.
pub open spec fn dirs_fold(
    un: Seq<Note>,
    ln: Seq<Note>,
    gs: (Seq<Beamgroup>, Seq<Beamgroup>),
    cs: Seq<Complex>,
    force: DirUAD,
) -> (Seq<Beamgroup>, Seq<Beamgroup>)
    decreases cs.len(),
{
    if cs.len() == 0 {
        gs
    } else {
        dirs_step(un, ln, dirs_fold(un, ln, gs, cs.drop_last(), force), cs.last().ctype, force)
    }
}

/// Note `a` of the voice lies in one of the groups.
pub open spec fn in_group(ns: Seq<Note>, gs: Seq<Beamgroup>, a: int) -> bool {
    &&& 0 <= a < ns.len()
    &&& ns[a].beamgroup matches Some(g) && g < gs.len()
}

/// The notes of a complex lie in groups of their voices.
pub open spec fn complex_directable(
    un: Seq<Note>,
    ug: Seq<Beamgroup>,
    ln: Seq<Note>,
    lg: Seq<Beamgroup>,
    c: ComplexType,
) -> bool {
    match c {
        ComplexType::Single(a, _) => in_group(un, ug, a as int),
        ComplexType::Upper(a, _) => in_group(un, ug, a as int),
        ComplexType::Two(a, b, _) => in_group(un, ug, a as int) && in_group(ln, lg, b as int),
        ComplexType::Lower(b, _) => in_group(ln, lg, b as int),
        _ => true,
    }
}

/// The notes of a voice, none for a bar pause.
pub open spec fn notes_of(v: Voice) -> Seq<Note> {
    match v.vtype {
        VoiceType::Notes(ns) => ns.items@,
        _ => Seq::empty(),
    }
}

/// The beam groups of a voice, none before they are made.
pub open spec fn groups_of(v: Voice) -> Seq<Beamgroup> {
    match v.beamgroups {
        Some(gs) => gs@,
        None => Seq::empty(),
    }
}

/// The upper (or only) voice and the lower voice, as notes and groups.
pub open spec fn voice_pair(vs: Voices) -> (Seq<Note>, Seq<Beamgroup>, Seq<Note>, Seq<Beamgroup>) {
    match vs {
        Voices::One(v) => (notes_of(v), groups_of(v), Seq::empty(), Seq::empty()),
        Voices::Two(a, b) => (notes_of(a), groups_of(a), notes_of(b), groups_of(b)),
    }
}

/// Every complex's notes lie in groups of their voices.
pub open spec fn complexes_directable(vs: Voices, cs: Seq<Complex>) -> bool {
    let p = voice_pair(vs);
    forall|k: int| 0 <= k < cs.len() ==> complex_directable(p.0, p.1, p.2, p.3, #[trigger] cs[k].ctype)
}

/// A voice whose groups became `gs`; nothing else changes.
pub open spec fn voice_regrouped(before: Voice, after: Voice, gs: Seq<Beamgroup>) -> bool {
    &&& after.duration == before.duration
    &&& after.vtype == before.vtype
    &&& match before.beamgroups {
        Some(_) => after.beamgroups matches Some(hs) && hs@ == gs,
        None => after.beamgroups is None,
    }
}

/// The voices after the complexes set their groups' directions (see
/// `dirs_fold`).
pub open spec fn voices_directed(before: Voices, after: Voices, cs: Seq<Complex>, force: DirUAD) -> bool {
    let p = voice_pair(before);
    let r = dirs_fold(p.0, p.2, (p.1, p.3), cs, force);
    match (before, after) {
        (Voices::One(v), Voices::One(w)) => voice_regrouped(v, w, r.0),
        (Voices::Two(a, b), Voices::Two(x, y)) => voice_regrouped(a, x, r.0) && voice_regrouped(b, y, r.1),
        _ => false,
    }
}

/// Sets the directions of the groups as the complexes call for (see
/// `dirs_fold`).
fn direct_groups(
    un: &Vec<Note>,
    ln: &Vec<Note>,
    ug: &mut Vec<Beamgroup>,
    lg: &mut Vec<Beamgroup>,
    cs: &Vec<Complex>,
    force: DirUAD,
)
    requires
        forall|k: int|
            0 <= k < cs@.len() ==> complex_directable(un@, old(ug)@, ln@, old(lg)@, #[trigger] cs@[k].ctype),
    ensures
        (final(ug)@, final(lg)@) == dirs_fold(un@, ln@, (old(ug)@, old(lg)@), cs@, force),
{
    let ghost ug0 = ug@;
    let ghost lg0 = lg@;
    let mut k: usize = 0;
    assert(cs@.take(0) =~= Seq::<Complex>::empty());
    while k < cs.len()
        invariant
            k <= cs@.len(),
            ug@.len() == ug0.len(),
            lg@.len() == lg0.len(),
            forall|j: int| 0 <= j < cs@.len() ==> complex_directable(un@, ug0, ln@, lg0, #[trigger] cs@[j].ctype),
            (ug@, lg@) == dirs_fold(un@, ln@, (ug0, lg0), cs@.take(k as int), force),
        decreases cs@.len() - k,
    {
        proof {
            assert(cs@.take(k + 1).drop_last() =~= cs@.take(k as int));
            assert(cs@.take(k + 1).last() == cs@[k as int]);
            assert(complex_directable(un@, ug0, ln@, lg0, cs@[k as int].ctype));
        }
        match cs[k].ctype {
            ComplexType::Single(a, _) => {
                let g = un[a].beamgroup.unwrap();
                if ug[g].direction.is_none() {
                    let d = match force {
                        DirUAD::Up => DirUD::Up,
                        DirUAD::Down => DirUD::Down,
                        DirUAD::Auto => ug[g].calc_direction(),
                    };
                    ug[g].direction = Some(d);
                }
            },
            ComplexType::Two(a, b, _) => {
                let g = un[a].beamgroup.unwrap();
                if ug[g].direction.is_none() {
                    ug[g].direction = Some(DirUD::Up);
                }
                let h = ln[b].beamgroup.unwrap();
                if lg[h].direction.is_none() {
                    lg[h].direction = Some(DirUD::Down);
                }
            },
            ComplexType::Upper(a, over) => {
                let g = un[a].beamgroup.unwrap();
                if ug[g].direction.is_none() {
                    let d = if !over {
                        DirUD::Up
                    } else {
                        match force {
                            DirUAD::Up => DirUD::Up,
                            DirUAD::Down => DirUD::Down,
                            DirUAD::Auto => ug[g].calc_direction(),
                        }
                    };
                    ug[g].direction = Some(d);
                }
            },
            ComplexType::Lower(b, over) => {
                let h = ln[b].beamgroup.unwrap();
                if lg[h].direction.is_none() {
                    let d = if !over {
                        DirUD::Down
                    } else {
                        match force {
                            DirUAD::Up => DirUD::Up,
                            DirUAD::Down => DirUD::Down,
                            DirUAD::Auto => lg[h].calc_direction(),
                        }
                    };
                    lg[h].direction = Some(d);
                }
            },
            _ => {},
        }
        proof {
            let prev = dirs_fold(un@, ln@, (ug0, lg0), cs@.take(k as int), force);
            let next = dirs_step(un@, ln@, prev, cs@[k as int].ctype, force);
            assert(ug@ =~= next.0);
            assert(lg@ =~= next.1);
        }
        k = k + 1;
    }
    assert(cs@.take(cs@.len() as int) =~= cs@);
}

/// Takes the groups out of a voice, none where none are made.
fn take_groups(v: &mut Voice) -> (r: Vec<Beamgroup>)
    ensures
        r@ == groups_of(*old(v)),
        final(v).beamgroups is None,
        final(v).vtype == old(v).vtype,
        final(v).duration == old(v).duration,
{
    let mut taken: Option<Vec<Beamgroup>> = None;
    std::mem::swap(&mut taken, &mut v.beamgroups);
    match taken {
        Some(gs) => gs,
        None => Vec::new(),
    }
}

/// Puts groups back into a voice that had some.
fn put_groups(v: &mut Voice, gs: Vec<Beamgroup>, had: bool)
    ensures
        final(v).vtype == old(v).vtype,
        final(v).duration == old(v).duration,
        had ==> final(v).beamgroups == Some(gs),
        !had ==> final(v).beamgroups == old(v).beamgroups,
{
    if had {
        v.beamgroups = Some(gs);
    }
}

/// Sets the directions of the groups of the voices (see `voices_directed`).
fn direct_voices(vs: Voices, cs: &Vec<Complex>, force: DirUAD) -> (r: Voices)
    requires
        complexes_directable(vs, cs@),
    ensures
        voices_directed(vs, r, cs@, force),
{
    let empty_notes: Vec<Note> = Vec::new();
    match vs {
        Voices::One(mut v) => {
            let ghost v0 = v;
            let had = v.beamgroups.is_some();
            let mut ug = take_groups(&mut v);
            let mut lg: Vec<Beamgroup> = Vec::new();
            match &v.vtype {
                VoiceType::Notes(ns) => direct_groups(&ns.items, &empty_notes, &mut ug, &mut lg, cs, force),
                _ => {
                    assert(empty_notes@ =~= notes_of(v0));
                    direct_groups(&empty_notes, &empty_notes, &mut ug, &mut lg, cs, force)
                },
            }
            put_groups(&mut v, ug, had);
            proof {
                if !had {
                    assert(groups_of(v0).len() == 0);
                }
            }
            Voices::One(v)
        },
        Voices::Two(mut a, mut b) => {
            let ghost a0 = a;
            let ghost b0 = b;
            let had_a = a.beamgroups.is_some();
            let had_b = b.beamgroups.is_some();
            let mut ug = take_groups(&mut a);
            let mut lg = take_groups(&mut b);
            let un: &Vec<Note> = match &a.vtype {
                VoiceType::Notes(ns) => &ns.items,
                _ => &empty_notes,
            };
            let ln: &Vec<Note> = match &b.vtype {
                VoiceType::Notes(ns) => &ns.items,
                _ => &empty_notes,
            };
            assert(un@ =~= notes_of(a0));
            assert(ln@ =~= notes_of(b0));
            direct_groups(un, ln, &mut ug, &mut lg, cs, force);
            put_groups(&mut a, ug, had_a);
            put_groups(&mut b, lg, had_b);
            Voices::Two(a, b)
        },
    }
}

/// Music voices stay music, lyrics stay lyrics.
pub open spec fn is_music(p: PartType) -> bool {
    p matches PartType::Music(PartMusicType::Voices(_))
}

/// A part after its complexes set the directions of its beam groups (see
/// `voices_directed`); nothing else changes, and a part without complexes
/// is left as it is.
pub open spec fn beam_directions_set(a: Part, b: Part, force: DirUAD) -> bool {
    &&& b.duration == a.duration
    &&& b.complexes == a.complexes
    &&& match a.complexes {
        None => b.ptype == a.ptype,
        Some(cs) => is_music(b.ptype) == is_music(a.ptype) && match (complex_voices(a.ptype), complex_voices(b.ptype)) {
            (Some(vs), Some(ws)) => voices_directed(vs, ws, cs@, force),
            _ => false,
        },
    }
}

impl Part {
    /// Sets the directions of the beam groups as the complexes call for
    /// (see `dirs_fold`), where the complexes are made.
    pub fn set_beamgroups_directions(&mut self, force_overflow_dir: DirUAD) -> (r: Option<()>)
        requires
            old(self).complexes matches Some(cs) ==> complex_voices(old(self).ptype) matches Some(vs)
                && complexes_directable(vs, cs@),
        ensures
            r is None,
            beam_directions_set(*old(self), *final(self), force_overflow_dir),
    {
        let mut taken: Option<Vec<Complex>> = None;
        std::mem::swap(&mut taken, &mut self.complexes);
        match taken {
            None => {},
            Some(cs) => {
                let mut pt = PartType::Nonmusic(PartNonmusicType::Other);
                std::mem::swap(&mut pt, &mut self.ptype);
                match pt {
                    PartType::Music(PartMusicType::Voices(vs)) => {
                        let ws = direct_voices(vs, &cs, force_overflow_dir);
                        self.ptype = PartType::Music(PartMusicType::Voices(ws));
                    },
                    PartType::Nonmusic(PartNonmusicType::Lyrics(vs)) => {
                        let ws = direct_voices(vs, &cs, force_overflow_dir);
                        self.ptype = PartType::Nonmusic(PartNonmusicType::Lyrics(ws));
                    },
                    other => {
                        self.ptype = other;
                    },
                }
                self.complexes = Some(cs);
            },
        }
        None
    }
}

/// The most complexes that a part of the parts has.
pub open spec fn parts_complex_max(parts: Seq<Part>) -> int
    decreases parts.len(),
{
    if parts.len() == 0 {
        0
    } else {
        let m = parts_complex_max(parts.drop_last());
        match parts.last().complexes {
            Some(cs) => if cs@.len() > m {
                cs@.len() as int
            } else {
                m
            },
            None => m,
        }
    }
}

impl Bar {
    /// The most complexes that a part of a bar of parts has; 0 for other
    /// bars.
    pub fn complex_count(&self) -> (r: usize)
        ensures
            r == match self.btype {
                BarType::Standard(parts) => parts_complex_max(parts@),
                _ => 0,
            },
    {
        match &self.btype {
            BarType::Standard(parts) => {
                let mut count: usize = 0;
                let mut i: usize = 0;
                assert(parts@.take(0) =~= Seq::<Part>::empty());
                while i < parts.len()
                    invariant
                        i <= parts@.len(),
                        count == parts_complex_max(parts@.take(i as int)),
                    decreases parts@.len() - i,
                {
                    assert(parts@.take(i + 1).drop_last() =~= parts@.take(i as int));
                    assert(parts@.take(i + 1).last() == parts@[i as int]);
                    match &parts[i].complexes {
                        Some(cs) => {
                            if cs.len() > count {
                                count = cs.len();
                            }
                        },
                        None => {},
                    }
                    i = i + 1;
                }
                assert(parts@.take(parts@.len() as int) =~= parts@);
                count
            },
            _ => 0,
        }
    }
}

/// The sum of the lengths of the complexes.
pub open spec fn sum_complex_durations(cs: Seq<Complex>) -> int
    decreases cs.len(),
{
    if cs.len() == 0 {
        0
    } else {
        sum_complex_durations(cs.drop_last()) + cs.last().duration
    }
}

/// Once given their lengths (see `set_complex_durations`), two or more
/// complexes fill the part from where the first one starts to the part's
/// end.
pub proof fn lemma_complex_durations_fill(cs: Seq<Complex>, ds: Seq<Complex>, total: usize)
    requires
        complexes_ordered(cs, total as int),
        cs.len() >= 2,
        ds.len() == cs.len(),
        forall|k: int|
            0 <= k < cs.len() ==> #[trigger] ds[k] == (Complex {
                duration: complex_duration(cs, k, total as int) as usize,
                ..cs[k]
            }),
    ensures
        sum_complex_durations(ds) == total - cs[0].position,
{
    assert forall|k: int| 0 <= k < cs.len() - 1 implies #[trigger] ds[k].duration == cs[k + 1].position
        - cs[k].position by {
        assert(cs[k].position <= cs[k + 1].position);
    }
    let n = cs.len() - 1;
    assert(ds[n].duration == total - cs[n].position);
    lemma_prefix_fill(cs, ds, n);
    assert(ds.drop_last() =~= ds.take(n));
    assert(ds.last() == ds[n]);
}

/// The first `k` complexes fill the part up to where complex `k` starts.
proof fn lemma_prefix_fill(cs: Seq<Complex>, ds: Seq<Complex>, k: int)
    requires
        0 <= k < cs.len(),
        ds.len() == cs.len(),
        forall|j: int| 0 <= j < cs.len() - 1 ==> #[trigger] ds[j].duration == cs[j + 1].position - cs[j].position,
    ensures
        sum_complex_durations(ds.take(k)) == cs[k].position - cs[0].position,
    decreases k,
{
    if k > 0 {
        lemma_prefix_fill(cs, ds, k - 1);
        assert(ds.take(k).drop_last() =~= ds.take(k - 1));
        assert(ds.take(k).last() == ds[k - 1]);
    } else {
        assert(ds.take(0) =~= Seq::<Complex>::empty());
    }
}

} // verus!
