//! The tie marks of a complex: for each tie that leaves one of its notes,
//! which way it bends and where on the head it starts; for each tie that
//! arrives, its kind. Also the lines that arrive at the notes of a
//! complex. Where they are drawn is measured elsewhere.

use vstd::prelude::*;

use crate::bar::TiePlacement;
use crate::complex::ComplexType;
use crate::core_defs::{flipped, DirUD, Duration, NRectType, TieData, TieToData};
use crate::head::HeadLineTo;
use crate::note::Note;

verus! {

/// The place of a note in its complex.
#[derive(Debug, PartialEq, Eq, Clone, Copy, Structural)]
pub enum TieRole {
    /// The note of a single voice.
    Single,
    /// The upper voice's note beside the lower voice's silence.
    Upper,
    /// The lower voice's note beside the upper voice's silence.
    Lower,
    /// The upper of two notes that start together.
    TwoUpper,
    /// The lower of two notes that start together.
    TwoLower,
}

/// Which way tie `j` of `n` bends: a single voice's lone tie against the
/// stem, else the upper half up and the lower half down; an upper voice's
/// ties up, a lower voice's down.
pub open spec fn tie_direction(role: TieRole, dir: DirUD, n: int, j: int) -> DirUD {
    match role {
        TieRole::Single => if n == 1 {
            flipped(dir)
        } else if j < n / 2 {
            DirUD::Up
        } else {
            DirUD::Down
        },
        TieRole::Upper => DirUD::Up,
        TieRole::TwoUpper => DirUD::Up,
        TieRole::Lower => DirUD::Down,
        TieRole::TwoLower => DirUD::Down,
    }
}

/// Where tie `j` of `n` starts on its head: a single voice's lone tie on
/// the side away from the stem, else the first on top, the last at the
/// bottom and the others in the middle; an upper voice's first on top, a
/// lower voice's last at the bottom. Of two notes starting together, the
/// upper note's ties all start on top, and the lower note's start at the
/// bottom where it has one tie, else in the middle.
pub open spec fn tie_placement(role: TieRole, dir: DirUD, n: int, j: int) -> TiePlacement {
    match role {
        TieRole::Single => if n == 1 {
            match dir {
                DirUD::Up => TiePlacement::Bottom,
                DirUD::Down => TiePlacement::Top,
            }
        } else if j == 0 {
            TiePlacement::Top
        } else if j == n - 1 {
            TiePlacement::Bottom
        } else {
            TiePlacement::Mid
        },
        TieRole::Upper => if j == 0 {
            TiePlacement::Top
        } else {
            TiePlacement::Mid
        },
        TieRole::Lower => if j == n - 1 {
            TiePlacement::Bottom
        } else {
            TiePlacement::Mid
        },
        TieRole::TwoUpper => TiePlacement::Top,
        TieRole::TwoLower => if n == 1 {
            TiePlacement::Bottom
        } else {
            TiePlacement::Mid
        },
    }
}

/// The mark of tie `j` leaving the note, with the length given.
pub open spec fn tie_from_mark(note: Note, role: TieRole, dur: Duration, j: int) -> NRectType {
    let n = note.ties@.len() as int;
    let dir = note.direction->0;
    let t = note.ties@[j];
    NRectType::TieFrom(
        note.id,
        t.level,
        t.ttype,
        dur,
        dir,
        tie_direction(role, dir, n, j),
        tie_placement(role, dir, n, j),
    )
}

/// The marks of a note of heads: one for each tie leaving it, then one
/// for each tie arriving; none for other notes.
pub open spec fn note_tie_marks(note: Note, role: TieRole, dur: Duration) -> Seq<NRectType> {
    if note.spec_is_heads() {
        Seq::new(note.ties@.len(), |j: int| tie_from_mark(note, role, dur, j)) + note.ties_to@.map_values(
            |t: TieToData| NRectType::TieTo(t.ttype),
        )
    } else {
        Seq::empty()
    }
}

/// The tie marks of a complex: those of its note, or of its upper and then
/// its lower note (the lower note's marks carry the upper note's length).
pub open spec fn complex_tie_marks(c: ComplexType, un: Seq<Note>, ln: Seq<Note>) -> Seq<NRectType> {
    match c {
        ComplexType::Single(a, _) => note_tie_marks(un[a as int], TieRole::Single, un[a as int].duration),
        ComplexType::Upper(a, _) => note_tie_marks(un[a as int], TieRole::Upper, un[a as int].duration),
        ComplexType::Lower(b, _) => note_tie_marks(ln[b as int], TieRole::Lower, ln[b as int].duration),
        ComplexType::Two(a, b, _) => note_tie_marks(un[a as int], TieRole::TwoUpper, un[a as int].duration)
            + note_tie_marks(ln[b as int], TieRole::TwoLower, un[a as int].duration),
        _ => Seq::empty(),
    }
}

/// A note of heads has a stem direction.
pub open spec fn directed(n: Note) -> bool {
    n.spec_is_heads() ==> n.direction is Some
}

/// The notes of a complex are notes of their voices, and those of heads
/// have a stem direction.
pub open spec fn complex_markable(c: ComplexType, un: Seq<Note>, ln: Seq<Note>) -> bool {
    match c {
        ComplexType::Single(a, _) => a < un.len() && directed(un[a as int]),
        ComplexType::Upper(a, _) => a < un.len() && directed(un[a as int]),
        ComplexType::Lower(b, _) => b < ln.len() && directed(ln[b as int]),
        ComplexType::Two(a, b, _) => a < un.len() && b < ln.len() && directed(un[a as int]) && directed(
            ln[b as int],
        ),
        _ => true,
    }
}

fn direction_of(role: TieRole, dir: DirUD, n: usize, j: usize) -> (r: DirUD)
    ensures
        r == tie_direction(role, dir, n as int, j as int),
{
    match role {
        TieRole::Single => if n == 1 {
            dir.flip()
        } else if j < n / 2 {
            DirUD::Up
        } else {
            DirUD::Down
        },
        TieRole::Upper => DirUD::Up,
        TieRole::TwoUpper => DirUD::Up,
        TieRole::Lower => DirUD::Down,
        TieRole::TwoLower => DirUD::Down,
    }
}

fn placement_of(role: TieRole, dir: DirUD, n: usize, j: usize) -> (r: TiePlacement)
    requires
        j < n,
    ensures
        r == tie_placement(role, dir, n as int, j as int),
{
    match role {
        TieRole::Single => if n == 1 {
            match dir {
                DirUD::Up => TiePlacement::Bottom,
                DirUD::Down => TiePlacement::Top,
            }
        } else if j == 0 {
            TiePlacement::Top
        } else if j == n - 1 {
            TiePlacement::Bottom
        } else {
            TiePlacement::Mid
        },
        TieRole::Upper => if j == 0 {
            TiePlacement::Top
        } else {
            TiePlacement::Mid
        },
        TieRole::Lower => if j == n - 1 {
            TiePlacement::Bottom
        } else {
            TiePlacement::Mid
        },
        TieRole::TwoUpper => TiePlacement::Top,
        TieRole::TwoLower => if n == 1 {
            TiePlacement::Bottom
        } else {
            TiePlacement::Mid
        },
    }
}

/// Appends the tie marks of a note (see `note_tie_marks`).
fn push_note_marks(note: &Note, role: TieRole, dur: Duration, out: &mut Vec<NRectType>)
    requires
        directed(*note),
    ensures
        final(out)@ == old(out)@ + note_tie_marks(*note, role, dur),
{
    if !note.is_heads() {
        assert(old(out)@ + note_tie_marks(*note, role, dur) =~= old(out)@);
        return;
    }
    let ghost start = out@;
    let dir = match note.direction {
        Some(d) => d,
        None => DirUD::Up,
    };
    let n = note.ties.len();
    let mut j: usize = 0;
    while j < n
        invariant
            n == note.ties@.len(),
            j <= n,
            note.direction == Some(dir),
            out@ == start + Seq::new(j as nat, |k: int| tie_from_mark(*note, role, dur, k)),
        decreases n - j,
    {
        let t: TieData = note.ties[j];
        let m = NRectType::TieFrom(
            note.id,
            t.level,
            t.ttype,
            dur,
            dir,
            direction_of(role, dir, n, j),
            placement_of(role, dir, n, j),
        );
        out.push(m);
        assert(start + Seq::new((j + 1) as nat, |k: int| tie_from_mark(*note, role, dur, k)) =~= (start
            + Seq::new(j as nat, |k: int| tie_from_mark(*note, role, dur, k))).push(
            tie_from_mark(*note, role, dur, j as int),
        ));
        j = j + 1;
    }
    let ghost mid = out@;
    let mut i: usize = 0;
    while i < note.ties_to.len()
        invariant
            i <= note.ties_to@.len(),
            out@ == mid + note.ties_to@.take(i as int).map_values(|t: TieToData| NRectType::TieTo(t.ttype)),
        decreases note.ties_to@.len() - i,
    {
        out.push(NRectType::TieTo(note.ties_to[i].ttype));
        assert(note.ties_to@.take(i + 1).map_values(|t: TieToData| NRectType::TieTo(t.ttype)) =~= note.ties_to@.take(
            i as int,
        ).map_values(|t: TieToData| NRectType::TieTo(t.ttype)).push(NRectType::TieTo(note.ties_to@[i as int].ttype)));
        i = i + 1;
    }
    assert(note.ties_to@.take(note.ties_to@.len() as int) =~= note.ties_to@);
    assert(out@ =~= old(out)@ + note_tie_marks(*note, role, dur));
}

/// The tie marks of a complex whose notes are those of the voices given
/// (see `complex_tie_marks`).
pub fn complex_tie_marks_of(c: &ComplexType, upper: &Vec<Note>, lower: &Vec<Note>) -> (r: Vec<NRectType>)
    requires
        complex_markable(*c, upper@, lower@),
    ensures
        r@ == complex_tie_marks(*c, upper@, lower@),
{
    let mut out: Vec<NRectType> = Vec::new();
    match c {
        ComplexType::Single(a, _) => {
            push_note_marks(&upper[*a], TieRole::Single, upper[*a].duration, &mut out);
        },
        ComplexType::Upper(a, _) => {
            push_note_marks(&upper[*a], TieRole::Upper, upper[*a].duration, &mut out);
        },
        ComplexType::Lower(b, _) => {
            push_note_marks(&lower[*b], TieRole::Lower, lower[*b].duration, &mut out);
        },
        ComplexType::Two(a, b, _) => {
            push_note_marks(&upper[*a], TieRole::TwoUpper, upper[*a].duration, &mut out);
            push_note_marks(&lower[*b], TieRole::TwoLower, upper[*a].duration, &mut out);
        },
        _ => {},
    }
    assert(out@ =~= complex_tie_marks(*c, upper@, lower@));
    out
}

/// Which way the ties of a note bend, and where they start: the ties of
/// the upper voice's note bend up and those of the lower voice's note bend
/// down, whether or not the other voice sounds beside it; a single voice's
/// lone tie bends away from the stem and starts on the side away from it;
/// of several ties of a single voice's note, those of the upper half bend
/// up and the others down, the first starts on top, the last at the
/// bottom and the others in the middle; the upper voice's first tie starts on top and
/// the lower voice's last at the bottom; beside the other voice's note, the
/// upper note's ties all start on top, and a lone tie of the lower note at
/// the bottom. Each tie keeps its level and kind, and the stem direction
/// and length given.
pub proof fn lemma_tie_marks_bend(note: Note, role: TieRole, dur: Duration)
    requires
        note.spec_is_heads(),
        note.direction is Some,
    ensures
        ({
            let marks = note_tie_marks(note, role, dur);
            let n = note.ties@.len() as int;
            let stem = note.direction->0;
            &&& marks.len() == n + note.ties_to@.len()
            &&& forall|j: int|
                0 <= j < n ==> (#[trigger] marks[j] matches NRectType::TieFrom(id, level, kind, d, sd, bend, place)
                    && id == note.id && level == note.ties@[j].level && kind == note.ties@[j].ttype && d == dur
                    && sd == stem && ((role == TieRole::Upper || role == TieRole::TwoUpper) ==> bend == DirUD::Up)
                    && ((role == TieRole::Lower || role == TieRole::TwoLower) ==> bend == DirUD::Down) && (role
                    == TieRole::Single && n == 1 ==> bend != stem && (place == TiePlacement::Bottom <==> stem
                    == DirUD::Up) && place != TiePlacement::Mid) && (role == TieRole::Single && n > 1 && j == 0
                    ==> place == TiePlacement::Top && bend == DirUD::Up) && (role == TieRole::Single && n > 1 && j
                    == n - 1 ==> place == TiePlacement::Bottom && bend == DirUD::Down) && (role == TieRole::Single
                    && n > 1 ==> (bend == DirUD::Up <==> 2 * j + 2 <= n)) && (role == TieRole::Single && 0 < j < n
                    - 1 ==> place == TiePlacement::Mid) && ((role == TieRole::Upper
                    && j == 0) ==> place == TiePlacement::Top) && ((role == TieRole::Lower && j == n - 1) ==> place
                    == TiePlacement::Bottom) && (role == TieRole::TwoUpper ==> place == TiePlacement::Top) && ((role
                    == TieRole::TwoLower && n == 1) ==> place == TiePlacement::Bottom))
            &&& forall|j: int|
                0 <= j < note.ties_to@.len() ==> #[trigger] marks[n + j] == NRectType::TieTo(note.ties_to@[j].ttype)
        }),
{
    let n = note.ties@.len() as int;
    let a = Seq::new(note.ties@.len(), |j: int| tie_from_mark(note, role, dur, j));
    let b = note.ties_to@.map_values(|t: TieToData| NRectType::TieTo(t.ttype));
    let marks = note_tie_marks(note, role, dur);
    assert(marks == a + b);
    assert forall|j: int| 0 <= j < n implies #[trigger] marks[j] == tie_from_mark(note, role, dur, j) by {
        assert((a + b)[j] == a[j]);
    }
    assert forall|j: int| 0 <= j < note.ties_to@.len() implies #[trigger] marks[n + j] == NRectType::TieTo(
        note.ties_to@[j].ttype,
    ) by {
        assert((a + b)[n + j] == b[j]);
    }
}

/// The ties of a complex bend by voice: those of a note of the upper voice
/// up, those of a note of the lower voice down, whether the other voice is
/// silent beside it or not; where both voices sound, the upper note's marks
/// come first, and the ties of both carry the upper note's length.
pub proof fn lemma_complex_ties_bend(c: ComplexType, un: Seq<Note>, ln: Seq<Note>)
    requires
        complex_markable(c, un, ln),
    ensures
        ({
            let marks = complex_tie_marks(c, un, ln);
            &&& (c is Upper || c is Lower) ==> forall|k: int|
                0 <= k < marks.len() ==> ((#[trigger] marks[k]) matches NRectType::TieFrom(_, _, _, d, _, bend, _)
                    ==> bend == (if c is Upper { DirUD::Up } else { DirUD::Down }) && d == (match c {
                    ComplexType::Upper(a, _) => un[a as int].duration,
                    _ => ln[c->Lower_0 as int].duration,
                }))
            &&& c matches ComplexType::Two(a, b, _) ==> forall|k: int|
                0 <= k < marks.len() ==> ((#[trigger] marks[k]) matches NRectType::TieFrom(id, _, _, d, _, bend, _)
                    ==> d == un[a as int].duration && bend == (if un[a as int].spec_is_heads() && k < un[a as int].ties@.len()
                    + un[a as int].ties_to@.len() {
                    DirUD::Up
                } else {
                    DirUD::Down
                }))
        }),
{
    let marks = complex_tie_marks(c, un, ln);
    match c {
        ComplexType::Upper(a, _) => {
            if un[a as int].spec_is_heads() {
                lemma_tie_marks_bend(un[a as int], TieRole::Upper, un[a as int].duration);
            }
        },
        ComplexType::Lower(b, _) => {
            if ln[b as int].spec_is_heads() {
                lemma_tie_marks_bend(ln[b as int], TieRole::Lower, ln[b as int].duration);
            }
        },
        ComplexType::Two(a, b, _) => {
            let u = un[a as int];
            let l = ln[b as int];
            let mu = note_tie_marks(u, TieRole::TwoUpper, u.duration);
            let ml = note_tie_marks(l, TieRole::TwoLower, u.duration);
            if u.spec_is_heads() {
                lemma_tie_marks_bend(u, TieRole::TwoUpper, u.duration);
            }
            if l.spec_is_heads() {
                lemma_tie_marks_bend(l, TieRole::TwoLower, u.duration);
            }
            assert forall|k: int| 0 <= k < marks.len() implies ((#[trigger] marks[k]) matches NRectType::TieFrom(
                id,
                _,
                _,
                d,
                _,
                bend,
                _,
            ) ==> d == u.duration && bend == (if u.spec_is_heads() && k < u.ties@.len() + u.ties_to@.len() {
                DirUD::Up
            } else {
                DirUD::Down
            })) by {
                if u.spec_is_heads() {
                    if k < mu.len() {
                        assert(marks[k] == mu[k]);
                        if k >= u.ties@.len() {
                            assert(mu[k] == mu[u.ties@.len() + (k - u.ties@.len())]);
                        }
                    } else {
                        assert(marks[k] == ml[k - mu.len()]);
                        if l.spec_is_heads() && k - mu.len() >= l.ties@.len() {
                            assert(ml[k - mu.len()] == ml[l.ties@.len() + (k - mu.len() - l.ties@.len())]);
                        }
                    }
                } else {
                    assert(mu.len() == 0);
                    assert(marks[k] == ml[k]);
                    if l.spec_is_heads() && k >= l.ties@.len() {
                        assert(ml[k] == ml[l.ties@.len() + (k - l.ties@.len())]);
                    }
                }
            }
        },
        _ => {},
    }
    if c is Upper || c is Lower {
        let note = match c {
            ComplexType::Upper(a, _) => un[a as int],
            _ => ln[c->Lower_0 as int],
        };
        assert forall|k: int| 0 <= k < marks.len() implies ((#[trigger] marks[k]) matches NRectType::TieFrom(
            _,
            _,
            _,
            d,
            _,
            bend,
            _,
        ) ==> bend == (if c is Upper { DirUD::Up } else { DirUD::Down }) && d == note.duration) by {
            if k >= note.ties@.len() {
                assert(marks[k] == marks[note.ties@.len() + (k - note.ties@.len())]);
            }
        }
    }
}

/// The lines that arrive at a note of heads; other notes have none.
pub open spec fn note_lines(n: Note) -> Seq<HeadLineTo> {
    if n.spec_is_heads() {
        n.lines_to@
    } else {
        Seq::empty()
    }
}

/// The lines that arrive at the notes of a complex: those of its upper (or
/// only) note, then those of its lower note.
pub open spec fn complex_lines(c: ComplexType, upper: Seq<Note>, lower: Seq<Note>) -> Seq<HeadLineTo> {
    match c {
        ComplexType::Single(a, _) => note_lines(upper[a as int]),
        ComplexType::Upper(a, _) => note_lines(upper[a as int]),
        ComplexType::Lower(b, _) => note_lines(lower[b as int]),
        ComplexType::Two(a, b, _) => note_lines(upper[a as int]) + note_lines(lower[b as int]),
        _ => Seq::empty(),
    }
}

/// The notes of a complex are notes of their voices.
pub open spec fn complex_in_voices(c: ComplexType, upper: Seq<Note>, lower: Seq<Note>) -> bool {
    match c {
        ComplexType::Single(a, _) => a < upper.len(),
        ComplexType::Upper(a, _) => a < upper.len(),
        ComplexType::Lower(b, _) => b < lower.len(),
        ComplexType::Two(a, b, _) => a < upper.len() && b < lower.len(),
        _ => true,
    }
}

/// Appends the lines that arrive at a note of heads.
fn push_note_lines(n: &Note, out: &mut Vec<HeadLineTo>)
    ensures
        final(out)@ == old(out)@ + note_lines(*n),
{
    if n.is_heads() {
        let mut i: usize = 0;
        while i < n.lines_to.len()
            invariant
                i <= n.lines_to@.len(),
                n.spec_is_heads(),
                out@ == old(out)@ + n.lines_to@.take(i as int),
            decreases n.lines_to@.len() - i,
        {
            out.push(n.lines_to[i]);
            proof {
                assert(n.lines_to@.take(i + 1) =~= n.lines_to@.take(i as int).push(n.lines_to@[i as int]));
            }
            i = i + 1;
        }
        assert(n.lines_to@.take(i as int) =~= n.lines_to@);
    } else {
        assert(old(out)@ + note_lines(*n) =~= old(out)@);
    }
}

/// The lines that arrive at the notes of a complex whose notes are those of
/// the voices given (see `complex_lines`).
pub fn complex_lines_of(c: &ComplexType, upper: &Vec<Note>, lower: &Vec<Note>) -> (r: Vec<HeadLineTo>)
    requires
        complex_in_voices(*c, upper@, lower@),
    ensures
        r@ == complex_lines(*c, upper@, lower@),
{
    let mut out: Vec<HeadLineTo> = Vec::new();
    match c {
        ComplexType::Single(a, _) | ComplexType::Upper(a, _) => {
            push_note_lines(&upper[*a], &mut out);
        },
        ComplexType::Lower(b, _) => {
            push_note_lines(&lower[*b], &mut out);
        },
        ComplexType::Two(a, b, _) => {
            push_note_lines(&upper[*a], &mut out);
            push_note_lines(&lower[*b], &mut out);
        },
        _ => {},
    }
    assert(out@ =~= complex_lines(*c, upper@, lower@));
    out
}

} // verus!
