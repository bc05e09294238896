//! Ties and lines between the notes of a run of consecutive sounding notes
//! (see `consecutive_note_chunks`): each pair of neighbours is looked at in
//! turn.

use vstd::prelude::*;

use crate::core_defs::{TieData, TieFromType, TieToData, TieToType};
use crate::head::{spec_first_on_level, Head, HeadLine, HeadLineTo};
use crate::bar::{total_parts, Bar, BarType, Bars};
use crate::chunks::{bars_chunks, bars_events, chunks_listed, parts_events, voice_key, NoteLoc, NotesChunk};
use crate::part::Part;
use crate::note::{heads_of, Note, NoteType};
use crate::score::{bar_shape, bars_shape, lemma_bars_shape_refl, lemma_bars_shape_trans, note_at, part_shape, swap_note};

verus! {

/// The tie that arrives at the first head of the note on the level.
pub open spec fn level_tie_to(n: Note, level: i8) -> Option<TieToType> {
    match spec_first_on_level(heads_of(n.ntype), level) {
        Some(h) => h.tie_to,
        None => None,
    }
}

/// A standard tie that finds no note to end on is left unresolved.
pub open spec fn unresolved(t: TieData) -> TieData {
    if t.ttype == TieFromType::Standard {
        TieData { ttype: TieFromType::UnresolvedInChunk, ..t }
    } else {
        t
    }
}

/// A tie leaving a note towards the next one: kept where the next note has
/// a head on its level, else left unresolved.
pub open spec fn checked_tie(t: TieData, right: Note) -> TieData {
    if right.spec_has_level(t.level) {
        t
    } else {
        unresolved(t)
    }
}

/// The ties that arrive at `right` from the ties of the note before it:
/// one for each tie on a level where `right` has a head with no tie
/// arriving yet, in order.
pub open spec fn tie_arrivals(ties: Seq<TieData>, left_id: usize, right: Note) -> Seq<TieToData>
    decreases ties.len(),
{
    if ties.len() == 0 {
        Seq::empty()
    } else {
        let prev = tie_arrivals(ties.drop_last(), left_id, right);
        let t = ties.last();
        if right.spec_has_level(t.level) && level_tie_to(right, t.level) is None {
            prev.push(
                TieToData { note_id: right.id, level: t.level, ttype: TieToType::ResolveTieFrom(left_id, t.level) },
            )
        } else {
            prev
        }
    }
}

/// The ties of note `k` of the run after resolving: a lone note's standard
/// ties are left unresolved; a note followed by another has its ties
/// checked against it; the last note of a longer run has its standard ties
/// left unresolved where the note before it has ties.
pub open spec fn resolved_ties(s: Seq<Note>, k: int) -> Seq<TieData> {
    if s.len() == 1 {
        s[k].ties@.map_values(|t: TieData| unresolved(t))
    } else if k + 1 < s.len() {
        s[k].ties@.map_values(|t: TieData| checked_tie(t, s[k + 1]))
    } else if s[k - 1].ties@.len() > 0 {
        s[k].ties@.map_values(|t: TieData| unresolved(t))
    } else {
        s[k].ties@
    }
}

/// The ties arriving at note `k` after resolving: those it had, then those
/// from the note before it.
pub open spec fn resolved_ties_to(s: Seq<Note>, k: int) -> Seq<TieToData> {
    if k >= 1 {
        s[k].ties_to@ + tie_arrivals(s[k - 1].ties@, s[k - 1].id, s[k])
    } else {
        s[k].ties_to@
    }
}

/// The run after its ties are resolved; nothing else changes.
pub open spec fn ties_resolved(s: Seq<Note>, r: Seq<Note>) -> bool {
    &&& r.len() == s.len()
    &&& forall|k: int|
        0 <= k < s.len() ==> {
            &&& (#[trigger] r[k]).ties@ == resolved_ties(s, k)
            &&& r[k].ties_to@ == resolved_ties_to(s, k)
            &&& r[k] == (Note { ties: r[k].ties, ties_to: r[k].ties_to, ..s[k] })
        }
}

/// The ties with standard ones left unresolved.
fn unresolve_all(ties: &Vec<TieData>) -> (r: Vec<TieData>)
    ensures
        r@ == ties@.map_values(|t: TieData| unresolved(t)),
{
    let mut r: Vec<TieData> = Vec::new();
    let mut i: usize = 0;
    while i < ties.len()
        invariant
            i <= ties@.len(),
            r@ == ties@.take(i as int).map_values(|t: TieData| unresolved(t)),
        decreases ties@.len() - i,
    {
        let t = ties[i];
        let u = if t.ttype == TieFromType::Standard {
            TieData { ttype: TieFromType::UnresolvedInChunk, ..t }
        } else {
            t
        };
        r.push(u);
        assert(ties@.take(i + 1).map_values(|t: TieData| unresolved(t)) =~= ties@.take(i as int).map_values(
            |t: TieData| unresolved(t),
        ).push(unresolved(t)));
        i = i + 1;
    }
    assert(ties@.take(ties@.len() as int) =~= ties@);
    r
}

/// The ties checked against the next note, and those that arrive at it.
fn check_ties(ties: &Vec<TieData>, left_id: usize, right: &Note) -> (r: (Vec<TieData>, Vec<TieToData>))
    ensures
        r.0@ == ties@.map_values(|t: TieData| checked_tie(t, *right)),
        r.1@ == tie_arrivals(ties@, left_id, *right),
{
    let mut kept: Vec<TieData> = Vec::new();
    let mut arrive: Vec<TieToData> = Vec::new();
    let mut i: usize = 0;
    while i < ties.len()
        invariant
            i <= ties@.len(),
            kept@ == ties@.take(i as int).map_values(|t: TieData| checked_tie(t, *right)),
            arrive@ == tie_arrivals(ties@.take(i as int), left_id, *right),
        decreases ties@.len() - i,
    {
        let t = ties[i];
        assert(ties@.take(i + 1).drop_last() =~= ties@.take(i as int));
        if right.has_level(t.level) {
            kept.push(t);
            if right.get_level_tie_to(t.level).is_none() {
                arrive.push(
                    TieToData { note_id: right.id, level: t.level, ttype: TieToType::ResolveTieFrom(left_id, t.level) },
                );
            }
        } else {
            let u = if t.ttype == TieFromType::Standard {
                TieData { ttype: TieFromType::UnresolvedInChunk, ..t }
            } else {
                t
            };
            kept.push(u);
        }
        assert(ties@.take(i + 1).map_values(|t: TieData| checked_tie(t, *right)) =~= ties@.take(
            i as int,
        ).map_values(|t: TieData| checked_tie(t, *right)).push(checked_tie(t, *right)));
        i = i + 1;
    }
    assert(ties@.take(ties@.len() as int) =~= ties@);
    (kept, arrive)
}

/// The two sequences appended.
fn append_ties_to(a: &Vec<TieToData>, b: &Vec<TieToData>) -> (r: Vec<TieToData>)
    ensures
        r@ == a@ + b@,
{
    let mut r: Vec<TieToData> = Vec::new();
    let mut i: usize = 0;
    while i < a.len()
        invariant
            i <= a@.len(),
            r@ == a@.take(i as int),
        decreases a@.len() - i,
    {
        r.push(a[i]);
        assert(a@.take(i + 1) =~= a@.take(i as int).push(a@[i as int]));
        i = i + 1;
    }
    let mut j: usize = 0;
    while j < b.len()
        invariant
            j <= b@.len(),
            i == a@.len(),
            r@ == a@.take(i as int) + b@.take(j as int),
        decreases b@.len() - j,
    {
        r.push(b[j]);
        assert(a@.take(i as int) + b@.take(j + 1) =~= (a@.take(i as int) + b@.take(j as int)).push(b@[j as int]));
        j = j + 1;
    }
    assert(a@.take(i as int) =~= a@);
    assert(b@.take(j as int) =~= b@);
    r
}

/// Resolves the ties of a run of notes (see `ties_resolved`).
pub fn resolve_chunk_ties(notes: &mut Vec<Note>)
    ensures
        ties_resolved(old(notes)@, final(notes)@),
{
    let ghost s = notes@;
    let m = notes.len();
    if m == 1 {
        let t = unresolve_all(&notes[0].ties);
        notes[0].ties = t;
        return;
    }
    if m == 0 {
        return;
    }
    let mut k: usize = 0;
    while k + 1 < m
        invariant
            m == s.len(),
            m >= 2,
            notes@.len() == m,
            k + 1 <= m,
            forall|j: int|
                0 <= j < k ==> {
                    &&& (#[trigger] notes@[j]).ties@ == resolved_ties(s, j)
                    &&& notes@[j].ties_to@ == resolved_ties_to(s, j)
                    &&& notes@[j] == (Note { ties: notes@[j].ties, ties_to: notes@[j].ties_to, ..s[j] })
                },
            notes@[k as int].ties@ == (if k + 1 == m {
                resolved_ties(s, k as int)
            } else {
                s[k as int].ties@
            }),
            notes@[k as int].ties_to@ == resolved_ties_to(s, k as int),
            notes@[k as int] == (Note { ties: notes@[k as int].ties, ties_to: notes@[k as int].ties_to, ..s[k as int] }),
            forall|j: int| k < j < m ==> #[trigger] notes@[j] == s[j],
        decreases m - k,
    {
        let (kept, arrive) = check_ties(&notes[k].ties, notes[k].id, &notes[k + 1]);
        let had_ties = notes[k].ties.len() > 0;
        let to = append_ties_to(&notes[k + 1].ties_to, &arrive);
        notes[k].ties = kept;
        notes[k + 1].ties_to = to;
        if k + 2 == m && had_ties {
            let t = unresolve_all(&notes[k + 1].ties);
            notes[k + 1].ties = t;
        }
        k = k + 1;
    }
    proof {
        assert forall|j: int| 0 <= j < m implies {
            &&& (#[trigger] notes@[j]).ties@ == resolved_ties(s, j)
            &&& notes@[j].ties_to@ == resolved_ties_to(s, j)
            &&& notes@[j] == (Note { ties: notes@[j].ties, ties_to: notes@[j].ties_to, ..s[j] })
        } by {
            if j == m - 1 {
                assert(j == k);
            }
        }
    }
}

/// The levels of the heads of a note.
pub open spec fn levels(n: Note) -> Seq<i8> {
    heads_of(n.ntype).map_values(|h: Head| h.level)
}

/// The lines that arrive at `right` from the lines of the note before it:
/// one for each line whose two head indexes name heads of the two notes,
/// joining the levels of those heads, in order.
pub open spec fn line_arrivals(lines: Seq<HeadLine>, left: Note, right: Note) -> Seq<HeadLineTo>
    decreases lines.len(),
{
    if lines.len() == 0 {
        Seq::empty()
    } else {
        let prev = line_arrivals(lines.drop_last(), left, right);
        let l = lines.last();
        if (l.0 as int) < levels(left).len() && (l.1 as int) < levels(right).len() {
            prev.push(HeadLineTo(levels(left)[l.0 as int], levels(right)[l.1 as int], l.2))
        } else {
            prev
        }
    }
}

/// The line `l` joins heads that the two notes have.
pub open spec fn line_fits(l: HeadLine, left: Note, right: Note) -> bool {
    (l.0 as int) < heads_of(left.ntype).len() && (l.1 as int) < heads_of(right.ntype).len()
}

/// The lines that arrive at a note keep what the lines that left the note
/// before it were: never more of them; each arriving line has the kind of
/// a line that left and joins the levels of the two heads that line
/// names; and where every line names heads the notes have, the lines
/// arrive one for one, in order, each with its kind and the levels of its
/// heads.
pub proof fn lemma_arrivals_keep_lines(lines: Seq<HeadLine>, left: Note, right: Note)
    ensures
        ({
            let arr = line_arrivals(lines, left, right);
            &&& arr.len() <= lines.len()
            &&& forall|k: int|
                #![trigger arr[k]]
                0 <= k < arr.len() ==> exists|j: int|
                    0 <= j < lines.len() && line_fits(#[trigger] lines[j], left, right) && arr[k] == HeadLineTo(
                        heads_of(left.ntype)[lines[j].0 as int].level,
                        heads_of(right.ntype)[lines[j].1 as int].level,
                        lines[j].2,
                    )
            &&& (forall|j: int| 0 <= j < lines.len() ==> line_fits(#[trigger] lines[j], left, right)) ==> {
                &&& arr.len() == lines.len()
                &&& forall|k: int|
                    0 <= k < lines.len() ==> #[trigger] arr[k] == HeadLineTo(
                        heads_of(left.ntype)[lines[k].0 as int].level,
                        heads_of(right.ntype)[lines[k].1 as int].level,
                        lines[k].2,
                    )
            }
        }),
    decreases lines.len(),
{
    if lines.len() > 0 {
        let init = lines.drop_last();
        lemma_arrivals_keep_lines(init, left, right);
        let prev = line_arrivals(init, left, right);
        let arr = line_arrivals(lines, left, right);
        let l = lines.last();
        assert forall|k: int| #![trigger arr[k]] 0 <= k < arr.len() implies exists|j: int|
            0 <= j < lines.len() && line_fits(#[trigger] lines[j], left, right) && arr[k] == HeadLineTo(
                heads_of(left.ntype)[lines[j].0 as int].level,
                heads_of(right.ntype)[lines[j].1 as int].level,
                lines[j].2,
            ) by {
            if k < prev.len() {
                assert(arr[k] == prev[k]);
                let j = choose|j: int|
                    0 <= j < init.len() && line_fits(#[trigger] init[j], left, right) && prev[k] == HeadLineTo(
                        heads_of(left.ntype)[init[j].0 as int].level,
                        heads_of(right.ntype)[init[j].1 as int].level,
                        init[j].2,
                    );
                assert(lines[j] == init[j]);
            } else {
                assert(lines[lines.len() - 1] == l);
                assert(line_fits(l, left, right));
            }
        }
        if forall|j: int| 0 <= j < lines.len() ==> line_fits(#[trigger] lines[j], left, right) {
            assert forall|j: int| 0 <= j < init.len() implies line_fits(#[trigger] init[j], left, right) by {
                assert(init[j] == lines[j]);
            }
            assert(line_fits(lines[lines.len() - 1], left, right));
            assert forall|k: int| 0 <= k < lines.len() implies #[trigger] arr[k] == HeadLineTo(
                heads_of(left.ntype)[lines[k].0 as int].level,
                heads_of(right.ntype)[lines[k].1 as int].level,
                lines[k].2,
            ) by {
                if k < init.len() {
                    assert(init[k] == lines[k]);
                    assert(arr[k] == prev[k]);
                }
            }
        }
    }
}

/// The run after its lines are resolved: in a run of two or more notes,
/// each note after the first gets the lines from the note before it;
/// nothing else changes.
pub open spec fn lines_resolved(s: Seq<Note>, r: Seq<Note>) -> bool {
    &&& r.len() == s.len()
    &&& forall|k: int|
        0 <= k < s.len() ==> {
            &&& (#[trigger] r[k]).lines_to@ == (if s.len() != 1 && k >= 1 {
                s[k].lines_to@ + line_arrivals(s[k - 1].lines@, s[k - 1], s[k])
            } else {
                s[k].lines_to@
            })
            &&& r[k] == (Note { lines_to: r[k].lines_to, ..s[k] })
        }
}

/// In a run whose lines are resolved, a note keeps the lines that arrived
/// at it before and gains one for each line that leaves the note just
/// before it, in order, with that line's kind and the levels of the heads
/// it joins (where those heads exist); the first note gains none, and
/// nothing else about a note changes.
pub proof fn lemma_resolved_lines_arrive(s: Seq<Note>, r: Seq<Note>, k: int)
    requires
        lines_resolved(s, r),
        0 <= k < s.len(),
    ensures
        r[k] == (Note { lines_to: r[k].lines_to, ..s[k] }),
        k == 0 ==> r[k].lines_to@ == s[k].lines_to@,
        k >= 1 ==> r[k].lines_to@.len() <= s[k].lines_to@.len() + s[k - 1].lines@.len(),
        k >= 1 ==> r[k].lines_to@.subrange(0, s[k].lines_to@.len() as int) == s[k].lines_to@,
        k >= 1 && (forall|j: int|
            0 <= j < s[k - 1].lines@.len() ==> line_fits(#[trigger] s[k - 1].lines@[j], s[k - 1], s[k])) ==> {
            let o = s[k].lines_to@.len() as int;
            let ls = s[k - 1].lines@;
            &&& r[k].lines_to@.len() == o + ls.len()
            &&& forall|j: int|
                0 <= j < ls.len() ==> #[trigger] r[k].lines_to@[o + j] == HeadLineTo(
                    heads_of(s[k - 1].ntype)[ls[j].0 as int].level,
                    heads_of(s[k].ntype)[ls[j].1 as int].level,
                    ls[j].2,
                )
        },
{
    assert(r[k].lines_to@ == r[k].lines_to@);
    if k >= 1 {
        let ls = s[k - 1].lines@;
        lemma_arrivals_keep_lines(ls, s[k - 1], s[k]);
        let arr = line_arrivals(ls, s[k - 1], s[k]);
        let o = s[k].lines_to@.len() as int;
        assert(r[k].lines_to@ == s[k].lines_to@ + arr);
        assert(r[k].lines_to@.subrange(0, o) =~= s[k].lines_to@);
        if forall|j: int| 0 <= j < ls.len() ==> line_fits(#[trigger] ls[j], s[k - 1], s[k]) {
            assert forall|j: int| 0 <= j < ls.len() implies #[trigger] r[k].lines_to@[o + j] == HeadLineTo(
                heads_of(s[k - 1].ntype)[ls[j].0 as int].level,
                heads_of(s[k].ntype)[ls[j].1 as int].level,
                ls[j].2,
            ) by {
                assert((s[k].lines_to@ + arr)[o + j] == arr[j]);
            }
        }
    }
}

/// The lines arriving at `right`, after those it has (see `line_arrivals`).
fn arrive_lines(left: &Note, right: &Note) -> (r: Vec<HeadLineTo>)
    ensures
        r@ == right.lines_to@ + line_arrivals(left.lines@, *left, *right),
{
    let ll = left.head_levels();
    let rl = right.head_levels();
    let mut r: Vec<HeadLineTo> = Vec::new();
    let mut i: usize = 0;
    while i < right.lines_to.len()
        invariant
            i <= right.lines_to@.len(),
            r@ == right.lines_to@.take(i as int),
        decreases right.lines_to@.len() - i,
    {
        r.push(right.lines_to[i]);
        assert(right.lines_to@.take(i + 1) =~= right.lines_to@.take(i as int).push(right.lines_to@[i as int]));
        i = i + 1;
    }
    assert(right.lines_to@.take(i as int) =~= right.lines_to@);
    let mut j: usize = 0;
    while j < left.lines.len()
        invariant
            j <= left.lines@.len(),
            ll@ == levels(*left),
            rl@ == levels(*right),
            r@ == right.lines_to@ + line_arrivals(left.lines@.take(j as int), *left, *right),
        decreases left.lines@.len() - j,
    {
        let l = left.lines[j];
        assert(left.lines@.take(j + 1).drop_last() =~= left.lines@.take(j as int));
        if (l.0 as usize) < ll.len() && (l.1 as usize) < rl.len() {
            r.push(HeadLineTo(ll[l.0 as usize], rl[l.1 as usize], l.2));
        }
        j = j + 1;
    }
    assert(left.lines@.take(j as int) =~= left.lines@);
    r
}

/// Only the levels of the notes matter to the lines that arrive.
proof fn lemma_line_arrivals_levels(lines: Seq<HeadLine>, a: Note, b: Note, right: Note)
    requires
        levels(a) == levels(b),
    ensures
        line_arrivals(lines, a, right) == line_arrivals(lines, b, right),
    decreases lines.len(),
{
    if lines.len() > 0 {
        lemma_line_arrivals_levels(lines.drop_last(), a, b, right);
    }
}

/// Resolves the lines of a run of notes (see `lines_resolved`).
pub fn resolve_chunk_lines(notes: &mut Vec<Note>)
    ensures
        lines_resolved(old(notes)@, final(notes)@),
{
    let ghost s = notes@;
    let m = notes.len();
    if m == 1 {
        return;
    }
    let mut k: usize = 1;
    while k < m
        invariant
            m == s.len(),
            m != 1,
            notes@.len() == m,
            1 <= k || m == 0,
            forall|j: int|
                0 <= j < k && j < m ==> {
                    &&& (#[trigger] notes@[j]).lines_to@ == (if j >= 1 {
                        s[j].lines_to@ + line_arrivals(s[j - 1].lines@, s[j - 1], s[j])
                    } else {
                        s[j].lines_to@
                    })
                    &&& notes@[j] == (Note { lines_to: notes@[j].lines_to, ..s[j] })
                },
            forall|j: int| k <= j < m ==> #[trigger] notes@[j] == s[j],
        decreases m - k,
    {
        assert(notes@[k - 1] == (Note { lines_to: notes@[k - 1].lines_to, ..s[k - 1] }));
        proof {
            lemma_line_arrivals_levels(s[k - 1].lines@, notes@[k - 1], s[k - 1], s[k as int]);
        }
        let to = arrive_lines(&notes[k - 1], &notes[k]);
        notes[k].lines_to = to;
        k = k + 1;
    }
}

/// After resolving, a standard tie leaves a note only towards a next note
/// with a head on its level; the last note of a run keeps a standard tie
/// only where the note before it has no ties, and a lone note keeps none.
pub proof fn lemma_standard_ties_land(s: Seq<Note>, k: int, j: int)
    requires
        0 <= k < s.len(),
        0 <= j < resolved_ties(s, k).len(),
        resolved_ties(s, k)[j].ttype == TieFromType::Standard,
    ensures
        k + 1 < s.len() ==> s[k + 1].spec_has_level(resolved_ties(s, k)[j].level),
        k + 1 == s.len() ==> s.len() >= 2 && s[k - 1].ties@.len() == 0,
{
}

/// The notes at the places, in order.
pub open spec fn run_notes(bars: Seq<Bar>, locs: Seq<NoteLoc>) -> Seq<Note> {
    locs.map_values(|l: NoteLoc| note_at(bars, l)->0)
}

/// The runs of the score by run key (see `bars_chunks`).
pub open spec fn score_runs(bars: Seq<Bar>) -> Map<usize, Seq<NoteLoc>> {
    bars_chunks(bars, total_parts(bars)).notes
}

/// A place lies in some run of the score.
pub open spec fn in_score_runs(bars: Seq<Bar>, l: NoteLoc) -> bool {
    exists|k: usize, a: int|
        score_runs(bars).contains_key(k) && 0 <= a < score_runs(bars)[k].len() && #[trigger] score_runs(
            bars,
        )[k][a] == l
}

/// A run after it is resolved: its lines, or its ties.
pub open spec fn run_resolved(lines: bool, s: Seq<Note>, r: Seq<Note>) -> bool {
    if lines {
        lines_resolved(s, r)
    } else {
        ties_resolved(s, r)
    }
}

/// A place lies in one of the runs.
pub open spec fn in_runs(runs: Seq<(usize, usize, NotesChunk)>, l: NoteLoc) -> bool {
    exists|i: int, a: int| 0 <= i < runs.len() && 0 <= a < runs[i].2@.len() && #[trigger] runs[i].2@[a] == l
}

/// Each place of the runs names a note, and no place is in two runs or
/// twice in one.
pub open spec fn runs_apart(bars: Seq<Bar>, runs: Seq<(usize, usize, NotesChunk)>) -> bool {
    &&& forall|i: int, a: int|
        0 <= i < runs.len() && 0 <= a < runs[i].2@.len() ==> note_at(bars, #[trigger] runs[i].2@[a]) is Some
    &&& forall|i: int, a: int, j: int, c: int|
        0 <= i < runs.len() && 0 <= j < runs.len() && 0 <= a < runs[i].2@.len() && 0 <= c < runs[j].2@.len() && (i
            != j || a != c) ==> #[trigger] runs[i].2@[a] != #[trigger] runs[j].2@[c]
}

/// Takes the notes of a run out of the bars, leaving pauses in their
/// places.
fn take_run(bars: &mut Vec<Bar>, locs: &Vec<NoteLoc>) -> (run: Vec<Note>)
    requires
        forall|a: int| 0 <= a < locs@.len() ==> note_at(old(bars)@, #[trigger] locs@[a]) is Some,
        forall|a: int, c: int| 0 <= a < locs@.len() && 0 <= c < locs@.len() && a != c ==> locs@[a] != locs@[c],
    ensures
        run@ == run_notes(old(bars)@, locs@),
        bars_shape(old(bars)@, final(bars)@),
        forall|l: NoteLoc| !locs@.contains(l) ==> note_at(final(bars)@, l) == note_at(old(bars)@, l),
        forall|a: int| 0 <= a < locs@.len() ==> note_at(final(bars)@, #[trigger] locs@[a]) is Some,
{
    let ghost b0 = bars@;
    proof {
        lemma_bars_shape_refl(b0);
    }
    let mut run: Vec<Note> = Vec::new();
    let mut a: usize = 0;
    while a < locs.len()
        invariant
            a <= locs@.len(),
            forall|x: int| 0 <= x < locs@.len() ==> note_at(b0, #[trigger] locs@[x]) is Some,
            forall|x: int, c: int| 0 <= x < locs@.len() && 0 <= c < locs@.len() && x != c ==> locs@[x] != locs@[c],
            run@ == run_notes(b0, locs@.take(a as int)),
            bars_shape(b0, bars@),
            forall|l: NoteLoc| !locs@.take(a as int).contains(l) ==> note_at(bars@, l) == note_at(b0, l),
            forall|x: int| 0 <= x < locs@.len() ==> note_at(bars@, #[trigger] locs@[x]) is Some,
        decreases locs@.len() - a,
    {
        let ghost before = bars@;
        let loc = locs[a];
        assert(!locs@.take(a as int).contains(loc)) by {
            if locs@.take(a as int).contains(loc) {
                let x = choose|x: int| 0 <= x < a && locs@.take(a as int)[x] == loc;
                assert(locs@[x] == locs@[a as int]);
            }
        }
        let got = swap_note(bars, loc, Note::new(NoteType::Pause, 0, 0));
        proof {
            lemma_bars_shape_trans(b0, before, bars@);
            assert(locs@.take(a + 1) =~= locs@.take(a as int).push(loc));
            assert forall|l: NoteLoc| !locs@.take(a + 1).contains(l) implies note_at(bars@, l) == note_at(b0, l) by {
                assert(!locs@.take(a as int).contains(l));
                assert(l != loc) by {
                    assert(locs@.take(a + 1)[a as int] == loc);
                }
            }
            assert forall|x: int| 0 <= x < locs@.len() implies note_at(bars@, #[trigger] locs@[x]) is Some by {
                if locs@[x] != loc {
                    assert(note_at(before, locs@[x]) is Some);
                }
            }
        }
        match got {
            Some(n) => {
                run.push(n);
            },
            None => {},
        }
        proof {
            assert(run@ =~= run_notes(b0, locs@.take(a + 1)));
        }
        a = a + 1;
    }
    assert(locs@.take(locs@.len() as int) =~= locs@);
    run
}

/// Puts the notes of a run back in their places.
fn put_run(bars: &mut Vec<Bar>, locs: &Vec<NoteLoc>, run: Vec<Note>)
    requires
        run@.len() == locs@.len(),
        forall|a: int| 0 <= a < locs@.len() ==> note_at(old(bars)@, #[trigger] locs@[a]) is Some,
        forall|a: int, c: int| 0 <= a < locs@.len() && 0 <= c < locs@.len() && a != c ==> locs@[a] != locs@[c],
    ensures
        bars_shape(old(bars)@, final(bars)@),
        forall|a: int| 0 <= a < locs@.len() ==> note_at(final(bars)@, #[trigger] locs@[a]) == Some(run@[a]),
        forall|l: NoteLoc| !locs@.contains(l) ==> note_at(final(bars)@, l) == note_at(old(bars)@, l),
{
    let ghost b0 = bars@;
    let ghost r0 = run@;
    proof {
        lemma_bars_shape_refl(b0);
    }
    let mut run = run;
    let mut a: usize = locs.len();
    while a > 0
        invariant
            a <= locs@.len(),
            r0.len() == locs@.len(),
            run@ == r0.take(a as int),
            forall|x: int| 0 <= x < locs@.len() ==> note_at(b0, #[trigger] locs@[x]) is Some,
            forall|x: int, c: int| 0 <= x < locs@.len() && 0 <= c < locs@.len() && x != c ==> locs@[x] != locs@[c],
            bars_shape(b0, bars@),
            forall|x: int| a <= x < locs@.len() ==> note_at(bars@, #[trigger] locs@[x]) == Some(r0[x]),
            forall|x: int| 0 <= x < a ==> note_at(bars@, #[trigger] locs@[x]) == note_at(b0, locs@[x]),
            forall|l: NoteLoc| !locs@.contains(l) ==> note_at(bars@, l) == note_at(b0, l),
        decreases a,
    {
        a = a - 1;
        let ghost before = bars@;
        let loc = locs[a];
        let n = match run.pop() {
            Some(n) => n,
            None => Note::new(NoteType::Pause, 0, 0),
        };
        assert(n == r0[a as int]);
        let _ = swap_note(bars, loc, n);
        proof {
            lemma_bars_shape_trans(b0, before, bars@);
            assert(run@ =~= r0.take(a as int));
            assert forall|x: int| a <= x < locs@.len() implies note_at(bars@, #[trigger] locs@[x]) == Some(r0[x]) by {
                if x != a {
                    assert(locs@[x] != loc);
                }
            }
            assert forall|x: int| 0 <= x < a implies note_at(bars@, #[trigger] locs@[x]) == note_at(b0, locs@[x]) by {
                assert(locs@[x] != loc);
            }
            assert forall|l: NoteLoc| !locs@.contains(l) implies note_at(bars@, l) == note_at(b0, l) by {
                assert(l != loc) by {
                    assert(locs@[a as int] == loc);
                }
            }
        }
    }
}

/// Resolves one run in place (see `run_resolved`).
fn resolve_run(bars: &mut Vec<Bar>, locs: &Vec<NoteLoc>, lines: bool)
    requires
        forall|a: int| 0 <= a < locs@.len() ==> note_at(old(bars)@, #[trigger] locs@[a]) is Some,
        forall|a: int, c: int| 0 <= a < locs@.len() && 0 <= c < locs@.len() && a != c ==> locs@[a] != locs@[c],
    ensures
        bars_shape(old(bars)@, final(bars)@),
        run_resolved(lines, run_notes(old(bars)@, locs@), run_notes(final(bars)@, locs@)),
        forall|a: int| 0 <= a < locs@.len() ==> note_at(final(bars)@, #[trigger] locs@[a]) is Some,
        forall|l: NoteLoc| !locs@.contains(l) ==> note_at(final(bars)@, l) == note_at(old(bars)@, l),
{
    let ghost b0 = bars@;
    let mut run = take_run(bars, locs);
    let ghost s = run@;
    let ghost b1 = bars@;
    if lines {
        resolve_chunk_lines(&mut run);
    } else {
        resolve_chunk_ties(&mut run);
    }
    let ghost r = run@;
    put_run(bars, locs, run);
    proof {
        lemma_bars_shape_trans(b0, b1, bars@);
        assert(run_notes(bars@, locs@) =~= r);
    }
}

/// Resolves each of the runs in place, one after the other.
fn resolve_runs(bars: &mut Vec<Bar>, runs: &Vec<(usize, usize, NotesChunk)>, lines: bool)
    requires
        runs_apart(old(bars)@, runs@),
    ensures
        bars_shape(old(bars)@, final(bars)@),
        forall|i: int|
            0 <= i < runs@.len() ==> run_resolved(
                lines,
                run_notes(old(bars)@, (#[trigger] runs@[i]).2@),
                run_notes(final(bars)@, runs@[i].2@),
            ),
        forall|l: NoteLoc| !in_runs(runs@, l) ==> note_at(final(bars)@, l) == note_at(old(bars)@, l),
{
    let ghost b0 = bars@;
    proof {
        lemma_bars_shape_refl(b0);
    }
    let mut c: usize = 0;
    while c < runs.len()
        invariant
            c <= runs@.len(),
            runs_apart(b0, runs@),
            bars_shape(b0, bars@),
            forall|j: int|
                0 <= j < c ==> run_resolved(lines, run_notes(b0, (#[trigger] runs@[j]).2@), run_notes(bars@, runs@[j].2@)),
            forall|l: NoteLoc| !in_runs(runs@.take(c as int), l) ==> note_at(bars@, l) == note_at(b0, l),
        decreases runs@.len() - c,
    {
        let ghost before = bars@;
        let locs = &runs[c].2;
        proof {
            assert forall|a: int| 0 <= a < locs@.len() implies note_at(before, #[trigger] locs@[a]) is Some by {
                assert(note_at(b0, runs@[c as int].2@[a]) is Some);
                if in_runs(runs@.take(c as int), locs@[a]) {
                    let (j, x) = choose|j: int, x: int|
                        0 <= j < runs@.take(c as int).len() && 0 <= x < runs@.take(c as int)[j].2@.len()
                            && #[trigger] runs@.take(c as int)[j].2@[x] == locs@[a];
                    assert(runs@[j].2@[x] == runs@[c as int].2@[a]);
                }
            }
            assert forall|a: int, x: int| 0 <= a < locs@.len() && 0 <= x < locs@.len() && a != x implies locs@[a]
                != locs@[x] by {
                assert(runs@[c as int].2@[a] != runs@[c as int].2@[x]);
            }
        }
        resolve_run(bars, locs, lines);
        proof {
            lemma_bars_shape_trans(b0, before, bars@);
            assert(run_notes(before, locs@) =~= run_notes(b0, locs@)) by {
                assert forall|a: int| 0 <= a < locs@.len() implies note_at(before, #[trigger] locs@[a]) == note_at(
                    b0,
                    locs@[a],
                ) by {
                    if in_runs(runs@.take(c as int), locs@[a]) {
                        let (j, x) = choose|j: int, x: int|
                            0 <= j < runs@.take(c as int).len() && 0 <= x < runs@.take(c as int)[j].2@.len()
                                && #[trigger] runs@.take(c as int)[j].2@[x] == locs@[a];
                        assert(runs@[j].2@[x] == runs@[c as int].2@[a]);
                    }
                }
            }
            assert forall|j: int| 0 <= j < c + 1 implies run_resolved(
                lines,
                run_notes(b0, (#[trigger] runs@[j]).2@),
                run_notes(bars@, runs@[j].2@),
            ) by {
                if j < c {
                    assert(run_notes(bars@, runs@[j].2@) =~= run_notes(before, runs@[j].2@)) by {
                        assert forall|x: int| 0 <= x < runs@[j].2@.len() implies note_at(
                            bars@,
                            #[trigger] runs@[j].2@[x],
                        ) == note_at(before, runs@[j].2@[x]) by {
                            if locs@.contains(runs@[j].2@[x]) {
                                let a = choose|a: int| 0 <= a < locs@.len() && locs@[a] == runs@[j].2@[x];
                                assert(runs@[c as int].2@[a] != runs@[j].2@[x]);
                            }
                        }
                    }
                }
            }
            assert forall|l: NoteLoc| !in_runs(runs@.take(c + 1), l) implies note_at(bars@, l) == note_at(b0, l) by {
                if locs@.contains(l) {
                    let a = choose|a: int| 0 <= a < locs@.len() && locs@[a] == l;
                    assert(runs@.take(c + 1)[c as int].2@[a] == l);
                }
                if in_runs(runs@.take(c as int), l) {
                    let (j, x) = choose|j: int, x: int|
                        0 <= j < runs@.take(c as int).len() && 0 <= x < runs@.take(c as int)[j].2@.len()
                            && #[trigger] runs@.take(c as int)[j].2@[x] == l;
                    assert(runs@.take(c + 1)[j].2@[x] == l);
                }
            }
        }
        c = c + 1;
    }
    proof {
        assert(runs@.take(runs@.len() as int) =~= runs@);
    }
}

/// The runs of the score, as `consecutive_note_chunks` lists them, are
/// apart, and cover exactly the places of the score's runs.
proof fn lemma_listed_runs(bars: Seq<Bar>, runs: Seq<(usize, usize, NotesChunk)>, lines: bool, after: Seq<Bar>)
    requires
        chunks_listed(runs, score_runs(bars)),
        forall|i: int|
            0 <= i < runs.len() ==> run_resolved(lines, run_notes(bars, (#[trigger] runs[i]).2@), run_notes(after, runs[i].2@)),
        forall|l: NoteLoc| !in_runs(runs, l) ==> note_at(after, l) == note_at(bars, l),
    ensures
        forall|k: usize|
            #[trigger] score_runs(bars).contains_key(k) ==> run_resolved(
                lines,
                run_notes(bars, score_runs(bars)[k]),
                run_notes(after, score_runs(bars)[k]),
            ),
        forall|l: NoteLoc| !in_score_runs(bars, l) ==> note_at(after, l) == note_at(bars, l),
{
    let m = score_runs(bars);
    let ks = choose|ks: Seq<usize>|
        {
            &&& ks.len() == runs.len()
            &&& ks.to_set() == m.dom()
            &&& forall|i: int, j: int| 0 <= i < j < ks.len() ==> ks[i] < ks[j]
            &&& forall|i: int|
                0 <= i < ks.len() ==> (#[trigger] runs[i]).0 == ks[i] / 1_000_000 && runs[i].1 == (ks[i] - 1_000_000)
                    / 1000 && runs[i].2@ == m[ks[i]]
        };
    assert forall|k: usize| #[trigger] m.contains_key(k) implies run_resolved(
        lines,
        run_notes(bars, m[k]),
        run_notes(after, m[k]),
    ) by {
        assert(ks.to_set().contains(k));
        let i = choose|i: int| 0 <= i < ks.len() && ks[i] == k;
        assert(runs[i].2@ == m[k]);
    }
    assert forall|l: NoteLoc| !in_score_runs(bars, l) implies note_at(after, l) == note_at(bars, l) by {
        if in_runs(runs, l) {
            let (i, a) = choose|i: int, a: int| 0 <= i < runs.len() && 0 <= a < runs[i].2@.len() && #[trigger] runs[i].2@[a] == l;
            assert(runs[i].2@ == m[ks[i]]);
            assert(ks.to_set().contains(ks[i]));
            assert(m[ks[i]][a] == l);
        }
    }
}

/// The run keys of the score fit in a `usize` (see
/// `consecutive_note_chunks`).
pub open spec fn runs_fit(bars: Seq<Bar>) -> bool {
    voice_key(total_parts(bars), 1) + bars_events(bars, total_parts(bars)) <= usize::MAX
}

/// The score after the lines (or the ties) of each of its runs are
/// resolved; nothing else changes.
pub open spec fn score_resolved(lines: bool, a: Seq<Bar>, b: Seq<Bar>) -> bool {
    &&& bars_shape(a, b)
    &&& forall|k: usize|
        #[trigger] score_runs(a).contains_key(k) ==> run_resolved(
            lines,
            run_notes(a, score_runs(a)[k]),
            run_notes(b, score_runs(a)[k]),
        )
    &&& forall|l: NoteLoc| !in_score_runs(a, l) ==> note_at(b, l) == note_at(a, l)
}

impl Bars {
    /// Resolves the ties of each run of consecutive sounding notes of the
    /// score (see `ties_resolved`); nothing else changes.
    pub fn resolve_ties(&mut self)
        requires
            runs_fit(old(self).items@),
        ensures
            score_resolved(false, old(self).items@, final(self).items@),
    {
        let ghost b0 = self.items@;
        let runs = self.consecutive_note_chunks();
        resolve_runs(&mut self.items, &runs, false);
        proof {
            lemma_listed_runs(b0, runs@, false, self.items@);
        }
    }

    /// Resolves the lines of each run of consecutive sounding notes of the
    /// score (see `lines_resolved`); nothing else changes.
    pub fn resolve_lines(&mut self)
        requires
            runs_fit(old(self).items@),
        ensures
            score_resolved(true, old(self).items@, final(self).items@),
    {
        let ghost b0 = self.items@;
        let runs = self.consecutive_note_chunks();
        resolve_runs(&mut self.items, &runs, true);
        proof {
            lemma_listed_runs(b0, runs@, true, self.items@);
        }
    }
}

/// Parts alike but for their notes take as many steps to walk.
proof fn lemma_parts_events_shape(x: Seq<Part>, y: Seq<Part>)
    requires
        x.len() == y.len(),
        forall|p: int| 0 <= p < x.len() ==> part_shape(#[trigger] x[p], y[p]),
    ensures
        parts_events(x) == parts_events(y),
    decreases x.len(),
{
    if x.len() > 0 {
        let n = x.len() - 1;
        assert forall|p: int| 0 <= p < n implies part_shape(#[trigger] x.drop_last()[p], y.drop_last()[p]) by {
            assert(part_shape(x[p], y[p]));
        }
        lemma_parts_events_shape(x.drop_last(), y.drop_last());
        assert(part_shape(x[n], y[n]));
    }
}

/// Scores alike but for their notes have as many parts and take as many
/// steps to walk.
pub proof fn lemma_shape_counts(a: Seq<Bar>, b: Seq<Bar>, n: int)
    requires
        bars_shape(a, b),
    ensures
        total_parts(a) == total_parts(b),
        bars_events(a, n) == bars_events(b, n),
    decreases a.len(),
{
    if a.len() > 0 {
        let m = a.len() - 1;
        assert forall|i: int| 0 <= i < m implies bar_shape(#[trigger] a.drop_last()[i], b.drop_last()[i]) by {
            assert(bar_shape(a[i], b[i]));
        }
        lemma_shape_counts(a.drop_last(), b.drop_last(), n);
        assert(bar_shape(a[m], b[m]));
        match (a[m].btype, b[m].btype) {
            (BarType::Standard(x), BarType::Standard(y)) => {
                lemma_parts_events_shape(x@, y@);
            },
            _ => {},
        }
    }
}

impl Bars {
    /// Resolves the ties and then the lines of each run of consecutive
    /// sounding notes of the score.
    pub fn resolve_stuff(&mut self)
        requires
            runs_fit(old(self).items@),
        ensures
            exists|mid: Seq<Bar>|
                #[trigger] score_resolved(false, old(self).items@, mid) && score_resolved(true, mid, final(self).items@),
    {
        let ghost b0 = self.items@;
        self.resolve_ties();
        let ghost mid = self.items@;
        proof {
            lemma_shape_counts(b0, mid, total_parts(b0));
        }
        self.resolve_lines();
        proof {
            assert(score_resolved(false, b0, mid));
        }
    }
}

} // verus!
