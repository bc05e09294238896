//! Beam groups: runs of consecutive notes of a voice that share a beam.

use vstd::prelude::*;

use crate::core_defs::{DirUD, Duration};
use crate::error::NotationError;
use crate::note::{Note, Notes, lemma_start_of_monotone, start_of};

verus! {

/// A group of consecutive notes, given by their indexes in the voice.
#[derive(Debug, PartialEq, Eq)]
pub struct Beamgroup {
    pub id: usize,
    pub notes: Vec<usize>,
    pub duration: usize,
    pub direction: Option<DirUD>,
    pub top: i8,
    pub bottom: i8,
    /// The levels where the beam starts and ends (see `beam_levels` and
    /// `within_stem`).
    pub start_level: BeamLevel,
    pub end_level: BeamLevel,
    pub note_durations: Vec<Duration>,
}

/// Where a beam's end lies: on a staff level, or held a stem's length
/// from the middle line, below it (`StemLength`) or above it
/// (`MinusStemLength`). A stem is seven steps and a bit long, so a whole
/// level lies beyond it from eight steps on.
#[derive(Debug, PartialEq, Eq, Clone, Copy, Structural)]
pub enum BeamLevel {
    Level(i16),
    StemLength,
    MinusStemLength,
}

/// A beam level kept within a stem's length of the middle line on the
/// side its stems point to: a level eight or more steps below it, for
/// stems up, or above it, for stems down, is held at the stem's length.
pub open spec fn within_stem(dir: DirUD, x: int) -> BeamLevel {
    match dir {
        DirUD::Up => if x > 7 { BeamLevel::StemLength } else { BeamLevel::Level(x as i16) },
        DirUD::Down => if x < -7 { BeamLevel::MinusStemLength } else { BeamLevel::Level(x as i16) },
    }
}

/// Keeps a beam level within a stem's length (see `within_stem`).
pub fn keep_within_stem(dir: DirUD, x: i16) -> (r: BeamLevel)
    ensures
        r == within_stem(dir, x as int),
{
    match dir {
        DirUD::Up => if x > 7 { BeamLevel::StemLength } else { BeamLevel::Level(x) },
        DirUD::Down => if x < -7 { BeamLevel::MinusStemLength } else { BeamLevel::Level(x) },
    }
}

/// The durations of the notes at the indexes.
pub open spec fn durations_at(notes: Seq<Note>, idx: Seq<usize>) -> Seq<usize> {
    idx.map_values(|i: usize| notes[i as int].duration)
}

/// The sum of the durations of the notes at the indexes.
pub open spec fn sum_durations(notes: Seq<Note>, idx: Seq<usize>) -> int
    decreases idx.len(),
{
    if idx.len() == 0 {
        0
    } else {
        sum_durations(notes, idx.drop_last()) + notes[idx.last() as int].duration
    }
}

/// The smallest top level of the notes at the indexes.
pub open spec fn min_top(notes: Seq<Note>, idx: Seq<usize>) -> i8
    decreases idx.len(),
{
    if idx.len() <= 1 {
        notes[idx[0] as int].spec_top_level()
    } else {
        let m = min_top(notes, idx.drop_last());
        let t = notes[idx.last() as int].spec_top_level();
        if t < m { t } else { m }
    }
}

/// The largest bottom level of the notes at the indexes.
pub open spec fn max_bottom(notes: Seq<Note>, idx: Seq<usize>) -> i8
    decreases idx.len(),
{
    if idx.len() <= 1 {
        notes[idx[0] as int].spec_bottom_level()
    } else {
        let m = max_bottom(notes, idx.drop_last());
        let b = notes[idx.last() as int].spec_bottom_level();
        if b > m { b } else { m }
    }
}

/// A beam group made by `Beamgroup::new` from these notes and indexes.
pub open spec fn group_of(bg: Beamgroup, notes: Seq<Note>, idx: Seq<usize>, id: usize) -> bool {
    &&& bg.id == id
    &&& bg.notes@ == idx
    &&& bg.duration == sum_durations(notes, idx)
    &&& bg.direction is None
    &&& bg.top == min_top(notes, idx)
    &&& bg.bottom == max_bottom(notes, idx)
    &&& bg.start_level == BeamLevel::Level(0)
    &&& bg.end_level == BeamLevel::Level(0)
    &&& bg.note_durations@ == durations_at(notes, idx)
}

impl Beamgroup {
    /// A beam group of the notes at the indexes: its duration is their sum,
    /// `top` the smallest top level and `bottom` the largest bottom level.
    pub fn new(notes: &Notes, idx: Vec<usize>, id: usize) -> (r: Self)
        requires
            idx@.len() > 0,
            forall|j: int| 0 <= j < idx@.len() ==> #[trigger] idx@[j] < notes.items@.len(),
            sum_durations(notes.items@, idx@) <= usize::MAX,
        ensures
            group_of(r, notes.items@, idx@, id),
    {
        let items = &notes.items;
        let mut duration: usize = 0;
        let mut note_durations: Vec<Duration> = Vec::new();
        let mut top: i8 = items[idx[0]].top_level();
        let mut bottom: i8 = items[idx[0]].bottom_level();
        let mut j: usize = 0;
        while j < idx.len()
            invariant
                j <= idx@.len(),
                idx@.len() > 0,
                forall|k: int| 0 <= k < idx@.len() ==> #[trigger] idx@[k] < items@.len(),
                sum_durations(items@, idx@) <= usize::MAX,
                duration == sum_durations(items@, idx@.take(j as int)),
                note_durations@ == durations_at(items@, idx@.take(j as int)),
                j > 0 ==> top == min_top(items@, idx@.take(j as int)),
                j > 0 ==> bottom == max_bottom(items@, idx@.take(j as int)),
                j == 0 ==> top == items@[idx@[0] as int].spec_top_level(),
                j == 0 ==> bottom == items@[idx@[0] as int].spec_bottom_level(),
            decreases idx.len() - j,
        {
            let note = &items[idx[j]];
            let ghost pre = idx@.take(j as int);
            assert(idx@.take(j + 1).drop_last() =~= pre);
            assert(idx@.take(j + 1).last() == idx@[j as int]);
            proof {
                lemma_sum_prefix(items@, idx@, j + 1);
            }
            duration = duration + note.duration;
            note_durations.push(note.duration);
            assert(note_durations@ =~= durations_at(items@, idx@.take(j + 1)));
            if j > 0 {
                let t = note.top_level();
                if t < top {
                    top = t;
                }
                let b = note.bottom_level();
                if b > bottom {
                    bottom = b;
                }
            } else {
                assert(idx@.take(1) =~= seq![idx@[0]]);
            }
            j = j + 1;
        }
        assert(idx@.take(idx@.len() as int) =~= idx@);
        Self { id, notes: idx, duration, direction: None, top, bottom, start_level: BeamLevel::Level(0), end_level: BeamLevel::Level(0), note_durations }
    }

    /// A group of notes lying mainly below the middle line takes its stems
    /// up, else down.
    pub fn calc_direction(&self) -> (r: DirUD)
        ensures
            r == (if self.bottom + self.top <= 0 { DirUD::Down } else { DirUD::Up }),
    {
        let balance: i16 = self.bottom as i16 + self.top as i16;
        if balance <= 0 {
            DirUD::Down
        } else {
            DirUD::Up
        }
    }

    pub fn is_single_note(&self) -> (r: bool)
        ensures
            r == (self.notes@.len() == 1),
    {
        self.notes.len() == 1
    }
}

/// A prefix's sum is no larger than the whole sum.
pub proof fn lemma_sum_prefix(notes: Seq<Note>, idx: Seq<usize>, k: int)
    requires
        0 <= k <= idx.len(),
    ensures
        sum_durations(notes, idx.take(k)) <= sum_durations(notes, idx),
    decreases idx.len() - k,
{
    if k < idx.len() {
        lemma_sum_prefix(notes, idx, k + 1);
        assert(idx.take(k + 1).drop_last() =~= idx.take(k));
    } else {
        assert(idx.take(k) =~= idx);
    }
}

pub type Beamgroups = Vec<Beamgroup>;

#[derive(Debug, Clone, PartialEq, Eq)]
pub enum BeamingPattern {
    NoBeams,
    NValues(Vec<usize>),
}

/// The notes of the groups, each a run of consecutive indexes.
pub open spec fn group_notes(gs: Seq<Beamgroup>) -> Seq<Seq<usize>> {
    gs.map_values(|g: Beamgroup| g.notes@)
}

/// `s` holds the indexes `start`, `start + 1`, ... in order.
pub open spec fn is_run(s: Seq<usize>, start: int) -> bool {
    forall|j: int| 0 <= j < s.len() ==> #[trigger] s[j] == start + j
}

/// The groups split the indexes `0..n` into consecutive non-empty runs,
/// and notes `i` and `i + 1` share a run exactly when `link(i)`.
pub open spec fn split_into_runs(groups: Seq<Seq<usize>>, n: int, link: spec_fn(int) -> bool) -> bool {
    &&& n > 0 ==> groups.len() > 0
    &&& n == 0 ==> groups.len() == 0
    &&& forall|g: int| 0 <= g < groups.len() ==> #[trigger] groups[g].len() > 0 && is_run(groups[g], groups[g][0] as int)
    &&& groups.len() > 0 ==> groups[0][0] == 0
    &&& forall|g: int|
        0 <= g < groups.len() - 1 ==> #[trigger] groups[g + 1][0] == groups[g][0] + groups[g].len()
    &&& groups.len() > 0 ==> groups.last()[0] + groups.last().len() == n
    &&& forall|g: int, j: int|
        0 <= g < groups.len() && 0 <= j < groups[g].len() - 1 ==> link(#[trigger] groups[g][j] as int)
    &&& forall|g: int| 0 < g < groups.len() ==> !link(#[trigger] groups[g][0] - 1)
}

/// Every group is the beam group of its notes, numbered in order.
pub open spec fn groups_made(gs: Seq<Beamgroup>, notes: Seq<Note>) -> bool {
    forall|g: int| 0 <= g < gs.len() ==> group_of(#[trigger] gs[g], notes, gs[g].notes@, g as usize)
}

/// Each note in a group of its own.
pub fn get_beamgroups_nobeams(notes: &Notes) -> (r: Result<Vec<Beamgroup>, NotationError>)
    requires
        notes.wf(),
    ensures
        r matches Ok(gs) && split_into_runs(group_notes(gs@), notes.items@.len() as int, |i: int| false)
            && groups_made(gs@, notes.items@),
{
    let mut result: Vec<Beamgroup> = Vec::new();
    let n = notes.items.len();
    let mut i: usize = 0;
    while i < n
        invariant
            n == notes.items@.len(),
            i <= n,
            result@.len() == i,
            forall|g: int| 0 <= g < i ==> #[trigger] result@[g].notes@ == seq![g as usize],
            groups_made(result@, notes.items@),
        decreases n - i,
    {
        let idx: Vec<usize> = vec![i];
        proof {
            assert(idx@ =~= seq![i]);
            assert(seq![i].drop_last() =~= Seq::<usize>::empty());
            assert(sum_durations(notes.items@, idx@) == notes.items@[i as int].duration) by {
                reveal_with_fuel(sum_durations, 2);
            }
        }
        let bg = Beamgroup::new(notes, idx, i);
        result.push(bg);
        i = i + 1;
    }
    proof {
        let gs = group_notes(result@);
        assert forall|g: int| 0 <= g < gs.len() implies #[trigger] gs[g].len() > 0 && is_run(gs[g], gs[g][0] as int) by {
            assert(gs[g] == seq![g as usize]);
        }
        assert forall|g: int| 0 <= g < gs.len() - 1 implies #[trigger] gs[g + 1][0] == gs[g][0] + gs[g].len() by {
            assert(gs[g] == seq![g as usize]);
            assert(gs[g + 1] == seq![(g + 1) as usize]);
        }
        if gs.len() > 0 {
            assert(gs.last() == seq![(n - 1) as usize]);
            assert(gs[0] == seq![0usize]);
        }
        assert forall|g: int, j: int| 0 <= g < gs.len() && 0 <= j < gs[g].len() - 1 implies (|i: int| false)(#[trigger] gs[g][j] as int) by {
            assert(gs[g] == seq![g as usize]);
        }
    }
    Ok(result)
}

/// Where cycle `k` of the beaming values begins: the sum of the first `k`
/// values, the list taken round and round.
pub open spec fn cycle_start(values: Seq<usize>, k: nat) -> int
    decreases k,
{
    if k == 0 {
        0
    } else {
        cycle_start(values, (k - 1) as nat) + values[(k - 1) as int % values.len() as int]
    }
}

/// Note `i` can share a beam: it takes one, and it ends no later than the
/// cycle in which it starts.
pub open spec fn joinable(notes: Seq<Note>, values: Seq<usize>, i: int) -> bool {
    &&& notes[i].spec_is_beamable()
    &&& exists|k: nat|
        #[trigger] cycle_start(values, k) <= notes[i].position < cycle_start(values, k + 1)
            && notes[i].end_position <= cycle_start(values, k + 1)
}

/// Notes `i` and `i + 1` share a beam: both can, and note `i` ends before
/// the end of its cycle.
pub open spec fn linked(notes: Seq<Note>, values: Seq<usize>, i: int) -> bool {
    &&& joinable(notes, values, i)
    &&& joinable(notes, values, i + 1)
    &&& exists|k: nat|
        #[trigger] cycle_start(values, k) <= notes[i].position && notes[i].end_position < cycle_start(
            values,
            k + 1,
        )
}

/// `linked` as a relation on note indexes.
pub open spec fn beam_link(notes: Seq<Note>, values: Seq<usize>) -> spec_fn(int) -> bool {
    |i: int| linked(notes, values, i)
}

/// The cycles start in order.
pub proof fn lemma_cycle_start_monotone(values: Seq<usize>, a: nat, b: nat)
    requires
        values.len() > 0,
        a <= b,
    ensures
        cycle_start(values, a) <= cycle_start(values, b),
    decreases b,
{
    if a < b {
        lemma_cycle_start_monotone(values, a, (b - 1) as nat);
    }
}

/// The position `pos` in cycle `k` lies in no other cycle, and no later
/// cycle ends at or before it.
proof fn lemma_cycle_unique(values: Seq<usize>, k: nat, pos: int)
    requires
        values.len() > 0,
        cycle_start(values, k) <= pos < cycle_start(values, k + 1),
    ensures
        forall|j: nat|
            #[trigger] cycle_start(values, j) <= pos ==> j <= k && cycle_start(values, j + 1) <= cycle_start(values, k + 1),
{
    assert forall|j: nat| #[trigger] cycle_start(values, j) <= pos implies j <= k && cycle_start(values, j + 1) <= cycle_start(values, k + 1) by {
        if j > k {
            lemma_cycle_start_monotone(values, k + 1, j);
        }
        lemma_cycle_start_monotone(values, j + 1, k + 1);
    }
}

/// The next value index goes round the list.
proof fn lemma_next_index(k: nat, v: int, len: int)
    requires
        len > 0,
        0 <= v < len,
        k as int % len == v,
    ensures
        (k + 1) as int % len == (if v + 1 < len { v + 1 } else { 0 }),
{
    vstd::arithmetic::div_mod::lemma_add_mod_noop(k as int, 1, len);
    if len == 1 {
        vstd::arithmetic::div_mod::lemma_mod_self_0(1);
        assert((k + 1) % 1 == 0) by (nonlinear_arith);
    } else {
        vstd::arithmetic::div_mod::lemma_small_mod(1, len as nat);
        if v + 1 < len {
            vstd::arithmetic::div_mod::lemma_small_mod((v + 1) as nat, len as nat);
        } else {
            vstd::arithmetic::div_mod::lemma_mod_self_0(len);
        }
    }
}

/// The durations of a run of notes add up to the span it covers.
pub proof fn lemma_sum_run(notes: Seq<Note>, idx: Seq<usize>, s: int)
    requires
        0 <= s,
        s + idx.len() <= notes.len(),
        is_run(idx, s),
    ensures
        sum_durations(notes, idx) == start_of(notes, s + idx.len()) - start_of(notes, s),
    decreases idx.len(),
{
    if idx.len() > 0 {
        lemma_sum_run(notes, idx.drop_last(), s);
    }
}

/// The groups so far and the open run split `0..i` as `split_into_runs`
/// asks, with the open run last and not yet closed.
spec fn runs_so_far(groups: Seq<Seq<usize>>, open: Seq<usize>, i: int, link: spec_fn(int) -> bool) -> bool {
    let done = if groups.len() > 0 { groups.last()[0] + groups.last().len() } else { 0 };
    &&& forall|g: int| 0 <= g < groups.len() ==> #[trigger] groups[g].len() > 0 && is_run(groups[g], groups[g][0] as int)
    &&& groups.len() > 0 ==> groups[0][0] == 0
    &&& forall|g: int|
        0 <= g < groups.len() - 1 ==> #[trigger] groups[g + 1][0] == groups[g][0] + groups[g].len()
    &&& is_run(open, done)
    &&& done + open.len() == i
    &&& forall|g: int, j: int|
        0 <= g < groups.len() && 0 <= j < groups[g].len() - 1 ==> link(#[trigger] groups[g][j] as int)
    &&& forall|g: int| 0 < g < groups.len() ==> !link(#[trigger] groups[g][0] - 1)
    &&& forall|j: int| 0 <= j < open.len() - 1 ==> link(#[trigger] open[j] as int)
    &&& open.len() > 0 && done > 0 ==> !link(done - 1)
}

proof fn lemma_runs_push(groups: Seq<Seq<usize>>, open: Seq<usize>, i: int, link: spec_fn(int) -> bool)
    requires
        runs_so_far(groups, open, i, link),
        0 <= i < usize::MAX,
        open.len() > 0 ==> link(i - 1),
        open.len() == 0 && i > 0 ==> !link(i - 1),
    ensures
        runs_so_far(groups, open.push(i as usize), i + 1, link),
{
    let o2 = open.push(i as usize);
    assert forall|j: int| 0 <= j < o2.len() - 1 implies link(#[trigger] o2[j] as int) by {
        if j < open.len() - 1 {
            assert(o2[j] == open[j]);
        }
    }
}

proof fn lemma_runs_close(groups: Seq<Seq<usize>>, open: Seq<usize>, i: int, link: spec_fn(int) -> bool)
    requires
        runs_so_far(groups, open, i, link),
        open.len() > 0,
    ensures
        runs_so_far(groups.push(open), Seq::empty(), i, link),
{
    let g2 = groups.push(open);
    assert forall|g: int| 0 <= g < g2.len() implies #[trigger] g2[g].len() > 0 && is_run(g2[g], g2[g][0] as int) by {
        if g < groups.len() {
            assert(g2[g] == groups[g]);
        }
    }
    assert forall|g: int| 0 <= g < g2.len() - 1 implies #[trigger] g2[g + 1][0] == g2[g][0] + g2[g].len() by {
        if g + 1 < groups.len() {
            assert(g2[g] == groups[g]);
            assert(g2[g + 1] == groups[g + 1]);
        }
    }
    assert forall|g: int, j: int| 0 <= g < g2.len() && 0 <= j < g2[g].len() - 1 implies link(#[trigger] g2[g][j] as int) by {
        if g < groups.len() {
            assert(g2[g] == groups[g]);
        }
    }
    assert forall|g: int| 0 < g < g2.len() implies !link(#[trigger] g2[g][0] - 1) by {
        if g < groups.len() {
            assert(g2[g] == groups[g]);
        }
    }
    assert(is_run(Seq::<usize>::empty(), i));
}

proof fn lemma_runs_done(groups: Seq<Seq<usize>>, n: int, link: spec_fn(int) -> bool)
    requires
        runs_so_far(groups, Seq::empty(), n, link),
    ensures
        split_into_runs(groups, n, link),
{
}

/// Groups by the beaming values: the values, repeated, cut the voice into
/// cycles; consecutive notes that can take a beam and end within the cycle
/// in which they start share a group, closed where a note ends at the end
/// of its cycle; every other note stands in a group of its own.
#[verifier::rlimit(40)]
pub fn get_beamgroups_nvalues(notes: &Notes, values: &[usize]) -> (r: Result<Vec<Beamgroup>, NotationError>)
    requires
        notes.wf(),
        values@.len() > 0,
        forall|j: int| 0 <= j < values@.len() ==> 0 < #[trigger] values@[j] <= usize::MAX - notes.duration,
    ensures
        r matches Ok(gs) && split_into_runs(
            group_notes(gs@),
            notes.items@.len() as int,
            beam_link(notes.items@, values@),
        ) && groups_made(gs@, notes.items@),
{
    let ghost link = beam_link(notes.items@, values@);
    let items = &notes.items;
    let n = items.len();
    let len = values.len();
    let mut result: Vec<Beamgroup> = Vec::new();
    let mut group: Vec<usize> = Vec::new();
    let mut cstart: usize = 0;
    let mut cend: usize = values[0];
    let mut vidx: usize = 0;
    let ghost mut k: nat = 0;
    let mut i: usize = 0;
    proof {
        assert(cycle_start(values@, 1) == values@[0]) by {
            reveal_with_fuel(cycle_start, 2);
        }
        assert(is_run(Seq::<usize>::empty(), 0));
    }
    while i < n
        invariant
            n == items@.len(),
            items == notes.items,
            len == values@.len(),
            len > 0,
            notes.wf(),
            forall|j: int| 0 <= j < values@.len() ==> 0 < #[trigger] values@[j] <= usize::MAX - notes.duration,
            link == beam_link(items@, values@),
            i <= n,
            vidx < len,
            k as int % len as int == vidx,
            cstart == cycle_start(values@, k),
            cend == cycle_start(values@, k + 1),
            cstart <= notes.duration,
            i < n ==> cstart <= items@[i as int].position,
            runs_so_far(group_notes(result@), group@, i as int, link),
            groups_made(result@, items@),
            group@.len() > 0 ==> joinable(items@, values@, i - 1) && exists|c: nat|
                #[trigger] cycle_start(values@, c) <= items@[i - 1].position
                    && items@[i - 1].end_position < cycle_start(values@, c + 1),
            group@.len() == 0 && 0 < i < n ==> !linked(items@, values@, i - 1),
            i == n ==> group@.len() == 0,
        decreases n - i,
    {
        let ghost before = result@;
        proof {
            lemma_start_of_monotone(items@, i as int, n as int);
            lemma_start_of_monotone(items@, i + 1, n as int);
        }
        let pos = items[i].position;
        while pos >= cend
            invariant
                len == values@.len(),
                len > 0,
                forall|j: int| 0 <= j < values@.len() ==> 0 < #[trigger] values@[j] <= usize::MAX - notes.duration,
                vidx < len,
                k as int % len as int == vidx,
                cstart == cycle_start(values@, k),
                cend == cycle_start(values@, k + 1),
                cstart <= pos,
                pos <= notes.duration,
            decreases pos - cstart,
        {
            proof {
                lemma_next_index(k, vidx as int, len as int);
            }
            vidx = if vidx + 1 < len { vidx + 1 } else { 0 };
            cstart = cend;
            cend = cend + values[vidx];
            proof {
                k = k + 1;
            }
        }
        let ghost kk = k;
        proof {
            lemma_cycle_unique(values@, k, pos as int);
        }
        let note = &items[i];
        let fits = note.end_position <= cend && note.is_beamable();
        assert(fits == joinable(items@, values@, i as int));
        if fits {
            proof {
                if group@.len() > 0 {
                    assert(linked(items@, values@, i - 1));
                }
                lemma_runs_push(group_notes(result@), group@, i as int, link);
            }
            group.push(i);
            if note.end_position == cend {
                proof {
                    lemma_sum_run(items@, group@, group@[0] as int);
                    lemma_start_of_monotone(items@, group@[0] as int + group@.len(), n as int);
                    lemma_runs_close(group_notes(result@), group@, i + 1, link);
                }
                let id = result.len();
                let bg = Beamgroup::new(notes, group, id);
                result.push(bg);
                group = Vec::new();
                proof {
                    assert(group_notes(result@) =~= group_notes(before).push(bg.notes@));
                    if i + 1 < n {
                        assert(!linked(items@, values@, i as int));
                    }
                }
            } else {
                proof {
                    assert(items@[i as int].end_position < cycle_start(values@, kk + 1));
                }
            }
        } else {
            if group.len() > 0 {
                proof {
                    lemma_sum_run(items@, group@, group@[0] as int);
                    lemma_start_of_monotone(items@, group@[0] as int + group@.len(), n as int);
                    lemma_runs_close(group_notes(result@), group@, i as int, link);
                }
                let id = result.len();
                let bg = Beamgroup::new(notes, group, id);
                result.push(bg);
                group = Vec::new();
                proof {
                    assert(group_notes(result@) =~= group_notes(before).push(bg.notes@));
                }
            }
            let ghost mid = result@;
            proof {
                lemma_runs_push(group_notes(result@), group@, i as int, link);
            }
            group.push(i);
            proof {
                lemma_sum_run(items@, group@, i as int);
                lemma_start_of_monotone(items@, i + 1, n as int);
                lemma_runs_close(group_notes(result@), group@, i + 1, link);
            }
            let id = result.len();
            let bg = Beamgroup::new(notes, group, id);
            result.push(bg);
            group = Vec::new();
            proof {
                assert(group_notes(result@) =~= group_notes(mid).push(bg.notes@));
            }
        }
        if i == n - 1 && group.len() > 0 {
            let ghost last = result@;
            proof {
                lemma_sum_run(items@, group@, group@[0] as int);
                lemma_start_of_monotone(items@, group@[0] as int + group@.len(), n as int);
                lemma_runs_close(group_notes(result@), group@, i + 1, link);
            }
            let id = result.len();
            let bg = Beamgroup::new(notes, group, id);
            result.push(bg);
            group = Vec::new();
            proof {
                assert(group_notes(result@) =~= group_notes(last).push(bg.notes@));
            }
        }
        i = i + 1;
    }
    proof {
        assert(group@ =~= Seq::<usize>::empty());
        lemma_runs_done(group_notes(result@), n as int, link);
    }
    Ok(result)
}

/// Which neighbouring notes the pattern beams together.
pub open spec fn pattern_link(notes: Seq<Note>, pattern: BeamingPattern) -> spec_fn(int) -> bool {
    match pattern {
        BeamingPattern::NoBeams => |i: int| false,
        BeamingPattern::NValues(values) => beam_link(notes, values@),
    }
}

/// The values of a pattern fit the notes: there is at least one, and each
/// is positive and can be added to any position in the voice.
pub open spec fn values_fit(values: Seq<usize>, duration: usize) -> bool {
    &&& values.len() > 0
    &&& forall|j: int| 0 <= j < values.len() ==> 0 < #[trigger] values[j] <= usize::MAX - duration
}

/// The beam groups of the notes by the pattern; an error where there are
/// no notes.
pub fn get_beamgroups(notes: &Notes, pattern: &BeamingPattern) -> (r: Result<Vec<Beamgroup>, NotationError>)
    requires
        notes.wf(),
        notes.items@.len() >= 2 ==> (pattern matches BeamingPattern::NValues(values) ==> values_fit(
            values@,
            notes.duration,
        )),
    ensures
        notes.items@.len() == 0 ==> (r matches Err(NotationError::Generic(m)) && m@ == "notes is empty"@),
        notes.items@.len() > 0 ==> (r matches Ok(gs) && split_into_runs(
            group_notes(gs@),
            notes.items@.len() as int,
            pattern_link(notes.items@, *pattern),
        ) && groups_made(gs@, notes.items@)),
{
    if notes.items.len() == 0 {
        return Err(NotationError::Generic("notes is empty".to_string()));
    }
    if notes.items.len() == 1 {
        let idx: Vec<usize> = vec![0];
        proof {
            assert(idx@ =~= seq![0usize]);
            assert(sum_durations(notes.items@, idx@) == notes.items@[0].duration) by {
                reveal_with_fuel(sum_durations, 2);
            }
        }
        let bg = Beamgroup::new(notes, idx, 0);
        let result: Vec<Beamgroup> = vec![bg];
        proof {
            let gs = group_notes(result@);
            assert(gs[0] == seq![0usize]);
            assert(groups_made(result@, notes.items@));
        }
        return Ok(result);
    }
    match pattern {
        BeamingPattern::NoBeams => get_beamgroups_nobeams(notes),
        BeamingPattern::NValues(values) => get_beamgroups_nvalues(notes, values.as_slice()),
    }
}

/// The smallest top level among the (top, bottom) levels.
pub open spec fn tops_min(ls: Seq<(i8, i8)>) -> i8
    decreases ls.len(),
{
    if ls.len() <= 1 {
        ls[0].0
    } else {
        let m = tops_min(ls.drop_last());
        if ls.last().0 < m { ls.last().0 } else { m }
    }
}

/// The largest bottom level among the (top, bottom) levels.
pub open spec fn bottoms_max(ls: Seq<(i8, i8)>) -> i8
    decreases ls.len(),
{
    if ls.len() <= 1 {
        ls[0].1
    } else {
        let m = bottoms_max(ls.drop_last());
        if ls.last().1 > m { ls.last().1 } else { m }
    }
}

pub open spec fn min_i(a: int, b: int) -> int {
    if a < b { a } else { b }
}

pub open spec fn max_i(a: int, b: int) -> int {
    if a > b { a } else { b }
}

/// Where a beam over notes of the (top, bottom) levels starts and ends,
/// for stems up (on the tops) or down (on the bottoms). One note gives its
/// level and 0. Two notes give the levels of both. Between more, the beam
/// follows the first and last notes, but lies flat where the notes between
/// reach as far as the nearer end, and never lies beyond the notes between.
pub open spec fn tilt(dir: DirUD, ls: Seq<(i8, i8)>) -> (int, int) {
    let n = ls.len();
    let f = ls[0];
    let l = ls[n - 1];
    if n == 1 {
        match dir {
            DirUD::Up => (f.0 as int, 0),
            DirUD::Down => (f.1 as int, 0),
        }
    } else if n == 2 {
        match dir {
            DirUD::Up => (f.0 as int, l.0 as int),
            DirUD::Down => (f.1 as int, l.1 as int),
        }
    } else {
        let mid = ls.subrange(1, n - 1);
        match dir {
            DirUD::Up => {
                let (ft, lt, mt) = (f.0 as int, l.0 as int, tops_min(mid) as int);
                if ft < lt {
                    if mt <= ft { (mt, mt) } else { (ft, min_i(mt, lt)) }
                } else if ft == lt {
                    (min_i(ft, mt), min_i(ft, mt))
                } else {
                    if mt <= lt { (mt, mt) } else { (min_i(ft, mt), lt) }
                }
            },
            DirUD::Down => {
                let (fb, lb, mb) = (f.1 as int, l.1 as int, bottoms_max(mid) as int);
                if fb < lb {
                    if mb >= lb { (mb, mb) } else { (max_i(fb, mb), lb) }
                } else if fb == lb {
                    (max_i(fb, mb), max_i(fb, mb))
                } else {
                    if mb >= fb { (mb, mb) } else { (fb, max_i(mb, lb)) }
                }
            },
        }
    }
}

/// The beam levels of `tilt`, made no steeper than two steps: of two or
/// more notes, the end further from the stem's tip is brought to two
/// steps from the other.
pub open spec fn beam_levels_spec(dir: DirUD, ls: Seq<(i8, i8)>) -> (int, int) {
    let (a, b) = tilt(dir, ls);
    if ls.len() == 1 {
        (a, b)
    } else {
        match dir {
            DirUD::Up => if b - a <= -2 { (b + 2, b) } else if b - a >= 2 { (a, a + 2) } else { (a, b) },
            DirUD::Down => if b - a <= -2 { (a, a - 2) } else if b - a >= 2 { (b - 2, b) } else { (a, b) },
        }
    }
}

/// The smallest top is no larger than any top, and the largest bottom no
/// smaller than any bottom.
proof fn lemma_tops_bottoms_bound(ls: Seq<(i8, i8)>, k: int)
    requires
        0 <= k < ls.len(),
    ensures
        tops_min(ls) <= ls[k].0,
        bottoms_max(ls) >= ls[k].1,
    decreases ls.len(),
{
    if ls.len() > 1 && k < ls.len() - 1 {
        lemma_tops_bottoms_bound(ls.drop_last(), k);
    }
}

/// The smallest top and the largest bottom are those of some note.
proof fn lemma_tops_bottoms_attained(ls: Seq<(i8, i8)>)
    requires
        ls.len() > 0,
    ensures
        exists|k: int| 0 <= k < ls.len() && tops_min(ls) == (#[trigger] ls[k]).0,
        exists|k: int| 0 <= k < ls.len() && bottoms_max(ls) == (#[trigger] ls[k]).1,
    decreases ls.len(),
{
    if ls.len() == 1 {
        assert(tops_min(ls) == ls[0].0);
        assert(bottoms_max(ls) == ls[0].1);
    } else {
        let init = ls.drop_last();
        lemma_tops_bottoms_attained(init);
        let a = choose|k: int| 0 <= k < init.len() && tops_min(init) == (#[trigger] init[k]).0;
        let b = choose|k: int| 0 <= k < init.len() && bottoms_max(init) == (#[trigger] init[k]).1;
        assert(ls[a] == init[a]);
        assert(ls[b] == init[b]);
        assert(ls[ls.len() - 1] == ls.last());
    }
}

/// A beam over two notes or more never crosses a note's head: with stems
/// down (beam below, on the bottom levels) both its ends lie at or below
/// the bottom of every note between the first and last, its start at or
/// below the first note's bottom and its end at or below the last note's;
/// with stems up the same holds above the tops. It rises or falls at most
/// two steps from end to end, and one of its ends lies on the bottom (stems
/// down) or top (stems up) of one of the notes: it hangs no further from
/// the notes than it must.
pub proof fn lemma_beam_clears_notes(dir: DirUD, ls: Seq<(i8, i8)>)
    requires
        ls.len() >= 2,
    ensures
        ({
            let (a, b) = beam_levels_spec(dir, ls);
            let n = ls.len() as int;
            &&& -2 <= b - a <= 2
            &&& dir == DirUD::Down ==> a >= ls[0].1 && b >= ls[n - 1].1 && forall|k: int|
                0 < k < n - 1 ==> a >= (#[trigger] ls[k]).1 && b >= ls[k].1
            &&& dir == DirUD::Up ==> a <= ls[0].0 && b <= ls[n - 1].0 && forall|k: int|
                0 < k < n - 1 ==> a <= (#[trigger] ls[k]).0 && b <= ls[k].0
            &&& dir == DirUD::Down ==> exists|k: int| 0 <= k < n && (a == (#[trigger] ls[k]).1 || b == ls[k].1)
            &&& dir == DirUD::Up ==> exists|k: int| 0 <= k < n && (a == (#[trigger] ls[k]).0 || b == ls[k].0)
        }),
{
    let n = ls.len() as int;
    if n > 2 {
        let mid = ls.subrange(1, n - 1);
        assert forall|k: int| 0 < k < n - 1 implies tops_min(mid) <= (#[trigger] ls[k]).0 && bottoms_max(mid)
            >= ls[k].1 by {
            lemma_tops_bottoms_bound(mid, k - 1);
            assert(mid[k - 1] == ls[k]);
        }
        lemma_tops_bottoms_attained(mid);
        let t = choose|k: int| 0 <= k < mid.len() && tops_min(mid) == (#[trigger] mid[k]).0;
        let b = choose|k: int| 0 <= k < mid.len() && bottoms_max(mid) == (#[trigger] mid[k]).1;
        assert(mid[t] == ls[t + 1]);
        assert(mid[b] == ls[b + 1]);
    }
    assert(ls[0] == ls[0]);
    assert(ls[n - 1] == ls[n - 1]);
}

/// The pairs from `a` up to `b`.
fn slice_pairs(ls: &Vec<(i8, i8)>, a: usize, b: usize) -> (r: Vec<(i8, i8)>)
    requires
        a <= b <= ls@.len(),
    ensures
        r@ == ls@.subrange(a as int, b as int),
{
    let mut r: Vec<(i8, i8)> = Vec::new();
    let mut i = a;
    while i < b
        invariant
            a <= i <= b,
            b <= ls@.len(),
            r@ == ls@.subrange(a as int, i as int),
        decreases b - i,
    {
        r.push(ls[i]);
        assert(ls@.subrange(a as int, i + 1) =~= ls@.subrange(a as int, i as int).push(ls@[i as int]));
        i = i + 1;
    }
    r
}

/// The smallest top and largest bottom among the levels.
fn tops_bottoms(ls: &[(i8, i8)]) -> (r: (i8, i8))
    requires
        ls@.len() > 0,
    ensures
        r.0 == tops_min(ls@),
        r.1 == bottoms_max(ls@),
{
    let mut t = ls[0].0;
    let mut b = ls[0].1;
    let mut i: usize = 1;
    assert(ls@.take(1) =~= seq![ls@[0]]);
    while i < ls.len()
        invariant
            1 <= i <= ls@.len(),
            t == tops_min(ls@.take(i as int)),
            b == bottoms_max(ls@.take(i as int)),
        decreases ls@.len() - i,
    {
        assert(ls@.take(i + 1).drop_last() =~= ls@.take(i as int));
        if ls[i].0 < t {
            t = ls[i].0;
        }
        if ls[i].1 > b {
            b = ls[i].1;
        }
        i = i + 1;
    }
    assert(ls@.take(ls@.len() as int) =~= ls@);
    (t, b)
}

/// Where a beam over notes of the (top, bottom) levels starts and ends
/// (see `beam_levels_spec`).
pub fn beam_levels(dir: DirUD, ls: &Vec<(i8, i8)>) -> (r: (i16, i16))
    requires
        ls@.len() > 0,
    ensures
        (r.0 as int, r.1 as int) == beam_levels_spec(dir, ls@),
{
    let n = ls.len();
    let f = ls[0];
    let l = ls[n - 1];
    if n == 1 {
        return match dir {
            DirUD::Up => (f.0 as i16, 0),
            DirUD::Down => (f.1 as i16, 0),
        };
    }
    let (a, b): (i16, i16) = if n == 2 {
        match dir {
            DirUD::Up => (f.0 as i16, l.0 as i16),
            DirUD::Down => (f.1 as i16, l.1 as i16),
        }
    } else {
        let mid = slice_pairs(ls, 1, n - 1);
        let (mt, mb) = tops_bottoms(mid.as_slice());
        match dir {
            DirUD::Up => {
                let (ft, lt, m) = (f.0 as i16, l.0 as i16, mt as i16);
                if ft < lt {
                    if m <= ft { (m, m) } else { (ft, if m < lt { m } else { lt }) }
                } else if ft == lt {
                    let v = if ft < m { ft } else { m };
                    (v, v)
                } else {
                    if m <= lt { (m, m) } else { (if ft < m { ft } else { m }, lt) }
                }
            },
            DirUD::Down => {
                let (fb, lb, m) = (f.1 as i16, l.1 as i16, mb as i16);
                if fb < lb {
                    if m >= lb { (m, m) } else { (if fb > m { fb } else { m }, lb) }
                } else if fb == lb {
                    let v = if fb > m { fb } else { m };
                    (v, v)
                } else {
                    if m >= fb { (m, m) } else { (fb, if m > lb { m } else { lb }) }
                }
            },
        }
    };
    match dir {
        DirUD::Up => if b - a <= -2 { (b + 2, b) } else if b - a >= 2 { (a, a + 2) } else { (a, b) },
        DirUD::Down => if b - a <= -2 { (a, a - 2) } else if b - a >= 2 { (b - 2, b) } else { (a, b) },
    }
}

} // verus!
