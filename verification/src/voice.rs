//! Voices: a line of notes in a bar, or a pause over the whole bar.

use vstd::prelude::*;

use crate::beamgroup::{
    get_beamgroups, group_notes, groups_made, is_run, pattern_link, split_into_runs, values_fit,
    Beamgroup, BeamingPattern,
};
use crate::core_defs::Duration;
use crate::note::{lemma_start_of_same, start_of, Note, Notes};

verus! {

/// What a voice holds.
#[derive(Debug, PartialEq, Eq)]
pub enum VoiceType {
    /// A pause over the whole bar, of the length given where one is given.
    Barpause(Option<Duration>),
    Notes(Notes),
}

/// A voice with its length and, once made, its beam groups.
#[derive(Debug, PartialEq, Eq)]
pub struct Voice {
    pub duration: Duration,
    pub vtype: VoiceType,
    pub beamgroups: Option<Vec<Beamgroup>>,
}

/// One voice, or two sharing a staff.
#[derive(Debug, PartialEq, Eq)]
pub enum Voices {
    One(Voice),
    Two(Voice, Voice),
}

#[derive(Debug)]
pub struct VoiceAttributes {}

/// The length of a voice of this kind: that of its notes, or that of the
/// bar pause (0 where none is given).
pub open spec fn vtype_duration(vtype: VoiceType) -> Duration {
    match vtype {
        VoiceType::Barpause(v) => match v {
            Some(d) => d,
            None => 0,
        },
        VoiceType::Notes(notes) => notes.duration,
    }
}

/// Each note of every group carries the index of its group, and is
/// otherwise as it was.
pub open spec fn marked_in_groups(before: Seq<Note>, after: Seq<Note>, gs: Seq<Beamgroup>) -> bool {
    forall|g: int, j: int|
        0 <= g < gs.len() && 0 <= j < gs[g].notes@.len() ==> after[#[trigger] gs[g].notes@[j] as int]
            == (Note { beamgroup: Some(g as usize), ..before[gs[g].notes@[j] as int] })
}

/// A voice after its beam groups are made by the pattern: a bar pause is
/// left as it is; a voice of notes keeps its length and gets groups that
/// split its notes into runs as the pattern links them, each note marked
/// with the index of its group.
pub open spec fn voice_grouped(a: Voice, b: Voice, pattern: BeamingPattern) -> bool {
    match a.vtype {
        VoiceType::Barpause(_) => b == a,
        VoiceType::Notes(before) => {
            &&& b.duration == a.duration
            &&& b.vtype matches VoiceType::Notes(after)
            &&& b.beamgroups matches Some(gs)
            &&& after.duration == before.duration
            &&& after.wf()
            &&& after.items@.len() == before.items@.len()
            &&& split_into_runs(group_notes(gs@), before.items@.len() as int, pattern_link(before.items@, pattern))
            &&& groups_made(gs@, before.items@)
            &&& marked_in_groups(before.items@, after.items@, gs@)
        },
    }
}

/// The notes can be grouped by the pattern: there is at least one, and a
/// pattern of values fits them where there are two or more.
pub open spec fn can_group(notes: Notes, pattern: BeamingPattern) -> bool {
    &&& notes.wf()
    &&& notes.items@.len() > 0
    &&& notes.items@.len() >= 2 ==> (pattern matches BeamingPattern::NValues(values) ==> values_fit(
        values@,
        notes.duration,
    ))
}

impl Voice {
    pub fn new(vtype: VoiceType) -> (r: Self)
        ensures
            r.duration == vtype_duration(vtype),
            r.vtype == vtype,
            r.beamgroups is None,
    {
        let duration: Duration = match &vtype {
            VoiceType::Barpause(v) => match v {
                Some(d) => *d,
                None => 0,
            },
            VoiceType::Notes(notes) => notes.duration,
        };
        Self { duration, vtype, beamgroups: None }
    }

    /// Groups the notes of the voice by the pattern (see `get_beamgroups`),
    /// keeps the groups and marks each note with the index of its group; a
    /// bar pause is left as it is.
    pub fn create_beamgroups(&mut self, pattern: &BeamingPattern)
        requires
            old(self).vtype matches VoiceType::Notes(notes) ==> can_group(notes, *pattern),
        ensures
            voice_grouped(*old(self), *final(self), *pattern),
    {
        let mut vt = VoiceType::Barpause(None);
        std::mem::swap(&mut vt, &mut self.vtype);
        match vt {
            VoiceType::Barpause(v) => {
                self.vtype = VoiceType::Barpause(v);
            },
            VoiceType::Notes(notes) => {
                let gs = match get_beamgroups(&notes, pattern) {
                    Ok(gs) => gs,
                    Err(_) => {
                        self.vtype = VoiceType::Notes(notes);
                        return;
                    },
                };
                let ghost before = notes.items@;
                let marked = mark_groups(notes, &gs, Ghost(pattern_link(before, *pattern)));
                self.vtype = VoiceType::Notes(marked);
                self.beamgroups = Some(gs);
            },
        }
    }
}

/// A group ends no later than the next one starts.
proof fn lemma_runs_ordered(groups: Seq<Seq<usize>>, n: int, link: spec_fn(int) -> bool, a: int, b: int)
    requires
        split_into_runs(groups, n, link),
        0 <= a < b < groups.len(),
    ensures
        groups[a][0] + groups[a].len() <= groups[b][0],
    decreases b - a,
{
    if a + 1 < b {
        lemma_runs_ordered(groups, n, link, a + 1, b);
        assert(groups[a + 2 - 1][0] == groups[a][0] + groups[a].len());
    } else {
        assert(groups[a + 1][0] == groups[a][0] + groups[a].len());
    }
}

/// Every group lies within `0..n`.
pub(crate) proof fn lemma_runs_within(groups: Seq<Seq<usize>>, n: int, link: spec_fn(int) -> bool, g: int)
    requires
        split_into_runs(groups, n, link),
        0 <= g < groups.len(),
    ensures
        groups[g][0] + groups[g].len() <= n,
{
    if g < groups.len() - 1 {
        lemma_runs_ordered(groups, n, link, g, groups.len() - 1);
    }
}

/// Every note below the end of group `g` lies in that group or an earlier one.
pub(crate) proof fn lemma_runs_cover(groups: Seq<Seq<usize>>, n: int, link: spec_fn(int) -> bool, g: int, x: int) -> (r: (int, int))
    requires
        split_into_runs(groups, n, link),
        0 <= g < groups.len(),
        0 <= x < groups[g][0] + groups[g].len(),
    ensures
        0 <= r.0 <= g,
        0 <= r.1 < groups[r.0].len(),
        groups[r.0][r.1] == x,
    decreases g,
{
    if x >= groups[g][0] {
        (g, x - groups[g][0])
    } else {
        assert(groups[g - 1 + 1][0] == groups[g - 1][0] + groups[g - 1].len());
        lemma_runs_cover(groups, n, link, g - 1, x)
    }
}

/// Marks each note of each group with the index of its group.
fn mark_groups(notes: Notes, gs: &Vec<Beamgroup>, Ghost(link): Ghost<spec_fn(int) -> bool>) -> (r: Notes)
    requires
        notes.wf(),
        split_into_runs(group_notes(gs@), notes.items@.len() as int, link),
    ensures
        r.duration == notes.duration,
        r.items@.len() == notes.items@.len(),
        r.wf(),
        marked_in_groups(notes.items@, r.items@, gs@),
{
    let ghost before = notes.items@;
    let ghost orig = notes;
    let ghost groups = group_notes(gs@);
    let n = notes.items.len();
    let mut notes = notes;
    let mut g: usize = 0;
    while g < gs.len()
        invariant
            groups == group_notes(gs@),
            split_into_runs(groups, n as int, link),
            n == before.len(),
            notes.items@.len() == n,
            orig.wf(),
            orig.items@ == before,
            notes.duration == orig.duration,
            g <= gs@.len(),
            forall|h: int, j: int|
                0 <= h < g && 0 <= j < gs@[h].notes@.len() ==> notes.items@[#[trigger] gs@[h].notes@[j] as int]
                    == (Note { beamgroup: Some(h as usize), ..before[gs@[h].notes@[j] as int] }),
            forall|x: int|
                (if g < gs@.len() { groups[g as int][0] as int } else { n as int }) <= x < n ==> #[trigger] notes.items@[x]
                    == before[x],
        decreases gs@.len() - g,
    {
        proof {
            lemma_runs_within(groups, n as int, link, g as int);
            assert(groups[g as int] == gs@[g as int].notes@);
        }
        let m = gs[g].notes.len();
        let ghost start = groups[g as int][0] as int;
        let mut j: usize = 0;
        while j < m
            invariant
                groups == group_notes(gs@),
                split_into_runs(groups, n as int, link),
                n == before.len(),
                notes.items@.len() == n,
                notes.duration == orig.duration,
                g < gs@.len(),
                m == gs@[g as int].notes@.len(),
                groups[g as int] == gs@[g as int].notes@,
                start == groups[g as int][0],
                start + m <= n,
                j <= m,
                forall|h: int, k: int|
                    0 <= h < g && 0 <= k < gs@[h].notes@.len() ==> notes.items@[#[trigger] gs@[h].notes@[k] as int]
                        == (Note { beamgroup: Some(h as usize), ..before[gs@[h].notes@[k] as int] }),
                forall|k: int|
                    0 <= k < j ==> notes.items@[#[trigger] gs@[g as int].notes@[k] as int]
                        == (Note { beamgroup: Some(g as usize), ..before[gs@[g as int].notes@[k] as int] }),
                forall|x: int| start + j <= x < n ==> #[trigger] notes.items@[x] == before[x],
            decreases m - j,
        {
            let idx = gs[g].notes[j];
            assert(idx == start + j);
            proof {
                assert forall|h: int, k: int| 0 <= h < g && 0 <= k < gs@[h].notes@.len() implies
                    gs@[h].notes@[k] < start by {
                    lemma_runs_ordered(groups, n as int, link, h, g as int);
                    assert(groups[h] == gs@[h].notes@);
                }
            }
            notes.items[idx].beamgroup = Some(g);
            j = j + 1;
        }
        proof {
            if g + 1 < gs@.len() {
                assert(groups[g + 1][0] == start + m);
            }
        }
        g = g + 1;
    }
    proof {
        assert forall|x: int| 0 <= x < n implies notes.items@[x].duration == before[x].duration
            && notes.items@[x].position == before[x].position
            && notes.items@[x].end_position == before[x].end_position by {
            let (h, j) = lemma_runs_cover(groups, n as int, link, groups.len() - 1, x);
            assert(groups[h] == gs@[h].notes@);
        }
        assert forall|k: int| 0 <= k <= n implies start_of(notes.items@, k) == start_of(before, k) by {
            lemma_start_of_same(notes.items@, before, k);
        }
        assert forall|i: int| 0 <= i < n implies {
            &&& #[trigger] notes.items@[i].position == start_of(notes.items@, i)
            &&& notes.items@[i].end_position == start_of(notes.items@, i) + notes.items@[i].duration
        } by {
            assert(orig.items@[i] == before[i]);
        }
        assert(notes.duration == start_of(notes.items@, n as int));
    }
    notes
}

} // verus!
