//! Setting up the complexes of a part: beam groups by quarters, complexes
//! and their lengths, beam directions and levels, and stem directions, in
//! that order; each step meets what the next one asks for.

use vstd::prelude::*;

use crate::arrange::{
    beamgroups_created, beams_measured, directions_set, groups_measurable, note_directions_set, notes_grouped,
    voice_measured, voices_measurable, voices_measured,
};
use crate::beams::{beamable, complexes_beamable, lower_note, upper_note};
use crate::marks::{complex_markable, directed};
use crate::beamgroup::{group_notes, split_into_runs, BeamingPattern};
use crate::beamgroup::Beamgroup;
use crate::complex::{
    complex_directable, complexes_directable, in_group, complexes_ordered, complexes_view, dirs_fold, dirs_step, group_at,
    beam_directions_set, complex_durations_set, complex_voices, complexes_created, groups_of, has_position,
    voice_regrouped, voices_complexable, voices_directed, min_d, starts_at, notes_of, single_complexes, two_complex, voice_note_count, voice_pair, voices_complexes,
    voices_note_count, Complex, ComplexType,
};
use crate::core_defs::{DirUAD, NV4};
use crate::error::NotationError;
use crate::note::{lemma_start_of_monotone, start_of, Note, Notes};
use crate::part::{ptype_duration, voices_duration, Part, PartMusicType, PartNonmusicType, PartType};
use crate::arrange::voices_grouped;
use crate::voice::{lemma_runs_cover, lemma_runs_within, voice_grouped, vtype_duration, Voice, VoiceType, Voices};

verus! {

/// A voice whose length is that of what it holds.
pub open spec fn voice_sized(v: Voice) -> bool {
    v.duration == vtype_duration(v.vtype)
}

/// A voice of notes laid out by `Notes::new`.
pub open spec fn voice_laid_out(v: Voice) -> bool {
    v.vtype matches VoiceType::Notes(ns) ==> ns.wf()
}

/// After its groups are made, a voice of notes holds the same notes, each
/// marked with a group of the voice; a bar pause is as it was.
pub proof fn lemma_grouped_voice(a: Voice, b: Voice, pattern: BeamingPattern)
    requires
        voice_grouped(a, b, pattern),
    ensures
        b.duration == a.duration,
        a.vtype matches VoiceType::Barpause(_) ==> b == a,
        a.vtype matches VoiceType::Notes(ns) ==> b.vtype matches VoiceType::Notes(ms) && {
            &&& ms.wf()
            &&& ms.duration == ns.duration
            &&& ms.items@.len() == ns.items@.len()
            &&& notes_grouped(b)
            &&& forall|i: int|
                0 <= i < ns.items@.len() ==> (#[trigger] ms.items@[i]).duration == ns.items@[i].duration
                    && ms.items@[i].position == ns.items@[i].position
        },
{
    match a.vtype {
        VoiceType::Notes(ns) => {
            let ms = b.vtype->Notes_0;
            let gs = b.beamgroups->0;
            let groups = group_notes(gs@);
            let n = ns.items@.len() as int;
            assert forall|x: int| 0 <= x < n implies {
                &&& (#[trigger] ms.items@[x]).beamgroup matches Some(g) && g < gs@.len()
                &&& ms.items@[x].duration == ns.items@[x].duration
                &&& ms.items@[x].position == ns.items@[x].position
            } by {
                let last = groups.len() - 1;
                assert(groups.len() > 0);
                let (g, j) = lemma_runs_cover(groups, n, crate::beamgroup::pattern_link(ns.items@, pattern), last, x);
                assert(groups[g][j] == gs@[g].notes@[j]);
                assert(ms.items@[gs@[g].notes@[j] as int] == (Note {
                    beamgroup: Some(g as usize),
                    ..ns.items@[gs@[g].notes@[j] as int]
                }));
            }
        },
        _ => {},
    }
}

/// Notes laid out by `Notes::new` start in order, within their length.
pub proof fn lemma_laid_out_positions(ns: Notes, i: int, j: int)
    requires
        ns.wf(),
        0 <= i <= j < ns.items@.len(),
    ensures
        ns.items@[i].position <= ns.items@[j].position,
        ns.items@[j].position <= ns.duration,
{
    lemma_start_of_monotone(ns.items@, i, j);
    lemma_start_of_monotone(ns.items@, j, ns.items@.len() as int);
}

/// One complex for each note of a voice of notes lie in order, within the
/// voice's length.
proof fn lemma_singles_ordered(ns: Notes, kind: int, cs: Seq<Complex>, total: int)
    requires
        ns.wf(),
        ns.duration <= total,
        complexes_view(cs) == single_complexes(ns.items@, kind),
    ensures
        complexes_ordered(cs, total),
{
    assert(complexes_view(cs).len() == cs.len());
    assert(single_complexes(ns.items@, kind).len() == ns.items@.len());
    assert(cs.len() == ns.items@.len());
    assert forall|k: int| 0 <= k < cs.len() - 1 implies #[trigger] cs[k].position <= cs[k + 1].position by {
        assert(complexes_view(cs)[k].1 == cs[k].position);
        assert(complexes_view(cs)[k + 1].1 == cs[k + 1].position);
        lemma_laid_out_positions(ns, k, k + 1);
    }
    if cs.len() >= 2 {
        let k = cs.len() - 1;
        assert(complexes_view(cs)[k].1 == cs[k].position);
        lemma_laid_out_positions(ns, k, k);
    }
}

/// The complexes of voices laid out by `Notes::new` lie in order, within
/// the length of the longer voice.
pub proof fn lemma_complexes_ordered(vs: Voices, cs: Seq<Complex>, total: int)
    requires
        voices_complexes(vs, complexes_view(cs)),
        match vs {
            Voices::One(v) => voice_laid_out(v) && voice_sized(v),
            Voices::Two(a, b) => voice_laid_out(a) && voice_sized(a) && voice_laid_out(b) && voice_sized(b),
        },
        voices_duration(vs) <= total,
    ensures
        complexes_ordered(cs, total),
{
    match vs {
        Voices::One(v) => match v.vtype {
            VoiceType::Notes(ns) => lemma_singles_ordered(ns, 0, cs, total),
            _ => {
                assert(complexes_view(cs).len() == cs.len());
            },
        },
        Voices::Two(a, b) => match (a.vtype, b.vtype) {
            (VoiceType::Notes(us), VoiceType::Notes(ls)) => {
                let r = complexes_view(cs);
                assert(r.len() == cs.len());
                assert forall|k: int| 0 <= k < cs.len() - 1 implies #[trigger] cs[k].position <= cs[k + 1].position by {
                    assert(r[k].1 == cs[k].position);
                    assert(r[k + 1].1 == cs[k + 1].position);
                }
                if cs.len() >= 2 {
                    let k = cs.len() - 1;
                    assert(r[k].1 == cs[k].position);
                    assert(two_complex(us.items@, ls.items@, min_d(us.duration, ls.duration), r[k]));
                    match r[k].0 {
                        ComplexType::Two(x, y, _) => {
                            lemma_laid_out_positions(us, x as int, x as int);
                        },
                        ComplexType::Upper(x, _) => {
                            lemma_laid_out_positions(us, x as int, x as int);
                        },
                        ComplexType::Lower(y, _) => {
                            lemma_laid_out_positions(ls, y as int, y as int);
                        },
                        _ => {},
                    }
                }
            },
            (VoiceType::Notes(us), _) => lemma_singles_ordered(us, 1, cs, total),
            (_, VoiceType::Notes(ls)) => lemma_singles_ordered(ls, 2, cs, total),
            _ => {
                assert(complexes_view(cs).len() == cs.len());
            },
        },
    }
}

/// Every note of a voice of notes lies in one of its groups (see
/// `notes_grouped`); a bar pause holds none.
pub open spec fn voice_grouped_notes(v: Voice) -> bool {
    v.vtype matches VoiceType::Notes(_) ==> notes_grouped(v)
}

proof fn lemma_singles_directable(v: Voice, ns: Notes, kind: int, cs: Seq<Complex>, w: Voice, upper: bool)
    requires
        v.vtype == VoiceType::Notes(ns),
        notes_grouped(v),
        complexes_view(cs) == single_complexes(ns.items@, kind),
        0 <= kind <= 2,
        upper <==> kind != 2,
        ns.items@.len() <= usize::MAX,
    ensures
        forall|k: int|
            0 <= k < cs.len() ==> if upper {
                complex_directable(notes_of(v), groups_of(v), notes_of(w), groups_of(w), #[trigger] cs[k].ctype)
            } else {
                complex_directable(notes_of(w), groups_of(w), notes_of(v), groups_of(v), cs[k].ctype)
            },
{
    assert(complexes_view(cs).len() == cs.len());
    assert forall|k: int| 0 <= k < cs.len() implies if upper {
        complex_directable(notes_of(v), groups_of(v), notes_of(w), groups_of(w), #[trigger] cs[k].ctype)
    } else {
        complex_directable(notes_of(w), groups_of(w), notes_of(v), groups_of(v), cs[k].ctype)
    } by {
        assert(single_complexes(ns.items@, kind).len() == ns.items@.len());
        assert(complexes_view(cs)[k].0 == cs[k].ctype);
        assert(complexes_view(cs)[k] == single_complexes(ns.items@, kind)[k]);
        assert(notes_of(v) == ns.items@);
        assert(ns.items@[k].beamgroup is Some);
        assert(groups_of(v) == v.beamgroups->0@);
        assert(in_group(notes_of(v), groups_of(v), k));
        assert((k as usize) as int == k);
        if kind == 0 {
            assert(cs[k].ctype == ComplexType::Single(k as usize, false));
            assert(complex_directable(notes_of(v), groups_of(v), notes_of(w), groups_of(w), cs[k].ctype));
        } else if kind == 1 {
            assert(cs[k].ctype == ComplexType::Upper(k as usize, false));
            assert(complex_directable(notes_of(v), groups_of(v), notes_of(w), groups_of(w), cs[k].ctype));
        } else {
            assert(cs[k].ctype == ComplexType::Lower(k as usize, false));
            assert(complex_directable(notes_of(w), groups_of(w), notes_of(v), groups_of(v), cs[k].ctype));
        }
    }
}

/// The notes of the complexes of grouped voices lie in groups.
pub proof fn lemma_directable(vs: Voices, cs: Seq<Complex>)
    requires
        voices_complexes(vs, complexes_view(cs)),
        voices_note_count(vs) <= usize::MAX,
        match vs {
            Voices::One(v) => voice_grouped_notes(v),
            Voices::Two(a, b) => voice_grouped_notes(a) && voice_grouped_notes(b),
        },
    ensures
        complexes_directable(vs, cs),
{
    let r = complexes_view(cs);
    assert(r.len() == cs.len());
    match vs {
        Voices::One(v) => match v.vtype {
            VoiceType::Notes(ns) => {
                assert(voice_note_count(v) == ns.items@.len());
                let e = Voice { duration: 0, vtype: VoiceType::Barpause(None), beamgroups: None };
                lemma_singles_directable(v, ns, 0, cs, e, true);
                assert(notes_of(e) == Seq::<Note>::empty());
            },
            _ => {},
        },
        Voices::Two(a, b) => match (a.vtype, b.vtype) {
            (VoiceType::Notes(us), VoiceType::Notes(ls)) => {
                assert forall|k: int| 0 <= k < cs.len() implies complex_directable(
                    notes_of(a),
                    groups_of(a),
                    notes_of(b),
                    groups_of(b),
                    #[trigger] cs[k].ctype,
                ) by {
                    assert(r[k].0 == cs[k].ctype);
                    assert(two_complex(us.items@, ls.items@, min_d(us.duration, ls.duration), r[k]));
                    match r[k].0 {
                        ComplexType::Two(x, y, _) => {
                            assert(us.items@[x as int].beamgroup is Some);
                            assert(ls.items@[y as int].beamgroup is Some);
                        },
                        ComplexType::Upper(x, _) => {
                            assert(us.items@[x as int].beamgroup is Some);
                        },
                        ComplexType::Lower(y, _) => {
                            assert(ls.items@[y as int].beamgroup is Some);
                        },
                        _ => {},
                    }
                }
            },
            (VoiceType::Notes(us), _) => {
                assert(voice_note_count(a) == us.items@.len());
                lemma_singles_directable(a, us, 1, cs, b, true);
            },
            (_, VoiceType::Notes(ls)) => {
                assert(voice_note_count(b) == ls.items@.len());
                assert(voice_note_count(a) >= 0);
                lemma_singles_directable(b, ls, 2, cs, a, false);
            },
            _ => {
                assert(cs.len() == 0);
            },
        },
    }
}

/// The complex holds note `x` of the upper (or only) voice.
pub open spec fn refs_upper(c: ComplexType, x: int) -> bool {
    match c {
        ComplexType::Single(a, _) => a == x,
        ComplexType::Upper(a, _) => a == x,
        ComplexType::Two(a, _, _) => a == x,
        _ => false,
    }
}

/// The complex holds note `y` of the lower voice.
pub open spec fn refs_lower(c: ComplexType, y: int) -> bool {
    match c {
        ComplexType::Lower(b, _) => b == y,
        ComplexType::Two(_, b, _) => b == y,
        _ => false,
    }
}

/// Setting directions changes the groups' directions alone; a group with a
/// direction keeps one, and the groups of every complex's notes get one.
pub proof fn lemma_fold_directs(
    un: Seq<Note>,
    ln: Seq<Note>,
    gs: (Seq<Beamgroup>, Seq<Beamgroup>),
    cs: Seq<Complex>,
    force: DirUAD,
)
    requires
        forall|k: int| 0 <= k < cs.len() ==> complex_directable(un, gs.0, ln, gs.1, #[trigger] cs[k].ctype),
    ensures
        ({
            let r = dirs_fold(un, ln, gs, cs, force);
            &&& r.0.len() == gs.0.len()
            &&& r.1.len() == gs.1.len()
            &&& forall|g: int|
                0 <= g < gs.0.len() ==> #[trigger] r.0[g] == (Beamgroup { direction: r.0[g].direction, ..gs.0[g] })
            &&& forall|g: int|
                0 <= g < gs.1.len() ==> #[trigger] r.1[g] == (Beamgroup { direction: r.1[g].direction, ..gs.1[g] })
            &&& forall|g: int| 0 <= g < gs.0.len() && gs.0[g].direction is Some ==> (#[trigger] r.0[g]).direction is Some
            &&& forall|g: int| 0 <= g < gs.1.len() && gs.1[g].direction is Some ==> (#[trigger] r.1[g]).direction is Some
            &&& forall|k: int, x: int|
                0 <= k < cs.len() && #[trigger] refs_upper(cs[k].ctype, x) ==> r.0[group_at(un, x)].direction is Some
            &&& forall|k: int, y: int|
                0 <= k < cs.len() && #[trigger] refs_lower(cs[k].ctype, y) ==> r.1[group_at(ln, y)].direction is Some
        }),
    decreases cs.len(),
{
    if cs.len() > 0 {
        let init = cs.drop_last();
        assert forall|k: int| 0 <= k < init.len() implies complex_directable(un, gs.0, ln, gs.1, #[trigger] init[k].ctype) by {
            assert(init[k] == cs[k]);
        }
        lemma_fold_directs(un, ln, gs, init, force);
        let p = dirs_fold(un, ln, gs, init, force);
        let r = dirs_fold(un, ln, gs, cs, force);
        let c = cs.last().ctype;
        assert(complex_directable(un, gs.0, ln, gs.1, cs[cs.len() - 1].ctype));
        assert(r == dirs_step(un, ln, p, c, force));
        assert forall|k: int, x: int| 0 <= k < cs.len() && #[trigger] refs_upper(cs[k].ctype, x) implies r.0[group_at(
            un,
            x,
        )].direction is Some by {
            if k < cs.len() - 1 {
                assert(init[k] == cs[k]);
            }
        }
        assert forall|k: int, y: int| 0 <= k < cs.len() && #[trigger] refs_lower(cs[k].ctype, y) implies r.1[group_at(
            ln,
            y,
        )].direction is Some by {
            if k < cs.len() - 1 {
                assert(init[k] == cs[k]);
            }
        }
    }
}

/// Each note of a voice of notes lasts a while.
pub open spec fn positive_notes(v: Voice) -> bool {
    v.vtype matches VoiceType::Notes(ns) ==> forall|i: int|
        0 <= i < ns.items@.len() ==> #[trigger] ns.items@[i].duration > 0
}

/// Notes of positive lengths laid out by `Notes::new` start strictly in
/// order.
proof fn lemma_strict_positions(ns: Notes, i: int, j: int)
    requires
        ns.wf(),
        0 <= i < j < ns.items@.len(),
        forall|x: int| 0 <= x < ns.items@.len() ==> #[trigger] ns.items@[x].duration > 0,
    ensures
        ns.items@[i].position < ns.items@[j].position,
{
    lemma_start_of_monotone(ns.items@, i + 1, j);
    assert(ns.items@[i].duration > 0);
}

/// Some complex holds note `x` of the upper (or only) voice.
pub open spec fn covered_upper(cs: Seq<Complex>, x: int) -> bool {
    exists|k: int| 0 <= k < cs.len() && #[trigger] refs_upper(cs[k].ctype, x)
}

/// Some complex holds note `y` of the lower voice.
pub open spec fn covered_lower(cs: Seq<Complex>, y: int) -> bool {
    exists|k: int| 0 <= k < cs.len() && #[trigger] refs_lower(cs[k].ctype, y)
}

proof fn lemma_singles_cover(ns: Notes, kind: int, cs: Seq<Complex>)
    requires
        complexes_view(cs) == single_complexes(ns.items@, kind),
        0 <= kind <= 2,
        ns.items@.len() <= usize::MAX,
    ensures
        kind != 2 ==> forall|x: int| 0 <= x < ns.items@.len() ==> #[trigger] covered_upper(cs, x),
        kind == 2 ==> forall|y: int| 0 <= y < ns.items@.len() ==> #[trigger] covered_lower(cs, y),
{
    assert(complexes_view(cs).len() == cs.len());
    assert(single_complexes(ns.items@, kind).len() == ns.items@.len());
    if kind == 2 {
        assert forall|y: int| 0 <= y < ns.items@.len() implies #[trigger] covered_lower(cs, y) by {
            assert(complexes_view(cs)[y] == single_complexes(ns.items@, kind)[y]);
            assert(complexes_view(cs)[y].0 == cs[y].ctype);
            assert((y as usize) as int == y);
            assert(refs_lower(cs[y].ctype, y));
        }
    } else {
        assert forall|x: int| 0 <= x < ns.items@.len() implies #[trigger] covered_upper(cs, x) by {
            assert(complexes_view(cs)[x] == single_complexes(ns.items@, kind)[x]);
            assert(complexes_view(cs)[x].0 == cs[x].ctype);
            assert((x as usize) as int == x);
            assert(refs_upper(cs[x].ctype, x));
        }
    }
}

/// Every note of the voices stands in some complex.
pub proof fn lemma_covered(vs: Voices, cs: Seq<Complex>)
    requires
        voices_complexes(vs, complexes_view(cs)),
        voices_note_count(vs) <= usize::MAX,
        vs matches Voices::Two(a, b) ==> (a.vtype is Notes && b.vtype is Notes ==> voice_laid_out(a)
            && voice_laid_out(b) && positive_notes(a) && positive_notes(b)),
    ensures
        forall|x: int| 0 <= x < voice_pair(vs).0.len() ==> #[trigger] covered_upper(cs, x),
        forall|y: int| 0 <= y < voice_pair(vs).2.len() ==> #[trigger] covered_lower(cs, y),
{
    let r = complexes_view(cs);
    assert(r.len() == cs.len());
    match vs {
        Voices::One(v) => match v.vtype {
            VoiceType::Notes(ns) => {
                assert(voice_note_count(v) == ns.items@.len());
                lemma_singles_cover(ns, 0, cs);
            },
            _ => {},
        },
        Voices::Two(a, b) => match (a.vtype, b.vtype) {
            (VoiceType::Notes(us), VoiceType::Notes(ls)) => {
                let sh = min_d(us.duration, ls.duration);
                assert forall|x: int| 0 <= x < us.items@.len() implies #[trigger] covered_upper(cs, x) by {
                    assert(has_position(r, us.items@[x].position as int));
                    let k = choose|k: int| 0 <= k < r.len() && #[trigger] r[k].1 == us.items@[x].position as int;
                    assert(two_complex(us.items@, ls.items@, sh, r[k]));
                    assert(r[k].0 == cs[k].ctype);
                    match r[k].0 {
                        ComplexType::Two(p, q, _) => {
                            if (p as int) < x {
                                lemma_strict_positions(us, p as int, x);
                            } else if (p as int) > x {
                                lemma_strict_positions(us, x, p as int);
                            }
                            assert(refs_upper(cs[k].ctype, x));
                        },
                        ComplexType::Upper(p, _) => {
                            if (p as int) < x {
                                lemma_strict_positions(us, p as int, x);
                            } else if (p as int) > x {
                                lemma_strict_positions(us, x, p as int);
                            }
                            assert(refs_upper(cs[k].ctype, x));
                        },
                        ComplexType::Lower(q, _) => {
                            assert(starts_at(us.items@, r[k].1 as int));
                        },
                        _ => {},
                    }
                }
                assert forall|y: int| 0 <= y < ls.items@.len() implies #[trigger] covered_lower(cs, y) by {
                    assert(has_position(r, ls.items@[y].position as int));
                    let k = choose|k: int| 0 <= k < r.len() && #[trigger] r[k].1 == ls.items@[y].position as int;
                    assert(two_complex(us.items@, ls.items@, sh, r[k]));
                    assert(r[k].0 == cs[k].ctype);
                    match r[k].0 {
                        ComplexType::Two(p, q, _) => {
                            if (q as int) < y {
                                lemma_strict_positions(ls, q as int, y);
                            } else if (q as int) > y {
                                lemma_strict_positions(ls, y, q as int);
                            }
                            assert(refs_lower(cs[k].ctype, y));
                        },
                        ComplexType::Lower(q, _) => {
                            if (q as int) < y {
                                lemma_strict_positions(ls, q as int, y);
                            } else if (q as int) > y {
                                lemma_strict_positions(ls, y, q as int);
                            }
                            assert(refs_lower(cs[k].ctype, y));
                        },
                        ComplexType::Upper(p, _) => {
                            assert(starts_at(ls.items@, r[k].1 as int));
                        },
                        _ => {},
                    }
                }
            },
            (VoiceType::Notes(us), _) => {
                assert(voice_note_count(a) == us.items@.len());
                lemma_singles_cover(us, 1, cs);
            },
            (_, VoiceType::Notes(ls)) => {
                assert(voice_note_count(b) == ls.items@.len());
                assert(voice_note_count(a) >= 0);
                lemma_singles_cover(ls, 2, cs);
            },
            _ => {},
        },
    }
}

/// Runs of at least one index each start no earlier than their number.
proof fn lemma_run_start(groups: Seq<Seq<usize>>, n: int, link: spec_fn(int) -> bool, g: int)
    requires
        split_into_runs(groups, n, link),
        0 <= g < groups.len(),
    ensures
        groups[g][0] >= g,
    decreases g,
{
    if g > 0 {
        lemma_run_start(groups, n, link, g - 1);
        assert(groups[g - 1 + 1][0] == groups[g - 1][0] + groups[g - 1].len());
    }
}

/// A voice grouped from `a`, whose groups then took directions so that the
/// group of every note has one, nothing else about the groups changing, can
/// have its beams measured.
proof fn lemma_voice_measurable(a: Voice, b: Voice, pattern: BeamingPattern, c: Voice, hs: Seq<Beamgroup>)
    requires
        voice_grouped(a, b, pattern),
        a.vtype is Barpause ==> a.beamgroups is None,
        voice_note_count(a) <= usize::MAX,
        voice_regrouped(b, c, hs),
        hs.len() == groups_of(b).len(),
        forall|g: int|
            0 <= g < hs.len() ==> #[trigger] hs[g] == (Beamgroup { direction: hs[g].direction, ..groups_of(b)[g] }),
        forall|x: int| 0 <= x < notes_of(b).len() ==> (#[trigger] hs[group_at(notes_of(b), x)]).direction is Some,
    ensures
        groups_measurable(c),
{
    match a.vtype {
        VoiceType::Notes(ns) => {
            let ms = b.vtype->Notes_0;
            let gs = b.beamgroups->0;
            let groups = group_notes(gs@);
            let n = ns.items@.len() as int;
            let link = crate::beamgroup::pattern_link(ns.items@, pattern);
            assert(notes_of(b) == ms.items@);
            assert(groups_of(b) == gs@);
            assert forall|g: int| 0 <= g < hs.len() implies {
                &&& (#[trigger] hs[g]).direction is Some
                &&& hs[g].notes@.len() > 0
                &&& forall|j: int| 0 <= j < hs[g].notes@.len() ==> hs[g].notes@[j] < ms.items@.len()
            } by {
                assert(groups[g] == gs@[g].notes@);
                assert(hs[g].notes@ == gs@[g].notes@);
                assert(groups[g].len() > 0);
                lemma_runs_within(groups, n, link, g);
                lemma_run_start(groups, n, link, g);
                let x = gs@[g].notes@[0] as int;
                assert(x == groups[g][0]);
                assert(ms.items@[x] == (Note { beamgroup: Some(g as usize), ..ns.items@[x] }));
                assert(group_at(ms.items@, x) == g);
                assert(hs[group_at(notes_of(b), x)].direction is Some);
                assert forall|j: int| 0 <= j < hs[g].notes@.len() implies hs[g].notes@[j] < ms.items@.len() by {
                    assert(groups[g][j] == groups[g][0] + j);
                }
            }
        },
        _ => {},
    }
}

/// A voice whose complexes can be set up: its length is that of what it
/// holds, its notes are laid out by `Notes::new`, and a bar pause has no
/// beam groups (a voice of notes may have some from an earlier setup:
/// they are made anew).
pub open spec fn voice_fresh(v: Voice) -> bool {
    voice_sized(v) && voice_laid_out(v) && (v.vtype is Barpause ==> v.beamgroups is None)
}

/// A voice of notes that quarters can group: it holds a note, and a
/// quarter can be added to its end.
pub open spec fn voice_quarterable(v: Voice) -> bool {
    v.vtype matches VoiceType::Notes(ns) ==> ns.items@.len() > 0 && ns.duration + NV4 <= usize::MAX
}

/// Each voice of the voices.
pub open spec fn each_voice(vs: Voices, f: spec_fn(Voice) -> bool) -> bool {
    match vs {
        Voices::One(v) => f(v),
        Voices::Two(a, b) => f(a) && f(b),
    }
}

/// A part whose complexes can be set up: its length is that of its
/// voices, each of which can be set up (see `voice_fresh`); the ids from `first_id` on suffice
/// for its notes; a music voice of notes holds one at least and quarters
/// can group it, and where both voices hold notes, each note lasts a while;
/// two voices of lyrics hold a note at least.
pub open spec fn part_ready(p: Part, first_id: usize) -> bool {
    &&& p.duration == ptype_duration(p.ptype)
    &&& complex_voices(p.ptype) matches Some(vs) && {
        &&& first_id + voices_note_count(vs) <= usize::MAX
        &&& each_voice(vs, |v: Voice| voice_fresh(v))
    }
    &&& p.ptype matches PartType::Music(PartMusicType::Voices(vs)) ==> {
        &&& each_voice(vs, |v: Voice| voice_quarterable(v))
        &&& vs matches Voices::Two(a, b) ==> (a.vtype is Notes && b.vtype is Notes ==> positive_notes(a)
            && positive_notes(b))
    }
    &&& p.ptype matches PartType::Nonmusic(PartNonmusicType::Lyrics(vs)) ==> voices_complexable(vs)
}

/// Voices grouped from fresh ones keep their lengths and note counts, are
/// still sized and laid out, and every note of a voice of notes lies in a
/// group.
proof fn lemma_grouped_voices(vs: Voices, ws: Voices, pattern: BeamingPattern)
    requires
        voices_grouped(vs, ws, pattern),
        each_voice(vs, |v: Voice| voice_fresh(v)),
    ensures
        voices_duration(ws) == voices_duration(vs),
        voices_note_count(ws) == voices_note_count(vs),
        match ws {
            Voices::One(v) => voice_laid_out(v) && voice_sized(v) && voice_grouped_notes(v),
            Voices::Two(a, b) => voice_laid_out(a) && voice_sized(a) && voice_grouped_notes(a) && voice_laid_out(b)
                && voice_sized(b) && voice_grouped_notes(b),
        },
{
    match (vs, ws) {
        (Voices::One(a), Voices::One(b)) => {
            lemma_grouped_voice(a, b, pattern);
        },
        (Voices::Two(a1, a2), Voices::Two(b1, b2)) => {
            lemma_grouped_voice(a1, b1, pattern);
            lemma_grouped_voice(a2, b2, pattern);
        },
        _ => {},
    }
}

/// After grouping, complexes and directions, each voice's groups can be
/// measured.
proof fn lemma_directed_measurable(vs: Voices, ws: Voices, pattern: BeamingPattern, cs: Seq<Complex>, ds: Voices)
    requires
        voices_grouped(vs, ws, pattern),
        each_voice(vs, |v: Voice| voice_fresh(v)),
        voices_note_count(vs) <= usize::MAX,
        vs matches Voices::Two(a, b) ==> (a.vtype is Notes && b.vtype is Notes ==> positive_notes(a) && positive_notes(b)),
        voices_complexes(ws, complexes_view(cs)),
        voices_directed(ws, ds, cs, DirUAD::Auto),
    ensures
        voices_measurable(ds),
{
    lemma_grouped_voices(vs, ws, pattern);
    lemma_directable(ws, cs);
    let p = voice_pair(ws);
    lemma_fold_directs(p.0, p.2, (p.1, p.3), cs, DirUAD::Auto);
    let f = dirs_fold(p.0, p.2, (p.1, p.3), cs, DirUAD::Auto);
    match (vs, ws) {
        (Voices::Two(a1, a2), Voices::Two(b1, b2)) => {
            lemma_grouped_voice(a1, b1, pattern);
            lemma_grouped_voice(a2, b2, pattern);
            if a1.vtype is Notes && a2.vtype is Notes {
                let n1 = a1.vtype->Notes_0;
                let m1 = b1.vtype->Notes_0;
                let n2 = a2.vtype->Notes_0;
                let m2 = b2.vtype->Notes_0;
                assert forall|i: int| 0 <= i < m1.items@.len() implies #[trigger] m1.items@[i].duration > 0 by {
                    assert(n1.items@[i].duration > 0);
                }
                assert forall|i: int| 0 <= i < m2.items@.len() implies #[trigger] m2.items@[i].duration > 0 by {
                    assert(n2.items@[i].duration > 0);
                }
            }
        },
        _ => {},
    }
    lemma_covered(ws, cs);
    match (vs, ws, ds) {
        (Voices::One(a), Voices::One(b), Voices::One(c)) => {
            assert forall|x: int| 0 <= x < notes_of(b).len() implies (#[trigger] f.0[group_at(notes_of(b), x)]).direction is Some by {
                assert(covered_upper(cs, x));
            }
            lemma_voice_measurable(a, b, pattern, c, f.0);
        },
        (Voices::Two(a1, a2), Voices::Two(b1, b2), Voices::Two(c1, c2)) => {
            assert forall|x: int| 0 <= x < notes_of(b1).len() implies (#[trigger] f.0[group_at(notes_of(b1), x)]).direction is Some by {
                assert(covered_upper(cs, x));
            }
            assert forall|y: int| 0 <= y < notes_of(b2).len() implies (#[trigger] f.1[group_at(notes_of(b2), y)]).direction is Some by {
                assert(covered_lower(cs, y));
            }
            lemma_voice_measurable(a1, b1, pattern, c1, f.0);
            lemma_voice_measurable(a2, b2, pattern, c2, f.1);
        },
        _ => {},
    }
}

/// After the beams are measured, every note of a voice of notes still lies
/// in one of its groups.
proof fn lemma_measured_grouped(vs: Voices, ws: Voices, pattern: BeamingPattern, cs: Seq<Complex>, ds: Voices, es: Voices)
    requires
        voices_grouped(vs, ws, pattern),
        each_voice(vs, |v: Voice| voice_fresh(v)),
        voices_note_count(vs) <= usize::MAX,
        voices_complexes(ws, complexes_view(cs)),
        voices_directed(ws, ds, cs, DirUAD::Auto),
        voices_measured(ds, es),
    ensures
        match es {
            Voices::One(e) => notes_grouped(e),
            Voices::Two(x, y) => notes_grouped(x) && notes_grouped(y),
        },
{
    lemma_grouped_voices(vs, ws, pattern);
    lemma_directable(ws, cs);
    let p = voice_pair(ws);
    lemma_fold_directs(p.0, p.2, (p.1, p.3), cs, DirUAD::Auto);
}

/// A part after its complexes are set up: a music part through beam
/// groups by quarters, complexes, their lengths, beam directions with no
/// direction forced, beam levels and stem directions; a part of lyrics
/// through complexes and their lengths.
pub open spec fn complexes_set_up(a: Part, b: Part, first_id: usize) -> bool {
    if a.ptype matches PartType::Music(PartMusicType::Voices(_)) {
        exists|pat: BeamingPattern, p1: Part, p2: Part, p3: Part, p4: Part, p5: Part|
            #![trigger beamgroups_created(a, p1, pat), complexes_created(p1, p2, first_id), complex_durations_set(p2, p3), beam_directions_set(p3, p4, DirUAD::Auto), beams_measured(p4, p5)]
            {
                &&& pat matches BeamingPattern::NValues(vals) && vals@ == seq![NV4]
                &&& beamgroups_created(a, p1, pat)
                &&& complexes_created(p1, p2, first_id)
                &&& complex_durations_set(p2, p3)
                &&& beam_directions_set(p3, p4, DirUAD::Auto)
                &&& beams_measured(p4, p5)
                &&& note_directions_set(p5, b)
            }
    } else {
        exists|p1: Part| #[trigger] complexes_created(a, p1, first_id) && complex_durations_set(p1, b)
    }
}

impl Part {
    /// Sets up the complexes of a part (see `complexes_set_up`), numbered
    /// from `first_id` on.
    #[verifier::rlimit(50)]
    pub fn setup_complexes(&mut self, first_id: usize) -> (r: Result<(), NotationError>)
        requires
            part_ready(*old(self), first_id),
        ensures
            r is Ok,
            complexes_set_up(*old(self), *final(self), first_id),
    {
        let ghost p0 = *self;
        let music = match &self.ptype {
            PartType::Music(PartMusicType::Voices(_)) => true,
            _ => false,
        };
        if music {
            let pattern = BeamingPattern::NValues(vec![NV4]);
            let ghost pat = pattern;
            self.create_beamgroups(pattern);
            let ghost p1 = *self;
            self.create_complexes(first_id);
            let ghost p2 = *self;
            proof {
                let vs = complex_voices(p0.ptype)->0;
                let ws = complex_voices(p1.ptype)->0;
                lemma_grouped_voices(vs, ws, pat);
                lemma_complexes_ordered(ws, p2.complexes->0@, p2.duration as int);
            }
            self.set_complex_durations();
            let ghost p3 = *self;
            proof {
                let vs = complex_voices(p0.ptype)->0;
                let ws = complex_voices(p1.ptype)->0;
                let cs2 = p2.complexes->0@;
                let cs3 = p3.complexes->0@;
                lemma_grouped_voices(vs, ws, pat);
                lemma_directable(ws, cs2);
                assert forall|k: int| 0 <= k < cs3.len() implies complex_directable(
                    voice_pair(ws).0,
                    voice_pair(ws).1,
                    voice_pair(ws).2,
                    voice_pair(ws).3,
                    #[trigger] cs3[k].ctype,
                ) by {
                    assert(cs3[k].ctype == cs2[k].ctype);
                }
            }
            self.set_beamgroups_directions(DirUAD::Auto);
            let ghost p4 = *self;
            proof {
                let vs = complex_voices(p0.ptype)->0;
                let ws = complex_voices(p1.ptype)->0;
                let cs2 = p2.complexes->0@;
                let cs3 = p3.complexes->0@;
                let ds = complex_voices(p4.ptype)->0;
                assert(complexes_view(cs3) =~= complexes_view(cs2)) by {
                    assert forall|k: int| 0 <= k < cs3.len() implies complexes_view(cs3)[k] == complexes_view(cs2)[k] by {
                        assert(cs3[k].ctype == cs2[k].ctype);
                        assert(cs3[k].position == cs2[k].position);
                    }
                }
                lemma_directed_measurable(vs, ws, pat, cs3, ds);
            }
            self.calculate_beamgoups_properties();
            let ghost p5 = *self;
            proof {
                let vs = complex_voices(p0.ptype)->0;
                let ws = complex_voices(p1.ptype)->0;
                let cs3 = p3.complexes->0@;
                let ds = complex_voices(p4.ptype)->0;
                let es = complex_voices(p5.ptype)->0;
                lemma_grouped_voices(vs, ws, pat);
                assert(complexes_view(cs3) =~= complexes_view(p2.complexes->0@)) by {
                    assert forall|k: int| 0 <= k < cs3.len() implies complexes_view(cs3)[k] == complexes_view(p2.complexes->0@)[k] by {
                        assert(cs3[k].ctype == p2.complexes->0@[k].ctype);
                    }
                }
                lemma_measured_grouped(vs, ws, pat, cs3, ds, es);
            }
            self.set_note_directions();
            proof {
                assert(pat matches BeamingPattern::NValues(vals) && vals@ == seq![NV4]);
                assert(complexes_set_up(p0, *self, first_id)) by {
                    assert(beamgroups_created(p0, p1, pat));
                    assert(complexes_created(p1, p2, first_id));
                    assert(complex_durations_set(p2, p3));
                    assert(beam_directions_set(p3, p4, DirUAD::Auto));
                    assert(beams_measured(p4, p5));
                    assert(note_directions_set(p5, *self));
                }
            }
        } else {
            self.create_complexes(first_id);
            let ghost p1 = *self;
            proof {
                let vs = complex_voices(p0.ptype)->0;
                lemma_complexes_ordered(vs, p1.complexes->0@, p1.duration as int);
            }
            self.set_complex_durations();
            proof {
                assert(complexes_created(p0, p1, first_id));
            }
        }
        Ok(())
    }
}

/// A note that lies in a group of its voice still does once the groups get
/// their directions and levels and the notes their directions; where every
/// group then has a direction and notes, the note can be beamed.
proof fn lemma_note_beamable(w: Voice, gd: Seq<Beamgroup>, d: Voice, e: Voice, f: Voice, x: int)
    requires
        in_group(notes_of(w), groups_of(w), x),
        voice_regrouped(w, d, gd),
        gd.len() == groups_of(w).len(),
        groups_measurable(d),
        voice_measured(d, e),
        directions_set(e, f),
    ensures
        0 <= x < notes_of(f).len(),
        beamable(notes_of(f)[x], groups_of(f)),
        directed(notes_of(f)[x]),
{
    let g = notes_of(w)[x].beamgroup->0 as int;
    assert(w.beamgroups is Some);
    assert(w.vtype is Notes);
    let hs = d.beamgroups->0@;
    assert(hs == gd);
    let es = e.beamgroups->0@;
    assert(es[g] == (Beamgroup { start_level: es[g].start_level, end_level: es[g].end_level, ..hs[g] }));
    assert(hs[g].direction is Some);
    let ns = e.vtype->Notes_0.items@;
    let ms = f.vtype->Notes_0.items@;
    assert(ms[x] == (Note { direction: ms[x].direction, ..ns[x] }));
}

/// Voices whose complexes' notes lie in groups still have them there once
/// the groups get directions and levels and the notes theirs; where every
/// group then has a direction and notes, those notes can be beamed.
proof fn lemma_voices_beamable(
    ws: Voices,
    r: (Seq<Beamgroup>, Seq<Beamgroup>),
    ds: Voices,
    es: Voices,
    fs: Voices,
    cs: Seq<Complex>,
)
    requires
        complexes_directable(ws, cs),
        r.0.len() == voice_pair(ws).1.len(),
        r.1.len() == voice_pair(ws).3.len(),
        match (ws, ds) {
            (Voices::One(w), Voices::One(d)) => voice_regrouped(w, d, r.0),
            (Voices::Two(a, b), Voices::Two(x, y)) => voice_regrouped(a, x, r.0) && voice_regrouped(b, y, r.1),
            _ => false,
        },
        voices_measurable(ds),
        voices_measured(ds, es),
        match (es, fs) {
            (Voices::One(e), Voices::One(f)) => directions_set(e, f),
            (Voices::Two(e1, e2), Voices::Two(f1, f2)) => directions_set(e1, f1) && directions_set(e2, f2),
            _ => false,
        },
    ensures
        complexes_beamable(cs, voice_pair(fs).0, voice_pair(fs).1, voice_pair(fs).2, voice_pair(fs).3),
        forall|k: int| 0 <= k < cs.len() ==> complex_markable(#[trigger] cs[k].ctype, voice_pair(fs).0, voice_pair(fs).2),
{
    let p = voice_pair(ws);
    let q = voice_pair(fs);
    assert forall|k: int| #![trigger cs[k]] 0 <= k < cs.len() implies {
        &&& upper_note(cs[k].ctype) matches Some(x) ==> x < q.0.len() && beamable(q.0[x as int], q.1) && directed(
            q.0[x as int],
        )
        &&& lower_note(cs[k].ctype) matches Some(y) ==> y < q.2.len() && beamable(q.2[y as int], q.3) && directed(
            q.2[y as int],
        )
    } by {
        assert(complex_directable(p.0, p.1, p.2, p.3, cs[k].ctype));
        match (ws, ds, es, fs) {
            (Voices::One(w), Voices::One(d), Voices::One(e), Voices::One(f)) => {
                if let Some(x) = upper_note(cs[k].ctype) {
                    lemma_note_beamable(w, r.0, d, e, f, x as int);
                }
            },
            (Voices::Two(w1, w2), Voices::Two(d1, d2), Voices::Two(e1, e2), Voices::Two(f1, f2)) => {
                if let Some(x) = upper_note(cs[k].ctype) {
                    lemma_note_beamable(w1, r.0, d1, e1, f1, x as int);
                }
                if let Some(y) = lower_note(cs[k].ctype) {
                    lemma_note_beamable(w2, r.1, d2, e2, f2, y as int);
                }
            },
            _ => {},
        }
    }
}

/// Once the complexes of a music part are set up, every note of heads in a
/// complex lies in a beam group of its voice that has a direction and
/// notes, and has a stem direction: the part's beam roles and tie marks
/// can be had.
pub proof fn lemma_set_up_ready_for_marks(a: Part, b: Part, first_id: usize)
    requires
        part_ready(a, first_id),
        a.ptype matches PartType::Music(PartMusicType::Voices(_)),
        complexes_set_up(a, b, first_id),
    ensures
        b.complexes matches Some(cs) && complex_voices(b.ptype) matches Some(vs) && complexes_beamable(
            cs@,
            voice_pair(vs).0,
            voice_pair(vs).1,
            voice_pair(vs).2,
            voice_pair(vs).3,
        ) && forall|k: int|
            0 <= k < cs@.len() ==> complex_markable(#[trigger] cs@[k].ctype, voice_pair(vs).0, voice_pair(vs).2),
{
    let (pat, p1, p2, p3, p4, p5) = choose|pat: BeamingPattern, p1: Part, p2: Part, p3: Part, p4: Part, p5: Part|
        #![trigger beamgroups_created(a, p1, pat), complexes_created(p1, p2, first_id), complex_durations_set(p2, p3), beam_directions_set(p3, p4, DirUAD::Auto), beams_measured(p4, p5)]
        {
            &&& pat matches BeamingPattern::NValues(vals) && vals@ == seq![NV4]
            &&& beamgroups_created(a, p1, pat)
            &&& complexes_created(p1, p2, first_id)
            &&& complex_durations_set(p2, p3)
            &&& beam_directions_set(p3, p4, DirUAD::Auto)
            &&& beams_measured(p4, p5)
            &&& note_directions_set(p5, b)
        };
    let vs = complex_voices(a.ptype)->0;
    let ws = complex_voices(p1.ptype)->0;
    let cs2 = p2.complexes->0@;
    let cs3 = p3.complexes->0@;
    let ds = complex_voices(p4.ptype)->0;
    let es = complex_voices(p5.ptype)->0;
    let fs = complex_voices(b.ptype)->0;
    assert(voices_grouped(vs, ws, pat));
    assert(voices_complexes(ws, complexes_view(cs2)));
    lemma_grouped_voices(vs, ws, pat);
    lemma_directable(ws, cs2);
    assert(complexes_view(cs3) =~= complexes_view(cs2)) by {
        assert forall|k: int| 0 <= k < cs3.len() implies complexes_view(cs3)[k] == complexes_view(cs2)[k] by {
            assert(cs3[k].ctype == cs2[k].ctype);
        }
    }
    assert(voices_directed(ws, ds, cs3, DirUAD::Auto));
    lemma_directed_measurable(vs, ws, pat, cs3, ds);
    let p = voice_pair(ws);
    assert forall|k: int| 0 <= k < cs3.len() implies complex_directable(p.0, p.1, p.2, p.3, #[trigger] cs3[k].ctype) by {
        assert(cs3[k].ctype == cs2[k].ctype);
    }
    lemma_fold_directs(p.0, p.2, (p.1, p.3), cs3, DirUAD::Auto);
    let r = dirs_fold(p.0, p.2, (p.1, p.3), cs3, DirUAD::Auto);
    assert(voices_measured(ds, es));
    lemma_voices_beamable(ws, r, ds, es, fs, cs3);
}

} // verus!
