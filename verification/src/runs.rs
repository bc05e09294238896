//! What holds of the runs that the walk of the bars collects: each place in
//! a run names a sounding note of the bars, and no place is in two runs or
//! twice in one.

use vstd::prelude::*;

use crate::bar::{Bar, BarType};
use crate::bar::total_parts;
use crate::chunks::{
    add_note, bars_chunks, bars_events, bump, chunk_start, ensure_key, lemma_bars_events_take,
    lemma_events_take, lemma_parts_within_total, notes_chunks, part_chunks, part_events, parts_chunks,
    rest_chunks, voice_chunks, voice_events, voice_key, ChunkState, NoteLoc,
};
use crate::note::Note;
use crate::part::{Part, PartMusicType, PartType};
use crate::score::{note_at, voice_of};
use crate::voice::{Voice, VoiceType, Voices};

verus! {

/// `a` comes before `b` in the order the bars are walked: by bar, then
/// part, then voice, then note.
pub open spec fn loc_lt(a: NoteLoc, b: NoteLoc) -> bool {
    ||| a.bar < b.bar
    ||| a.bar == b.bar && a.part < b.part
    ||| a.bar == b.bar && a.part == b.part && a.voice < b.voice
    ||| a.bar == b.bar && a.part == b.part && a.voice == b.voice && a.note < b.note
}

/// The place of note `i` of voice `v` of part `p` of bar `b`.
pub open spec fn place(b: int, p: int, v: int, i: int) -> NoteLoc {
    NoteLoc { bar: b as usize, part: p as usize, voice: v as usize, note: i as usize }
}

/// Every place in the runs comes before `cur`, names a sounding note of
/// the bars, and no place is in two runs or twice in one.
pub open spec fn runs_sound(st: ChunkState, bars: Seq<Bar>, cur: NoteLoc) -> bool {
    &&& forall|k: usize, i: int|
        st.notes.contains_key(k) && 0 <= i < st.notes[k].len() ==> loc_lt(#[trigger] st.notes[k][i], cur)
    &&& forall|k: usize, i: int|
        st.notes.contains_key(k) && 0 <= i < st.notes[k].len() ==> (note_at(bars, #[trigger] st.notes[k][i])
            matches Some(n) && !n.spec_is_pause())
    &&& forall|k1: usize, i1: int, k2: usize, i2: int|
        st.notes.contains_key(k1) && st.notes.contains_key(k2) && 0 <= i1 < st.notes[k1].len() && 0 <= i2
            < st.notes[k2].len() && (k1 != k2 || i1 != i2) ==> #[trigger] st.notes[k1][i1]
            != #[trigger] st.notes[k2][i2]
}

/// Soundness holds on for a later place.
proof fn lemma_sound_later(st: ChunkState, bars: Seq<Bar>, c1: NoteLoc, c2: NoteLoc)
    requires
        runs_sound(st, bars, c1),
        c1 == c2 || loc_lt(c1, c2),
    ensures
        runs_sound(st, bars, c2),
{
}

/// A sounding note placed after all the runs keeps them sound.
proof fn lemma_add_sound(st: ChunkState, vid: usize, loc: NoteLoc, bars: Seq<Bar>, next: NoteLoc)
    requires
        runs_sound(st, bars, loc),
        note_at(bars, loc) matches Some(n) && !n.spec_is_pause(),
        loc_lt(loc, next),
    ensures
        runs_sound(add_note(st, vid, loc), bars, next),
{
    let s2 = add_note(st, vid, loc);
    let cur = (vid + st.idx[vid]) as usize;
    assert forall|k: usize, i: int| s2.notes.contains_key(k) && 0 <= i < s2.notes[k].len() implies loc_lt(
        #[trigger] s2.notes[k][i],
        next,
    ) && (note_at(bars, s2.notes[k][i]) matches Some(n) && !n.spec_is_pause()) by {
        if k == cur && i == s2.notes[k].len() - 1 {
        } else {
            assert(st.notes.contains_key(k));
            assert(s2.notes[k][i] == st.notes[k][i]);
        }
    }
    assert forall|k1: usize, i1: int, k2: usize, i2: int|
        s2.notes.contains_key(k1) && s2.notes.contains_key(k2) && 0 <= i1 < s2.notes[k1].len() && 0 <= i2
            < s2.notes[k2].len() && (k1 != k2 || i1 != i2) implies #[trigger] s2.notes[k1][i1]
        != #[trigger] s2.notes[k2][i2] by {
        let new1 = k1 == cur && i1 == s2.notes[k1].len() - 1;
        let new2 = k2 == cur && i2 == s2.notes[k2].len() - 1;
        if new1 && new2 {
        } else if new1 {
            assert(st.notes.contains_key(k2));
            assert(s2.notes[k2][i2] == st.notes[k2][i2]);
            assert(loc_lt(st.notes[k2][i2], loc));
        } else if new2 {
            assert(st.notes.contains_key(k1));
            assert(s2.notes[k1][i1] == st.notes[k1][i1]);
            assert(loc_lt(st.notes[k1][i1], loc));
        } else {
            assert(st.notes.contains_key(k1));
            assert(st.notes.contains_key(k2));
            assert(s2.notes[k1][i1] == st.notes[k1][i1]);
            assert(s2.notes[k2][i2] == st.notes[k2][i2]);
        }
    }
}

/// The notes of a voice at its place in the bars.
pub open spec fn voice_at(bars: Seq<Bar>, b: int, p: int, v: int, ns: Seq<Note>) -> bool {
    forall|i: int| 0 <= i < ns.len() ==> #[trigger] note_at(bars, place(b, p, v, i)) == Some(ns[i])
}

/// Walking the notes of a voice keeps the runs sound.
proof fn lemma_notes_sound(st: ChunkState, vid: usize, ns: Seq<Note>, b: int, p: int, v: int, bars: Seq<Bar>)
    requires
        0 <= b <= usize::MAX,
        0 <= p <= usize::MAX,
        0 <= v <= usize::MAX,
        ns.len() <= usize::MAX,
        runs_sound(st, bars, place(b, p, v, 0)),
        voice_at(bars, b, p, v, ns),
    ensures
        runs_sound(notes_chunks(st, vid, ns, b, p, v), bars, place(b, p, v, ns.len() as int)),
    decreases ns.len(),
{
    if ns.len() > 0 {
        let m = ns.len() - 1;
        assert(voice_at(bars, b, p, v, ns.drop_last())) by {
            assert forall|i: int| 0 <= i < ns.drop_last().len() implies #[trigger] note_at(
                bars,
                place(b, p, v, i),
            ) == Some(ns.drop_last()[i]) by {
                assert(note_at(bars, place(b, p, v, i)) == Some(ns[i]));
            }
        }
        lemma_notes_sound(st, vid, ns.drop_last(), b, p, v, bars);
        let s1 = notes_chunks(st, vid, ns.drop_last(), b, p, v);
        if ns.last().spec_is_pause() {
            lemma_sound_later(s1, bars, place(b, p, v, m), place(b, p, v, ns.len() as int));
        } else {
            assert(note_at(bars, place(b, p, v, m)) == Some(ns[m]));
            lemma_add_sound(s1, vid, place(b, p, v, m), bars, place(b, p, v, ns.len() as int));
        }
    }
}

/// Walking a voice of a part keeps the runs sound.
proof fn lemma_voice_sound(st: ChunkState, voice: Voice, b: int, p: int, v: int, both: bool, bars: Seq<Bar>)
    requires
        0 <= b <= usize::MAX,
        0 <= p <= usize::MAX,
        0 <= v < usize::MAX,
        runs_sound(st, bars, place(b, p, v, 0)),
        voice.vtype matches VoiceType::Notes(ns) ==> voice_at(bars, b, p, v, ns.items@) && ns.items@.len()
            <= usize::MAX,
    ensures
        runs_sound(voice_chunks(st, voice, b, p, v, both), bars, place(b, p, v + 1, 0)),
{
    let vid = voice_key(p, v) as usize;
    match voice.vtype {
        VoiceType::Notes(ns) => {
            lemma_notes_sound(st, vid, ns.items@, b, p, v, bars);
            lemma_sound_later(
                notes_chunks(st, vid, ns.items@, b, p, v),
                bars,
                place(b, p, v, ns.items@.len() as int),
                place(b, p, v + 1, 0),
            );
        },
        _ => {
            lemma_sound_later(st, bars, place(b, p, v, 0), place(b, p, v + 1, 0));
            assert(bump(st, vid).notes == st.notes);
            assert(bump(bump(st, vid), voice_key(p, 1) as usize).notes == st.notes);
        },
    }
}

/// The notes of each voice of the part stand at their places in the bars.
pub open spec fn part_at(bars: Seq<Bar>, b: int, p: int, part: Part) -> bool {
    part.ptype matches PartType::Music(PartMusicType::Voices(vs)) ==> forall|v: int|
        #![trigger voice_of(vs, v)]
        0 <= v <= 1 ==> (voice_of(vs, v) matches Some(voice) ==> (voice.vtype matches VoiceType::Notes(ns)
            ==> voice_at(bars, b, p, v, ns.items@) && ns.items@.len() <= usize::MAX))
}

/// Walking a part of a bar keeps the runs sound.
proof fn lemma_part_sound(st: ChunkState, part: Part, b: int, p: int, bars: Seq<Bar>)
    requires
        0 <= b <= usize::MAX,
        0 <= p < usize::MAX,
        runs_sound(st, bars, place(b, p, 0, 0)),
        part_at(bars, b, p, part),
    ensures
        runs_sound(part_chunks(st, part, b, p), bars, place(b, p + 1, 0, 0)),
{
    match part.ptype {
        PartType::Music(PartMusicType::Voices(Voices::One(v))) => {
            assert(voice_of(Voices::One(v), 0) == Some(v));
            let s0 = ensure_key(st, voice_key(p, 0) as usize);
            assert(s0.notes == st.notes);
            lemma_voice_sound(s0, v, b, p, 0, true, bars);
            lemma_sound_later(voice_chunks(s0, v, b, p, 0, true), bars, place(b, p, 1, 0), place(b, p + 1, 0, 0));
        },
        PartType::Music(PartMusicType::Voices(Voices::Two(u, l))) => {
            assert(voice_of(Voices::Two(u, l), 0) == Some(u));
            assert(voice_of(Voices::Two(u, l), 1) == Some(l));
            let s0 = ensure_key(st, voice_key(p, 0) as usize);
            assert(s0.notes == st.notes);
            lemma_voice_sound(s0, u, b, p, 0, false, bars);
            let s1 = voice_chunks(s0, u, b, p, 0, false);
            let s2 = ensure_key(s1, voice_key(p, 1) as usize);
            assert(s2.notes == s1.notes);
            lemma_voice_sound(s2, l, b, p, 1, false, bars);
            lemma_sound_later(voice_chunks(s2, l, b, p, 1, false), bars, place(b, p, 2, 0), place(b, p + 1, 0, 0));
        },
        _ => {
            lemma_sound_later(st, bars, place(b, p, 0, 0), place(b, p + 1, 0, 0));
        },
    }
}

/// The bars and their parts are few enough, and each part has few enough
/// notes, to be counted in a `usize`.
pub open spec fn sizes_fit(bars: Seq<Bar>) -> bool {
    &&& bars.len() <= usize::MAX
    &&& forall|b: int|
        0 <= b < bars.len() ==> ((#[trigger] bars[b]).btype matches BarType::Standard(ps) ==> ps@.len()
            < usize::MAX && forall|p: int| 0 <= p < ps@.len() ==> part_events(#[trigger] ps@[p]) <= usize::MAX)
}

/// Each part of bar `b` stands at its place in the bars.
proof fn lemma_parts_at(bars: Seq<Bar>, b: int, p: int)
    requires
        sizes_fit(bars),
        0 <= b < bars.len(),
        bars[b].btype matches BarType::Standard(ps) && 0 <= p < ps@.len(),
    ensures
        bars[b].btype matches BarType::Standard(ps) && part_at(bars, b, p, ps@[p]),
{
    match bars[b].btype {
        BarType::Standard(ps) => {
            let part = ps@[p];
            assert(part_events(part) <= usize::MAX);
            match part.ptype {
                PartType::Music(PartMusicType::Voices(vs)) => {
                    assert forall|v: int|
                        #![trigger voice_of(vs, v)]
                        0 <= v <= 1 implies (voice_of(vs, v) matches Some(voice) ==> (
                        voice.vtype matches VoiceType::Notes(ns) ==> voice_at(bars, b, p, v, ns.items@)
                            && ns.items@.len() <= usize::MAX)) by {
                        match voice_of(vs, v) {
                            Some(voice) => match voice.vtype {
                                VoiceType::Notes(ns) => {
                                    assert(voice_events(voice) == ns.items@.len());
                                    assert(voice_events(voice) <= part_events(part));
                                    assert forall|i: int| 0 <= i < ns.items@.len() implies #[trigger] note_at(
                                        bars,
                                        place(b, p, v, i),
                                    ) == Some(ns.items@[i]) by {}
                                },
                                _ => {},
                            },
                            None => {},
                        }
                    }
                },
                _ => {},
            }
        },
        _ => {},
    }
}

/// Walking a prefix of the parts of bar `b` keeps the runs sound.
proof fn lemma_parts_sound(st: ChunkState, bars: Seq<Bar>, b: int, m: int)
    requires
        sizes_fit(bars),
        0 <= b < bars.len(),
        bars[b].btype matches BarType::Standard(ps) && 0 <= m <= ps@.len(),
        runs_sound(st, bars, place(b, 0, 0, 0)),
    ensures
        bars[b].btype matches BarType::Standard(ps) && runs_sound(
            parts_chunks(st, ps@.take(m), b),
            bars,
            place(b, m, 0, 0),
        ),
    decreases m,
{
    match bars[b].btype {
        BarType::Standard(ps) => {
            if m == 0 {
                assert(ps@.take(0).len() == 0);
            } else {
                lemma_parts_sound(st, bars, b, m - 1);
                assert(ps@.take(m).drop_last() =~= ps@.take(m - 1));
                assert(ps@.take(m).last() == ps@[m - 1]);
                lemma_parts_at(bars, b, m - 1);
                lemma_part_sound(parts_chunks(st, ps@.take(m - 1), b), ps@[m - 1], b, m - 1, bars);
            }
        },
        _ => {},
    }
}

/// Walking the first `k` bars leaves the runs sound.
pub proof fn lemma_bars_sound(bars: Seq<Bar>, k: int, n: int)
    requires
        sizes_fit(bars),
        0 <= k <= bars.len(),
    ensures
        runs_sound(bars_chunks(bars.take(k), n), bars, place(k, 0, 0, 0)),
    decreases k,
{
    if k == 0 {
        assert(bars.take(0).len() == 0);
        let s = bars_chunks(bars.take(0), n);
        assert(s == chunk_start(n));
        lemma_start_empty(n);
    } else {
        lemma_bars_sound(bars, k - 1, n);
        assert(bars.take(k).drop_last() =~= bars.take(k - 1));
        assert(bars.take(k).last() == bars[k - 1]);
        let s = bars_chunks(bars.take(k - 1), n);
        match bars[k - 1].btype {
            BarType::Standard(ps) => {
                lemma_parts_sound(s, bars, k - 1, ps@.len() as int);
                assert(ps@.take(ps@.len() as int) =~= ps@);
                lemma_sound_later(
                    parts_chunks(s, ps@, k - 1),
                    bars,
                    place(k - 1, ps@.len() as int, 0, 0),
                    place(k, 0, 0, 0),
                );
            },
            BarType::MultiRest(_) => {
                lemma_rest_notes(s, n);
                lemma_sound_later(s, bars, place(k - 1, 0, 0, 0), place(k, 0, 0, 0));
            },
            _ => {
                lemma_sound_later(s, bars, place(k - 1, 0, 0, 0), place(k, 0, 0, 0));
            },
        }
    }
}

/// Ending runs over a rest leaves the runs' notes alone.
proof fn lemma_rest_notes(st: ChunkState, n: int)
    ensures
        rest_chunks(st, n).notes == st.notes,
    decreases n,
{
    if n > 0 {
        lemma_rest_notes(st, n - 1);
    }
}

/// Before the first bar there are no runs.
proof fn lemma_start_empty(n: int)
    ensures
        chunk_start(n).notes == Map::<usize, Seq<NoteLoc>>::empty(),
    decreases n,
{
    if n > 0 {
        lemma_start_empty(n - 1);
    }
}

/// Where a walk of all the bars's steps fit in a `usize`, so do the sizes.
pub proof fn lemma_sizes_fit(bars: Seq<Bar>, n: int)
    requires
        n >= 0,
        n + bars_events(bars, n) < usize::MAX,
        total_parts(bars) <= n,
        bars.len() <= usize::MAX,
    ensures
        sizes_fit(bars),
{
    assert forall|b: int| 0 <= b < bars.len() implies ((#[trigger] bars[b]).btype matches BarType::Standard(ps)
        ==> ps@.len() < usize::MAX && forall|p: int|
        0 <= p < ps@.len() ==> part_events(#[trigger] ps@[p]) <= usize::MAX) by {
        match bars[b].btype {
            BarType::Standard(ps) => {
                lemma_bars_events_take(bars, b, n);
                lemma_bars_events_take(bars, b + 1, n);
                assert(bars.take(b + 1).drop_last() =~= bars.take(b));
                assert(bars.take(b + 1).last() == bars[b]);
                lemma_parts_within_total(bars, b);
                assert forall|p: int| 0 <= p < ps@.len() implies part_events(#[trigger] ps@[p]) <= usize::MAX by {
                    lemma_events_take(ps@, p);
                    lemma_events_take(ps@, p + 1);
                    assert(ps@.take(p + 1).drop_last() =~= ps@.take(p));
                    assert(ps@.take(p + 1).last() == ps@[p]);
                }
            },
            _ => {},
        }
    }
}

} // verus!
