//! Runs of consecutive sounding notes of each voice of each part, over all
//! bars: a pause, a bar pause or a rest over several bars ends a run.

use std::collections::BTreeMap;
use vstd::prelude::*;
use vstd::std_specs::iter::IteratorSpec;

use crate::bar::{lemma_total_parts_prefix, total_parts, Bar, BarType, Bars};
use crate::note::Note;
use crate::part::{Part, PartMusicType, PartType};
use crate::runs::{lemma_bars_sound, lemma_sizes_fit};
use crate::score::note_at;
use crate::voice::{Voice, VoiceType, Voices};

verus! {

broadcast use vstd::laws_cmp::group_laws_cmp;

/// Where a note stands: its bar, its part in the bar, its voice in the
/// part (0 the upper or only one, 1 the lower) and its index in the voice.
#[derive(Debug, Clone, Copy, PartialEq, Eq, Structural)]
pub struct NoteLoc {
    pub bar: usize,
    pub part: usize,
    pub voice: usize,
    pub note: usize,
}

/// The notes of a run, by where they stand.
pub type NotesChunk = Vec<NoteLoc>;

/// While the bars are walked: for each voice key the number of runs it has
/// ended, and for each run key the notes of the run.
pub struct ChunkState {
    pub idx: Map<usize, usize>,
    pub notes: Map<usize, Seq<NoteLoc>>,
}

/// The key of voice `v` of part `p`; the key of its `c`-th run is this
/// key plus `c`.
pub open spec fn voice_key(p: int, v: int) -> int {
    (p + 1) * 1_000_000 + v * 1000
}

/// A sounding note joins the current run of its voice.
pub open spec fn add_note(st: ChunkState, vid: usize, loc: NoteLoc) -> ChunkState {
    let cur = (vid + st.idx[vid]) as usize;
    let before = if st.notes.contains_key(cur) { st.notes[cur] } else { Seq::empty() };
    ChunkState { idx: st.idx, notes: st.notes.insert(cur, before.push(loc)) }
}

/// The current run of a voice ends.
pub open spec fn bump(st: ChunkState, vid: usize) -> ChunkState {
    ChunkState { idx: st.idx.insert(vid, (st.idx[vid] + 1) as usize), notes: st.notes }
}

/// A voice met for the first time starts at run 0.
pub open spec fn ensure_key(st: ChunkState, vid: usize) -> ChunkState {
    if st.idx.contains_key(vid) {
        st
    } else {
        ChunkState { idx: st.idx.insert(vid, 0), notes: st.notes }
    }
}

/// The notes of a voice walked in order: a pause ends the run, any other
/// note joins it.
pub open spec fn notes_chunks(st: ChunkState, vid: usize, ns: Seq<Note>, b: int, p: int, v: int) -> ChunkState
    decreases ns.len(),
{
    if ns.len() == 0 {
        st
    } else {
        let s1 = notes_chunks(st, vid, ns.drop_last(), b, p, v);
        if ns.last().spec_is_pause() {
            bump(s1, vid)
        } else {
            add_note(s1, vid, NoteLoc { bar: b as usize, part: p as usize, voice: v as usize, note: (ns.len() - 1) as usize })
        }
    }
}

/// A voice of a part walked: its notes, or, for a bar pause, the end of
/// its run (and, where `both`, of the run of the part's lower voice too).
pub open spec fn voice_chunks(st: ChunkState, voice: Voice, b: int, p: int, v: int, both: bool) -> ChunkState {
    let vid = voice_key(p, v) as usize;
    match voice.vtype {
        VoiceType::Notes(ns) => notes_chunks(st, vid, ns.items@, b, p, v),
        _ => if both {
            bump(bump(st, vid), voice_key(p, 1) as usize)
        } else {
            bump(st, vid)
        },
    }
}

/// A part of a bar walked: its one voice, or its upper and then its lower
/// voice; a part without voices changes nothing.
pub open spec fn part_chunks(st: ChunkState, part: Part, b: int, p: int) -> ChunkState {
    match part.ptype {
        PartType::Music(PartMusicType::Voices(Voices::One(v))) => voice_chunks(
            ensure_key(st, voice_key(p, 0) as usize),
            v,
            b,
            p,
            0,
            true,
        ),
        PartType::Music(PartMusicType::Voices(Voices::Two(u, l))) => {
            let s1 = voice_chunks(ensure_key(st, voice_key(p, 0) as usize), u, b, p, 0, false);
            voice_chunks(ensure_key(s1, voice_key(p, 1) as usize), l, b, p, 1, false)
        },
        _ => st,
    }
}

/// The parts of a bar walked in order.
pub open spec fn parts_chunks(st: ChunkState, parts: Seq<Part>, b: int) -> ChunkState
    decreases parts.len(),
{
    if parts.len() == 0 {
        st
    } else {
        part_chunks(parts_chunks(st, parts.drop_last(), b), parts.last(), b, parts.len() - 1)
    }
}

/// A rest over several bars ends the runs of both voices of the first `n`
/// parts.
pub open spec fn rest_chunks(st: ChunkState, n: int) -> ChunkState
    decreases n,
{
    if n <= 0 {
        st
    } else {
        let s1 = rest_chunks(st, n - 1);
        bump(bump(s1, voice_key(n - 1, 0) as usize), voice_key(n - 1, 1) as usize)
    }
}

/// A bar walked: a bar of parts its parts, a rest over several bars the
/// ends of runs; other bars change nothing.
pub open spec fn bar_chunks(st: ChunkState, bar: Bar, b: int, n: int) -> ChunkState {
    match bar.btype {
        BarType::Standard(parts) => parts_chunks(st, parts@, b),
        BarType::MultiRest(_) => rest_chunks(st, n),
        _ => st,
    }
}

/// Before the first bar: run 0 for both voices of each of the `n` parts.
pub open spec fn chunk_start(n: int) -> ChunkState
    decreases n,
{
    if n <= 0 {
        ChunkState { idx: Map::empty(), notes: Map::empty() }
    } else {
        let s = chunk_start(n - 1);
        ChunkState {
            idx: s.idx.insert(voice_key(n - 1, 0) as usize, 0).insert(voice_key(n - 1, 1) as usize, 0),
            notes: s.notes,
        }
    }
}

/// The bars walked in order.
pub open spec fn bars_chunks(bars: Seq<Bar>, n: int) -> ChunkState
    decreases bars.len(),
{
    if bars.len() == 0 {
        chunk_start(n)
    } else {
        bar_chunks(bars_chunks(bars.drop_last(), n), bars.last(), bars.len() - 1, n)
    }
}

/// How many steps a voice can take: one for each of its notes, two for a
/// bar pause.
pub open spec fn voice_events(v: Voice) -> int {
    match v.vtype {
        VoiceType::Notes(ns) => ns.items@.len() as int,
        _ => 2,
    }
}

pub open spec fn part_events(part: Part) -> int {
    match part.ptype {
        PartType::Music(PartMusicType::Voices(Voices::One(v))) => voice_events(v),
        PartType::Music(PartMusicType::Voices(Voices::Two(u, l))) => voice_events(u) + voice_events(l),
        _ => 0,
    }
}

pub open spec fn parts_events(parts: Seq<Part>) -> int
    decreases parts.len(),
{
    if parts.len() == 0 {
        0
    } else {
        parts_events(parts.drop_last()) + part_events(parts.last())
    }
}

/// How many steps the walk of the bars takes at most.
pub open spec fn bars_events(bars: Seq<Bar>, n: int) -> int
    decreases bars.len(),
{
    if bars.len() == 0 {
        0
    } else {
        bars_events(bars.drop_last(), n) + match bars.last().btype {
            BarType::Standard(parts) => parts_events(parts@),
            BarType::MultiRest(_) => 2 * n,
            _ => 0,
        }
    }
}

/// The result of the walk: for each run key in increasing order, the part
/// index (the key divided by a million), the number that the key gives
/// for the voice (the key less a million, divided by a thousand), and the
/// notes of the run.
pub open spec fn chunks_listed(r: Seq<(usize, usize, NotesChunk)>, notes: Map<usize, Seq<NoteLoc>>) -> bool {
    exists|ks: Seq<usize>|
        {
            &&& ks.len() == r.len()
            &&& ks.to_set() == notes.dom()
            &&& forall|i: int, j: int| 0 <= i < j < ks.len() ==> ks[i] < ks[j]
            &&& forall|i: int|
                0 <= i < ks.len() ==> (#[trigger] r[i]).0 == ks[i] / 1_000_000 && r[i].1 == (ks[i] - 1_000_000)
                    / 1000 && r[i].2@ == notes[ks[i]]
        }
}

/// The runs of the exec maps, as the contracts see them.
pub open spec fn notes_view(m: Map<usize, Vec<NoteLoc>>) -> Map<usize, Seq<NoteLoc>> {
    m.map_values(|v: Vec<NoteLoc>| v@)
}

/// The walk's maps are sound so far: no voice has ended more than `c`
/// runs, and every key lies at or above the first voice key.
pub open spec fn chunks_ok(st: ChunkState, c: int) -> bool {
    &&& forall|k: usize| #[trigger] st.idx.contains_key(k) ==> st.idx[k] <= c && k >= 1_000_000
    &&& forall|k: usize| #[trigger] st.notes.contains_key(k) ==> k >= 1_000_000 && st.notes[k].len() > 0
}

/// Walking keeps the voice keys known and adds no others but `vid`.
pub open spec fn keys_kept(a: ChunkState, b: ChunkState) -> bool {
    forall|k: usize| #[trigger] a.idx.contains_key(k) ==> b.idx.contains_key(k)
}

/// Ends the current run of a voice.
fn bump_exec(idx: &mut BTreeMap<usize, usize>, vid: usize, Ghost(c): Ghost<int>)
    requires
        old(idx)@.contains_key(vid),
        old(idx)@[vid] <= c,
        c + 1 <= usize::MAX,
    ensures
        final(idx)@ == old(idx)@.insert(vid, (old(idx)@[vid] + 1) as usize),
{
    let cur: usize = *idx.get(&vid).unwrap();
    idx.insert(vid, cur + 1);
}

/// Walks the notes of a voice (see `notes_chunks`).
fn walk_notes(
    ns: &Vec<Note>,
    vid: usize,
    b: usize,
    p: usize,
    v: usize,
    idx: &mut BTreeMap<usize, usize>,
    notes: &mut BTreeMap<usize, Vec<NoteLoc>>,
    Ghost(c): Ghost<int>,
)
    requires
        old(idx)@.contains_key(vid),
        vid >= 1_000_000,
        c >= 0,
        vid + c + ns@.len() <= usize::MAX,
        chunks_ok(ChunkState { idx: old(idx)@, notes: notes_view(old(notes)@) }, c),
    ensures
        ({
            let st = notes_chunks(
                ChunkState { idx: old(idx)@, notes: notes_view(old(notes)@) },
                vid,
                ns@,
                b as int,
                p as int,
                v as int,
            );
            &&& final(idx)@ == st.idx
            &&& notes_view(final(notes)@) == st.notes
            &&& chunks_ok(st, c + ns@.len())
            &&& keys_kept(ChunkState { idx: old(idx)@, notes: notes_view(old(notes)@) }, st)
            &&& forall|k: usize| #[trigger] st.idx.contains_key(k) ==> old(idx)@.contains_key(k)
        }),
{
    let ghost st0 = ChunkState { idx: idx@, notes: notes_view(notes@) };
    let mut i: usize = 0;
    while i < ns.len()
        invariant
            i <= ns@.len(),
            vid >= 1_000_000,
            c >= 0,
            vid + c + ns@.len() <= usize::MAX,
            idx@.contains_key(vid),
            ({
                let st = notes_chunks(st0, vid, ns@.take(i as int), b as int, p as int, v as int);
                &&& idx@ == st.idx
                &&& notes_view(notes@) == st.notes
                &&& chunks_ok(st, c + i)
                &&& keys_kept(st0, st)
                &&& forall|k: usize| #[trigger] st.idx.contains_key(k) ==> st0.idx.contains_key(k)
            }),
        decreases ns@.len() - i,
    {
        proof {
            assert(ns@.take(i + 1).drop_last() =~= ns@.take(i as int));
            assert(ns@.take(i + 1).last() == ns@[i as int]);
        }
        let cur_idx: usize = *idx.get(&vid).unwrap();
        let cur = vid + cur_idx;
        if ns[i].is_pause() {
            idx.insert(vid, cur_idx + 1);
        } else {
            let loc = NoteLoc { bar: b, part: p, voice: v, note: i };
            let ghost before = notes@;
            let mut run: Vec<NoteLoc> = match notes.remove(&cur) {
                Some(r) => r,
                None => Vec::new(),
            };
            run.push(loc);
            notes.insert(cur, run);
            proof {
                let st = notes_chunks(st0, vid, ns@.take(i as int), b as int, p as int, v as int);
                assert(notes_view(notes@) =~= add_note(st, vid, loc).notes);
            }
        }
        i = i + 1;
    }
    assert(ns@.take(ns@.len() as int) =~= ns@);
}

/// Both voice keys of each of the first `n` parts are known.
pub open spec fn has_voice_keys(st: ChunkState, n: int) -> bool {
    forall|p: int|
        0 <= p < n ==> st.idx.contains_key(#[trigger] voice_key(p, 0) as usize) && st.idx.contains_key(
            voice_key(p, 1) as usize,
        )
}

/// Walks a voice of a part (see `voice_chunks`).
fn walk_voice(
    voice: &Voice,
    b: usize,
    p: usize,
    v: usize,
    both: bool,
    idx: &mut BTreeMap<usize, usize>,
    notes: &mut BTreeMap<usize, Vec<NoteLoc>>,
    Ghost(c): Ghost<int>,
)
    requires
        v <= 1,
        c >= 0,
        voice_key(p as int, 1) + c + voice_events(*voice) <= usize::MAX,
        old(idx)@.contains_key(voice_key(p as int, v as int) as usize),
        both ==> old(idx)@.contains_key(voice_key(p as int, 1) as usize),
        chunks_ok(ChunkState { idx: old(idx)@, notes: notes_view(old(notes)@) }, c),
    ensures
        ({
            let st0 = ChunkState { idx: old(idx)@, notes: notes_view(old(notes)@) };
            let st = voice_chunks(st0, *voice, b as int, p as int, v as int, both);
            &&& final(idx)@ == st.idx
            &&& notes_view(final(notes)@) == st.notes
            &&& chunks_ok(st, c + voice_events(*voice))
            &&& keys_kept(st0, st)
            &&& forall|k: usize| #[trigger] st.idx.contains_key(k) ==> st0.idx.contains_key(k)
        }),
{
    let vid: usize = (p + 1) * 1_000_000 + v * 1000;
    let ghost st0 = ChunkState { idx: idx@, notes: notes_view(notes@) };
    assert(st0.idx.contains_key(vid) && st0.idx[vid] <= c);
    match &voice.vtype {
        VoiceType::Notes(ns) => {
            walk_notes(&ns.items, vid, b, p, v, idx, notes, Ghost(c));
        },
        _ => {
            bump_exec(idx, vid, Ghost(c));
            if both {
                let vid2: usize = (p + 1) * 1_000_000 + 1000;
                assert(st0.idx.contains_key(vid2) && st0.idx[vid2] <= c);
                assert(idx@.contains_key(vid2) && idx@[vid2] <= c + 1);
                bump_exec(idx, vid2, Ghost(c + 1));
            }
            proof {
                let st = voice_chunks(st0, *voice, b as int, p as int, v as int, both);
                assert(idx@ == st.idx);
                assert forall|k: usize| #[trigger] st.idx.contains_key(k) implies st.idx[k] <= c + voice_events(
                    *voice,
                ) && k >= 1_000_000 by {
                    assert(st0.idx.contains_key(k));
                }
            }
        },
    }
}

/// Walks a part of a bar (see `part_chunks`).
fn walk_part(
    part: &Part,
    b: usize,
    p: usize,
    idx: &mut BTreeMap<usize, usize>,
    notes: &mut BTreeMap<usize, Vec<NoteLoc>>,
    Ghost(c): Ghost<int>,
)
    requires
        c >= 0,
        voice_key(p as int, 1) + c + part_events(*part) <= usize::MAX,
        old(idx)@.contains_key(voice_key(p as int, 1) as usize),
        chunks_ok(ChunkState { idx: old(idx)@, notes: notes_view(old(notes)@) }, c),
    ensures
        ({
            let st0 = ChunkState { idx: old(idx)@, notes: notes_view(old(notes)@) };
            let st = part_chunks(st0, *part, b as int, p as int);
            &&& final(idx)@ == st.idx
            &&& notes_view(final(notes)@) == st.notes
            &&& chunks_ok(st, c + part_events(*part))
            &&& keys_kept(st0, st)
            &&& forall|k: usize|
                #[trigger] st.idx.contains_key(k) ==> st0.idx.contains_key(k) || k == voice_key(p as int, 0)
        }),
{
    let vid0: usize = (p + 1) * 1_000_000;
    let ghost st0 = ChunkState { idx: idx@, notes: notes_view(notes@) };
    match &part.ptype {
        PartType::Music(PartMusicType::Voices(Voices::One(v))) => {
            if !idx.contains_key(&vid0) {
                idx.insert(vid0, 0);
            }
            proof {
                let s1 = ensure_key(st0, vid0);
                assert(idx@ == s1.idx);
                assert forall|k: usize| #[trigger] s1.idx.contains_key(k) implies s1.idx[k] <= c && k >= 1_000_000 by {
                    if k != vid0 {
                        assert(st0.idx.contains_key(k));
                    }
                }
                assert(chunks_ok(s1, c));
            }
            let ghost s1 = ChunkState { idx: idx@, notes: notes_view(notes@) };
            walk_voice(v, b, p, 0, true, idx, notes, Ghost(c));
            proof {
                let s3 = ChunkState { idx: idx@, notes: notes_view(notes@) };
                assert forall|k: usize| #[trigger] st0.idx.contains_key(k) implies s3.idx.contains_key(k) by {
                    assert(s1.idx.contains_key(k));
                }
                assert forall|k: usize| #[trigger] s3.idx.contains_key(k) implies st0.idx.contains_key(k) || k
                    == voice_key(p as int, 0) by {
                    assert(s1.idx.contains_key(k));
                }
            }
        },
        PartType::Music(PartMusicType::Voices(Voices::Two(u, l))) => {
            if !idx.contains_key(&vid0) {
                idx.insert(vid0, 0);
            }
            proof {
                let s1 = ensure_key(st0, vid0);
                assert(idx@ == s1.idx);
                assert forall|k: usize| #[trigger] s1.idx.contains_key(k) implies s1.idx[k] <= c && k >= 1_000_000 by {
                    if k != vid0 {
                        assert(st0.idx.contains_key(k));
                    }
                }
                assert(chunks_ok(s1, c));
            }
            let ghost s1 = ChunkState { idx: idx@, notes: notes_view(notes@) };
            walk_voice(u, b, p, 0, false, idx, notes, Ghost(c));
            let vid1: usize = (p + 1) * 1_000_000 + 1000;
            let ghost s2 = ChunkState { idx: idx@, notes: notes_view(notes@) };
            assert(st0.idx.contains_key(vid1));
            assert(s1.idx.contains_key(vid1));
            assert(keys_kept(s1, s2));
            assert(s2.idx.contains_key(vid1));
            if !idx.contains_key(&vid1) {
                idx.insert(vid1, 0);
            }
            assert(idx@ == ensure_key(s2, vid1).idx);
            walk_voice(l, b, p, 1, false, idx, notes, Ghost(c + voice_events(*u)));
            proof {
                let s3 = ChunkState { idx: idx@, notes: notes_view(notes@) };
                assert forall|k: usize| #[trigger] st0.idx.contains_key(k) implies s3.idx.contains_key(k) by {
                    assert(s1.idx.contains_key(k));
                    assert(s2.idx.contains_key(k));
                }
                assert forall|k: usize| #[trigger] s3.idx.contains_key(k) implies st0.idx.contains_key(k) || k
                    == voice_key(p as int, 0) by {
                    assert(s2.idx.contains_key(k));
                    assert(s1.idx.contains_key(k));
                }
            }
        },
        _ => {},
    }
}

/// The keys of the runs in increasing order.
fn sorted_keys(m: &BTreeMap<usize, Vec<NoteLoc>>) -> (r: Vec<usize>)
    ensures
        r@.to_set() == m@.dom(),
        r@.len() == m@.dom().len(),
        forall|i: int, j: int| 0 <= i < j < r@.len() ==> r@[i] < r@[j],
{
    let mut r: Vec<usize> = Vec::new();
    let ghost all = vstd::std_specs::btree::spec_btree_map_iter(m).remaining();
    for kv in iter: m.iter()
        invariant
            iter.seq() == all,
            r@ == iter.seq().take(iter.index() as int).map_values(|p: (&usize, &Vec<NoteLoc>)| *p.0),
    {
        let (k, _v) = kv;
        r.push(*k);
        assert(iter.seq().take(iter.index() + 1).map_values(|p: (&usize, &Vec<NoteLoc>)| *p.0) =~= iter.seq().take(
            iter.index() as int,
        ).map_values(|p: (&usize, &Vec<NoteLoc>)| *p.0).push(*k));
    }
    proof {
        let ks = all.map_values(|p: (&usize, &Vec<NoteLoc>)| *p.0);
        assert(all.take(all.len() as int) =~= all);
        assert(r@ == ks);
        lemma_keys_increasing(ks);
        assert forall|k: usize| #[trigger] m@.dom().contains(k) implies r@.to_set().contains(k) by {
            assert(all.contains((&k, &m@[k])));
            let i = choose|i: int| 0 <= i < all.len() && all[i] == (&k, &m@[k]);
            assert(r@[i] == k);
        }
        assert forall|k: usize| #[trigger] r@.to_set().contains(k) implies m@.dom().contains(k) by {
            let i = choose|i: int| 0 <= i < r@.len() && r@[i] == k;
            assert(m@.contains_key(*all[i].0));
        }
        assert(r@.to_set() =~= m@.dom());
    }
    r
}

/// Keys in increasing order as the map's iterator gives them are in
/// increasing numeric order.
proof fn lemma_keys_increasing(ks: Seq<usize>)
    requires
        vstd::std_specs::btree::increasing_seq(ks),
    ensures
        forall|i: int, j: int| 0 <= i < j < ks.len() ==> ks[i] < ks[j],
{
    vstd::std_specs::btree::axiom_increasing_seq_meaning(ks);
    assert(vstd::laws_cmp::obeys_cmp::<usize>());
    assert forall|i: int, j: int| 0 <= i < j < ks.len() implies ks[i] < ks[j] by {
        assert(vstd::std_specs::cmp::OrdSpec::cmp_spec(&ks[i], &ks[j]) is Less);
    }
}

pub(crate) proof fn lemma_events_nonneg(parts: Seq<Part>)
    ensures
        parts_events(parts) >= 0,
    decreases parts.len(),
{
    if parts.len() > 0 {
        lemma_events_nonneg(parts.drop_last());
    }
}

/// A prefix of the parts takes no more steps than all of them.
pub(crate) proof fn lemma_events_take(parts: Seq<Part>, k: int)
    requires
        0 <= k <= parts.len(),
    ensures
        parts_events(parts.take(k)) <= parts_events(parts),
        parts_events(parts.take(k)) >= 0,
    decreases parts.len() - k,
{
    lemma_events_nonneg(parts.take(k));
    if k < parts.len() {
        lemma_events_take(parts, k + 1);
        assert(parts.take(k + 1).drop_last() =~= parts.take(k));
    } else {
        assert(parts.take(k) =~= parts);
    }
}

/// Walks the parts of a bar (see `parts_chunks`).
fn walk_parts(
    parts: &Vec<Part>,
    b: usize,
    idx: &mut BTreeMap<usize, usize>,
    notes: &mut BTreeMap<usize, Vec<NoteLoc>>,
    Ghost(c): Ghost<int>,
)
    requires
        c >= 0,
        voice_key(parts@.len() as int, 1) + c + parts_events(parts@) <= usize::MAX,
        has_voice_keys(ChunkState { idx: old(idx)@, notes: notes_view(old(notes)@) }, parts@.len() as int),
        chunks_ok(ChunkState { idx: old(idx)@, notes: notes_view(old(notes)@) }, c),
    ensures
        ({
            let st0 = ChunkState { idx: old(idx)@, notes: notes_view(old(notes)@) };
            let st = parts_chunks(st0, parts@, b as int);
            &&& final(idx)@ == st.idx
            &&& notes_view(final(notes)@) == st.notes
            &&& chunks_ok(st, c + parts_events(parts@))
            &&& forall|k: usize| #[trigger] st.idx.contains_key(k) <==> st0.idx.contains_key(k)
        }),
{
    let ghost st0 = ChunkState { idx: idx@, notes: notes_view(notes@) };
    let mut p: usize = 0;
    assert(parts@.take(0) =~= Seq::<Part>::empty());
    while p < parts.len()
        invariant
            p <= parts@.len(),
            c >= 0,
            voice_key(parts@.len() as int, 1) + c + parts_events(parts@) <= usize::MAX,
            has_voice_keys(st0, parts@.len() as int),
            ({
                let st = parts_chunks(st0, parts@.take(p as int), b as int);
                &&& idx@ == st.idx
                &&& notes_view(notes@) == st.notes
                &&& chunks_ok(st, c + parts_events(parts@.take(p as int)))
                &&& forall|k: usize| #[trigger] st.idx.contains_key(k) <==> st0.idx.contains_key(k)
            }),
        decreases parts@.len() - p,
    {
        proof {
            assert(parts@.take(p + 1).drop_last() =~= parts@.take(p as int));
            assert(parts@.take(p + 1).last() == parts@[p as int]);
            lemma_events_take(parts@, p as int);
            lemma_events_take(parts@, p + 1);
            assert(st0.idx.contains_key(voice_key(p as int, 0) as usize));
            assert(st0.idx.contains_key(voice_key(p as int, 1) as usize));
        }
        let ghost cp = c + parts_events(parts@.take(p as int));
        let ghost sp = ChunkState { idx: idx@, notes: notes_view(notes@) };
        walk_part(&parts[p], b, p, idx, notes, Ghost(cp));
        proof {
            let s2 = ChunkState { idx: idx@, notes: notes_view(notes@) };
            assert(sp.idx.contains_key(voice_key(p as int, 0) as usize));
            assert forall|k: usize| #[trigger] s2.idx.contains_key(k) implies st0.idx.contains_key(k) by {
                if k != voice_key(p as int, 0) as usize {
                    assert(sp.idx.contains_key(k));
                }
            }
            assert forall|k: usize| #[trigger] st0.idx.contains_key(k) implies s2.idx.contains_key(k) by {
                assert(sp.idx.contains_key(k));
            }
            assert(parts_events(parts@.take(p + 1)) == parts_events(parts@.take(p as int)) + part_events(
                parts@[p as int],
            ));
        }
        p = p + 1;
    }
    assert(parts@.take(parts@.len() as int) =~= parts@);
}

/// Ends the runs of both voices of the first `n` parts (see `rest_chunks`).
fn walk_rest(n: usize, idx: &mut BTreeMap<usize, usize>, Ghost(c): Ghost<int>, Ghost(notes): Ghost<Map<usize, Seq<NoteLoc>>>)
    requires
        c >= 0,
        voice_key(n as int, 1) + c + 2 * n <= usize::MAX,
        has_voice_keys(ChunkState { idx: old(idx)@, notes }, n as int),
        chunks_ok(ChunkState { idx: old(idx)@, notes }, c),
    ensures
        ({
            let st0 = ChunkState { idx: old(idx)@, notes };
            let st = rest_chunks(st0, n as int);
            &&& final(idx)@ == st.idx
            &&& st.notes == notes
            &&& chunks_ok(st, c + 2 * n)
            &&& forall|k: usize| #[trigger] st.idx.contains_key(k) <==> st0.idx.contains_key(k)
        }),
{
    let ghost st0 = ChunkState { idx: idx@, notes };
    let mut p: usize = 0;
    while p < n
        invariant
            p <= n,
            c >= 0,
            voice_key(n as int, 1) + c + 2 * n <= usize::MAX,
            has_voice_keys(st0, n as int),
            ({
                let st = rest_chunks(st0, p as int);
                &&& idx@ == st.idx
                &&& st.notes == notes
                &&& chunks_ok(st, c + 2 * p)
                &&& forall|k: usize| #[trigger] st.idx.contains_key(k) <==> st0.idx.contains_key(k)
            }),
        decreases n - p,
    {
        let ghost st = rest_chunks(st0, p as int);
        let vid0: usize = (p + 1) * 1_000_000;
        let vid1: usize = (p + 1) * 1_000_000 + 1000;
        assert(st0.idx.contains_key(voice_key(p as int, 0) as usize));
        assert(st0.idx.contains_key(voice_key(p as int, 1) as usize));
        assert(st.idx.contains_key(vid0) && st.idx.contains_key(vid1));
        bump_exec(idx, vid0, Ghost(c + 2 * p));
        assert(idx@[vid1] <= c + 2 * p + 1);
        bump_exec(idx, vid1, Ghost(c + 2 * p + 1));
        proof {
            let s2 = rest_chunks(st0, p + 1);
            assert(idx@ == s2.idx);
            assert forall|k: usize| #[trigger] s2.idx.contains_key(k) implies s2.idx[k] <= c + 2 * (p + 1) && k
                >= 1_000_000 by {
                assert(st.idx.contains_key(k));
            }
        }
        p = p + 1;
    }
}

/// Before the first bar (see `chunk_start`).
fn start_chunks(n: usize) -> (r: BTreeMap<usize, usize>)
    requires
        voice_key(n as int, 1) <= usize::MAX,
    ensures
        r@ == chunk_start(n as int).idx,
        chunk_start(n as int).notes == Map::<usize, Seq<NoteLoc>>::empty(),
{
    let mut idx: BTreeMap<usize, usize> = BTreeMap::new();
    let mut p: usize = 0;
    while p < n
        invariant
            p <= n,
            voice_key(n as int, 1) <= usize::MAX,
            idx@ == chunk_start(p as int).idx,
            chunk_start(p as int).notes == Map::<usize, Seq<NoteLoc>>::empty(),
        decreases n - p,
    {
        idx.insert((p + 1) * 1_000_000, 0);
        idx.insert((p + 1) * 1_000_000 + 1000, 0);
        p = p + 1;
    }
    idx
}

/// The start has both voice keys of each part, all at run 0.
proof fn lemma_start_ok(n: int)
    requires
        n >= 0,
        voice_key(n, 1) <= usize::MAX,
    ensures
        has_voice_keys(chunk_start(n), n),
        chunks_ok(chunk_start(n), 0),
    decreases n,
{
    if n > 0 {
        lemma_start_ok(n - 1);
        let s = chunk_start(n);
        let s0 = chunk_start(n - 1);
        let k0 = voice_key(n - 1, 0) as usize;
        let k1 = voice_key(n - 1, 1) as usize;
        assert(k0 >= 1_000_000 && k1 >= 1_000_000);
        assert forall|k: usize| #[trigger] s.idx.contains_key(k) implies s.idx[k] <= 0 && k >= 1_000_000 by {
            if k != k0 && k != k1 {
                assert(s0.idx.contains_key(k));
            }
        }
        assert forall|p: int| 0 <= p < n implies s.idx.contains_key(#[trigger] voice_key(p, 0) as usize)
            && s.idx.contains_key(voice_key(p, 1) as usize) by {
            if p < n - 1 {
                assert(s0.idx.contains_key(voice_key(p, 0) as usize));
                assert(s0.idx.contains_key(voice_key(p, 1) as usize));
            }
        }
    }
}

/// A prefix of the bars takes no more steps than all of them.
pub(crate) proof fn lemma_bars_events_take(bars: Seq<Bar>, k: int, n: int)
    requires
        0 <= k <= bars.len(),
        n >= 0,
    ensures
        0 <= bars_events(bars.take(k), n) <= bars_events(bars, n),
    decreases bars.len() - k,
{
    lemma_bars_events_nonneg(bars.take(k), n);
    if k < bars.len() {
        lemma_bars_events_take(bars, k + 1, n);
        assert(bars.take(k + 1).drop_last() =~= bars.take(k));
        match bars[k].btype {
            BarType::Standard(parts) => lemma_events_nonneg(parts@),
            _ => {},
        }
    } else {
        assert(bars.take(k) =~= bars);
        lemma_bars_events_nonneg(bars, n);
    }
}

proof fn lemma_bars_events_nonneg(bars: Seq<Bar>, n: int)
    requires
        n >= 0,
    ensures
        bars_events(bars, n) >= 0,
    decreases bars.len(),
{
    if bars.len() > 0 {
        lemma_bars_events_nonneg(bars.drop_last(), n);
        match bars.last().btype {
            BarType::Standard(parts) => lemma_events_nonneg(parts@),
            _ => {},
        }
    }
}

/// No bar has more parts than all bars together.
pub(crate) proof fn lemma_parts_within_total(bars: Seq<Bar>, b: int)
    requires
        0 <= b < bars.len(),
    ensures
        bars[b].btype matches BarType::Standard(parts) ==> parts@.len() <= total_parts(bars),
{
    lemma_total_parts_prefix(bars, b + 1);
    lemma_total_parts_prefix(bars, b);
    assert(bars.take(b + 1).drop_last() =~= bars.take(b));
}

impl Bars {
    /// The runs of consecutive sounding notes of each voice of each part,
    /// over all bars (see `bars_chunks`), with the number of parts counted
    /// over all bars (`parts_count`, none counting as 0): for each run key
    /// in increasing order the part and voice numbers that the key gives
    /// and the notes of the run.
    pub fn consecutive_note_chunks(&self) -> (r: Vec<(usize, usize, NotesChunk)>)
        requires
            voice_key(total_parts(self.items@), 1) + bars_events(self.items@, total_parts(self.items@))
                <= usize::MAX,
        ensures
            chunks_listed(r@, bars_chunks(self.items@, total_parts(self.items@)).notes),
            forall|i: int| 0 <= i < r@.len() ==> (#[trigger] r@[i]).2@.len() > 0,
            forall|i: int, a: int|
                0 <= i < r@.len() && 0 <= a < r@[i].2@.len() ==> (note_at(self.items@, #[trigger] r@[i].2@[a])
                    matches Some(n) && !n.spec_is_pause()),
            forall|i: int, a: int, j: int, c: int|
                0 <= i < r@.len() && 0 <= j < r@.len() && 0 <= a < r@[i].2@.len() && 0 <= c < r@[j].2@.len() && (i
                    != j || a != c) ==> #[trigger] r@[i].2@[a] != #[trigger] r@[j].2@[c],
    {
        let ghost bars = self.items@;
        let ghost tn = total_parts(bars);
        proof {
            lemma_total_parts_prefix(bars, 0);
            lemma_bars_events_nonneg(bars, tn);
        }
        let n: usize = match self.parts_count() {
            Some(c) => c,
            None => 0,
        };
        let mut idx = start_chunks(n);
        let mut notes: BTreeMap<usize, Vec<NoteLoc>> = BTreeMap::new();
        proof {
            lemma_start_ok(n as int);
            assert(notes_view(notes@) =~= Map::<usize, Seq<NoteLoc>>::empty());
            assert(bars.take(0) =~= Seq::<Bar>::empty());
        }
        let mut b: usize = 0;
        while b < self.items.len()
            invariant
                bars == self.items@,
                n == tn,
                tn == total_parts(bars),
                voice_key(n as int, 1) + bars_events(bars, n as int) <= usize::MAX,
                b <= bars.len(),
                ({
                    let st = bars_chunks(bars.take(b as int), n as int);
                    &&& idx@ == st.idx
                    &&& notes_view(notes@) == st.notes
                    &&& chunks_ok(st, bars_events(bars.take(b as int), n as int))
                    &&& has_voice_keys(st, n as int)
                }),
            decreases bars.len() - b,
        {
            let ghost st = bars_chunks(bars.take(b as int), n as int);
            let ghost c = bars_events(bars.take(b as int), n as int);
            proof {
                assert(bars.take(b + 1).drop_last() =~= bars.take(b as int));
                assert(bars.take(b + 1).last() == bars[b as int]);
                lemma_bars_events_take(bars, b as int, n as int);
                lemma_bars_events_take(bars, b + 1, n as int);
                lemma_parts_within_total(bars, b as int);
            }
            match &self.items[b].btype {
                BarType::Standard(parts) => {
                    assert(has_voice_keys(st, parts@.len() as int));
                    walk_parts(parts, b, &mut idx, &mut notes, Ghost(c));
                },
                BarType::MultiRest(_) => {
                    walk_rest(n, &mut idx, Ghost(c), Ghost(st.notes));
                },
                _ => {},
            }
            proof {
                let s2 = bars_chunks(bars.take(b + 1), n as int);
                assert forall|q: int| 0 <= q < n implies s2.idx.contains_key(#[trigger] voice_key(q, 0) as usize)
                    && s2.idx.contains_key(voice_key(q, 1) as usize) by {
                    assert(st.idx.contains_key(voice_key(q, 0) as usize));
                    assert(st.idx.contains_key(voice_key(q, 1) as usize));
                }
            }
            b = b + 1;
        }
        proof {
            assert(bars.take(bars.len() as int) =~= bars);
            lemma_sizes_fit(bars, tn);
            lemma_bars_sound(bars, bars.len() as int, tn);
        }
        let ghost fin = notes_view(notes@);
        let keys = sorted_keys(&notes);
        let mut result: Vec<(usize, usize, NotesChunk)> = Vec::new();
        let mut i: usize = 0;
        while i < keys.len()
            invariant
                i <= keys@.len(),
                keys@.to_set() == fin.dom(),
                forall|x: int, y: int| 0 <= x < y < keys@.len() ==> keys@[x] < keys@[y],
                forall|k: usize| #[trigger] fin.contains_key(k) ==> k >= 1_000_000 && fin[k].len() > 0,
                forall|j: int|
                    i <= j < keys@.len() ==> notes@.contains_key(#[trigger] keys@[j]) && notes@[keys@[j]]@
                        == fin[keys@[j]],
                result@.len() == i,
                forall|j: int|
                    0 <= j < i ==> (#[trigger] result@[j]).0 == keys@[j] / 1_000_000 && result@[j].1 == (
                    keys@[j] - 1_000_000) / 1000 && result@[j].2@ == fin[keys@[j]] && result@[j].2@.len() > 0,
            decreases keys@.len() - i,
        {
            let k = keys[i];
            assert(keys@.to_set().contains(k));
            let run = notes.remove(&k).unwrap();
            proof {
                assert forall|j: int| i + 1 <= j < keys@.len() implies notes@.contains_key(#[trigger] keys@[j])
                    && notes@[keys@[j]]@ == fin[keys@[j]] by {
                    assert(keys@[i as int] < keys@[j]);
                }
            }
            result.push((k / 1_000_000, (k - 1_000_000) / 1000, run));
            i = i + 1;
        }
        proof {
            assert(keys@.len() == result@.len());
            assert forall|i: int, a: int, j: int, c: int|
                0 <= i < result@.len() && 0 <= j < result@.len() && 0 <= a < result@[i].2@.len() && 0 <= c
                    < result@[j].2@.len() && (i != j || a != c) implies #[trigger] result@[i].2@[a]
                != #[trigger] result@[j].2@[c] by {
                assert(fin.contains_key(keys@[i])) by {
                    assert(keys@.to_set().contains(keys@[i]));
                }
                assert(fin.contains_key(keys@[j])) by {
                    assert(keys@.to_set().contains(keys@[j]));
                }
                if i != j {
                    if i < j {
                        assert(keys@[i] < keys@[j]);
                    } else {
                        assert(keys@[j] < keys@[i]);
                    }
                }
            }
            assert forall|i: int, a: int|
                0 <= i < result@.len() && 0 <= a < result@[i].2@.len() implies (note_at(
                bars,
                #[trigger] result@[i].2@[a],
            ) matches Some(n) && !n.spec_is_pause()) by {
                assert(fin.contains_key(keys@[i])) by {
                    assert(keys@.to_set().contains(keys@[i]));
                }
            }
        }
        result
    }
}

} // verus!
