//! Numbering the notes of a score: each note gets an id from one running
//! count over the bars in order, the parts of a bar, the voices of a part
//! (upper first) and the notes of a voice. The count wraps around past
//! the largest `usize`.

use vstd::prelude::*;

use crate::bar::{Bar, BarType};
use crate::note::{Note, Notes};
use crate::part::{Part, PartMusicType, PartNonmusicType, PartType};
use crate::voice::{Voice, VoiceType, Voices};

verus! {

/// A count as an id: the count wrapped around past the largest `usize`.
pub open spec fn wrap(x: int) -> usize {
    (x % (usize::MAX as int + 1)) as usize
}

/// The notes of a voice: none for a bar pause.
pub open spec fn voice_len(v: Voice) -> int {
    match v.vtype {
        VoiceType::Notes(ns) => ns.items@.len() as int,
        _ => 0,
    }
}

/// The notes of one or two voices.
pub open spec fn voices_len(vs: Voices) -> int {
    match vs {
        Voices::One(v) => voice_len(v),
        Voices::Two(a, b) => voice_len(a) + voice_len(b),
    }
}

/// The notes of the voices of a part of music or lyrics; none in others.
pub open spec fn part_len(p: Part) -> int {
    match p.ptype {
        PartType::Music(PartMusicType::Voices(vs)) => voices_len(vs),
        PartType::Nonmusic(PartNonmusicType::Lyrics(vs)) => voices_len(vs),
        _ => 0,
    }
}

/// The notes of the parts.
pub open spec fn parts_len(ps: Seq<Part>) -> int
    decreases ps.len(),
{
    if ps.len() == 0 {
        0
    } else {
        parts_len(ps.drop_last()) + part_len(ps.last())
    }
}

/// The notes of a bar: those of its parts, or of its count-in.
pub open spec fn bar_len(b: Bar) -> int {
    match b.btype {
        BarType::Standard(ps) => parts_len(ps@),
        BarType::CountIn(ns) => ns.items@.len() as int,
        _ => 0,
    }
}

/// The notes of the bars.
pub open spec fn bars_len(bs: Seq<Bar>) -> int
    decreases bs.len(),
{
    if bs.len() == 0 {
        0
    } else {
        bars_len(bs.drop_last()) + bar_len(bs.last())
    }
}

/// Notes numbered from `start`: each note takes the id of its place in
/// the count; nothing else changes.
pub open spec fn notes_numbered(a: Notes, b: Notes, start: int) -> bool {
    &&& b.duration == a.duration
    &&& b.items@.len() == a.items@.len()
    &&& forall|k: int|
        0 <= k < a.items@.len() ==> #[trigger] b.items@[k] == (Note { id: wrap(start + k), ..a.items@[k] })
}

pub open spec fn voice_numbered(a: Voice, b: Voice, start: int) -> bool {
    &&& b.duration == a.duration
    &&& b.beamgroups == a.beamgroups
    &&& match a.vtype {
        VoiceType::Notes(x) => b.vtype matches VoiceType::Notes(y) && notes_numbered(x, y, start),
        _ => b.vtype == a.vtype,
    }
}

/// One or two voices numbered from `start`, the upper voice first.
pub open spec fn voices_numbered(a: Voices, b: Voices, start: int) -> bool {
    match a {
        Voices::One(x) => b matches Voices::One(y) && voice_numbered(x, y, start),
        Voices::Two(x1, x2) => b matches Voices::Two(y1, y2) && voice_numbered(x1, y1, start) && voice_numbered(
            x2,
            y2,
            start + voice_len(x1),
        ),
    }
}

/// A part with the notes of its voices numbered from `start`; a part
/// without voices is left as it is.
pub open spec fn part_numbered(a: Part, b: Part, start: int) -> bool {
    &&& b.duration == a.duration
    &&& b.complexes == a.complexes
    &&& match a.ptype {
        PartType::Music(PartMusicType::Voices(x)) => b.ptype matches PartType::Music(PartMusicType::Voices(y))
            && voices_numbered(x, y, start),
        PartType::Nonmusic(PartNonmusicType::Lyrics(x)) => b.ptype matches PartType::Nonmusic(
            PartNonmusicType::Lyrics(y),
        ) && voices_numbered(x, y, start),
        _ => b.ptype == a.ptype,
    }
}

/// Parts numbered from `start`, each going on from the parts before it.
pub open spec fn parts_numbered(a: Seq<Part>, b: Seq<Part>, start: int) -> bool {
    &&& b.len() == a.len()
    &&& forall|p: int| 0 <= p < a.len() ==> part_numbered(#[trigger] a[p], b[p], start + parts_len(a.take(p)))
}

/// A bar with its notes numbered from `start`; a bar without notes is
/// left as it is.
pub open spec fn bar_numbered(a: Bar, b: Bar, start: int) -> bool {
    &&& b.duration == a.duration
    &&& b.position == a.position
    &&& match a.btype {
        BarType::Standard(x) => b.btype matches BarType::Standard(y) && parts_numbered(x@, y@, start),
        BarType::CountIn(x) => b.btype matches BarType::CountIn(y) && notes_numbered(x, y, start),
        _ => b.btype == a.btype,
    }
}

/// Bars numbered from `start`, each going on from the bars before it.
pub open spec fn bars_numbered(a: Seq<Bar>, b: Seq<Bar>, start: int) -> bool {
    &&& b.len() == a.len()
    &&& forall|i: int| 0 <= i < a.len() ==> bar_numbered(#[trigger] a[i], b[i], start + bars_len(a.take(i)))
}

/// The count after one more.
fn next_id(n: usize, Ghost(x): Ghost<int>) -> (r: usize)
    requires
        x >= 0,
        n == wrap(x),
    ensures
        r == wrap(x + 1),
{
    let ghost m = usize::MAX as int + 1;
    assert(x == m * (x / m) + x % m && 0 <= x % m < m) by (nonlinear_arith)
        requires
            m > 0,
    ;
    if n == usize::MAX {
        assert((x + 1) % m == 0) by (nonlinear_arith)
            requires
                m > 0,
                x == m * (x / m) + x % m,
                x % m == m - 1,
        ;
        0
    } else {
        assert((x + 1) % m == x % m + 1) by (nonlinear_arith)
            requires
                m > 0,
                x == m * (x / m) + x % m,
                0 <= x % m < m - 1,
        ;
        n + 1
    }
}

/// Numbers the notes from `start` on; gives back the count after them.
fn number_items(items: &mut Vec<Note>, next: usize, Ghost(start): Ghost<int>) -> (r: usize)
    requires
        start >= 0,
        next == wrap(start),
    ensures
        final(items)@.len() == old(items)@.len(),
        forall|k: int|
            0 <= k < old(items)@.len() ==> #[trigger] final(items)@[k] == (Note { id: wrap(start + k), ..old(items)@[k] }),
        r == wrap(start + old(items)@.len()),
{
    let ghost before = items@;
    let mut n = next;
    let mut i: usize = 0;
    while i < items.len()
        invariant
            start >= 0,
            items@.len() == before.len(),
            i <= before.len(),
            n == wrap(start + i),
            forall|k: int| i <= k < before.len() ==> #[trigger] items@[k] == before[k],
            forall|k: int| 0 <= k < i ==> #[trigger] items@[k] == (Note { id: wrap(start + k), ..before[k] }),
        decreases before.len() - i,
    {
        items[i].id = n;
        n = next_id(n, Ghost(start + i));
        i = i + 1;
    }
    n
}

fn number_notes(ns: &mut Notes, next: usize, Ghost(start): Ghost<int>) -> (r: usize)
    requires
        start >= 0,
        next == wrap(start),
    ensures
        notes_numbered(*old(ns), *final(ns), start),
        r == wrap(start + old(ns).items@.len()),
{
    number_items(&mut ns.items, next, Ghost(start))
}

fn number_voice(v: &mut Voice, next: usize, Ghost(start): Ghost<int>) -> (r: usize)
    requires
        start >= 0,
        next == wrap(start),
    ensures
        voice_numbered(*old(v), *final(v), start),
        r == wrap(start + voice_len(*old(v))),
{
    match &mut v.vtype {
        VoiceType::Notes(ns) => number_notes(ns, next, Ghost(start)),
        _ => next,
    }
}

fn number_voices(vs: &mut Voices, next: usize, Ghost(start): Ghost<int>) -> (r: usize)
    requires
        start >= 0,
        next == wrap(start),
    ensures
        voices_numbered(*old(vs), *final(vs), start),
        r == wrap(start + voices_len(*old(vs))),
{
    match vs {
        Voices::One(x) => number_voice(x, next, Ghost(start)),
        Voices::Two(x, y) => {
            let ghost lx = voice_len(*x);
            let n = number_voice(x, next, Ghost(start));
            number_voice(y, n, Ghost(start + lx))
        },
    }
}

fn number_part(p: &mut Part, next: usize, Ghost(start): Ghost<int>) -> (r: usize)
    requires
        start >= 0,
        next == wrap(start),
    ensures
        part_numbered(*old(p), *final(p), start),
        r == wrap(start + part_len(*old(p))),
{
    match &mut p.ptype {
        PartType::Music(PartMusicType::Voices(vs)) => number_voices(vs, next, Ghost(start)),
        PartType::Nonmusic(PartNonmusicType::Lyrics(vs)) => number_voices(vs, next, Ghost(start)),
        _ => next,
    }
}

fn number_parts(ps: &mut Vec<Part>, next: usize, Ghost(start): Ghost<int>) -> (r: usize)
    requires
        start >= 0,
        next == wrap(start),
    ensures
        parts_numbered(old(ps)@, final(ps)@, start),
        r == wrap(start + parts_len(old(ps)@)),
{
    let ghost before = ps@;
    let mut n = next;
    let mut i: usize = 0;
    assert(before.take(0) =~= Seq::<Part>::empty());
    while i < ps.len()
        invariant
            start >= 0,
            ps@.len() == before.len(),
            i <= before.len(),
            n == wrap(start + parts_len(before.take(i as int))),
            start + parts_len(before.take(i as int)) >= 0,
            forall|q: int| i <= q < before.len() ==> #[trigger] ps@[q] == before[q],
            forall|q: int|
                0 <= q < i ==> part_numbered(#[trigger] before[q], ps@[q], start + parts_len(before.take(q))),
        decreases before.len() - i,
    {
        proof {
            assert(before.take(i + 1).drop_last() =~= before.take(i as int));
            assert(before.take(i + 1).last() == before[i as int]);
            lemma_part_len_nonneg(before[i as int]);
        }
        n = number_part(&mut ps[i], n, Ghost(start + parts_len(before.take(i as int))));
        i = i + 1;
    }
    assert(before.take(before.len() as int) =~= before);
    n
}

proof fn lemma_voice_len_nonneg(v: Voice)
    ensures
        voice_len(v) >= 0,
{
}

proof fn lemma_part_len_nonneg(p: Part)
    ensures
        part_len(p) >= 0,
{
}

proof fn lemma_parts_len_nonneg(ps: Seq<Part>)
    ensures
        parts_len(ps) >= 0,
    decreases ps.len(),
{
    if ps.len() > 0 {
        lemma_parts_len_nonneg(ps.drop_last());
        lemma_part_len_nonneg(ps.last());
    }
}

fn number_bar(b: &mut Bar, next: usize, Ghost(start): Ghost<int>) -> (r: usize)
    requires
        start >= 0,
        next == wrap(start),
    ensures
        bar_numbered(*old(b), *final(b), start),
        r == wrap(start + bar_len(*old(b))),
{
    match &mut b.btype {
        BarType::Standard(ps) => number_parts(ps, next, Ghost(start)),
        BarType::CountIn(ns) => number_notes(ns, next, Ghost(start)),
        _ => next,
    }
}

/// Numbers the notes of the bars from `start` on (see `bars_numbered`);
/// gives back the count after them.
pub fn number_bars(bs: &mut Vec<Bar>, next: usize, Ghost(start): Ghost<int>) -> (r: usize)
    requires
        start >= 0,
        next == wrap(start),
    ensures
        bars_numbered(old(bs)@, final(bs)@, start),
        r == wrap(start + bars_len(old(bs)@)),
{
    let ghost before = bs@;
    let mut n = next;
    let mut i: usize = 0;
    assert(before.take(0) =~= Seq::<Bar>::empty());
    while i < bs.len()
        invariant
            start >= 0,
            bs@.len() == before.len(),
            i <= before.len(),
            n == wrap(start + bars_len(before.take(i as int))),
            start + bars_len(before.take(i as int)) >= 0,
            forall|q: int| i <= q < before.len() ==> #[trigger] bs@[q] == before[q],
            forall|q: int|
                0 <= q < i ==> bar_numbered(#[trigger] before[q], bs@[q], start + bars_len(before.take(q))),
        decreases before.len() - i,
    {
        proof {
            assert(before.take(i + 1).drop_last() =~= before.take(i as int));
            assert(before.take(i + 1).last() == before[i as int]);
            match before[i as int].btype {
                BarType::Standard(ps) => lemma_parts_len_nonneg(ps@),
                _ => {},
            }
        }
        n = number_bar(&mut bs[i], n, Ghost(start + bars_len(before.take(i as int))));
        i = i + 1;
    }
    assert(before.take(before.len() as int) =~= before);
    n
}

} // verus!
