//! Playback data: the notes to sound, their pitches, start times and
//! lengths, and their JSON text.

use std::collections::BTreeMap;
use vstd::prelude::*;

use crate::bar::{parts_voice_counts, Bar, BarAttributeType, BarType, Bars, KeySignature};
use crate::core_defs::{Accidental, Clef, ClefSignature, Duration, Position};
use crate::head::Head;
use crate::note::{Note, NoteType};
use crate::part::{Part, PartMusicType, PartType};
use crate::voice::{Voice, VoiceType, Voices};
use crate::decimal::{decimal, u64_to_decimal};
use crate::text::push_chars;

verus! {

broadcast use vstd::laws_cmp::group_laws_cmp;

/// A key signature: a number of sharps, flats or naturals, each with the
/// clef it is written for, or none.
#[derive(Debug, PartialEq, Eq, Clone, Copy, Structural)]
pub enum Key {
    Sharps(u8, Clef),
    Flats(u8, Clef),
    Naturals(u8, Clef),
    Open,
}

/// A note to sound: its pitch (a MIDI note number), velocity, length and
/// start, and where in the score it comes from.
#[derive(Debug, Clone, Copy, PartialEq, Eq, Structural)]
pub struct PlayNote {
    pub note: u8,
    pub volocity: u8,
    pub duration: Duration,
    pub time: Position,
    pub partidx: u8,
    pub voiceidx: u8,
    pub noteidx: u8,
}

pub type PlayNotes = Vec<PlayNote>;

/// The notes to sound and the length of the whole.
#[derive(Debug)]
pub struct PlayNotesData {
    pub notes: Vec<PlayNote>,
    pub duration: Duration,
}

/// How far a clef moves the levels: a G clef six steps, an F clef six the
/// other way.
pub open spec fn clef_adjust(clef: Clef) -> int {
    match clef {
        Clef::G => 6,
        Clef::F => -6,
        Clef::C => 0,
    }
}

/// The semitones of the steps of a major scale.
pub open spec fn dia(step: int) -> int {
    seq![0int, 2, 4, 5, 7, 9, 11][step]
}

/// The step of the scale (0 to 6) at a level under a clef.
pub open spec fn level_step(clef: Clef, level: int) -> int {
    (-level + clef_adjust(clef) + 49) % 7
}

/// The pitch at a level under a clef, before the key: the octave times
/// twelve and the semitones of the step.
pub open spec fn level_note(clef: Clef, level: int) -> int {
    let inv = -level + clef_adjust(clef);
    (inv + 35) / 7 * 12 + dia(level_step(clef, level))
}

/// The pitch at a level is that of the step counted from the middle line
/// and shifted by the clef: twelve semitones an octave of seven steps.
proof fn lemma_level_note_steps(clef: Clef, l: int)
    ensures
        ({
            let i = -l + clef_adjust(clef) + 35;
            &&& level_step(clef, l) == i % 7
            &&& level_note(clef, l) == i / 7 * 12 + dia(i % 7)
        }),
{
    let i = -l + clef_adjust(clef) + 35;
    assert((i + 14) % 7 == i % 7) by (nonlinear_arith);
}

/// The pitches of the levels fit the map's numbers (0 to 127): over the
/// levels it covers, `setup_level_to_note_maps` gives each its
/// `level_note` unchanged.
pub proof fn lemma_pitches_fit(clef: Clef, l: int)
    requires
        -10 <= l <= 10,
    ensures
        0 <= level_note(clef, l) <= 127,
{
    lemma_level_note_steps(clef, l);
    let i = -l + clef_adjust(clef) + 35;
    assert(0 <= i / 7 <= 7) by (nonlinear_arith)
        requires
            13 <= i <= 51,
    ;
    assert(0 <= i % 7 < 7);
}

/// A level one step further down the staff (a higher number) sounds lower,
/// under every clef.
pub proof fn lemma_pitch_falls(clef: Clef, l: int)
    ensures
        level_note(clef, l) > level_note(clef, l + 1),
{
    lemma_level_note_steps(clef, l);
    lemma_level_note_steps(clef, l + 1);
    let i = -l + clef_adjust(clef) + 35;
    let j = i - 1;
    assert(i == 7 * (i / 7) + i % 7 && 0 <= i % 7 < 7) by (nonlinear_arith);
    assert(j == 7 * (j / 7) + j % 7 && 0 <= j % 7 < 7) by (nonlinear_arith);
    if i % 7 == 0 {
        assert(j / 7 == i / 7 - 1 && j % 7 == 6) by (nonlinear_arith)
            requires
                i == 7 * (i / 7) + i % 7,
                j == 7 * (j / 7) + j % 7,
                0 <= j % 7 < 7,
                i % 7 == 0,
                j == i - 1,
        ;
    } else {
        assert(j / 7 == i / 7 && j % 7 == i % 7 - 1) by (nonlinear_arith)
            requires
                i == 7 * (i / 7) + i % 7,
                j == 7 * (j / 7) + j % 7,
                0 <= j % 7 < 7,
                0 < i % 7 < 7,
                j == i - 1,
        ;
    }
}

/// Seven steps down the staff sound an octave (twelve semitones) lower,
/// under every clef.
pub proof fn lemma_octave_down(clef: Clef, l: int)
    ensures
        level_note(clef, l) - level_note(clef, l + 7) == 12,
{
    lemma_level_note_steps(clef, l);
    lemma_level_note_steps(clef, l + 7);
    let i = -l + clef_adjust(clef) + 35;
    assert((i - 7) / 7 == i / 7 - 1 && (i - 7) % 7 == i % 7) by (nonlinear_arith);
}

/// A level under the F clef sounds as the level twelve steps further down
/// under the G clef.
pub proof fn lemma_f_clef_shift(l: int)
    ensures
        level_note(Clef::F, l) == level_note(Clef::G, l + 12),
{
    lemma_level_note_steps(Clef::F, l);
    lemma_level_note_steps(Clef::G, l + 12);
}

/// The sign that a key puts on a step of the scale: one sharp on step 3,
/// two also on step 0; one flat on step 6, two also on step 2.
pub open spec fn key_sign(key: Key, step: int) -> Accidental {
    match key {
        Key::Sharps(n, _) => if ((n as i8) >= 1 && step == 3) || ((n as i8) >= 2 && step == 0) {
            Accidental::Sharp
        } else {
            Accidental::Natural
        },
        Key::Flats(n, _) => if ((n as i8) >= 1 && step == 6) || ((n as i8) >= 2 && step == 2) {
            Accidental::Flat
        } else {
            Accidental::Natural
        },
        _ => Accidental::Natural,
    }
}

/// The levels that the maps cover.
pub open spec fn in_level_range(level: i8) -> bool {
    -10 <= level <= 10
}

/// The signs a key puts on the notes, by pitch class (the pitch in
/// semitones above C, 0 to 11): one sharp or more sharpen every F (5), two
/// or more every C (0) as well, and nothing else; one flat or more flatten
/// every B (11), two or more every E (4) as well, and nothing else; no key
/// leaves every note natural. (A key carries its count as a byte read as a
/// signed number, so counts above 127 are left out.)
pub proof fn lemma_key_signs_by_pitch(clef: Clef, kc: Clef, n: u8, l: i8)
    requires
        in_level_range(l),
        n <= 127,
    ensures
        ({
            let pc = level_note(clef, l as int) % 12;
            &&& key_signs(clef, Key::Sharps(n, kc))[l] == (if (n >= 1 && pc == 5) || (n >= 2 && pc == 0) {
                Accidental::Sharp
            } else {
                Accidental::Natural
            })
            &&& key_signs(clef, Key::Flats(n, kc))[l] == (if (n >= 1 && pc == 11) || (n >= 2 && pc == 4) {
                Accidental::Flat
            } else {
                Accidental::Natural
            })
            &&& key_signs(clef, Key::Open)[l] == Accidental::Natural
        }),
{
    lemma_level_note_steps(clef, l as int);
    let i = -(l as int) + clef_adjust(clef) + 35;
    let q = i / 7;
    let r = i % 7;
    assert(0 <= r < 7);
    let d = dia(r);
    assert(0 <= d < 12);
    assert((q * 12 + d) % 12 == d) by (nonlinear_arith)
        requires
            0 <= d < 12,
    ;
    assert(level_note(clef, l as int) % 12 == dia(r));
    assert((n as i8) == n);
}

/// The pitches of the levels from -10 to 10 under a clef (see
/// `level_note`), as `setup_level_to_note_maps` maps them.
pub open spec fn level_notes(clef: Clef) -> Map<i8, i8> {
    Map::new(|l: i8| in_level_range(l), |l: i8| level_note(clef, l as int) as i8)
}

/// Over the levels that `setup_level_to_note_maps` maps, under any clef: a
/// level further down the staff sounds lower, seven levels down sound an
/// octave (twelve semitones) lower, and under the F clef a level sounds as
/// the level twelve further down does under the G clef.
pub proof fn lemma_level_notes_laws(clef: Clef)
    ensures
        forall|l: i8| -10 <= l < 10 ==> #[trigger] level_notes(clef)[l] > level_notes(clef)[(l + 1) as i8],
        forall|l: i8| -10 <= l <= 3 ==> #[trigger] level_notes(clef)[l] - level_notes(clef)[(l + 7) as i8] == 12,
        forall|l: i8| -10 <= l <= -2 ==> #[trigger] level_notes(Clef::F)[l] == level_notes(Clef::G)[(l + 12) as i8],
{
    assert forall|l: i8| -10 <= l < 10 implies #[trigger] level_notes(clef)[l] > level_notes(clef)[(l + 1) as i8] by {
        lemma_pitches_fit(clef, l as int);
        lemma_pitches_fit(clef, l + 1);
        lemma_pitch_falls(clef, l as int);
    }
    assert forall|l: i8| -10 <= l <= 3 implies #[trigger] level_notes(clef)[l] - level_notes(clef)[(l + 7) as i8] == 12 by {
        lemma_pitches_fit(clef, l as int);
        lemma_pitches_fit(clef, l + 7);
        lemma_octave_down(clef, l as int);
    }
    assert forall|l: i8| -10 <= l <= -2 implies #[trigger] level_notes(Clef::F)[l] == level_notes(Clef::G)[(l + 12) as i8] by {
        lemma_pitches_fit(Clef::F, l as int);
        lemma_pitches_fit(Clef::G, l + 12);
        lemma_f_clef_shift(l as int);
    }
}

/// Maps each level from -10 to 10 to its pitch under the clef and to the
/// sign that the key puts on it.
pub fn setup_level_to_note_maps(clef: &Clef, key: &Key) -> (r: (BTreeMap<i8, i8>, BTreeMap<i8, Accidental>))
    requires
        !(key is Naturals),
    ensures
        r.0@ == level_notes(*clef),
        r.1@ == key_signs(*clef, *key),
{
    let mut levels_notes: BTreeMap<i8, i8> = BTreeMap::new();
    let mut levels_keymapsign: BTreeMap<i8, Accidental> = BTreeMap::new();
    let dia_v: Vec<i8> = vec![0, 2, 4, 5, 7, 9, 11];
    let adjust: i8 = match clef {
        Clef::G => 6,
        Clef::F => -6,
        Clef::C => 0,
    };
    let mut lev: i8 = -10;
    while lev <= 10
        invariant
            -10 <= lev <= 11,
            adjust == clef_adjust(*clef),
            dia_v@ == seq![0i8, 2, 4, 5, 7, 9, 11],
            !(key is Naturals),
            levels_notes@ == Map::new(
                |l: i8| -10 <= l < lev,
                |l: i8| level_note(*clef, l as int) as i8,
            ),
            levels_keymapsign@ == Map::new(
                |l: i8| -10 <= l < lev,
                |l: i8| key_sign(*key, level_step(*clef, l as int)),
            ),
        decreases 11 - lev,
    {
        let inv: i8 = -lev + adjust;
        let oct: i8 = ((inv + 35) / 7) as i8;
        let stam: i8 = (inv + 49) % 7;
        assert(stam == level_step(*clef, lev as int));
        let note: i8 = oct * 12 + dia_v[stam as usize];
        assert(note == level_note(*clef, lev as int));
        levels_notes.insert(lev, note);
        let mut sign = Accidental::Natural;
        match key {
            Key::Sharps(count, _) => {
                let c: i8 = #[verifier::truncate] (*count as i8);
                if c >= 1 && stam == 3 {
                    sign = Accidental::Sharp;
                }
                if c >= 2 && stam == 0 {
                    sign = Accidental::Sharp;
                }
            },
            Key::Flats(count, _) => {
                let c: i8 = #[verifier::truncate] (*count as i8);
                if c >= 1 && stam == 6 {
                    sign = Accidental::Flat;
                }
                if c >= 2 && stam == 2 {
                    sign = Accidental::Flat;
                }
            },
            _ => {},
        }
        assert(sign == key_sign(*key, level_step(*clef, lev as int)));
        levels_keymapsign.insert(lev, sign);
        proof {
            assert(levels_notes@ =~= Map::new(
                |l: i8| -10 <= l < lev + 1,
                |l: i8| level_note(*clef, l as int) as i8,
            ));
            assert(levels_keymapsign@ =~= Map::new(
                |l: i8| -10 <= l < lev + 1,
                |l: i8| key_sign(*key, level_step(*clef, l as int)),
            ));
        }
        lev = lev + 1;
    }
    proof {
        assert(levels_notes@ =~= Map::new(|l: i8| in_level_range(l), |l: i8| level_note(*clef, l as int) as i8));
        assert(levels_keymapsign@ =~= Map::new(
            |l: i8| in_level_range(l),
            |l: i8| key_sign(*key, level_step(*clef, l as int)),
        ));
    }
    (levels_notes, levels_keymapsign)
}

/// The JSON text of one note, without the separator after it.
pub open spec fn note_json(p: PlayNote) -> Seq<char> {
    "\t{"@ + "\"time\": "@ + decimal(p.time as nat) + ","@ + "\"note\": "@ + decimal(p.note as nat) + ","@
        + "\"duration\": "@ + decimal(p.duration as nat) + ","@ + "\"volocity\": "@ + decimal(
        p.volocity as nat,
    ) + ","@ + "\"partidx\": "@ + decimal(p.partidx as nat) + ","@ + "\"voiceidx\": "@ + decimal(
        p.voiceidx as nat,
    ) + ","@ + "\"noteidx\": "@ + decimal(p.noteidx as nat) + "}"@
}

/// The lines of the notes: each followed by a comma unless it equals the
/// last note, then by a newline.
pub open spec fn notes_json(ps: Seq<PlayNote>, last: PlayNote) -> Seq<char>
    decreases ps.len(),
{
    if ps.len() == 0 {
        Seq::empty()
    } else {
        let p = ps.last();
        notes_json(ps.drop_last(), last) + note_json(p) + (if p != last { ","@ } else { Seq::empty() })
            + "\n"@
    }
}

/// The JSON text of playback data.
pub open spec fn play_json(duration: Duration, ps: Seq<PlayNote>) -> Seq<char> {
    "{\n"@ + "\"duration\": "@ + decimal(duration as nat) + ",\n"@ + "\"positions\": [\n"@ + notes_json(
        ps,
        ps.last(),
    ) + "]}\n"@
}

/// Appends the decimal digits of a number.
fn push_number(s: &mut String, n: u64)
    ensures
        final(s)@ == old(s)@ + decimal(n as nat),
{
    let d = u64_to_decimal(n);
    push_chars(s, d.as_slice());
}

/// Appends the JSON text of one note.
fn push_note_json(s: &mut String, p: PlayNote)
    ensures
        final(s)@ == old(s)@ + note_json(p),
{
    s.append("\t{");
    s.append("\"time\": ");
    push_number(s, p.time as u64);
    s.append(",");
    s.append("\"note\": ");
    push_number(s, p.note as u64);
    s.append(",");
    s.append("\"duration\": ");
    push_number(s, p.duration as u64);
    s.append(",");
    s.append("\"volocity\": ");
    push_number(s, p.volocity as u64);
    s.append(",");
    s.append("\"partidx\": ");
    push_number(s, p.partidx as u64);
    s.append(",");
    s.append("\"voiceidx\": ");
    push_number(s, p.voiceidx as u64);
    s.append(",");
    s.append("\"noteidx\": ");
    push_number(s, p.noteidx as u64);
    s.append("}");
    assert(final(s)@ =~= old(s)@ + note_json(p));
}

impl PlayNotesData {
    /// The data as JSON text (see `play_json`).
    pub fn to_json(&self) -> (r: String)
        ensures
            r@ == play_json(self.duration, self.notes@),
    {
        let mut s = "{\n".to_string();
        s.append("\"duration\": ");
        push_number(&mut s, self.duration as u64);
        s.append(",\n");
        s.append("\"positions\": [\n");
        let ghost head = s@;
        let ghost ps = self.notes@;
        let n = self.notes.len();
        let mut i: usize = 0;
        while i < n
            invariant
                n == ps.len(),
                ps == self.notes@,
                i <= n,
                s@ == head + notes_json(ps.take(i as int), ps.last()),
            decreases n - i,
        {
            let p = self.notes[i];
            let last = self.notes[n - 1];
            push_note_json(&mut s, p);
            let ghost mid = s@;
            if p != last {
                s.append(",");
            }
            s.append("\n");
            proof {
                reveal_strlit("");
                assert(ps.take(i + 1).drop_last() =~= ps.take(i as int));
                assert(ps.take(i + 1).last() == p);
                assert(s@ =~= head + notes_json(ps.take(i + 1), ps.last()));
            }
            i = i + 1;
        }
        s.append("]}\n");
        proof {
            assert(ps.take(n as int) =~= ps);
            assert(s@ =~= play_json(self.duration, ps));
        }
        s
    }
}

/// What a sign adds to a pitch: its index among the signs, from double
/// sharp (0) to double flat (4).
pub open spec fn sign_offset(a: Accidental) -> int {
    match a {
        Accidental::DblSharp => 0,
        Accidental::Sharp => 1,
        Accidental::Natural => 2,
        Accidental::Flat => 3,
        Accidental::DblFlat => 4,
    }
}

/// The signs that a key puts on the levels under a clef.
pub open spec fn key_signs(clef: Clef, key: Key) -> Map<i8, Accidental> {
    Map::new(|l: i8| in_level_range(l), |l: i8| key_sign(key, level_step(clef, l as int)))
}

/// Where a part of a bar is played: its clef, the start of its bar and
/// its index.
pub struct PartPlace {
    pub clef: Clef,
    pub bar_position: int,
    pub partidx: int,
}

/// A head played: the sign of its level is first set to its accidental,
/// where it has one; the pitch is that of the level and its sign.
pub open spec fn head_play(h: Head, signs: Map<i8, Accidental>, at: PartPlace, note: Note, noteidx: int) -> (
    PlayNote,
    Map<i8, Accidental>,
) {
    let signs2 = match h.accidental {
        Some(a) => signs.insert(h.level, a),
        None => signs,
    };
    (
        PlayNote {
            note: (level_note(at.clef, h.level as int) + sign_offset(signs2[h.level])) as u8,
            volocity: 100,
            duration: note.duration,
            time: (at.bar_position + note.position) as usize,
            partidx: at.partidx as u8,
            voiceidx: 0,
            noteidx: noteidx as u8,
        },
        signs2,
    )
}

/// The heads of a note played in order, each seeing the signs the ones
/// before left.
pub open spec fn heads_play(hs: Seq<Head>, signs: Map<i8, Accidental>, at: PartPlace, note: Note, noteidx: int) -> (
    Seq<PlayNote>,
    Map<i8, Accidental>,
)
    decreases hs.len(),
{
    if hs.len() == 0 {
        (Seq::empty(), signs)
    } else {
        let (ps, s1) = heads_play(hs.drop_last(), signs, at, note, noteidx);
        let (p, s2) = head_play(hs.last(), s1, at, note, noteidx);
        (ps.push(p), s2)
    }
}

/// The notes of a voice played in order; only notes with heads sound.
pub open spec fn notes_play(ns: Seq<Note>, signs: Map<i8, Accidental>, at: PartPlace) -> (
    Seq<PlayNote>,
    Map<i8, Accidental>,
)
    decreases ns.len(),
{
    if ns.len() == 0 {
        (Seq::empty(), signs)
    } else {
        let (ps, s1) = notes_play(ns.drop_last(), signs, at);
        let n = ns.last();
        match n.ntype {
            NoteType::Heads(h) => {
                let (qs, s2) = heads_play(h.heads@, s1, at, n, ns.len() - 1);
                (ps + qs, s2)
            },
            _ => (ps, s1),
        }
    }
}

/// A voice played: its notes, where it has notes.
pub open spec fn voice_play(v: Voice, signs: Map<i8, Accidental>, at: PartPlace) -> (
    Seq<PlayNote>,
    Map<i8, Accidental>,
) {
    match v.vtype {
        VoiceType::Notes(ns) => notes_play(ns.items@, signs, at),
        _ => (Seq::empty(), signs),
    }
}

/// A music part played: its voice, or its upper and then its lower voice,
/// the signs starting from the key and carried through the bar.
pub open spec fn part_play(part: Part, key: Key, at: PartPlace) -> Seq<PlayNote> {
    let init = key_signs(at.clef, key);
    match part.ptype {
        PartType::Music(PartMusicType::Voices(Voices::One(v))) => voice_play(v, init, at).0,
        PartType::Music(PartMusicType::Voices(Voices::Two(u, l))) => {
            let (a, s) = voice_play(u, init, at);
            a + voice_play(l, s, at).0
        },
        _ => Seq::empty(),
    }
}

/// The parts of a bar played in order, each under the clef and key of its
/// index.
pub open spec fn parts_play(parts: Seq<Part>, clefs: Map<usize, Clef>, keys: Map<usize, Key>, bar_position: int) -> Seq<
    PlayNote,
>
    decreases parts.len(),
{
    if parts.len() == 0 {
        Seq::empty()
    } else {
        let k = parts.len() - 1;
        parts_play(parts.drop_last(), clefs, keys, bar_position) + part_play(
            parts.last(),
            keys[k as usize],
            PartPlace { clef: clefs[k as usize], bar_position, partidx: k },
        )
    }
}

/// A count-in played: middle C for each head of each note.
pub open spec fn countin_play(ns: Seq<Note>, bar_position: int) -> Seq<PlayNote>
    decreases ns.len(),
{
    if ns.len() == 0 {
        Seq::empty()
    } else {
        let k = ns.len() - 1;
        let n = ns.last();
        countin_play(ns.drop_last(), bar_position) + match n.ntype {
            NoteType::Heads(h) => Seq::new(
                h.heads@.len(),
                |j: int|
                    PlayNote {
                        note: 60,
                        volocity: 100,
                        duration: n.duration,
                        time: (bar_position + n.position) as usize,
                        partidx: 255,
                        voiceidx: 0,
                        noteidx: k as u8,
                    },
            ),
            _ => Seq::empty(),
        }
    }
}

/// The clefs set by a clef bar: entry `k`, where it names a clef, sets
/// that of part `k`.
pub open spec fn set_clefs(clefs: Map<usize, Clef>, items: Seq<Option<ClefSignature>>) -> Map<usize, Clef>
    decreases items.len(),
{
    if items.len() == 0 {
        clefs
    } else {
        let m = set_clefs(clefs, items.drop_last());
        match items.last() {
            Some(Some(c)) => m.insert((items.len() - 1) as usize, c),
            _ => m,
        }
    }
}

/// The keys set by a key bar, as `set_clefs` sets clefs.
pub open spec fn set_keys(keys: Map<usize, Key>, items: Seq<Option<KeySignature>>) -> Map<usize, Key>
    decreases items.len(),
{
    if items.len() == 0 {
        keys
    } else {
        let m = set_keys(keys, items.drop_last());
        match items.last() {
            Some(Some(k)) => m.insert((items.len() - 1) as usize, k),
            _ => m,
        }
    }
}

/// The clefs and keys of the parts and the notes played so far.
pub struct PlayState {
    pub clefs: Map<usize, Clef>,
    pub keys: Map<usize, Key>,
    pub notes: Seq<PlayNote>,
}

/// A bar played: the parts of a bar of parts and a count-in sound; clef
/// and key bars change the clefs and keys; other bars do nothing.
pub open spec fn bar_play(st: PlayState, bar: Bar) -> PlayState {
    match bar.btype {
        BarType::Standard(parts) => PlayState {
            notes: st.notes + parts_play(parts@, st.clefs, st.keys, bar.position as int),
            ..st
        },
        BarType::CountIn(ns) => PlayState { notes: st.notes + countin_play(ns.items@, bar.position as int), ..st },
        BarType::BarAttribute(BarAttributeType::Clefs(cs)) => PlayState { clefs: set_clefs(st.clefs, cs@), ..st },
        BarType::BarAttribute(BarAttributeType::Keys(ks)) => PlayState { keys: set_keys(st.keys, ks@), ..st },
        _ => st,
    }
}

/// The bars played in order from a state.
pub open spec fn bars_play(bars: Seq<Bar>, st: PlayState) -> PlayState
    decreases bars.len(),
{
    if bars.len() == 0 {
        st
    } else {
        bar_play(bars_play(bars.drop_last(), st), bars.last())
    }
}

/// Before the first bar: a G clef and no key for each of the parts.
pub open spec fn play_start(n: int) -> PlayState {
    PlayState {
        clefs: Map::new(|p: usize| p < n, |p: usize| Clef::G),
        keys: Map::new(|p: usize| p < n, |p: usize| Key::Open),
        notes: Seq::empty(),
    }
}

/// The notes of a voice can be played from a bar at the position: their
/// start times fit and their levels lie within the maps.
pub open spec fn voice_playable(v: Voice, bar_position: int) -> bool {
    v.vtype matches VoiceType::Notes(ns) ==> forall|i: int|
        0 <= i < ns.items@.len() ==> {
            &&& bar_position + #[trigger] ns.items@[i].position <= usize::MAX
            &&& ns.items@[i].ntype matches NoteType::Heads(h) ==> forall|j: int|
                0 <= j < h.heads@.len() ==> in_level_range(#[trigger] h.heads@[j].level)
        }
}

pub open spec fn part_playable(part: Part, bar_position: int) -> bool {
    match part.ptype {
        PartType::Music(PartMusicType::Voices(Voices::One(v))) => voice_playable(v, bar_position),
        PartType::Music(PartMusicType::Voices(Voices::Two(u, l))) => voice_playable(u, bar_position)
            && voice_playable(l, bar_position),
        _ => true,
    }
}

/// A bar can be played: the start times of its notes fit, the levels of
/// its heads lie within the maps, and a key bar sets no naturals.
pub open spec fn bar_playable(bar: Bar) -> bool {
    match bar.btype {
        BarType::Standard(parts) => forall|p: int|
            0 <= p < parts@.len() ==> part_playable(#[trigger] parts@[p], bar.position as int),
        BarType::CountIn(ns) => forall|i: int|
            0 <= i < ns.items@.len() ==> bar.position + #[trigger] ns.items@[i].position <= usize::MAX,
        BarType::BarAttribute(BarAttributeType::Keys(ks)) => forall|k: int|
            0 <= k < ks@.len() ==> !(#[trigger] ks@[k] matches Some(Some(Key::Naturals(_, _)))),
        _ => true,
    }
}

/// The pitches of the levels in range lie between 24 and 95, and the steps
/// between 0 and 6.
proof fn lemma_level_note_bounds(clef: Clef, l: int)
    requires
        -10 <= l <= 10,
    ensures
        0 <= level_step(clef, l) < 7,
        24 <= level_note(clef, l) <= 95,
{
    let inv = -l + clef_adjust(clef);
    assert(19 <= inv + 35 <= 51);
    assert(2 <= (inv + 35) / 7 <= 7);
}

/// What a sign adds to a pitch (see `sign_offset`).
fn sign_index(a: Accidental) -> (r: i8)
    ensures
        r == sign_offset(a),
{
    match a {
        Accidental::DblSharp => 0,
        Accidental::Sharp => 1,
        Accidental::Natural => 2,
        Accidental::Flat => 3,
        Accidental::DblFlat => 4,
    }
}

/// The signs cover exactly the levels in range.
pub open spec fn signs_cover(signs: Map<i8, Accidental>) -> bool {
    forall|l: i8| #[trigger] signs.contains_key(l) <==> in_level_range(l)
}

proof fn lemma_heads_play_cover(hs: Seq<Head>, signs: Map<i8, Accidental>, at: PartPlace, note: Note, noteidx: int)
    requires
        signs_cover(signs),
        forall|j: int| 0 <= j < hs.len() ==> in_level_range(#[trigger] hs[j].level),
    ensures
        signs_cover(heads_play(hs, signs, at, note, noteidx).1),
    decreases hs.len(),
{
    if hs.len() > 0 {
        lemma_heads_play_cover(hs.drop_last(), signs, at, note, noteidx);
    }
}

/// Plays the heads of a note (see `heads_play`).
fn play_heads(
    heads: &Vec<Head>,
    note_map: &BTreeMap<i8, i8>,
    signs: &mut BTreeMap<i8, Accidental>,
    clef: Clef,
    note: &Note,
    noteidx: usize,
    partidx: usize,
    bar_position: usize,
    out: &mut Vec<PlayNote>,
)
    requires
        note_map@ == Map::new(|l: i8| in_level_range(l), |l: i8| level_note(clef, l as int) as i8),
        signs_cover(old(signs)@),
        forall|j: int| 0 <= j < heads@.len() ==> in_level_range(#[trigger] heads@[j].level),
        bar_position + note.position <= usize::MAX,
    ensures
        ({
            let at = PartPlace { clef, bar_position: bar_position as int, partidx: partidx as int };
            let r = heads_play(heads@, old(signs)@, at, *note, noteidx as int);
            &&& final(out)@ == old(out)@ + r.0
            &&& final(signs)@ == r.1
            &&& signs_cover(final(signs)@)
        }),
{
    let ghost at = PartPlace { clef, bar_position: bar_position as int, partidx: partidx as int };
    let ghost out0 = out@;
    let ghost signs0 = signs@;
    let mut j: usize = 0;
    while j < heads.len()
        invariant
            j <= heads@.len(),
            note_map@ == Map::new(|l: i8| in_level_range(l), |l: i8| level_note(clef, l as int) as i8),
            forall|k: int| 0 <= k < heads@.len() ==> in_level_range(#[trigger] heads@[k].level),
            bar_position + note.position <= usize::MAX,
            signs_cover(signs0),
            at == (PartPlace { clef, bar_position: bar_position as int, partidx: partidx as int }),
            out@ == out0 + heads_play(heads@.take(j as int), signs0, at, *note, noteidx as int).0,
            signs@ == heads_play(heads@.take(j as int), signs0, at, *note, noteidx as int).1,
            signs_cover(signs@),
        decreases heads@.len() - j,
    {
        let head = heads[j];
        let level = head.level;
        proof {
            assert(heads@.take(j + 1).drop_last() =~= heads@.take(j as int));
            assert(heads@.take(j + 1).last() == head);
            lemma_level_note_bounds(clef, level as int);
            assert(in_level_range(level));
            assert(note_map@.contains_key(level));
        }
        let mapnote: i8 = *note_map.get(&level).unwrap();
        match head.accidental {
            Some(a) => {
                signs.insert(level, a);
            },
            None => {},
        }
        assert(signs@.contains_key(level));
        let sign: Accidental = *signs.get(&level).unwrap();
        let offset = sign_index(sign);
        let signed_note: i8 = mapnote + offset;
        let pidx: u8 = #[verifier::truncate] (partidx as u8);
        let nidx: u8 = #[verifier::truncate] (noteidx as u8);
        let time: usize = bar_position + note.position;
        let p = PlayNote {
            note: signed_note as u8,
            volocity: 100,
            duration: note.duration,
            time,
            partidx: pidx,
            voiceidx: 0,
            noteidx: nidx,
        };
        out.push(p);
        proof {
            assert(signs@ =~= heads_play(heads@.take(j + 1), signs0, at, *note, noteidx as int).1);
            assert(signs_cover(signs@)) by {
                assert forall|l: i8| #[trigger] signs@.contains_key(l) <==> in_level_range(l) by {
                    assert(signs_cover(heads_play(heads@.take(j as int), signs0, at, *note, noteidx as int).1));
                }
            }
            assert(out@ =~= out0 + heads_play(heads@.take(j + 1), signs0, at, *note, noteidx as int).0);
        }
        j = j + 1;
    }
    proof {
        assert(heads@.take(heads@.len() as int) =~= heads@);
    }
}

/// Plays the notes of a voice (see `notes_play`).
fn play_notes(
    ns: &Vec<Note>,
    note_map: &BTreeMap<i8, i8>,
    signs: &mut BTreeMap<i8, Accidental>,
    clef: Clef,
    partidx: usize,
    bar_position: usize,
    out: &mut Vec<PlayNote>,
)
    requires
        note_map@ == Map::new(|l: i8| in_level_range(l), |l: i8| level_note(clef, l as int) as i8),
        signs_cover(old(signs)@),
        forall|i: int|
            0 <= i < ns@.len() ==> {
                &&& bar_position + #[trigger] ns@[i].position <= usize::MAX
                &&& ns@[i].ntype matches NoteType::Heads(h) ==> forall|j: int|
                    0 <= j < h.heads@.len() ==> in_level_range(#[trigger] h.heads@[j].level)
            },
    ensures
        ({
            let at = PartPlace { clef, bar_position: bar_position as int, partidx: partidx as int };
            let r = notes_play(ns@, old(signs)@, at);
            &&& final(out)@ == old(out)@ + r.0
            &&& final(signs)@ == r.1
            &&& signs_cover(final(signs)@)
        }),
{
    let ghost at = PartPlace { clef, bar_position: bar_position as int, partidx: partidx as int };
    let ghost out0 = out@;
    let ghost signs0 = signs@;
    let mut k: usize = 0;
    while k < ns.len()
        invariant
            k <= ns@.len(),
            note_map@ == Map::new(|l: i8| in_level_range(l), |l: i8| level_note(clef, l as int) as i8),
            forall|i: int|
                0 <= i < ns@.len() ==> {
                    &&& bar_position + #[trigger] ns@[i].position <= usize::MAX
                    &&& ns@[i].ntype matches NoteType::Heads(h) ==> forall|j: int|
                        0 <= j < h.heads@.len() ==> in_level_range(#[trigger] h.heads@[j].level)
                },
            at == (PartPlace { clef, bar_position: bar_position as int, partidx: partidx as int }),
            out@ == out0 + notes_play(ns@.take(k as int), signs0, at).0,
            signs@ == notes_play(ns@.take(k as int), signs0, at).1,
            signs_cover(signs@),
        decreases ns@.len() - k,
    {
        let note = &ns[k];
        proof {
            assert(ns@.take(k + 1).drop_last() =~= ns@.take(k as int));
            assert(ns@.take(k + 1).last() == *note);
        }
        let ghost before = out@;
        assert(bar_position + ns@[k as int].position <= usize::MAX);
        match &note.ntype {
            NoteType::Heads(h) => {
                assert(ns@[k as int].ntype matches NoteType::Heads(hh) && hh == *h);
                play_heads(&h.heads, note_map, signs, clef, note, k, partidx, bar_position, out);
                proof {
                    assert(out@ =~= out0 + notes_play(ns@.take(k + 1), signs0, at).0);
                }
            },
            _ => {},
        }
        k = k + 1;
    }
    proof {
        assert(ns@.take(ns@.len() as int) =~= ns@);
    }
}

/// Plays a voice (see `voice_play`).
fn play_voice(
    v: &Voice,
    note_map: &BTreeMap<i8, i8>,
    signs: &mut BTreeMap<i8, Accidental>,
    clef: Clef,
    partidx: usize,
    bar_position: usize,
    out: &mut Vec<PlayNote>,
)
    requires
        note_map@ == Map::new(|l: i8| in_level_range(l), |l: i8| level_note(clef, l as int) as i8),
        signs_cover(old(signs)@),
        voice_playable(*v, bar_position as int),
    ensures
        ({
            let at = PartPlace { clef, bar_position: bar_position as int, partidx: partidx as int };
            let r = voice_play(*v, old(signs)@, at);
            &&& final(out)@ == old(out)@ + r.0
            &&& final(signs)@ == r.1
            &&& signs_cover(final(signs)@)
        }),
{
    match &v.vtype {
        VoiceType::Notes(ns) => {
            play_notes(&ns.items, note_map, signs, clef, partidx, bar_position, out);
        },
        _ => {
            assert(out@ =~= out@ + Seq::<PlayNote>::empty());
        },
    }
}

/// Plays a part of a bar (see `part_play`).
fn play_part(part: &Part, clef: Clef, key: Key, partidx: usize, bar_position: usize, out: &mut Vec<PlayNote>)
    requires
        !(key is Naturals),
        part_playable(*part, bar_position as int),
    ensures
        final(out)@ == old(out)@ + part_play(
            *part,
            key,
            PartPlace { clef, bar_position: bar_position as int, partidx: partidx as int },
        ),
{
    let (note_map, mut signs) = setup_level_to_note_maps(&clef, &key);
    assert(signs@ == key_signs(clef, key));
    match &part.ptype {
        PartType::Music(PartMusicType::Voices(Voices::One(v))) => {
            play_voice(v, &note_map, &mut signs, clef, partidx, bar_position, out);
        },
        PartType::Music(PartMusicType::Voices(Voices::Two(u, l))) => {
            let ghost out0 = out@;
            play_voice(u, &note_map, &mut signs, clef, partidx, bar_position, out);
            play_voice(l, &note_map, &mut signs, clef, partidx, bar_position, out);
            proof {
                let at = PartPlace { clef, bar_position: bar_position as int, partidx: partidx as int };
                let (a, s) = voice_play(*u, key_signs(clef, key), at);
                assert(out@ =~= out0 + (a + voice_play(*l, s, at).0));
            }
        },
        _ => {
            assert(out@ =~= out@ + Seq::<PlayNote>::empty());
        },
    }
}

/// Plays the parts of a bar (see `parts_play`).
fn play_parts(
    parts: &Vec<Part>,
    clefs: &BTreeMap<usize, Clef>,
    keys: &BTreeMap<usize, Key>,
    bar_position: usize,
    out: &mut Vec<PlayNote>,
)
    requires
        forall|p: int| 0 <= p < parts@.len() ==> part_playable(#[trigger] parts@[p], bar_position as int),
        forall|p: usize| p < parts@.len() ==> #[trigger] clefs@.contains_key(p),
        forall|p: usize| p < parts@.len() ==> #[trigger] keys@.contains_key(p),
        forall|p: usize| #[trigger] keys@.contains_key(p) ==> !(keys@[p] is Naturals),
    ensures
        final(out)@ == old(out)@ + parts_play(parts@, clefs@, keys@, bar_position as int),
{
    let ghost out0 = out@;
    let mut p: usize = 0;
    while p < parts.len()
        invariant
            p <= parts@.len(),
            forall|q: int| 0 <= q < parts@.len() ==> part_playable(#[trigger] parts@[q], bar_position as int),
            forall|q: usize| q < parts@.len() ==> #[trigger] clefs@.contains_key(q),
            forall|q: usize| q < parts@.len() ==> #[trigger] keys@.contains_key(q),
            forall|q: usize| #[trigger] keys@.contains_key(q) ==> !(keys@[q] is Naturals),
            out@ == out0 + parts_play(parts@.take(p as int), clefs@, keys@, bar_position as int),
        decreases parts@.len() - p,
    {
        assert(clefs@.contains_key(p) && keys@.contains_key(p));
        let clef: Clef = *clefs.get(&p).unwrap();
        let key: Key = *keys.get(&p).unwrap();
        let ghost before = out@;
        play_part(&parts[p], clef, key, p, bar_position, out);
        proof {
            assert(parts@.take(p + 1).drop_last() =~= parts@.take(p as int));
            assert(parts@.take(p + 1).last() == parts@[p as int]);
            assert(out@ =~= out0 + parts_play(parts@.take(p + 1), clefs@, keys@, bar_position as int));
        }
        p = p + 1;
    }
    assert(parts@.take(parts@.len() as int) =~= parts@);
}

/// Plays a count-in (see `countin_play`).
fn play_countin(ns: &Vec<Note>, bar_position: usize, out: &mut Vec<PlayNote>)
    requires
        forall|i: int| 0 <= i < ns@.len() ==> bar_position + #[trigger] ns@[i].position <= usize::MAX,
    ensures
        final(out)@ == old(out)@ + countin_play(ns@, bar_position as int),
{
    let ghost out0 = out@;
    let mut k: usize = 0;
    while k < ns.len()
        invariant
            k <= ns@.len(),
            forall|i: int| 0 <= i < ns@.len() ==> bar_position + #[trigger] ns@[i].position <= usize::MAX,
            out@ == out0 + countin_play(ns@.take(k as int), bar_position as int),
        decreases ns@.len() - k,
    {
        let note = &ns[k];
        proof {
            assert(ns@.take(k + 1).drop_last() =~= ns@.take(k as int));
            assert(ns@.take(k + 1).last() == *note);
        }
        match &note.ntype {
            NoteType::Heads(h) => {
                let ghost before = out@;
                let nidx: u8 = #[verifier::truncate] (k as u8);
                assert(bar_position + ns@[k as int].position <= usize::MAX);
                let time: usize = bar_position + note.position;
                let mut j: usize = 0;
                while j < h.heads.len()
                    invariant
                        j <= h.heads@.len(),
                        out@.len() == before.len() + j,
                        forall|x: int| 0 <= x < before.len() ==> #[trigger] out@[x] == before[x],
                        forall|x: int|
                            before.len() <= x < out@.len() ==> #[trigger] out@[x] == (PlayNote {
                                note: 60,
                                volocity: 100,
                                duration: note.duration,
                                time,
                                partidx: 255,
                                voiceidx: 0,
                                noteidx: nidx,
                            }),
                    decreases h.heads@.len() - j,
                {
                    out.push(PlayNote {
                        note: 60,
                        volocity: 100,
                        duration: note.duration,
                        time,
                        partidx: 255,
                        voiceidx: 0,
                        noteidx: nidx,
                    });
                    j = j + 1;
                }
                proof {
                    assert(time == (bar_position + note.position) as usize);
                    assert(nidx == k as u8);
                    assert(out@ =~= out0 + countin_play(ns@.take(k + 1), bar_position as int));
                }
            },
            _ => {},
        }
        k = k + 1;
    }
    assert(ns@.take(ns@.len() as int) =~= ns@);
}

/// Sets the clefs of a clef bar (see `set_clefs`).
fn apply_clefs(clefs: &mut BTreeMap<usize, Clef>, items: &Vec<Option<ClefSignature>>)
    ensures
        final(clefs)@ == set_clefs(old(clefs)@, items@),
{
    let ghost c0 = clefs@;
    let mut k: usize = 0;
    while k < items.len()
        invariant
            k <= items@.len(),
            clefs@ == set_clefs(c0, items@.take(k as int)),
        decreases items@.len() - k,
    {
        proof {
            assert(items@.take(k + 1).drop_last() =~= items@.take(k as int));
        }
        match items[k] {
            Some(Some(c)) => {
                clefs.insert(k, c);
            },
            _ => {},
        }
        k = k + 1;
    }
    assert(items@.take(items@.len() as int) =~= items@);
}

/// Sets the keys of a key bar (see `set_keys`).
fn apply_keys(keys: &mut BTreeMap<usize, Key>, items: &Vec<Option<KeySignature>>)
    ensures
        final(keys)@ == set_keys(old(keys)@, items@),
{
    let ghost k0 = keys@;
    let mut k: usize = 0;
    while k < items.len()
        invariant
            k <= items@.len(),
            keys@ == set_keys(k0, items@.take(k as int)),
        decreases items@.len() - k,
    {
        proof {
            assert(items@.take(k + 1).drop_last() =~= items@.take(k as int));
        }
        match items[k] {
            Some(Some(key)) => {
                keys.insert(k, key);
            },
            _ => {},
        }
        k = k + 1;
    }
    assert(items@.take(items@.len() as int) =~= items@);
}

/// Each bar of parts has no more parts than there are counts.
proof fn lemma_counts_cover(bars: Seq<Bar>, b: int)
    requires
        0 <= b < bars.len(),
    ensures
        bars[b].btype matches BarType::Standard(parts) ==> parts@.len() <= parts_voice_counts(bars).len(),
        parts_voice_counts(bars.drop_last()).len() <= parts_voice_counts(bars).len(),
    decreases bars.len(),
{
    if b < bars.len() - 1 {
        lemma_counts_cover(bars.drop_last(), b);
        assert(bars.drop_last()[b] == bars[b]);
    }
}

/// Setting clefs keeps the parts that had one.
proof fn lemma_set_clefs_keeps(clefs: Map<usize, Clef>, items: Seq<Option<ClefSignature>>, p: usize)
    requires
        clefs.contains_key(p),
    ensures
        set_clefs(clefs, items).contains_key(p),
    decreases items.len(),
{
    if items.len() > 0 {
        lemma_set_clefs_keeps(clefs, items.drop_last(), p);
    }
}

/// Setting keys keeps the parts that had one, and brings in no naturals
/// where the key bar names none.
proof fn lemma_set_keys_keeps(keys: Map<usize, Key>, items: Seq<Option<KeySignature>>, p: usize)
    requires
        forall|q: usize| #[trigger] keys.contains_key(q) ==> !(keys[q] is Naturals),
        forall|k: int| 0 <= k < items.len() ==> !(#[trigger] items[k] matches Some(Some(Key::Naturals(_, _)))),
    ensures
        keys.contains_key(p) ==> set_keys(keys, items).contains_key(p),
        set_keys(keys, items).contains_key(p) ==> !(set_keys(keys, items)[p] is Naturals),
    decreases items.len(),
{
    if items.len() > 0 {
        lemma_set_keys_keeps(keys, items.drop_last(), p);
        assert(!(items[items.len() - 1] matches Some(Some(Key::Naturals(_, _)))));
    }
}

impl Bars {
    /// The notes to sound (see `bars_play`), starting with a G clef and no
    /// key for each part, and the length of the whole: where the last bar
    /// ends.
    pub fn calc_playback(&self) -> (r: PlayNotesData)
        requires
            self.items@.len() > 0,
            forall|b: int| 0 <= b < self.items@.len() ==> bar_playable(#[trigger] self.items@[b]),
            self.items@.last().position + self.items@.last().duration <= usize::MAX,
        ensures
            r.notes@ == bars_play(self.items@, play_start(parts_voice_counts(self.items@).len() as int)).notes,
            r.duration == self.items@.last().position + self.items@.last().duration,
    {
        let counts = self.count_music_parts_voices();
        let n = counts.len();
        let ghost start = play_start(n as int);
        let mut part_clef: BTreeMap<usize, Clef> = BTreeMap::new();
        let mut part_key: BTreeMap<usize, Key> = BTreeMap::new();
        let mut p: usize = 0;
        while p < n
            invariant
                p <= n,
                part_clef@ == Map::new(|q: usize| q < p, |q: usize| Clef::G),
                part_key@ == Map::new(|q: usize| q < p, |q: usize| Key::Open),
            decreases n - p,
        {
            part_clef.insert(p, Clef::G);
            part_key.insert(p, Key::Open);
            proof {
                assert(part_clef@ =~= Map::new(|q: usize| q < p + 1, |q: usize| Clef::G));
                assert(part_key@ =~= Map::new(|q: usize| q < p + 1, |q: usize| Key::Open));
            }
            p = p + 1;
        }
        assert(part_clef@ =~= start.clefs);
        assert(part_key@ =~= start.keys);
        let mut items: Vec<PlayNote> = Vec::new();
        let ghost bars = self.items@;
        let mut i: usize = 0;
        assert(bars.take(0) =~= Seq::<Bar>::empty());
        while i < self.items.len()
            invariant
                bars == self.items@,
                i <= bars.len(),
                n == parts_voice_counts(bars).len(),
                start == play_start(n as int),
                forall|b: int| 0 <= b < bars.len() ==> bar_playable(#[trigger] bars[b]),
                part_clef@ == bars_play(bars.take(i as int), start).clefs,
                part_key@ == bars_play(bars.take(i as int), start).keys,
                items@ == bars_play(bars.take(i as int), start).notes,
                forall|q: usize| q < n ==> #[trigger] part_clef@.contains_key(q),
                forall|q: usize| q < n ==> #[trigger] part_key@.contains_key(q),
                forall|q: usize| #[trigger] part_key@.contains_key(q) ==> !(part_key@[q] is Naturals),
            decreases bars.len() - i,
        {
            let bar = &self.items[i];
            proof {
                assert(bars.take(i + 1).drop_last() =~= bars.take(i as int));
                assert(bars.take(i + 1).last() == *bar);
                assert(bar_playable(bars[i as int]));
            }
            match &bar.btype {
                BarType::Standard(parts) => {
                    proof {
                        lemma_counts_cover(bars, i as int);
                    }
                    play_parts(parts, &part_clef, &part_key, bar.position, &mut items);
                },
                BarType::CountIn(notes) => {
                    play_countin(&notes.items, bar.position, &mut items);
                },
                BarType::BarAttribute(BarAttributeType::Clefs(cs)) => {
                    let ghost before = part_clef@;
                    apply_clefs(&mut part_clef, cs);
                    proof {
                        assert forall|q: usize| q < n implies #[trigger] part_clef@.contains_key(q) by {
                            lemma_set_clefs_keeps(before, cs@, q);
                        }
                    }
                },
                BarType::BarAttribute(BarAttributeType::Keys(ks)) => {
                    let ghost before = part_key@;
                    apply_keys(&mut part_key, ks);
                    proof {
                        assert forall|q: usize| q < n implies #[trigger] part_key@.contains_key(q) by {
                            lemma_set_keys_keeps(before, ks@, q);
                        }
                        assert forall|q: usize| #[trigger] part_key@.contains_key(q) implies !(part_key@[q] is Naturals) by {
                            lemma_set_keys_keeps(before, ks@, q);
                        }
                    }
                },
                _ => {},
            }
            i = i + 1;
        }
        assert(bars.take(bars.len() as int) =~= bars);
        let last = &self.items[self.items.len() - 1];
        PlayNotesData { notes: items, duration: last.position + last.duration }
    }
}

} // verus!
