//! The quick-code text format: notes are written as space-separated
//! segments ("nv8 0 1,2 p lyr:la ..."), voices joined by '%'.

use vstd::prelude::*;
use vstd::string::*;

use crate::core_defs::{duration_from_str, duration_of_str, lemma_duration_of_code, message, Duration, NV4};
use crate::decimal::{decimal, digits_value, is_digit, u64_to_decimal};
use crate::error::{IntErrorKind, NotationError};
use crate::head::{stable_sorted_by_level, Head, HeadPlacement, Heads};
use crate::note::{
    heads_of, spec_lines, spec_ties, spec_ties_to, ChordColor, ChordFlavour, ChordRoot,
    start_of, FunctionBass, FunctionColor, FunctionType, Note, NoteArticulation, NoteType, Notes,
    Syllable, SyllableType, SymbolType, TplAccidental, TplOctave,
};
use crate::text::{
    contains, contains_seq, lemma_replace_len, lemma_split_len, lemma_split_parts_len, lemma_trim_len, lower_seq, replace, replace_seq, slice_chars, split, split_seq, starts_with_seq,
    string_from, to_chars, to_lower, trim, trim_seq, views,
};
use crate::part::voices_duration;
use crate::voice::{Voice, VoiceType, Voices};
use crate::utils::{
    begins, has_char, parse_accidental, parse_articulation, parse_chord, parse_function,
    parse_line, parse_string_to_int, parse_symbol, parse_tie, parse_tie_to,
    spec_parse_accidental, spec_parse_articulation, spec_parse_chord, spec_parse_function,
    spec_parse_int, spec_parse_line, spec_parse_symbol, spec_parse_tie, spec_parse_tie_to,
    invalid_int_message,
};

verus! {

/// The reader of the quick-code format.
pub struct QCode;

/// Why a head code could not be read.
pub enum HeadErr {
    /// It holds a '.' or ','.
    InvalidChar,
    /// Its digits give no `isize`.
    Int(IntErrorKind),
}

/// What a list of head codes gives: heads, an error, or a panic of the
/// reader (a head code whose first character takes more than one byte).
pub enum HeadsOutcome {
    Heads(Seq<Head>),
    Fails(HeadErr),
    Panics,
}

/// The kind of a note read from a segment, with its heads unsorted.
pub enum QKind {
    Heads(Seq<Head>),
    Pause,
    Spacer,
    Lyric(Seq<char>),
    Tpl(char, i8),
    Function(FunctionType, FunctionColor, FunctionBass, bool, bool),
    Chord(ChordRoot, ChordFlavour, ChordColor, ChordRoot),
    Symbol(SymbolType),
}

/// A note as a segment describes it.
pub struct QNote {
    pub kind: QKind,
    pub duration: usize,
    pub articulation: NoteArticulation,
}

/// What a notes code gives.
pub enum NotesOutcome {
    Notes(Seq<QNote>),
    Fails(HeadErr),
    Panics,
}

/// The segments of a notes code: double spaces made single, the ends
/// trimmed, split at each space.
pub open spec fn note_segments(code: Seq<char>) -> Seq<Seq<char>> {
    split_seq(trim_seq(replace_seq(code, "  "@, " "@)), ' ')
}

/// The head one head code describes.
pub open spec fn head_code(p: Seq<char>) -> Result<Head, Option<HeadErr>> {
    if has_char(p, '.') || has_char(p, ',') {
        Err(Some(HeadErr::InvalidChar))
    } else {
        match spec_parse_int(p) {
            Err(k) => Err(Some(HeadErr::Int(k))),
            Ok(n) => {
                if (p[0] as u32) >= 128 {
                    Err(None)
                } else {
                    Ok(
                        Head {
                            level: n as i8,
                            accidental: spec_parse_accidental(p),
                            tie: spec_parse_tie(p),
                            tie_to: spec_parse_tie_to(p),
                            line: spec_parse_line(p),
                            placement: HeadPlacement::Center,
                        },
                    )
                }
            },
        }
    }
}

/// The heads a list of head codes describes; the first code that fails
/// decides.
pub open spec fn heads_codes(ps: Seq<Seq<char>>) -> HeadsOutcome
    decreases ps.len(),
{
    if ps.len() == 0 {
        HeadsOutcome::Heads(Seq::empty())
    } else {
        match head_code(ps[0]) {
            Err(Some(e)) => HeadsOutcome::Fails(e),
            Err(None) => HeadsOutcome::Panics,
            Ok(h) => match heads_codes(ps.drop_first()) {
                HeadsOutcome::Heads(hs) => HeadsOutcome::Heads(seq![h] + hs),
                other => other,
            },
        }
    }
}

pub open spec fn all_digits(s: Seq<char>) -> bool {
    forall|i: int| 0 <= i < s.len() ==> is_digit(#[trigger] s[i])
}

/// A signed 8-bit integer as `str::parse::<i8>` reads it: an optional sign
/// followed by at least one decimal digit and nothing else.
pub open spec fn spec_parse_i8(s: Seq<char>) -> Option<i8> {
    let signed = s.len() > 0 && (s[0] == '-' || s[0] == '+');
    let digits = if signed { s.drop_first() } else { s };
    let v: int = if signed && s[0] == '-' { -digits_value(digits) } else { digits_value(digits) as int };
    if digits.len() == 0 || !all_digits(digits) {
        None
    } else if -128 <= v <= 127 {
        Some(v as i8)
    } else {
        None
    }
}

/// What the note segment after "tpl:" describes: the level from the piece
/// before the first ':' (0 when it is no `i8`) and the first character of the
/// next piece ('0' when there is none).
pub open spec fn tpl_code(s: Seq<char>) -> QKind {
    let sub = split_seq(s, ':');
    let level = match spec_parse_i8(sub[0]) {
        Some(v) => v,
        None => 0i8,
    };
    let fig = if sub.len() > 1 && sub[1].len() > 0 { sub[1][0] } else { '0' };
    QKind::Tpl(fig, level)
}

/// What one segment does: `Ok(Some(v))` sets the note value for the notes
/// that follow it ("nv..."; `v` is `None` for an unknown value), `Ok(None)`
/// is ignored; `Err(k)` is a note of kind `k` with the articulation.
pub enum SegmentMeaning {
    SetValue(Option<usize>),
    Ignored,
    Note(QKind, NoteArticulation),
    Fails(HeadErr),
    Panics,
}

pub open spec fn segment_meaning(seg: Seq<char>) -> SegmentMeaning {
    if starts_with_seq(lower_seq(seg), "nv"@) {
        SegmentMeaning::SetValue(duration_of_str(seg.skip(2)))
    } else if starts_with_seq(seg, "$lyr:"@) {
        SegmentMeaning::Ignored
    } else if starts_with_seq(seg, "lyr:"@) {
        SegmentMeaning::Note(QKind::Lyric(trim_seq(seg.skip(4))), NoteArticulation::NoArticulation)
    } else if starts_with_seq(seg, "tpl:"@) {
        SegmentMeaning::Note(tpl_code(seg.skip(4)), NoteArticulation::NoArticulation)
    } else if starts_with_seq(seg, "fun:"@) {
        let f = spec_parse_function(seg.skip(4));
        SegmentMeaning::Note(QKind::Function(f.0, f.1, f.2, f.3, f.4), NoteArticulation::NoArticulation)
    } else if starts_with_seq(seg, "chd:"@) {
        let c = spec_parse_chord(seg.skip(4));
        SegmentMeaning::Note(QKind::Chord(c.0, c.1, c.2, c.3), NoteArticulation::NoArticulation)
    } else if starts_with_seq(seg, "sym:"@) {
        SegmentMeaning::Note(QKind::Symbol(spec_parse_symbol(seg.skip(4))), NoteArticulation::NoArticulation)
    } else if seg == "p"@ {
        SegmentMeaning::Note(QKind::Pause, NoteArticulation::NoArticulation)
    } else if seg == "s"@ {
        SegmentMeaning::Note(QKind::Spacer, NoteArticulation::NoArticulation)
    } else {
        let a = spec_parse_articulation(seg);
        match heads_codes(split_seq(a.0, ',')) {
            HeadsOutcome::Heads(hs) => SegmentMeaning::Note(QKind::Heads(hs), a.1),
            HeadsOutcome::Fails(e) => SegmentMeaning::Fails(e),
            HeadsOutcome::Panics => SegmentMeaning::Panics,
        }
    }
}

/// The notes that segments describe, the current note value given (a
/// quarter when there is none).
pub open spec fn notes_of_segments(segs: Seq<Seq<char>>, cur: Option<usize>) -> NotesOutcome
    decreases segs.len(),
{
    if segs.len() == 0 {
        NotesOutcome::Notes(Seq::empty())
    } else {
        match segment_meaning(segs[0]) {
            SegmentMeaning::SetValue(v) => notes_of_segments(segs.drop_first(), v),
            SegmentMeaning::Ignored => notes_of_segments(segs.drop_first(), cur),
            SegmentMeaning::Fails(e) => NotesOutcome::Fails(e),
            SegmentMeaning::Panics => NotesOutcome::Panics,
            SegmentMeaning::Note(k, a) => {
                let n = QNote {
                    kind: k,
                    duration: match cur {
                        Some(v) => v,
                        None => 24usize,
                    },
                    articulation: a,
                };
                match notes_of_segments(segs.drop_first(), cur) {
                    NotesOutcome::Notes(ns) => NotesOutcome::Notes(seq![n] + ns),
                    other => other,
                }
            },
        }
    }
}

/// The notes a notes code describes.
pub open spec fn notes_of_code(code: Seq<char>) -> NotesOutcome {
    notes_of_segments(note_segments(code), None)
}

/// A note type agrees with the kind a segment describes; heads are
/// sorted by level.
pub open spec fn type_matches(t: NoteType, k: QKind) -> bool {
    match k {
        QKind::Heads(hs) => t matches NoteType::Heads(h) && h.wf() && stable_sorted_by_level(hs, h.heads@),
        QKind::Pause => t is Pause,
        QKind::Spacer => t == NoteType::Spacer(0),
        QKind::Lyric(s) => t matches NoteType::Lyric(syl) && syl.syllable_type matches SyllableType::Text(x) && x@ == s,
        QKind::Tpl(c, l) => t == NoteType::Tpl(c, TplOctave::Mid, TplAccidental::Neutral, l),
        QKind::Function(a, b, c, d, e) => t == NoteType::Function(a, b, c, d, e),
        QKind::Chord(a, b, c, d) => t == NoteType::ChordSymbol(a, b, c, d),
        QKind::Symbol(s) => t == NoteType::Symbol(s),
    }
}

/// A note made from the description, with the id given.
pub open spec fn note_matches(n: Note, q: QNote, id: usize) -> bool {
    &&& n.id == id
    &&& type_matches(n.ntype, q.kind)
    &&& n.duration == q.duration
    &&& n.articulation == q.articulation
    &&& n.ties@ == spec_ties(heads_of(n.ntype), id)
    &&& n.ties_to@ == spec_ties_to(heads_of(n.ntype), id)
    &&& n.lines@ == spec_lines(heads_of(n.ntype))
    &&& n.lines_to@.len() == 0
    &&& n.beamgroup is None
    &&& n.direction is None
}

/// The error a head error becomes.
pub open spec fn head_error(e: HeadErr, r: NotationError) -> bool {
    match e {
        HeadErr::InvalidChar => r matches NotationError::Generic(m) && m@ == invalid_int_message(),
        HeadErr::Int(k) => r == NotationError::ParseInt(k),
    }
}

/// Reads a signed 8-bit integer (see `spec_parse_i8`).
pub fn parse_i8(s: &[char]) -> (r: Option<i8>)
    ensures
        r == spec_parse_i8(s@),
{
    let n = s.len();
    let signed = n > 0 && (s[0] == '-' || s[0] == '+');
    let start: usize = if signed { 1 } else { 0 };
    let ghost digits = if signed { s@.drop_first() } else { s@ };
    assert(digits =~= s@.skip(start as int));
    if start >= n {
        return None;
    }
    let mut v: u32 = 0;
    let mut big = false;
    let mut i: usize = start;
    while i < n
        invariant
            start <= i <= n,
            n == s@.len(),
            signed == (s@.len() > 0 && (s@[0] == '-' || s@[0] == '+')),
            start == (if signed { 1usize } else { 0usize }),
            digits == (if signed { s@.drop_first() } else { s@ }),
            digits =~= s@.skip(start as int),
            forall|k: int| start <= k < i ==> is_digit(#[trigger] s@[k]),
            big == (digits_value(s@.subrange(start as int, i as int)) > 200),
            !big ==> v == digits_value(s@.subrange(start as int, i as int)),
        decreases n - i,
    {
        let c = s[i];
        if !('0' <= c && c <= '9') {
            assert(!is_digit(digits[i - start]));
            assert(!all_digits(digits));
            return None;
        }
        let ghost pre = s@.subrange(start as int, i as int);
        assert(s@.subrange(start as int, i + 1).drop_last() =~= pre);
        let dv: u32 = (c as u32) - 48;
        if !big {
            v = v * 10 + dv;
            if v > 200 {
                big = true;
            }
        } else {
            assert(digits_value(pre) * 10 + dv >= digits_value(pre)) by (nonlinear_arith)
                requires digits_value(pre) >= 0, dv >= 0;
        }
        i = i + 1;
    }
    assert(s@.subrange(start as int, n as int) =~= digits);
    assert(all_digits(digits)) by {
        assert forall|k: int| 0 <= k < digits.len() implies is_digit(#[trigger] digits[k]) by {
            assert(digits[k] == s@[start + k]);
        }
    }
    if big {
        return None;
    }
    let neg = signed && s[0] == '-';
    let val: i32 = if neg { -(v as i32) } else { v as i32 };
    if -128 <= val && val <= 127 {
        Some(val as i8)
    } else {
        None
    }
}


/// Notes read before a rest of the outcome.
pub open spec fn prepend_notes(acc: Seq<QNote>, o: NotesOutcome) -> NotesOutcome {
    match o {
        NotesOutcome::Notes(ns) => NotesOutcome::Notes(acc + ns),
        other => other,
    }
}

/// Heads read before a rest of the outcome.
pub open spec fn prepend_heads(acc: Seq<Head>, o: HeadsOutcome) -> HeadsOutcome {
    match o {
        HeadsOutcome::Heads(hs) => HeadsOutcome::Heads(acc + hs),
        other => other,
    }
}

/// The heads that head codes describe, or the error of the first that
/// fails.
fn read_heads(pieces: &Vec<Vec<char>>) -> (r: Result<Vec<Head>, NotationError>)
    requires
        !(heads_codes(views(pieces@)) is Panics),
    ensures
        match heads_codes(views(pieces@)) {
            HeadsOutcome::Heads(hs) => r matches Ok(v) && v@ == hs,
            HeadsOutcome::Fails(e) => r matches Err(err) && head_error(e, err),
            HeadsOutcome::Panics => false,
        },
{
    let ghost all = views(pieces@);
    let mut heads: Vec<Head> = Vec::new();
    let mut i: usize = 0;
    assert(all.skip(0) =~= all);
    assert(prepend_heads(heads@, heads_codes(all)) == heads_codes(all)) by {
        match heads_codes(all) {
            HeadsOutcome::Heads(hs) => { assert(heads@ + hs =~= hs); },
            _ => {},
        }
    }
    while i < pieces.len()
        invariant
            i <= pieces@.len(),
            all == views(pieces@),
            !(heads_codes(all) is Panics),
            heads_codes(all) == prepend_heads(heads@, heads_codes(all.skip(i as int))),
        decreases pieces.len() - i,
    {
        let ghost rest = all.skip(i as int);
        assert(rest[0] == pieces@[i as int]@);
        assert(rest.drop_first() =~= all.skip(i + 1));
        let s = string_from(pieces[i].as_slice());
        let level = match parse_string_to_int(s.as_str()) {
            Ok(n) => n,
            Err(e) => {
                return Err(e);
            },
        };
        proof {
            lemma_digits_of_len(s@);
            assert(!(heads_codes(rest) is Panics));
        }
        let accidental = parse_accidental(s.as_str());
        let tie = parse_tie(s.as_str());
        let tie_to = parse_tie_to(s.as_str());
        let line = parse_line(s.as_str());
        let lv: i8 = #[verifier::truncate] (level as i8);
        let head = Head::new_with_attributes(lv, accidental, tie, tie_to, line);
        assert(head_code(rest[0]) == Ok::<Head, Option<HeadErr>>(head));
        let ghost before = heads@;
        heads.push(head);
        proof {
            match heads_codes(rest.drop_first()) {
                HeadsOutcome::Heads(hs) => {
                    assert(before + (seq![head] + hs) =~= heads@ + hs);
                },
                _ => {},
            }
        }
        i = i + 1;
    }
    assert(all.skip(i as int) =~= Seq::<Seq<char>>::empty());
    assert(heads@ + Seq::<Head>::empty() =~= heads@);
    Ok(heads)
}

/// What reading one segment gives.
pub enum SegRead {
    /// The note value for the notes that follow.
    Value(Option<usize>),
    Nothing,
    Made(Note),
}

/// Reads one segment (see `segment_meaning`), making a note with the id
/// and the current note value (a quarter when there is none).
fn read_segment(seg: &Vec<char>, cur: Option<usize>, id: usize) -> (r: Result<SegRead, NotationError>)
    requires
        !(segment_meaning(seg@) is Panics),
        cur matches Some(v) ==> v <= 144,
    ensures
        match segment_meaning(seg@) {
            SegmentMeaning::SetValue(v) => r matches Ok(SegRead::Value(c)) && c == v && (c matches Some(x) ==> x <= 144),
            SegmentMeaning::Ignored => r matches Ok(SegRead::Nothing),
            SegmentMeaning::Note(k, a) => r matches Ok(SegRead::Made(n)) && note_matches(
                n,
                QNote {
                    kind: k,
                    duration: match cur {
                        Some(v) => v,
                        None => 24usize,
                    },
                    articulation: a,
                },
                id,
            ) && n.duration <= 144,
            SegmentMeaning::Fails(e) => r matches Err(err) && head_error(e, err),
            SegmentMeaning::Panics => false,
        },
{
    let n = seg.len();
    let dur: usize = match cur {
        Some(v) => v,
        None => NV4,
    };
    let lower = to_lower(seg.as_slice());
    if begins(lower.as_slice(), "nv") {
        proof { reveal_strlit("nv"); }
        let v = string_from(slice_chars(seg.as_slice(), 2, n).as_slice());
        assert(v@ == seg@.skip(2));
        let c = match duration_from_str(v.as_str()) {
            Ok(d) => Some(d),
            Err(_) => None,
        };
        proof { lemma_duration_of_code(lower_seq(seg@.skip(2))); }
        Ok(SegRead::Value(c))
    } else if begins(seg.as_slice(), "$lyr:") {
        Ok(SegRead::Nothing)
    } else if begins(seg.as_slice(), "lyr:") {
        proof { reveal_strlit("lyr:"); }
        let t = trim(slice_chars(seg.as_slice(), 4, n).as_slice());
        let syllable = Syllable::new(SyllableType::Text(string_from(t.as_slice())));
        Ok(SegRead::Made(Note::new(NoteType::Lyric(syllable), dur, id)))
    } else if begins(seg.as_slice(), "tpl:") {
        proof { reveal_strlit("tpl:"); }
        let body = slice_chars(seg.as_slice(), 4, n);
        let sub = split(body.as_slice(), ':');
        assert(views(sub@)[0] == sub@[0]@);
        let level: i8 = match parse_i8(sub[0].as_slice()) {
            Some(l) => l,
            None => 0,
        };
        let fig: char = if sub.len() > 1 {
            assert(views(sub@)[1] == sub@[1]@);
            if sub[1].len() > 0 {
                sub[1][0]
            } else {
                '0'
            }
        } else {
            '0'
        };
        Ok(SegRead::Made(Note::new(NoteType::Tpl(fig, TplOctave::Mid, TplAccidental::Neutral, level), dur, id)))
    } else if begins(seg.as_slice(), "fun:") {
        proof { reveal_strlit("fun:"); }
        let body = string_from(slice_chars(seg.as_slice(), 4, n).as_slice());
        let f = match parse_function(body.as_str()) {
            Some(f) => f,
            None => (FunctionType::Spacer, FunctionColor::FcNone, FunctionBass::FbNone, false, false),
        };
        Ok(SegRead::Made(Note::new(NoteType::Function(f.0, f.1, f.2, f.3, f.4), dur, id)))
    } else if begins(seg.as_slice(), "chd:") {
        proof { reveal_strlit("chd:"); }
        let body = string_from(slice_chars(seg.as_slice(), 4, n).as_slice());
        let c = match parse_chord(body.as_str()) {
            Some(c) => c,
            None => (ChordRoot::NoRoot, ChordFlavour::Major, ChordColor::NoColor, ChordRoot::NoRoot),
        };
        Ok(SegRead::Made(Note::new(NoteType::ChordSymbol(c.0, c.1, c.2, c.3), dur, id)))
    } else if begins(seg.as_slice(), "sym:") {
        proof { reveal_strlit("sym:"); }
        let body = string_from(slice_chars(seg.as_slice(), 4, n).as_slice());
        let t = match parse_symbol(body.as_str()) {
            Some(p) => p.1,
            None => SymbolType::Square,
        };
        Ok(SegRead::Made(Note::new(NoteType::Symbol(t), dur, id)))
    } else if is_lit(seg, "p") {
        Ok(SegRead::Made(Note::new(NoteType::Pause, dur, id)))
    } else if is_lit(seg, "s") {
        Ok(SegRead::Made(Note::new(NoteType::Spacer(0), dur, id)))
    } else {
        let whole = string_from(seg.as_slice());
        let (rest_s, articulation) = parse_articulation(whole.as_str());
        let rest_c = to_chars(rest_s.as_str());
        let pieces = split(rest_c.as_slice(), ',');
        let hv = match read_heads(&pieces) {
            Ok(hv) => hv,
            Err(e) => {
                return Err(e);
            },
        };
        proof {
            lemma_heads_codes_len(views(pieces@));
            lemma_split_len(rest_c@, ',');
        }
        let mut note = Note::new(NoteType::Heads(Heads::new(hv)), dur, id);
        note.articulation = articulation;
        Ok(SegRead::Made(note))
    }
}

impl QCode {
    /// Reads notes from a notes code (see `notes_of_code`): each note gets
    /// the note value last set (a quarter before any is set) and, as id, its
    /// index among the notes read; the notes are placed one after the other.
    pub fn notes(code: &str) -> (r: Result<Notes, NotationError>)
        requires
            !(notes_of_code(code@) is Panics),
            144 * (code@.len() + 1) <= usize::MAX,
        ensures
            match notes_of_code(code@) {
                NotesOutcome::Notes(qs) => r matches Ok(notes) && notes.wf() && notes.items@.len()
                    == qs.len() && notes.duration <= 144 * (code@.len() + 1) && forall|k: int|
                    0 <= k < qs.len() ==> #[trigger] note_matches(notes.items@[k], qs[k], k as usize),
                NotesOutcome::Fails(e) => r matches Err(err) && head_error(e, err),
                NotesOutcome::Panics => false,
            },
    {
        let chars = to_chars(code);
        let dbl = to_chars("  ");
        let sgl = to_chars(" ");
        proof {
            reveal_strlit("  ");
            reveal_strlit(" ");
            lemma_replace_len(code@, "  "@, " "@);
        }
        let single = replace(chars.as_slice(), dbl.as_slice(), sgl.as_slice());
        let trimmed = trim(single.as_slice());
        let segs = split(trimmed.as_slice(), ' ');
        let ghost all = views(segs@);
        proof {
            lemma_trim_len(single@);
            lemma_split_len(trimmed@, ' ');
            assert(all == note_segments(code@));
        }
        let mut notes: Vec<Note> = Vec::new();
        let mut cur_val: Option<usize> = None;
        let mut i: usize = 0;
        let ghost mut acc: Seq<QNote> = Seq::empty();
        assert(all.skip(0) =~= all);
        assert(prepend_notes(acc, notes_of_segments(all, None)) == notes_of_segments(all, None)) by {
            match notes_of_segments(all, None) {
                NotesOutcome::Notes(ns) => { assert(acc + ns =~= ns); },
                _ => {},
            }
        }
        while i < segs.len()
            invariant
                i <= segs@.len(),
                144 * segs@.len() <= usize::MAX,
                segs@.len() <= code@.len() + 1,
                all == views(segs@),
                notes_of_code(code@) == prepend_notes(acc, notes_of_segments(all.skip(i as int), cur_val)),
                !(notes_of_code(code@) is Panics),
                notes@.len() == acc.len(),
                acc.len() <= i,
                forall|k: int| 0 <= k < acc.len() ==> #[trigger] note_matches(notes@[k], acc[k], k as usize),
                forall|k: int| 0 <= k < notes@.len() ==> #[trigger] notes@[k].duration <= 144,
                cur_val matches Some(v) ==> v <= 144,
            decreases segs.len() - i,
        {
            let ghost rest = all.skip(i as int);
            assert(rest[0] == segs@[i as int]@);
            assert(rest.drop_first() =~= all.skip(i + 1));
            let ghost meaning = segment_meaning(rest[0]);
            let ghost cur0 = cur_val;
            let read = match read_segment(&segs[i], cur_val, notes.len()) {
                Ok(x) => x,
                Err(e) => {
                    return Err(e);
                },
            };
            match read {
                SegRead::Value(c) => {
                    cur_val = c;
                },
                SegRead::Nothing => {},
                SegRead::Made(note) => {
                    proof {
                        let q = QNote {
                            kind: match meaning { SegmentMeaning::Note(k, _) => k, _ => QKind::Pause },
                            duration: match cur0 { Some(v) => v, None => 24usize },
                            articulation: match meaning { SegmentMeaning::Note(_, a) => a, _ => NoteArticulation::NoArticulation },
                        };
                        let acc_before = acc;
                        acc = acc.push(q);
                        match notes_of_segments(rest.drop_first(), cur_val) {
                            NotesOutcome::Notes(ns) => {
                                assert(acc_before + (seq![q] + ns) =~= acc + ns);
                            },
                            _ => {},
                        }
                    }
                    notes.push(note);
                },
            }
            i = i + 1;
        }
        assert(all.skip(i as int) =~= Seq::<Seq<char>>::empty());
        assert(acc + Seq::<QNote>::empty() =~= acc);
        proof {
            lemma_start_of_bound(notes@, notes@.len() as int);
            assert(144 * notes@.len() <= 144 * (code@.len() + 1)) by (nonlinear_arith)
                requires
                    notes@.len() <= code@.len() + 1;
        }
        let ghost before = notes@;
        let result = Notes::new(notes);
        assert forall|k: int| 0 <= k < acc.len() implies #[trigger] note_matches(result.items@[k], acc[k], k as usize) by {
            assert(note_matches(before[k], acc[k], k as usize));
            assert(crate::note::same_but_place(result.items@[k], before[k]));
        }
        Ok(result)
    }
}

/// Whether the characters equal a literal.
fn is_lit(s: &Vec<char>, lit: &str) -> (r: bool)
    ensures
        r == (s@ == lit@),
{
    let p = to_chars(lit);
    crate::text::chars_eq(s.as_slice(), p.as_slice())
}

/// There are no more digits than characters.
pub proof fn lemma_digits_of_len(s: Seq<char>)
    ensures
        crate::utils::digits_of(s).len() <= s.len(),
    decreases s.len(),
{
    if s.len() > 0 {
        lemma_digits_of_len(s.drop_last());
    }
}

/// Read heads are as many as the codes, so at least one.
pub proof fn lemma_heads_codes_len(ps: Seq<Seq<char>>)
    ensures
        heads_codes(ps) matches HeadsOutcome::Heads(hs) ==> hs.len() == ps.len(),
    decreases ps.len(),
{
    if ps.len() > 0 {
        lemma_heads_codes_len(ps.drop_first());
    }
}

/// Notes no longer than a dotted whole note fit, many of them, in `usize`.
pub proof fn lemma_start_of_bound(s: Seq<Note>, k: int)
    requires
        0 <= k <= s.len(),
        forall|i: int| 0 <= i < s.len() ==> #[trigger] s[i].duration <= 144,
    ensures
        start_of(s, k) <= 144 * k,
    decreases k,
{
    if k > 0 {
        lemma_start_of_bound(s, k - 1);
    }
}

/// A voice code (trimmed) that contains "bp" is a bar pause.
pub open spec fn is_barpause_code(code: Seq<char>) -> bool {
    contains_seq(trim_seq(code), "bp"@)
}

/// The segments of a bar pause code: "bp" taken out, the rest trimmed and
/// split at each space.
pub open spec fn barpause_segments(code: Seq<char>) -> Seq<Seq<char>> {
    split_seq(trim_seq(replace_seq(trim_seq(code), "bp"@, Seq::empty())), ' ')
}

/// What a segment adds to a bar pause: the note value that an "nv..."
/// segment names, else nothing.
pub open spec fn barpause_part(seg: Seq<char>) -> int {
    if starts_with_seq(lower_seq(seg), "nv"@) {
        match duration_of_str(seg.skip(2)) {
            Some(d) => d as int,
            None => 0,
        }
    } else {
        0
    }
}

/// The length of a bar pause: the sum of what its segments add.
pub open spec fn barpause_value(segs: Seq<Seq<char>>) -> int
    decreases segs.len(),
{
    if segs.len() == 0 {
        0
    } else {
        barpause_value(segs.drop_last()) + barpause_part(segs.last())
    }
}

/// The voice that `QCode::voice` makes of a code that does not fail: a bar
/// pause of the summed length (none given where it is 0), or the notes of
/// the trimmed code; no beam groups yet.
pub open spec fn voice_made(v: Voice, code: Seq<char>) -> bool {
    &&& v.beamgroups is None
    &&& if is_barpause_code(code) {
        let val = barpause_value(barpause_segments(code));
        &&& v.duration == val
        &&& v.vtype == VoiceType::Barpause(if val == 0 { None } else { Some(val as usize) })
    } else {
        &&& notes_of_code(trim_seq(code)) matches NotesOutcome::Notes(qs)
        &&& v.vtype matches VoiceType::Notes(notes)
        &&& v.duration == notes.duration
        &&& notes.wf()
        &&& notes.items@.len() == qs.len()
        &&& forall|k: int| 0 <= k < qs.len() ==> #[trigger] note_matches(notes.items@[k], qs[k], k as usize)
    }
}

/// Why a voice code fails, where it does: only notes can.
pub open spec fn voice_failure(code: Seq<char>) -> Option<HeadErr> {
    if is_barpause_code(code) {
        None
    } else {
        match notes_of_code(trim_seq(code)) {
            NotesOutcome::Fails(e) => Some(e),
            _ => None,
        }
    }
}

/// A voice code whose notes the reader cannot take.
pub open spec fn voice_panics(code: Seq<char>) -> bool {
    !is_barpause_code(code) && notes_of_code(trim_seq(code)) is Panics
}

/// What `QCode::voice` gives for a code.
pub open spec fn voice_result(code: Seq<char>, r: Result<Voice, NotationError>) -> bool {
    match voice_failure(code) {
        Some(e) => r matches Err(err) && head_error(e, err),
        None => r matches Ok(v) && voice_made(v, code),
    }
}

/// The voice codes of a voices code: trimmed and split at each '%'.
pub open spec fn voice_codes(code: Seq<char>) -> Seq<Seq<char>> {
    split_seq(trim_seq(trim_seq(code)), '%')
}

/// The message for a code of more than three voice codes.
pub open spec fn too_many_voices_message(n: nat) -> Seq<char> {
    "too many voices in code: "@ + decimal(n)
}

/// Why a voices code fails: a voice code that fails, or too many voice codes.
pub enum VoicesErr {
    Head(HeadErr),
    TooMany(nat),
}

/// The two voice codes read from a code of two or three: the last two.
pub open spec fn voice_pair(vc: Seq<Seq<char>>) -> (Seq<char>, Seq<char>) {
    if vc.len() == 3 {
        (vc[1], vc[2])
    } else {
        (vc[0], vc[1])
    }
}

/// Why a voices code fails, where it does: the first of the voice codes
/// read that fails, or a count of more than three.
pub open spec fn voices_failure(code: Seq<char>) -> Option<VoicesErr> {
    let vc = voice_codes(code);
    if vc.len() == 1 {
        match voice_failure(vc[0]) {
            Some(e) => Some(VoicesErr::Head(e)),
            None => None,
        }
    } else if vc.len() == 2 || vc.len() == 3 {
        let (a, b) = voice_pair(vc);
        match (voice_failure(a), voice_failure(b)) {
            (Some(e), _) => Some(VoicesErr::Head(e)),
            (None, Some(e)) => Some(VoicesErr::Head(e)),
            (None, None) => None,
        }
    } else {
        Some(VoicesErr::TooMany(vc.len()))
    }
}

/// The error that a failure of a voices code gives.
pub open spec fn voices_error(e: VoicesErr, err: NotationError) -> bool {
    match e {
        VoicesErr::Head(h) => head_error(h, err),
        VoicesErr::TooMany(n) => err matches NotationError::Generic(m) && m@ == too_many_voices_message(n),
    }
}

/// The voices read from a code that does not fail.
pub open spec fn voices_made(v: Voices, code: Seq<char>) -> bool {
    let vc = voice_codes(code);
    if vc.len() == 1 {
        v matches Voices::One(x) && voice_made(x, vc[0])
    } else {
        let (a, b) = voice_pair(vc);
        v matches Voices::Two(x, y) && voice_made(x, a) && voice_made(y, b)
    }
}

/// A voices code one of whose voice codes read a notes code that the
/// reader cannot take.
pub open spec fn voices_panics_inner(code: Seq<char>) -> bool {
    let vc = voice_codes(code);
    ||| vc.len() == 1 && voice_panics(vc[0])
    ||| (vc.len() == 2 || vc.len() == 3) && (voice_panics(voice_pair(vc).0) || voice_panics(voice_pair(vc).1))
}

/// A voices code that the reader cannot take: one with a '/', or one of
/// whose voice codes it cannot take.
pub open spec fn voices_panics(code: Seq<char>) -> bool {
    has_char(code, '/') || voices_panics_inner(code)
}

/// The summed note values of the segments, each at most a dotted whole.
proof fn lemma_barpause_value_bound(segs: Seq<Seq<char>>)
    ensures
        0 <= barpause_value(segs) <= 144 * segs.len(),
    decreases segs.len(),
{
    if segs.len() > 0 {
        lemma_barpause_value_bound(segs.drop_last());
        lemma_duration_of_code(lower_seq(segs.last().skip(2)));
    }
}

/// The length of a bar pause read from the segments.
fn read_barpause(segs: &Vec<Vec<char>>) -> (r: usize)
    requires
        144 * segs@.len() <= usize::MAX,
    ensures
        r == barpause_value(views(segs@)),
{
    let ghost all = views(segs@);
    let mut total: usize = 0;
    let mut i: usize = 0;
    while i < segs.len()
        invariant
            all == views(segs@),
            i <= segs@.len(),
            144 * segs@.len() <= usize::MAX,
            total == barpause_value(all.take(i as int)),
        decreases segs@.len() - i,
    {
        let seg = &segs[i];
        let n = seg.len();
        assert(all.take(i + 1).drop_last() =~= all.take(i as int));
        assert(all[i as int] == seg@);
        proof {
            lemma_barpause_value_bound(all.take(i as int));
        }
        let lower = to_lower(seg.as_slice());
        if begins(lower.as_slice(), "nv") {
            proof { reveal_strlit("nv"); }
            let v = string_from(slice_chars(seg.as_slice(), 2, n).as_slice());
            assert(v@ == seg@.skip(2));
            proof { lemma_duration_of_code(lower_seq(seg@.skip(2))); }
            match duration_from_str(v.as_str()) {
                Ok(d) => {
                    total = total + d;
                },
                Err(_) => {},
            }
        }
        i = i + 1;
    }
    assert(all.take(segs@.len() as int) =~= all);
    total
}

impl QCode {
    /// Reads a voice from a voice code: a bar pause where the trimmed code
    /// contains "bp" (its length the sum of the note values of its "nv..."
    /// segments), else notes (see `voice_made`).
    pub fn voice(code: &str) -> (r: Result<Voice, NotationError>)
        requires
            !voice_panics(code@),
            144 * (code@.len() + 1) <= usize::MAX,
        ensures
            voice_result(code@, r),
            r matches Ok(v) ==> v.duration <= 144 * (code@.len() + 1),
    {
        let chars = to_chars(code);
        let t = trim(chars.as_slice());
        proof {
            lemma_trim_len(code@);
        }
        let bp = to_chars("bp");
        if contains(t.as_slice(), bp.as_slice()) {
            let empty: Vec<char> = Vec::new();
            proof {
                reveal_strlit("bp");
                lemma_replace_len(t@, "bp"@, empty@);
            }
            let c = replace(t.as_slice(), bp.as_slice(), empty.as_slice());
            let c2 = trim(c.as_slice());
            proof {
                lemma_trim_len(c@);
                lemma_split_len(c2@, ' ');
            }
            let segs = split(c2.as_slice(), ' ');
            assert(empty@ =~= Seq::<char>::empty());
            let val = read_barpause(&segs);
            proof {
                lemma_barpause_value_bound(views(segs@));
                assert(144 * segs@.len() <= 144 * (code@.len() + 1)) by (nonlinear_arith)
                    requires
                        segs@.len() <= code@.len() + 1;
            }
            let vt = if val == 0 {
                VoiceType::Barpause(None)
            } else {
                VoiceType::Barpause(Some(val))
            };
            Ok(Voice::new(vt))
        } else {
            let s = string_from(t.as_slice());
            let notes = match QCode::notes(s.as_str()) {
                Ok(n) => n,
                Err(e) => {
                    return Err(e);
                },
            };
            proof {
                assert(144 * (t@.len() + 1) <= 144 * (code@.len() + 1)) by (nonlinear_arith)
                    requires
                        t@.len() <= code@.len();
            }
            Ok(Voice::new(VoiceType::Notes(notes)))
        }
    }

    /// Reads one or two voices from a code of voice codes joined by '%':
    /// one code gives one voice, two give two; of three the first is passed
    /// over and the other two are read; more are an error (see
    /// `voices_failure` and `voices_made`).
    pub fn voices(code: &str) -> (r: Result<Voices, NotationError>)
        requires
            !voices_panics(code@),
            144 * (code@.len() + 1) <= usize::MAX,
        ensures
            match voices_failure(code@) {
                Some(e) => r matches Err(err) && voices_error(e, err),
                None => r matches Ok(v) && voices_made(v, code@) && voices_duration(v) <= 144 * (code@.len()
                    + 1),
            },
    {
        let chars = to_chars(code);
        let t = trim(chars.as_slice());
        let t2 = trim(t.as_slice());
        proof {
            lemma_trim_len(code@);
            lemma_trim_len(t@);
            lemma_split_len(t2@, '%');
            lemma_split_parts_len(t2@, '%');
        }
        let segs = split(t2.as_slice(), '%');
        let ghost vc = views(segs@);
        assert(vc == voice_codes(code@));
        let n = segs.len();
        assert forall|k: int| 0 <= k < n implies 144 * (#[trigger] segs@[k]@.len() + 1) <= usize::MAX by {
            assert(vc[k] == segs@[k]@);
        }
        if n == 1 {
            let s = string_from(segs[0].as_slice());
            assert(vc[0] == segs@[0]@);
            let v = match QCode::voice(s.as_str()) {
                Ok(v) => v,
                Err(e) => {
                    return Err(e);
                },
            };
            Ok(Voices::One(v))
        } else if n == 2 || n == 3 {
            let first: usize = if n == 3 { 1 } else { 0 };
            let s1 = string_from(segs[first].as_slice());
            let s2 = string_from(segs[first + 1].as_slice());
            assert(vc[first as int] == segs@[first as int]@);
            assert(vc[first + 1] == segs@[first + 1]@);
            let v1 = match QCode::voice(s1.as_str()) {
                Ok(v) => v,
                Err(e) => {
                    return Err(e);
                },
            };
            let v2 = match QCode::voice(s2.as_str()) {
                Ok(v) => v,
                Err(e) => {
                    return Err(e);
                },
            };
            Ok(Voices::Two(v1, v2))
        } else {
            let digits = u64_to_decimal(n as u64);
            proof {
                reveal_strlit("");
                assert("too many voices in code: "@ + digits@ + ""@ =~= too_many_voices_message(n as nat));
            }
            Err(NotationError::Generic(message("too many voices in code: ", digits.as_slice(), "")))
        }
    }
}

} // verus!
