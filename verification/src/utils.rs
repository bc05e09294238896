//! Readers for the pieces of a quick-code note: integers, accidentals, ties,
//! lines, colours, articulations, function and chord symbols.

use vstd::prelude::*;
use vstd::string::*;

use crate::core_defs::{Accidental, TieFromType, TieToType};
use crate::decimal::{digit_value, digits_value, is_digit};
use crate::error::{IntErrorKind, NotationError};
use crate::head::{HeadLine, HeadLineType, NColor};
use crate::note::{
    ChordColor, ChordFlavour, ChordRoot, FunctionBass, FunctionColor, FunctionType,
    NoteArticulation, SymbolType,
};
use crate::text::{
    contains, contains_seq, occurs_at, replace, replace_seq, split, split_seq, starts_with, starts_with_seq,
    string_from, to_chars, views,
};

verus! {

/// Whether `pat` occurs in the characters.
pub fn has(s: &[char], pat: &str) -> (r: bool)
    ensures
        r == contains_seq(s@, pat@),
{
    let p = to_chars(pat);
    contains(s, p.as_slice())
}

/// Whether the characters begin with `pat`.
pub fn begins(s: &[char], pat: &str) -> (r: bool)
    ensures
        r == starts_with_seq(s@, pat@),
{
    let p = to_chars(pat);
    starts_with(s, p.as_slice())
}

/// The decimal digits of `s`, in order.
pub open spec fn digits_of(s: Seq<char>) -> Seq<char>
    decreases s.len(),
{
    if s.len() == 0 {
        s
    } else if is_digit(s.last()) {
        digits_of(s.drop_last()).push(s.last())
    } else {
        digits_of(s.drop_last())
    }
}

pub open spec fn has_char(s: Seq<char>, c: char) -> bool {
    exists|i: int| 0 <= i < s.len() && #[trigger] s[i] == c
}

pub proof fn lemma_has_char_push(p: Seq<char>, c: char, x: char)
    ensures
        has_char(p.push(c), x) == (has_char(p, x) || c == x),
{
    if has_char(p.push(c), x) {
        let k = choose|k: int| 0 <= k < p.len() + 1 && #[trigger] p.push(c)[k] == x;
        if k < p.len() {
            assert(p[k] == x);
        }
    }
    if has_char(p, x) {
        let k = choose|k: int| 0 <= k < p.len() && #[trigger] p[k] == x;
        assert(p.push(c)[k] == x);
    }
    if c == x {
        assert(p.push(c)[p.len() as int] == x);
    }
}

pub open spec fn invalid_int_message() -> Seq<char> {
    "Invalid character - can not parse strings containing '.' or ',' characters to isize integers"@
}

/// What `parse_string_to_int` makes of a string: the number its decimal
/// digits denote, negative when a '-' occurs anywhere, all other characters
/// ignored; no number where a '.' or ',' occurs, where there are no digits or
/// where the number is larger than `isize::MAX`.
pub open spec fn spec_parse_int(s: Seq<char>) -> Result<isize, IntErrorKind> {
    let d = digits_of(s);
    if d.len() == 0 {
        Err(IntErrorKind::Empty)
    } else if digits_value(d) > isize::MAX {
        Err(IntErrorKind::PosOverflow)
    } else if has_char(s, '-') {
        Ok((-(digits_value(d) as int)) as isize)
    } else {
        Ok(digits_value(d) as isize)
    }
}

/// Reads a signed integer from the digits of a string (see `spec_parse_int`).
pub fn parse_string_to_int(s: &str) -> (r: Result<isize, NotationError>)
    ensures
        (has_char(s@, '.') || has_char(s@, ',')) ==> (r matches Err(NotationError::Generic(m))
            && m@ == invalid_int_message()),
        !(has_char(s@, '.') || has_char(s@, ',')) ==> match spec_parse_int(s@) {
            Ok(n) => r == Ok::<isize, NotationError>(n),
            Err(k) => r == Err::<isize, NotationError>(NotationError::ParseInt(k)),
        },
{
    let chars = to_chars(s);
    let n = chars.len();
    let mut negative = false;
    let mut value: usize = 0;
    let mut seen = false;
    let mut overflow = false;
    let mut i: usize = 0;
    while i < n
        invariant
            n == chars@.len(),
            chars@ == s@,
            i <= n,
            negative == has_char(s@.take(i as int), '-'),
            !has_char(s@.take(i as int), '.'),
            !has_char(s@.take(i as int), ','),
            seen == (digits_of(s@.take(i as int)).len() > 0),
            overflow == (digits_value(digits_of(s@.take(i as int))) > isize::MAX),
            !overflow ==> value == digits_value(digits_of(s@.take(i as int))),
        decreases n - i,
    {
        let c = chars[i];
        let ghost pre = s@.take(i as int);
        assert(s@.take(i + 1) =~= pre.push(c));
        assert(s@.take(i + 1).drop_last() =~= pre);
        if c == '.' || c == ',' {
            assert(has_char(s@, c)) by {
                assert(s@[i as int] == c);
            }
            return Err(NotationError::Generic("Invalid character - can not parse strings containing '.' or ',' characters to isize integers".to_string()));
        }
        if c == '-' {
            negative = true;
        }
        if '0' <= c && c <= '9' {
            let dv: usize = digit_of(c);
            proof {
                let d = digits_of(pre);
                let d2 = d.push(c);
                assert(d2.drop_last() =~= d);
                assert(digits_value(d2) == digits_value(d) * 10 + digit_value(c));
            }
            if !overflow {
                if value > (isize::MAX as usize - dv) / 10 {
                    overflow = true;
                } else {
                    value = value * 10 + dv;
                }
            } else {
                proof {
                    let d = digits_of(pre);
                    assert(digits_value(d) * 10 + digit_value(c) >= digits_value(d)) by (nonlinear_arith)
                        requires digits_value(d) >= 0;
                }
            }
            seen = true;
        }
        proof {
            lemma_has_char_push(pre, c, '-');
            lemma_has_char_push(pre, c, '.');
            lemma_has_char_push(pre, c, ',');
        }
        i = i + 1;
    }
    assert(s@.take(n as int) =~= s@);
    if !seen {
        return Err(NotationError::ParseInt(IntErrorKind::Empty));
    }
    if overflow {
        return Err(NotationError::ParseInt(IntErrorKind::PosOverflow));
    }
    let v: isize = value as isize;
    if negative {
        Ok(-v)
    } else {
        Ok(v)
    }
}

/// The value of a decimal digit character.
fn digit_of(c: char) -> (r: usize)
    requires
        '0' <= c && c <= '9',
    ensures
        r == digit_value(c),
        r < 10,
{
    let n: u32 = c as u32;
    (n - 48) as usize
}

pub open spec fn spec_parse_accidental(s: Seq<char>) -> Option<Accidental> {
    if contains_seq(s, "bb"@) {
        Some(Accidental::DblFlat)
    } else if contains_seq(s, "x"@) {
        Some(Accidental::DblSharp)
    } else if contains_seq(s, "b"@) {
        Some(Accidental::Flat)
    } else if contains_seq(s, "#"@) {
        Some(Accidental::Sharp)
    } else if contains_seq(s, "n"@) {
        Some(Accidental::Natural)
    } else {
        None
    }
}

/// A text holds a one-character text exactly where it holds that
/// character.
proof fn lemma_contains_one(s: Seq<char>, p: Seq<char>)
    requires
        p.len() == 1,
    ensures
        contains_seq(s, p) == has_char(s, p[0]),
{
    if contains_seq(s, p) {
        let i = choose|i: int| occurs_at(s, p, i);
        assert(s.subrange(i, i + 1)[0] == s[i]);
    }
    if has_char(s, p[0]) {
        let i = choose|i: int| 0 <= i < s.len() && #[trigger] s[i] == p[0];
        assert(s.subrange(i, i + 1) =~= p);
        assert(occurs_at(s, p, i));
    }
}

/// Two 'b' stand side by side in the text.
pub open spec fn has_double_flat(s: Seq<char>) -> bool {
    exists|i: int| 0 <= i && i + 1 < s.len() && #[trigger] s[i] == 'b' && s[i + 1] == 'b'
}

proof fn lemma_contains_bb(s: Seq<char>)
    ensures
        contains_seq(s, "bb"@) == has_double_flat(s),
{
    reveal_strlit("bb");
    if contains_seq(s, "bb"@) {
        let i = choose|i: int| occurs_at(s, "bb"@, i);
        assert(s.subrange(i, i + 2)[0] == s[i]);
        assert(s.subrange(i, i + 2)[1] == s[i + 1]);
    }
    if has_double_flat(s) {
        let i = choose|i: int| 0 <= i && i + 1 < s.len() && #[trigger] s[i] == 'b' && s[i + 1] == 'b';
        assert(s.subrange(i, i + 2) =~= "bb"@);
        assert(occurs_at(s, "bb"@, i));
    }
}

/// The accidental of a head code: two flats where two 'b' stand side by
/// side; else a double sharp where it holds an 'x'; else a flat where it
/// holds a 'b'; else a sharp where it holds a '#'; else a natural where it
/// holds an 'n'; else none.
pub proof fn lemma_accidental_of_code(s: Seq<char>)
    ensures
        has_double_flat(s) ==> spec_parse_accidental(s) == Some(Accidental::DblFlat),
        !has_double_flat(s) && has_char(s, 'x') ==> spec_parse_accidental(s) == Some(Accidental::DblSharp),
        !has_double_flat(s) && !has_char(s, 'x') && has_char(s, 'b') ==> spec_parse_accidental(s) == Some(
            Accidental::Flat,
        ),
        !has_char(s, 'x') && !has_char(s, 'b') && has_char(s, '#') ==> spec_parse_accidental(s) == Some(
            Accidental::Sharp,
        ),
        !has_char(s, 'x') && !has_char(s, 'b') && !has_char(s, '#') && has_char(s, 'n')
            ==> spec_parse_accidental(s) == Some(Accidental::Natural),
        !has_char(s, 'x') && !has_char(s, 'b') && !has_char(s, '#') && !has_char(s, 'n')
            ==> spec_parse_accidental(s) is None,
{
    reveal_strlit("x");
    reveal_strlit("b");
    reveal_strlit("#");
    reveal_strlit("n");
    lemma_contains_bb(s);
    lemma_contains_one(s, "x"@);
    lemma_contains_one(s, "b"@);
    lemma_contains_one(s, "#"@);
    lemma_contains_one(s, "n"@);
    if !has_char(s, 'b') && has_double_flat(s) {
        let i = choose|i: int| 0 <= i && i + 1 < s.len() && #[trigger] s[i] == 'b' && s[i + 1] == 'b';
        assert(s[i] == 'b');
    }
}

/// The accidental a head code names: "bb", "x", "b", "#" or "n", tried in
/// that order.
pub fn parse_accidental(s: &str) -> (r: Option<Accidental>)
    ensures
        r == spec_parse_accidental(s@),
{
    let c = to_chars(s);
    let c = c.as_slice();
    if has(c, "bb") {
        Some(Accidental::DblFlat)
    } else if has(c, "x") {
        Some(Accidental::DblSharp)
    } else if has(c, "b") {
        Some(Accidental::Flat)
    } else if has(c, "#") {
        Some(Accidental::Sharp)
    } else if has(c, "n") {
        Some(Accidental::Natural)
    } else {
        None
    }
}

pub open spec fn spec_parse_tie(s: Seq<char>) -> Option<TieFromType> {
    if contains_seq(s, "_"@) {
        Some(TieFromType::Standard)
    } else if contains_seq(s.drop_first(), "~"@) {
        Some(TieFromType::LetRing)
    } else {
        None
    }
}

/// A tie leaving a head: "_" anywhere, or "~" after the first character for
/// a let-ring tie. The first character must be a one-byte one.
pub fn parse_tie(s: &str) -> (r: Option<TieFromType>)
    requires
        s@.len() > 0,
        (s@[0] as u32) < 128,
    ensures
        r == spec_parse_tie(s@),
{
    let c = to_chars(s);
    if has(c.as_slice(), "_") {
        return Some(TieFromType::Standard);
    }
    let rest = crate::text::slice_chars(c.as_slice(), 1, c.len());
    assert(rest@ =~= s@.drop_first());
    if has(rest.as_slice(), "~") {
        return Some(TieFromType::LetRing);
    }
    None
}

pub open spec fn spec_parse_tie_to(s: Seq<char>) -> Option<TieToType> {
    if starts_with_seq(s, "~"@) {
        Some(TieToType::LetRing)
    } else {
        None
    }
}

/// A tie arriving at a head: the code begins with "~".
pub fn parse_tie_to(s: &str) -> (r: Option<TieToType>)
    ensures
        r == spec_parse_tie_to(s@),
{
    let c = to_chars(s);
    if begins(c.as_slice(), "~") {
        Some(TieToType::LetRing)
    } else {
        None
    }
}

pub open spec fn spec_parse_line(s: Seq<char>) -> Option<HeadLine> {
    if contains_seq(s, "LH"@) {
        Some(HeadLine(0, 0, HeadLineType::Halfstep))
    } else if contains_seq(s, "LW"@) {
        Some(HeadLine(0, 0, HeadLineType::Wholestep))
    } else if contains_seq(s, "LR"@) {
        Some(HeadLine(0, 0, HeadLineType::LineColor(NColor::Tomato)))
    } else if contains_seq(s, "LB"@) {
        Some(HeadLine(0, 0, HeadLineType::LineColor(NColor::Dodgerblue)))
    } else if contains_seq(s, "LG"@) {
        Some(HeadLine(0, 0, HeadLineType::LineColor(NColor::Lime)))
    } else if contains_seq(s, "L"@) {
        Some(HeadLine(0, 0, HeadLineType::Line))
    } else {
        None
    }
}

/// A line leaving a head: "LH", "LW", "LR", "LB", "LG" or "L".
pub fn parse_line(s: &str) -> (r: Option<HeadLine>)
    ensures
        r == spec_parse_line(s@),
{
    let c = to_chars(s);
    let c = c.as_slice();
    if has(c, "LH") {
        Some(HeadLine(0, 0, HeadLineType::Halfstep))
    } else if has(c, "LW") {
        Some(HeadLine(0, 0, HeadLineType::Wholestep))
    } else if has(c, "LR") {
        Some(HeadLine(0, 0, HeadLineType::LineColor(NColor::Tomato)))
    } else if has(c, "LB") {
        Some(HeadLine(0, 0, HeadLineType::LineColor(NColor::Dodgerblue)))
    } else if has(c, "LG") {
        Some(HeadLine(0, 0, HeadLineType::LineColor(NColor::Lime)))
    } else if has(c, "L") {
        Some(HeadLine(0, 0, HeadLineType::Line))
    } else {
        None
    }
}

pub open spec fn spec_parse_color(s: Seq<char>) -> Option<NColor> {
    if contains_seq(s, "CRed"@) {
        Some(NColor::Red)
    } else if contains_seq(s, "CBlu"@) {
        Some(NColor::Blue)
    } else if contains_seq(s, "CGre"@) {
        Some(NColor::Green)
    } else if contains_seq(s, "COra"@) {
        Some(NColor::Orange)
    } else if contains_seq(s, "CTom"@) {
        Some(NColor::Tomato)
    } else if contains_seq(s, "CDod"@) {
        Some(NColor::Dodgerblue)
    } else {
        None
    }
}

/// A colour: "CRed", "CBlu", "CGre", "COra", "CTom" or "CDod".
pub fn parse_color(s: &str) -> (r: Option<NColor>)
    ensures
        r == spec_parse_color(s@),
{
    let c = to_chars(s);
    let c = c.as_slice();
    if has(c, "CRed") {
        Some(NColor::Red)
    } else if has(c, "CBlu") {
        Some(NColor::Blue)
    } else if has(c, "CGre") {
        Some(NColor::Green)
    } else if has(c, "COra") {
        Some(NColor::Orange)
    } else if has(c, "CTom") {
        Some(NColor::Tomato)
    } else if has(c, "CDod") {
        Some(NColor::Dodgerblue)
    } else {
        None
    }
}

/// The articulation a head code names and the code with the articulation's
/// characters removed, as the code does it (for "-." it removes "=.", for
/// "-" it removes "=").
pub open spec fn spec_parse_articulation(s: Seq<char>) -> (Seq<char>, NoteArticulation) {
    if contains_seq(s, "-."@) {
        (replace_seq(s, "=."@, ""@), NoteArticulation::TenutoStaccato)
    } else if contains_seq(s, ">>"@) {
        (replace_seq(s, ">>"@, ""@), NoteArticulation::MarcatoStaccato)
    } else if contains_seq(s, "."@) {
        (replace_seq(s, "."@, ""@), NoteArticulation::Staccato)
    } else if contains_seq(s, "-"@) {
        (replace_seq(s, "="@, ""@), NoteArticulation::Tenuto)
    } else if contains_seq(s, ">"@) {
        (replace_seq(s, ">"@, ""@), NoteArticulation::Marcato)
    } else {
        (s, NoteArticulation::NoArticulation)
    }
}

/// The characters of `s` with every `pat` removed.
fn remove_all(s: &[char], pat: &str) -> (r: String)
    requires
        pat@.len() > 0,
    ensures
        r@ == replace_seq(s@, pat@, ""@),
{
    let p = to_chars(pat);
    let e = to_chars("");
    let out = replace(s, p.as_slice(), e.as_slice());
    string_from(out.as_slice())
}

/// Reads an articulation from a head code (see `spec_parse_articulation`).
pub fn parse_articulation(s: &str) -> (r: (String, NoteArticulation))
    ensures
        r.0@ == spec_parse_articulation(s@).0,
        r.1 == spec_parse_articulation(s@).1,
{
    let c = to_chars(s);
    let c = c.as_slice();
    proof {
        reveal_strlit("=.");
        reveal_strlit(">>");
        reveal_strlit(".");
        reveal_strlit("=");
        reveal_strlit(">");
    }
    if has(c, "-.") {
        (remove_all(c, "=."), NoteArticulation::TenutoStaccato)
    } else if has(c, ">>") {
        (remove_all(c, ">>"), NoteArticulation::MarcatoStaccato)
    } else if has(c, ".") {
        (remove_all(c, "."), NoteArticulation::Staccato)
    } else if has(c, "-") {
        (remove_all(c, "="), NoteArticulation::Tenuto)
    } else if has(c, ">") {
        (remove_all(c, ">"), NoteArticulation::Marcato)
    } else {
        (string_from(c), NoteArticulation::NoArticulation)
    }
}

pub open spec fn spec_function_type(s: Seq<char>) -> FunctionType {
    if s == "T"@ {
        FunctionType::T
    } else if s == "Tp"@ {
        FunctionType::Tp
    } else if s == "D"@ {
        FunctionType::D
    } else if s == "Dp"@ {
        FunctionType::Dp
    } else if s == "DD"@ {
        FunctionType::DD
    } else if s == "D/"@ {
        FunctionType::DNonComplete
    } else if s == "S"@ {
        FunctionType::S
    } else if s == "Sp"@ {
        FunctionType::Sp
    } else {
        FunctionType::Spacer
    }
}

pub open spec fn spec_function_color(s: Seq<char>) -> FunctionColor {
    if s == "2"@ {
        FunctionColor::Fc2
    } else if s == "3"@ {
        FunctionColor::Fc3
    } else if s == "4"@ {
        FunctionColor::Fc4
    } else if s == "53"@ {
        FunctionColor::Fc53
    } else if s == "5"@ {
        FunctionColor::Fc5
    } else if s == "6"@ {
        FunctionColor::Fc6
    } else if s == "65"@ {
        FunctionColor::Fc65
    } else if s == "64"@ {
        FunctionColor::Fc64
    } else if s == "7"@ {
        FunctionColor::Fc7
    } else if s == "9"@ {
        FunctionColor::Fc9
    } else if s == "9b"@ {
        FunctionColor::Fc9flat
    } else {
        FunctionColor::FcNone
    }
}

pub open spec fn spec_function_bass(s: Seq<char>) -> FunctionBass {
    if s == "3"@ {
        FunctionBass::Fb3
    } else if s == "5"@ {
        FunctionBass::Fb5
    } else if s == "7"@ {
        FunctionBass::Fb7
    } else {
        FunctionBass::FbNone
    }
}

/// A function symbol "type:color:bass": each part read from the pieces
/// between ':' (missing parts give the empty value), and whether the code
/// holds "(" and ")".
pub open spec fn spec_parse_function(s: Seq<char>) -> (FunctionType, FunctionColor, FunctionBass, bool, bool) {
    let seg = split_seq(s, ':');
    (
        spec_function_type(seg[0]),
        if seg.len() >= 2 { spec_function_color(seg[1]) } else { FunctionColor::FcNone },
        if seg.len() >= 3 { spec_function_bass(seg[2]) } else { FunctionBass::FbNone },
        contains_seq(s, "("@),
        contains_seq(s, ")"@),
    )
}

/// Whether the characters equal the literal.
fn is(s: &Vec<char>, lit: &str) -> (r: bool)
    ensures
        r == (s@ == lit@),
{
    let p = to_chars(lit);
    crate::text::chars_eq(s.as_slice(), p.as_slice())
}

fn function_type(s: &Vec<char>) -> (r: FunctionType)
    ensures
        r == spec_function_type(s@),
{
    if is(s, "T") {
        FunctionType::T
    } else if is(s, "Tp") {
        FunctionType::Tp
    } else if is(s, "D") {
        FunctionType::D
    } else if is(s, "Dp") {
        FunctionType::Dp
    } else if is(s, "DD") {
        FunctionType::DD
    } else if is(s, "D/") {
        FunctionType::DNonComplete
    } else if is(s, "S") {
        FunctionType::S
    } else if is(s, "Sp") {
        FunctionType::Sp
    } else {
        FunctionType::Spacer
    }
}

fn function_color(s: &Vec<char>) -> (r: FunctionColor)
    ensures
        r == spec_function_color(s@),
{
    if is(s, "2") {
        FunctionColor::Fc2
    } else if is(s, "3") {
        FunctionColor::Fc3
    } else if is(s, "4") {
        FunctionColor::Fc4
    } else if is(s, "53") {
        FunctionColor::Fc53
    } else if is(s, "5") {
        FunctionColor::Fc5
    } else if is(s, "6") {
        FunctionColor::Fc6
    } else if is(s, "65") {
        FunctionColor::Fc65
    } else if is(s, "64") {
        FunctionColor::Fc64
    } else if is(s, "7") {
        FunctionColor::Fc7
    } else if is(s, "9") {
        FunctionColor::Fc9
    } else if is(s, "9b") {
        FunctionColor::Fc9flat
    } else {
        FunctionColor::FcNone
    }
}

fn function_bass(s: &Vec<char>) -> (r: FunctionBass)
    ensures
        r == spec_function_bass(s@),
{
    if is(s, "3") {
        FunctionBass::Fb3
    } else if is(s, "5") {
        FunctionBass::Fb5
    } else if is(s, "7") {
        FunctionBass::Fb7
    } else {
        FunctionBass::FbNone
    }
}

/// Reads a function symbol (see `spec_parse_function`); it always succeeds.
pub fn parse_function(s: &str) -> (r: Option<(FunctionType, FunctionColor, FunctionBass, bool, bool)>)
    ensures
        r == Some(spec_parse_function(s@)),
{
    let c = to_chars(s);
    let segments = split(c.as_slice(), ':');
    assert(views(segments@)[0] == segments@[0]@);
    let ftype = function_type(&segments[0]);
    let fcolor = if segments.len() >= 2 {
        assert(views(segments@)[1] == segments@[1]@);
        function_color(&segments[1])
    } else {
        FunctionColor::FcNone
    };
    let fbass = if segments.len() >= 3 {
        assert(views(segments@)[2] == segments@[2]@);
        function_bass(&segments[2])
    } else {
        FunctionBass::FbNone
    };
    let start_par = has(c.as_slice(), "(");
    let end_par = has(c.as_slice(), ")");
    Some((ftype, fcolor, fbass, start_par, end_par))
}

pub open spec fn spec_parse_chord_root(r: Seq<char>) -> ChordRoot {
    if contains_seq(r, "Cb"@) {
        ChordRoot::CFlat
    } else if contains_seq(r, "C#"@) {
        ChordRoot::CSharp
    } else if contains_seq(r, "Db"@) {
        ChordRoot::DFlat
    } else if contains_seq(r, "D#"@) {
        ChordRoot::DSharp
    } else if contains_seq(r, "Eb"@) {
        ChordRoot::EFlat
    } else if contains_seq(r, "E#"@) {
        ChordRoot::ESharp
    } else if contains_seq(r, "Fb"@) {
        ChordRoot::FFlat
    } else if contains_seq(r, "F#"@) {
        ChordRoot::FSharp
    } else if contains_seq(r, "Gb"@) {
        ChordRoot::GFlat
    } else if contains_seq(r, "G#"@) {
        ChordRoot::GSharp
    } else if contains_seq(r, "Ab"@) {
        ChordRoot::AFlat
    } else if contains_seq(r, "A#"@) {
        ChordRoot::ASharp
    } else if contains_seq(r, "Bb"@) {
        ChordRoot::BFlat
    } else if contains_seq(r, "B#"@) {
        ChordRoot::BSharp
    } else if contains_seq(r, "C"@) {
        ChordRoot::CNatural
    } else if contains_seq(r, "D"@) {
        ChordRoot::DNatural
    } else if contains_seq(r, "E"@) {
        ChordRoot::ENatural
    } else if contains_seq(r, "F"@) {
        ChordRoot::FNatural
    } else if contains_seq(r, "G"@) {
        ChordRoot::GNatural
    } else if contains_seq(r, "A"@) {
        ChordRoot::ANatural
    } else if contains_seq(r, "B"@) {
        ChordRoot::BNatural
    } else {
        ChordRoot::NoRoot
    }
}

/// A text of one character holds no text of two.
proof fn lemma_one_char_lacks_pair(c: char, p: Seq<char>)
    requires
        p.len() == 2,
    ensures
        !contains_seq(seq![c], p),
{
}

/// A text of one character holds a text of one exactly where the two are
/// the same.
proof fn lemma_one_char_has(c: char, p: Seq<char>)
    requires
        p.len() == 1,
    ensures
        contains_seq(seq![c], p) == (p[0] == c),
{
    if p[0] == c {
        assert(seq![c].subrange(0, 1) =~= p);
        assert(occurs_at(seq![c], p, 0));
    }
}

/// A chord root written as one of the letters C, D, E, F, G, A or B
/// reads as the natural of that letter, whose letter is the one written.
pub proof fn lemma_root_letter_round_trip(c: char)
    requires
        c == 'C' || c == 'D' || c == 'E' || c == 'F' || c == 'G' || c == 'A' || c == 'B',
    ensures
        spec_parse_chord_root(seq![c]).spec_char() == c,
{
    reveal_strlit("Cb");
    reveal_strlit("C#");
    reveal_strlit("Db");
    reveal_strlit("D#");
    reveal_strlit("Eb");
    reveal_strlit("E#");
    reveal_strlit("Fb");
    reveal_strlit("F#");
    reveal_strlit("Gb");
    reveal_strlit("G#");
    reveal_strlit("Ab");
    reveal_strlit("A#");
    reveal_strlit("Bb");
    reveal_strlit("B#");
    reveal_strlit("C");
    reveal_strlit("D");
    reveal_strlit("E");
    reveal_strlit("F");
    reveal_strlit("G");
    reveal_strlit("A");
    reveal_strlit("B");
    lemma_one_char_lacks_pair(c, "Cb"@);
    lemma_one_char_lacks_pair(c, "C#"@);
    lemma_one_char_lacks_pair(c, "Db"@);
    lemma_one_char_lacks_pair(c, "D#"@);
    lemma_one_char_lacks_pair(c, "Eb"@);
    lemma_one_char_lacks_pair(c, "E#"@);
    lemma_one_char_lacks_pair(c, "Fb"@);
    lemma_one_char_lacks_pair(c, "F#"@);
    lemma_one_char_lacks_pair(c, "Gb"@);
    lemma_one_char_lacks_pair(c, "G#"@);
    lemma_one_char_lacks_pair(c, "Ab"@);
    lemma_one_char_lacks_pair(c, "A#"@);
    lemma_one_char_lacks_pair(c, "Bb"@);
    lemma_one_char_lacks_pair(c, "B#"@);
    lemma_one_char_has(c, "C"@);
    lemma_one_char_has(c, "D"@);
    lemma_one_char_has(c, "E"@);
    lemma_one_char_has(c, "F"@);
    lemma_one_char_has(c, "G"@);
    lemma_one_char_has(c, "A"@);
    lemma_one_char_has(c, "B"@);
}

/// The chord root a code names: sharps and flats first, then naturals.
pub fn parse_chord_root(r: &[char]) -> (c: ChordRoot)
    ensures
        c == spec_parse_chord_root(r@),
{
    if has(r, "Cb") {
        ChordRoot::CFlat
    } else if has(r, "C#") {
        ChordRoot::CSharp
    } else if has(r, "Db") {
        ChordRoot::DFlat
    } else if has(r, "D#") {
        ChordRoot::DSharp
    } else if has(r, "Eb") {
        ChordRoot::EFlat
    } else if has(r, "E#") {
        ChordRoot::ESharp
    } else if has(r, "Fb") {
        ChordRoot::FFlat
    } else if has(r, "F#") {
        ChordRoot::FSharp
    } else if has(r, "Gb") {
        ChordRoot::GFlat
    } else if has(r, "G#") {
        ChordRoot::GSharp
    } else if has(r, "Ab") {
        ChordRoot::AFlat
    } else if has(r, "A#") {
        ChordRoot::ASharp
    } else if has(r, "Bb") {
        ChordRoot::BFlat
    } else if has(r, "B#") {
        ChordRoot::BSharp
    } else if has(r, "C") {
        ChordRoot::CNatural
    } else if has(r, "D") {
        ChordRoot::DNatural
    } else if has(r, "E") {
        ChordRoot::ENatural
    } else if has(r, "F") {
        ChordRoot::FNatural
    } else if has(r, "G") {
        ChordRoot::GNatural
    } else if has(r, "A") {
        ChordRoot::ANatural
    } else if has(r, "B") {
        ChordRoot::BNatural
    } else {
        ChordRoot::NoRoot
    }
}

pub open spec fn spec_chord_color(s: Seq<char>) -> ChordColor {
    if contains_seq(s, "sus2"@) {
        ChordColor::SusTwo
    } else if contains_seq(s, "sus4"@) {
        ChordColor::SusFour
    } else if contains_seq(s, "maj7"@) {
        ChordColor::MajSeven
    } else if contains_seq(s, "#5"@) {
        ChordColor::PlusFive
    } else if contains_seq(s, "#9"@) {
        ChordColor::PlusNine
    } else if contains_seq(s, "b9"@) {
        ChordColor::MinusNine
    } else if contains_seq(s, "5"@) {
        ChordColor::Five
    } else if contains_seq(s, "6"@) {
        ChordColor::Six
    } else if contains_seq(s, "7"@) {
        ChordColor::Seven
    } else {
        ChordColor::NoColor
    }
}

/// The code that the flavour and roots are read from: "maj7" is removed
/// when it names the colour.
pub open spec fn chord_rest(s: Seq<char>) -> Seq<char> {
    if !contains_seq(s, "sus2"@) && !contains_seq(s, "sus4"@) && contains_seq(s, "maj7"@) {
        replace_seq(s, "maj7"@, ""@)
    } else {
        s
    }
}

/// A chord symbol "root...:bass": colour, minor when an 'm' is left after
/// removing "maj7", root from the piece before ':' and bass from the one
/// after it.
pub open spec fn spec_parse_chord(s: Seq<char>) -> (ChordRoot, ChordFlavour, ChordColor, ChordRoot) {
    let rest = chord_rest(s);
    let seg = split_seq(rest, ':');
    (
        spec_parse_chord_root(seg[0]),
        if contains_seq(rest, "m"@) { ChordFlavour::Minor } else { ChordFlavour::Major },
        spec_chord_color(s),
        if seg.len() > 1 { spec_parse_chord_root(seg[1]) } else { ChordRoot::NoRoot },
    )
}

/// Reads a chord symbol (see `spec_parse_chord`); it always succeeds.
pub fn parse_chord(s: &str) -> (r: Option<(ChordRoot, ChordFlavour, ChordColor, ChordRoot)>)
    ensures
        r == Some(spec_parse_chord(s@)),
{
    let mut c = to_chars(s);
    let ghost s0 = c@;
    let mut ccolor = ChordColor::NoColor;
    if has(c.as_slice(), "sus2") {
        ccolor = ChordColor::SusTwo;
    } else if has(c.as_slice(), "sus4") {
        ccolor = ChordColor::SusFour;
    } else if has(c.as_slice(), "maj7") {
        ccolor = ChordColor::MajSeven;
        let p = to_chars("maj7");
        let e = to_chars("");
        proof {
            reveal_strlit("maj7");
        }
        c = replace(c.as_slice(), p.as_slice(), e.as_slice());
    } else if has(c.as_slice(), "#5") {
        ccolor = ChordColor::PlusFive;
    } else if has(c.as_slice(), "#9") {
        ccolor = ChordColor::PlusNine;
    } else if has(c.as_slice(), "b9") {
        ccolor = ChordColor::MinusNine;
    } else if has(c.as_slice(), "5") {
        ccolor = ChordColor::Five;
    } else if has(c.as_slice(), "6") {
        ccolor = ChordColor::Six;
    } else if has(c.as_slice(), "7") {
        ccolor = ChordColor::Seven;
    }
    assert(c@ == chord_rest(s0));
    let cflavour = if has(c.as_slice(), "m") {
        ChordFlavour::Minor
    } else {
        ChordFlavour::Major
    };
    let x = split(c.as_slice(), ':');
    assert(views(x@)[0] == x@[0]@);
    let croot = parse_chord_root(x[0].as_slice());
    let cbass = if x.len() > 1 {
        assert(views(x@)[1] == x@[1]@);
        parse_chord_root(x[1].as_slice())
    } else {
        ChordRoot::NoRoot
    };
    Some((croot, cflavour, ccolor, cbass))
}

pub open spec fn spec_parse_symbol(s: Seq<char>) -> SymbolType {
    if contains_seq(s, "2up"@) {
        SymbolType::ChordProgress2ndUp
    } else if contains_seq(s, "2down"@) {
        SymbolType::ChordProgress2ndDown
    } else if contains_seq(s, "3up"@) {
        SymbolType::ChordProgress3rdUp
    } else if contains_seq(s, "3down"@) {
        SymbolType::ChordProgress3rdDown
    } else if contains_seq(s, "5up"@) {
        SymbolType::ChordProgress5thUp
    } else if contains_seq(s, "5down"@) {
        SymbolType::ChordProgress5thDown
    } else {
        SymbolType::Square
    }
}

/// A symbol: a chord progression arrow ("2up", "2down", "3up", ...) or a
/// square; the code is handed back with it. It always succeeds.
pub fn parse_symbol(s: &str) -> (r: Option<(String, SymbolType)>)
    ensures
        r matches Some(p) && p.0@ == s@ && p.1 == spec_parse_symbol(s@),
{
    let c = to_chars(s);
    let c = c.as_slice();
    let t = if has(c, "2up") {
        SymbolType::ChordProgress2ndUp
    } else if has(c, "2down") {
        SymbolType::ChordProgress2ndDown
    } else if has(c, "3up") {
        SymbolType::ChordProgress3rdUp
    } else if has(c, "3down") {
        SymbolType::ChordProgress3rdDown
    } else if has(c, "5up") {
        SymbolType::ChordProgress5thUp
    } else if has(c, "5down") {
        SymbolType::ChordProgress5thDown
    } else {
        SymbolType::Square
    };
    Some((string_from(c), t))
}

/// The width of a root's letter, by letter.
pub open spec fn root_letter_width(r: ChordRoot, c: u32, d: u32, e: u32, f: u32, g: u32, a: u32, b: u32) -> u32 {
    match r {
        ChordRoot::NoRoot => 0,
        ChordRoot::CFlat | ChordRoot::CNatural | ChordRoot::CSharp => c,
        ChordRoot::DFlat | ChordRoot::DNatural | ChordRoot::DSharp => d,
        ChordRoot::EFlat | ChordRoot::ENatural | ChordRoot::ESharp => e,
        ChordRoot::FFlat | ChordRoot::FNatural | ChordRoot::FSharp => f,
        ChordRoot::GFlat | ChordRoot::GNatural | ChordRoot::GSharp => g,
        ChordRoot::AFlat | ChordRoot::ANatural | ChordRoot::ASharp => a,
        ChordRoot::BFlat | ChordRoot::BNatural | ChordRoot::BSharp => b,
    }
}

/// A root with a flat or a sharp.
pub open spec fn root_altered(r: ChordRoot) -> bool {
    match r {
        ChordRoot::CFlat | ChordRoot::CSharp | ChordRoot::DFlat | ChordRoot::DSharp | ChordRoot::EFlat
        | ChordRoot::ESharp | ChordRoot::FFlat | ChordRoot::FSharp | ChordRoot::GFlat | ChordRoot::GSharp
        | ChordRoot::AFlat | ChordRoot::ASharp | ChordRoot::BFlat | ChordRoot::BSharp => true,
        _ => false,
    }
}

/// The width of a chord colour's text.
pub open spec fn color_width(c: ChordColor) -> u32 {
    match c {
        ChordColor::NoColor => 0,
        ChordColor::SusTwo => 100,
        ChordColor::SusFour => 100,
        ChordColor::MajSeven => 100,
        ChordColor::Five => 25,
        ChordColor::PlusFive => 25,
        ChordColor::Six => 25,
        ChordColor::Seven => 30,
        ChordColor::Nine => 25,
        ChordColor::MinusNine => 35,
        ChordColor::PlusNine => 25,
        ChordColor::Thirteen => 25,
    }
}

/// How wide a chord symbol is likely to be drawn: its root's letter, and
/// 25 more for a flat or sharp; 60 for minor; its colour; and for a bass
/// note, 28 for the slash, the bass letter, and 30 more for a flat or
/// sharp.
pub open spec fn chord_width(root: ChordRoot, flavour: ChordFlavour, color: ChordColor, bass: ChordRoot) -> u32 {
    let w_root = root_letter_width(root, 60, 70, 50, 50, 60, 55, 55) + if root_altered(root) { 25u32 } else { 0 };
    let w_flavour: u32 = if flavour == ChordFlavour::Minor { 60 } else { 0 };
    let w_bass: u32 = if bass == ChordRoot::NoRoot {
        0
    } else {
        (28 + root_letter_width(bass, 50, 60, 50, 50, 60, 55, 55) + if root_altered(bass) { 30u32 } else { 0 }) as u32
    };
    (w_root + w_flavour + color_width(color) + w_bass) as u32
}

fn letter_width(r: ChordRoot, c: u32, d: u32, e: u32, f: u32, g: u32, a: u32, b: u32) -> (w: u32)
    ensures
        w == root_letter_width(r, c, d, e, f, g, a, b),
{
    match r {
        ChordRoot::NoRoot => 0,
        ChordRoot::CFlat | ChordRoot::CNatural | ChordRoot::CSharp => c,
        ChordRoot::DFlat | ChordRoot::DNatural | ChordRoot::DSharp => d,
        ChordRoot::EFlat | ChordRoot::ENatural | ChordRoot::ESharp => e,
        ChordRoot::FFlat | ChordRoot::FNatural | ChordRoot::FSharp => f,
        ChordRoot::GFlat | ChordRoot::GNatural | ChordRoot::GSharp => g,
        ChordRoot::AFlat | ChordRoot::ANatural | ChordRoot::ASharp => a,
        ChordRoot::BFlat | ChordRoot::BNatural | ChordRoot::BSharp => b,
    }
}

fn is_altered(r: ChordRoot) -> (b: bool)
    ensures
        b == root_altered(r),
{
    match r {
        ChordRoot::CFlat | ChordRoot::CSharp | ChordRoot::DFlat | ChordRoot::DSharp | ChordRoot::EFlat
        | ChordRoot::ESharp | ChordRoot::FFlat | ChordRoot::FSharp | ChordRoot::GFlat | ChordRoot::GSharp
        | ChordRoot::AFlat | ChordRoot::ASharp | ChordRoot::BFlat | ChordRoot::BSharp => true,
        _ => false,
    }
}

/// How wide a chord symbol is likely to be drawn (see `chord_width`).
pub fn chord_guess_width(
    chord_root: &ChordRoot,
    chord_flavour: &ChordFlavour,
    chord_color: &ChordColor,
    chord_bass: &ChordRoot,
) -> (w: u32)
    ensures
        w == chord_width(*chord_root, *chord_flavour, *chord_color, *chord_bass),
{
    let mut width: u32 = letter_width(*chord_root, 60, 70, 50, 50, 60, 55, 55);
    if is_altered(*chord_root) {
        width = width + 25;
    }
    match chord_flavour {
        ChordFlavour::Minor => {
            width = width + 60;
        },
        _ => {},
    }
    let cw: u32 = match chord_color {
        ChordColor::NoColor => 0,
        ChordColor::SusTwo => 25 + 75,
        ChordColor::SusFour => 25 + 75,
        ChordColor::MajSeven => 100,
        ChordColor::Five => 25,
        ChordColor::PlusFive => 25,
        ChordColor::Six => 25,
        ChordColor::Seven => 30,
        ChordColor::Nine => 25,
        ChordColor::MinusNine => 35,
        ChordColor::PlusNine => 25,
        ChordColor::Thirteen => 25,
    };
    width = width + cw;
    match chord_bass {
        ChordRoot::NoRoot => {},
        _ => {
            width = width + 28;
            width = width + letter_width(*chord_bass, 50, 60, 50, 50, 60, 55, 55);
            if is_altered(*chord_bass) {
                width = width + 30;
            }
        },
    }
    width
}

} // verus!
