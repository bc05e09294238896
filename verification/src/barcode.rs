//! The bar codes of the quick-code format: parts joined by '/', bars
//! joined by '|', and the bars of clefs, times, keys, barlines, spacers and
//! count-ins.

use vstd::prelude::*;
use vstd::string::*;

use crate::bar::{
    bar_start, lemma_bar_start_same, parts_max_duration, Bar, Bars, BarAttributeType, BarType, BarlineType, KeySignature, NonContentType, Time,
    TimeDenominator, TimeNominator, TimeSignature,
};
use crate::core_defs::{message, Clef, ClefSignature};
use crate::numbering::{bars_numbered, number_bars};
use crate::error::NotationError;
use crate::note::Notes;
use crate::playback::Key;
use crate::part::{voices_duration, BarTemplate, Part, PartMusicType, PartNonmusicType, PartTemplate, PartType};
use crate::qcode::{
    note_matches, notes_of_code, NotesOutcome, voice_codes, voices_error, voices_failure, voices_made, voices_panics_inner, QCode,
    VoicesErr,
};
use crate::text::{
    first_index, lemma_first_index_bounds, lemma_split_len, lemma_split_no_sep, lemma_split_parts_len,
    lemma_trim_len, lemma_trim_offset, lower_seq, slice_chars, split, split_seq, starts_with_seq, string_from,
    to_chars, to_lower, to_upper, trim, trim_seq, upper_seq, views,
};
use crate::utils::{begins, has_char};

verus! {

/// The text after the first space ("" where there is none): what is left
/// when the first space-separated piece is dropped and the others are
/// joined again by spaces.
pub open spec fn after_first_space(s: Seq<char>) -> Seq<char> {
    match first_index(s, ' ') {
        Some(i) => s.skip(i + 1),
        None => Seq::empty(),
    }
}

/// Why a part code fails: its voices fail, or it is an "other" part.
pub enum PartErr {
    Voices(VoicesErr),
    Other,
}

/// Why a part code fails, where it does: a code (trimmed) starting "lyr"
/// reads its voices after the first space, one starting "oth" fails, any
/// other reads its voices.
#[verifier::opaque]
pub open spec fn part_failure(code: Seq<char>) -> Option<PartErr> {
    let c = trim_seq(code);
    if starts_with_seq(c, "lyr"@) {
        match voices_failure(after_first_space(c)) {
            Some(e) => Some(PartErr::Voices(e)),
            None => None,
        }
    } else if starts_with_seq(c, "oth"@) {
        Some(PartErr::Other)
    } else {
        match voices_failure(c) {
            Some(e) => Some(PartErr::Voices(e)),
            None => None,
        }
    }
}

/// The error that a failure of a part code gives.
pub open spec fn part_error(e: PartErr, err: NotationError) -> bool {
    match e {
        PartErr::Voices(v) => voices_error(v, err),
        PartErr::Other => err matches NotationError::Generic(m) && m@ == "other part not implemented"@,
    }
}

/// The part and its kind read from a part code that does not fail: lyrics
/// for a "lyr" code, music for any other.
#[verifier::opaque]
pub open spec fn part_made(t: PartTemplate, p: Part, code: Seq<char>) -> bool {
    let c = trim_seq(code);
    if starts_with_seq(c, "lyr"@) {
        &&& t == PartTemplate::Nonmusic
        &&& p.ptype matches PartType::Nonmusic(PartNonmusicType::Lyrics(v))
        &&& voices_made(v, after_first_space(c))
        &&& p.duration == voices_duration(v)
    } else {
        &&& t == PartTemplate::Music
        &&& p.ptype matches PartType::Music(PartMusicType::Voices(v))
        &&& voices_made(v, c)
        &&& p.duration == voices_duration(v)
    }
}

/// A part code whose voices the reader cannot take (see
/// `voices_panics_inner`).
#[verifier::opaque]
pub open spec fn part_panics(code: Seq<char>) -> bool {
    let c = trim_seq(code);
    if starts_with_seq(c, "lyr"@) {
        voices_panics_inner(after_first_space(c))
    } else if starts_with_seq(c, "oth"@) {
        false
    } else {
        voices_panics_inner(c)
    }
}

/// The non-empty pieces, in order.
pub open spec fn non_empty(ps: Seq<Seq<char>>) -> Seq<Seq<char>>
    decreases ps.len(),
{
    if ps.len() == 0 {
        Seq::empty()
    } else if ps.last().len() > 0 {
        non_empty(ps.drop_last()).push(ps.last())
    } else {
        non_empty(ps.drop_last())
    }
}

/// The part codes of a bar of parts: the trimmed code split at each '/',
/// empty pieces left out.
pub open spec fn part_codes(code: Seq<char>) -> Seq<Seq<char>> {
    non_empty(split_seq(trim_seq(code), '/'))
}

/// The first failure among the part codes, in order.
pub open spec fn first_part_failure(ps: Seq<Seq<char>>) -> Option<PartErr>
    decreases ps.len(),
{
    if ps.len() == 0 {
        None
    } else {
        match first_part_failure(ps.drop_last()) {
            Some(e) => Some(e),
            None => part_failure(ps.last()),
        }
    }
}

/// The reader cannot take a part code that it reaches: one before which
/// none fails.
pub open spec fn parts_panic(ps: Seq<Seq<char>>) -> bool {
    exists|k: int| 0 <= k < ps.len() && first_part_failure(ps.take(k)) is None && #[trigger] part_panics(ps[k])
}

/// After the first space of a trimmed stretch of `s`, the text is still a
/// stretch of `s`.
proof fn lemma_after_space_within(s: Seq<char>) -> (a: int)
    ensures
        0 <= a,
        a + after_first_space(s).len() <= s.len(),
        forall|k: int| 0 <= k < after_first_space(s).len() ==> #[trigger] after_first_space(s)[k] == s[a + k],
{
    lemma_first_index_bounds(s, ' ');
    match first_index(s, ' ') {
        Some(i) => i + 1,
        None => 0,
    }
}

/// Characters absent from `s` are absent from its trimmed form and from
/// what follows the first space of that.
proof fn lemma_free_within(s: Seq<char>, c: char)
    requires
        !has_char(s, c),
    ensures
        !has_char(trim_seq(s), c),
        !has_char(after_first_space(trim_seq(s)), c),
{
    let t = trim_seq(s);
    let a = lemma_trim_offset(s);
    assert forall|k: int| 0 <= k < t.len() implies #[trigger] t[k] != c by {
        assert(t[k] == s[a + k]);
        assert(0 <= a + k < s.len());
    }
    let b = lemma_after_space_within(t);
    let u = after_first_space(t);
    assert forall|k: int| 0 <= k < u.len() implies #[trigger] u[k] != c by {
        assert(u[k] == t[b + k]);
    }
}

/// The code of a part, and what follows its first space, are no longer
/// than the code.
proof fn lemma_part_code_len(s: Seq<char>)
    ensures
        trim_seq(s).len() <= s.len(),
        after_first_space(trim_seq(s)).len() <= s.len(),
{
    lemma_trim_len(s);
    lemma_after_space_within(trim_seq(s));
}

/// What follows the first space (see `after_first_space`).
fn rest_after_space(s: &[char]) -> (r: Vec<char>)
    ensures
        r@ == after_first_space(s@),
{
    let n = s.len();
    let mut i: usize = 0;
    while i < n && s[i] != ' '
        invariant
            n == s@.len(),
            i <= n,
            forall|k: int| 0 <= k < i ==> s@[k] != ' ',
        decreases n - i,
    {
        i = i + 1;
    }
    if i < n {
        proof {
            crate::text::lemma_first_index(s@, ' ', i as int);
        }
        slice_chars(s, i + 1, n)
    } else {
        proof {
            crate::text::lemma_first_index_none(s@, ' ');
        }
        Vec::new()
    }
}

impl QCode {
    /// Reads a part from a part code (see `part_failure` and `part_made`):
    /// lyrics where the code starts "lyr", music otherwise.
    pub fn part(code: &str) -> (r: Result<(PartTemplate, Part), NotationError>)
        requires
            !part_panics(code@),
            !has_char(code@, '/'),
            144 * (code@.len() + 1) <= usize::MAX,
        ensures
            match part_failure(code@) {
                Some(e) => r matches Err(err) && part_error(e, err),
                None => r matches Ok((t, p)) && part_made(t, p, code@) && p.duration <= 144 * (code@.len() + 1),
            },
    {
        let chars = to_chars(code);
        let c = trim(chars.as_slice());
        proof {
            lemma_free_within(code@, '/');
            lemma_part_code_len(code@);
            reveal(part_failure);
            reveal(part_made);
            reveal(part_panics);
        }
        if begins(c.as_slice(), "lyr") {
            let rest = rest_after_space(c.as_slice());
            let s = string_from(rest.as_slice());
            let voices = match QCode::voices(s.as_str()) {
                Ok(v) => v,
                Err(e) => {
                    return Err(e);
                },
            };
            proof {
                assert(144 * (rest@.len() + 1) <= (144 * (code@.len() + 1)) as int) by (nonlinear_arith)
                    requires
                        rest@.len() <= code@.len();
            }
            let part = match Part::from_lyrics(voices) {
                Ok(p) => p,
                Err(e) => {
                    return Err(e);
                },
            };
            Ok((PartTemplate::Nonmusic, part))
        } else if begins(c.as_slice(), "oth") {
            Err(NotationError::Generic("other part not implemented".to_string()))
        } else {
            let s = string_from(c.as_slice());
            let voices = match QCode::voices(s.as_str()) {
                Ok(v) => v,
                Err(e) => {
                    return Err(e);
                },
            };
            proof {
                assert(144 * (c@.len() + 1) <= (144 * (code@.len() + 1)) as int) by (nonlinear_arith)
                    requires
                        c@.len() <= code@.len();
            }
            let part = match Part::from_voices(voices) {
                Ok(p) => p,
                Err(e) => {
                    return Err(e);
                },
            };
            Ok((PartTemplate::Music, part))
        }
    }
}

/// Keeping the non-empty pieces of a joined sequence keeps those of each
/// half.
proof fn lemma_non_empty_append(a: Seq<Seq<char>>, b: Seq<Seq<char>>)
    ensures
        non_empty(a + b) == non_empty(a) + non_empty(b),
    decreases b.len(),
{
    if b.len() == 0 {
        assert(a + b =~= a);
        assert(non_empty(a) + non_empty(b) =~= non_empty(a));
    } else {
        lemma_non_empty_append(a, b.drop_last());
        assert((a + b).drop_last() =~= a + b.drop_last());
        assert((a + b).last() == b.last());
        if b.last().len() > 0 {
            assert(non_empty(a) + non_empty(b) =~= (non_empty(a) + non_empty(b.drop_last())).push(b.last()));
        }
    }
}

/// The non-empty pieces of a prefix come first among those of the whole,
/// and a non-empty piece right after the prefix follows them.
proof fn lemma_non_empty_prefix(ps: Seq<Seq<char>>, i: int)
    requires
        0 <= i < ps.len(),
    ensures
        non_empty(ps).take(non_empty(ps.take(i)).len() as int) == non_empty(ps.take(i)),
        ps[i].len() > 0 ==> non_empty(ps.take(i)).len() < non_empty(ps).len() && non_empty(ps)[non_empty(
            ps.take(i),
        ).len() as int] == ps[i],
        ps[i].len() > 0 ==> non_empty(ps.take(i + 1)) == non_empty(ps.take(i)).push(ps[i]),
        ps[i].len() == 0 ==> non_empty(ps.take(i + 1)) == non_empty(ps.take(i)),
{
    let a = ps.take(i);
    let b = ps.skip(i);
    assert(ps =~= a + b);
    lemma_non_empty_append(a, b);
    let rest = b.drop_first();
    assert(b =~= seq![ps[i]] + rest);
    lemma_non_empty_append(seq![ps[i]], rest);
    assert(seq![ps[i]].drop_last() =~= Seq::<Seq<char>>::empty());
    reveal_with_fuel(non_empty, 2);
    if ps[i].len() > 0 {
        assert(non_empty(seq![ps[i]]) =~= seq![ps[i]]);
    } else {
        assert(non_empty(seq![ps[i]]) =~= Seq::<Seq<char>>::empty());
    }
    assert(non_empty(ps).take(non_empty(a).len() as int) =~= non_empty(a));
    assert(ps.take(i + 1).drop_last() =~= a);
}

/// The kinds and parts read, one for each part code, each no longer than
/// the bound.
pub open spec fn parts_read(t: Seq<PartTemplate>, parts: Seq<Part>, ne: Seq<Seq<char>>, bound: int) -> bool {
    &&& t.len() == ne.len()
    &&& parts.len() == ne.len()
    &&& forall|k: int|
        #![trigger t[k]]
        #![trigger parts[k]]
        0 <= k < ne.len() ==> part_made(t[k], parts[k], ne[k]) && parts[k].duration <= bound
}

proof fn lemma_parts_read_push(
    t: Seq<PartTemplate>,
    parts: Seq<Part>,
    ne: Seq<Seq<char>>,
    bound: int,
    t1: PartTemplate,
    p1: Part,
    s: Seq<char>,
)
    requires
        parts_read(t, parts, ne, bound),
        part_made(t1, p1, s),
        p1.duration <= bound,
    ensures
        parts_read(t.push(t1), parts.push(p1), ne.push(s), bound),
{
    assert forall|k: int| 0 <= k < ne.len() + 1 implies part_made(#[trigger] t.push(t1)[k], parts.push(p1)[k], ne.push(s)[k])
        && parts.push(p1)[k].duration <= bound by {
        if k < ne.len() {
            assert(t.push(t1)[k] == t[k]);
            assert(parts.push(p1)[k] == parts[k]);
            assert(ne.push(s)[k] == ne[k]);
            assert(part_made(t[k], parts[k], ne[k]) && parts[k].duration <= bound);
        }
    }
}

/// Once some part code before the end fails, the first failure is found
/// there.
proof fn lemma_first_failure_prefix(ps: Seq<Seq<char>>, m: int)
    requires
        0 <= m <= ps.len(),
        first_part_failure(ps.take(m)) is Some,
    ensures
        first_part_failure(ps) == first_part_failure(ps.take(m)),
    decreases ps.len() - m,
{
    if m < ps.len() {
        assert(ps.take(m + 1).drop_last() =~= ps.take(m));
        lemma_first_failure_prefix(ps, m + 1);
    } else {
        assert(ps.take(m) =~= ps);
    }
}

/// The part code at `k` is reached and so, by the requirement, taken.
proof fn lemma_no_panic_at(ps: Seq<Seq<char>>, k: int)
    requires
        !parts_panic(ps),
        0 <= k < ps.len(),
        first_part_failure(ps.take(k)) is None,
    ensures
        !part_panics(ps[k]),
{
}

/// The pieces of a split of the parts code: none longer than the bound,
/// none holding a '/'.
#[verifier::opaque]
spec fn pieces_ok(all: Seq<Seq<char>>, bound: int) -> bool {
    forall|k: int| 0 <= k < all.len() ==> (#[trigger] all[k]).len() <= bound && !has_char(all[k], '/')
}

/// Reads one part code (see `QCode::part`).
fn read_part(piece: &Vec<char>) -> (r: Result<(PartTemplate, Part), NotationError>)
    requires
        !part_panics(piece@),
        !has_char(piece@, '/'),
        144 * (piece@.len() + 1) <= usize::MAX,
    ensures
        match part_failure(piece@) {
            Some(e) => r matches Err(err) && part_error(e, err),
            None => r matches Ok((t, p)) && part_made(t, p, piece@) && p.duration <= 144 * (piece@.len() + 1),
        },
{
    let s = string_from(piece.as_slice());
    QCode::part(s.as_str())
}

impl QCode {
    /// Reads the parts of a bar from a code of part codes joined by '/'
    /// (see `part_codes`): the first part code that fails makes the error,
    /// else each gives its part and kind, in order.
    pub(crate) fn parts(code: &str) -> (r: Result<(BarTemplate, Vec<Part>), NotationError>)
        requires
            !parts_panic(part_codes(code@)),
            144 * (code@.len() + 1) <= usize::MAX,
        ensures
            ({
                let ps = part_codes(code@);
                match first_part_failure(ps) {
                    Some(e) => r matches Err(err) && part_error(e, err),
                    None => r matches Ok((t, parts)) && parts_read(t.0@, parts@, ps, (144 * (code@.len() + 1)) as int),
                }
            }),
    {
        let chars = to_chars(code);
        let c = trim(chars.as_slice());
        let pieces = split(c.as_slice(), '/');
        let ghost all = views(pieces@);
        let ghost ps = part_codes(code@);
        let ghost bound = (144 * (code@.len() + 1)) as int;
        proof {
            lemma_trim_len(code@);
            lemma_split_parts_len(c@, '/');
            lemma_split_no_sep(c@, '/');
            assert(all == split_seq(c@, '/'));
            reveal(pieces_ok);
            assert forall|k: int| 0 <= k < all.len() implies (#[trigger] all[k]).len() <= code@.len() && !has_char(all[k], '/') by {
                assert forall|j: int| 0 <= j < all[k].len() implies all[k][j] != '/' by {
                    assert(split_seq(c@, '/')[k][j] != '/');
                }
            }
            assert(pieces_ok(all, code@.len() as int));
        }
        let mut templates: Vec<PartTemplate> = Vec::new();
        let mut parts: Vec<Part> = Vec::new();
        let mut i: usize = 0;
        assert(all.take(0) =~= Seq::<Seq<char>>::empty());
        while i < pieces.len()
            invariant
                all == views(pieces@),
                ps == non_empty(all),
                ps == part_codes(code@),
                144 * (code@.len() + 1) <= usize::MAX,
                bound == (144 * (code@.len() + 1)) as int,
                !parts_panic(ps),
                pieces_ok(all, code@.len() as int),
                i <= all.len(),
                first_part_failure(non_empty(all.take(i as int))) is None,
                parts_read(templates@, parts@, non_empty(all.take(i as int)), bound),
            decreases all.len() - i,
        {
            let ghost ne = non_empty(all.take(i as int));
            proof {
                lemma_non_empty_prefix(all, i as int);
                assert(all[i as int] == pieces@[i as int]@);
                reveal(pieces_ok);
                assert(all[i as int].len() <= code@.len() && !has_char(all[i as int], '/'));
            }
            if pieces[i].len() > 0 {
                proof {
                    let k = ne.len() as int;
                    assert(ps.take(k) == ne);
                    assert(ps[k] == pieces@[i as int]@);
                    lemma_no_panic_at(ps, k);
                    assert(non_empty(all.take(i + 1)) == ne.push(ps[k]));
                }
                let (t, p) = match read_part(&pieces[i]) {
                    Ok(x) => x,
                    Err(e) => {
                        proof {
                            let k = ne.len() as int;
                            assert(ps.take(k + 1).drop_last() =~= ps.take(k));
                            assert(ps.take(k + 1).last() == ps[k]);
                            assert(first_part_failure(ps.take(k + 1)) == part_failure(ps[k]));
                            assert(part_failure(pieces@[i as int]@) is Some);
                            lemma_first_failure_prefix(ps, k + 1);
                            assert(first_part_failure(ps) == part_failure(pieces@[i as int]@));
                            assert(part_error(first_part_failure(ps)->0, e));
                        }
                        return Err(e);
                    },
                };
                proof {
                    assert(144 * (pieces@[i as int]@.len() + 1) <= bound) by (nonlinear_arith)
                        requires
                            pieces@[i as int]@.len() <= code@.len(),
                            bound == 144 * (code@.len() + 1);
                    lemma_parts_read_push(templates@, parts@, ne, bound, t, p, pieces@[i as int]@);
                }
                templates.push(t);
                parts.push(p);
                proof {
                    let k = ne.len() as int;
                    assert(ne.push(ps[k]).drop_last() =~= ne);
                    assert(part_failure(ps[k]) is None);
                }
            }
            i = i + 1;
        }
        assert(all.take(all.len() as int) =~= all);
        Ok((BarTemplate(templates), parts))
    }
}

/// A time signature as the contracts see it: its numbers as written.
pub enum TimeView {
    Standard(Seq<char>, Seq<char>),
    Cut,
    Common,
}

/// How a time signature entry is seen.
pub open spec fn time_view(t: Option<TimeSignature>) -> Option<TimeView> {
    match t {
        Some(Some(Time::Standard(n, d))) => Some(TimeView::Standard(n.0@, d.0@)),
        Some(Some(Time::Cut)) => Some(TimeView::Cut),
        Some(Some(Time::Common)) => Some(TimeView::Common),
        _ => None,
    }
}

/// How a list of time signature entries is seen.
pub open spec fn times_view(ts: Seq<Option<TimeSignature>>) -> Seq<Option<TimeView>> {
    ts.map_values(|x: Option<TimeSignature>| time_view(x))
}

/// What a bar code (trimmed) describes, by the way it starts.
pub enum BarCode {
    Barline(BarlineType),
    VerticalLine,
    CountIn(Seq<char>),
    Spacer(Option<Seq<char>>, Option<Seq<char>>),
    MultiRest,
    Clefs(Seq<Seq<char>>),
    Times(Seq<Seq<char>>),
    Keys(Seq<Seq<char>>),
    Parts(Seq<char>),
}

/// The kind of a bar code: "bld" a double barline, "blt" a phrase tick,
/// "bl" a barline, "vl" a vertical line, "ci" a count-in of the notes after
/// the first space, "sp1" to "sp3" spacers of fixed sizes, "sp" a spacer of
/// the width and height after it, "mul" a rest over several bars, "cle",
/// "tim" and "key" the clefs, times and keys of the segments after it; any
/// other code holds parts.
pub open spec fn bar_code(code: Seq<char>) -> BarCode {
    let c = trim_seq(code);
    if starts_with_seq(c, "bld"@) {
        BarCode::Barline(BarlineType::Double)
    } else if starts_with_seq(c, "blt"@) {
        BarCode::Barline(BarlineType::FraseTick)
    } else if starts_with_seq(c, "bl"@) {
        BarCode::Barline(BarlineType::Single)
    } else if starts_with_seq(c, "vl"@) {
        BarCode::VerticalLine
    } else if starts_with_seq(c, "ci"@) {
        BarCode::CountIn(after_first_space(c))
    } else if starts_with_seq(c, "sp1"@) {
        BarCode::Spacer(Some("5"@), Some("150"@))
    } else if starts_with_seq(c, "sp2"@) {
        BarCode::Spacer(Some("10"@), Some("150"@))
    } else if starts_with_seq(c, "sp3"@) {
        BarCode::Spacer(Some("30"@), Some("150"@))
    } else if starts_with_seq(c, "sp"@) {
        let segs = split_seq(c, ' ');
        BarCode::Spacer(
            if segs.len() >= 2 { Some(segs[1]) } else { None },
            if segs.len() >= 3 { Some(segs[2]) } else { None },
        )
    } else if starts_with_seq(c, "mul"@) {
        BarCode::MultiRest
    } else if starts_with_seq(c, "cle"@) {
        BarCode::Clefs(split_seq(after_first_space(c), ' '))
    } else if starts_with_seq(c, "tim"@) {
        BarCode::Times(split_seq(after_first_space(c), ' '))
    } else if starts_with_seq(c, "key"@) {
        BarCode::Keys(split_seq(c, ' ').skip(1))
    } else {
        BarCode::Parts(c)
    }
}

/// The entries that the segments give, in order; a segment that gives
/// `None` is passed over.
pub open spec fn collect<A>(segs: Seq<Seq<char>>, f: spec_fn(Seq<char>) -> Option<A>) -> Seq<A>
    decreases segs.len(),
{
    if segs.len() == 0 {
        Seq::empty()
    } else {
        collect(segs.drop_last(), f) + match f(segs.last()) {
            Some(a) => seq![a],
            None => Seq::empty(),
        }
    }
}

/// The clef that a segment names ("g", "f", "c" in either case) or none
/// ("-"); other segments name nothing.
pub open spec fn clef_entry(seg: Seq<char>) -> Option<Option<ClefSignature>> {
    let u = upper_seq(seg);
    if u == "G"@ {
        Some(Some(Some(Clef::G)))
    } else if u == "F"@ {
        Some(Some(Some(Clef::F)))
    } else if u == "C"@ {
        Some(Some(Some(Clef::C)))
    } else if u == "-"@ {
        Some(None)
    } else {
        None
    }
}

/// The kind of part that a clef segment makes: "-" no music, a clef music.
pub open spec fn clef_template(seg: Seq<char>) -> Option<PartTemplate> {
    let u = upper_seq(seg);
    if u == "-"@ {
        Some(PartTemplate::Nonmusic)
    } else if u == "G"@ || u == "F"@ || u == "C"@ {
        Some(PartTemplate::Music)
    } else {
        None
    }
}

/// The time that a segment names: "n:d" a time of those numbers, "c" cut
/// time, "C" common time, "-" none; other segments name nothing.
pub open spec fn time_entry(seg: Seq<char>) -> Option<Option<TimeView>> {
    if has_char(seg, ':') {
        let p = split_seq(seg, ':');
        Some(Some(TimeView::Standard(p[0], p[1])))
    } else if seg == "c"@ {
        Some(Some(TimeView::Cut))
    } else if seg == "C"@ {
        Some(Some(TimeView::Common))
    } else if seg == "-"@ {
        Some(None)
    } else {
        None
    }
}

/// The kind of part that a time segment makes: "-" no music; a time with
/// ':' or a "c" or "C" music.
pub open spec fn time_template(seg: Seq<char>) -> Option<PartTemplate> {
    let u = upper_seq(seg);
    if u == "-"@ {
        Some(PartTemplate::Nonmusic)
    } else if has_char(u, ':') || u == "C"@ {
        Some(PartTemplate::Music)
    } else {
        None
    }
}

/// A key segment, lower-cased, without the clef letter "f" and then "c"
/// that may lead it.
pub open spec fn key_body(seg: Seq<char>) -> Seq<char> {
    let a = lower_seq(seg);
    let b = if starts_with_seq(a, "f"@) { a.skip(1) } else { a };
    if starts_with_seq(b, "c"@) { b.skip(1) } else { b }
}

/// `s` is one to six copies of `c`.
pub open spec fn repeats(s: Seq<char>, c: char) -> bool {
    1 <= s.len() <= 6 && forall|k: int| 0 <= k < s.len() ==> s[k] == c
}

/// The clef that a key segment is written for: C where, lower-cased and
/// without a leading "f", it starts with "c"; else F where it starts with
/// "f"; else G.
pub open spec fn key_clef(seg: Seq<char>) -> Clef {
    let a = lower_seq(seg);
    let b = if starts_with_seq(a, "f"@) { a.skip(1) } else { a };
    if starts_with_seq(b, "c"@) {
        Clef::C
    } else if starts_with_seq(a, "f"@) {
        Clef::F
    } else {
        Clef::G
    }
}

/// The key that a segment names, for the clef it is written for: one to
/// six '#' sharps, one to six 'b' flats, "n" no key, "-" none; other
/// segments name nothing.
pub open spec fn key_entry(seg: Seq<char>) -> Option<Option<KeySignature>> {
    let b = key_body(seg);
    if repeats(b, '#') {
        Some(Some(Some(Key::Sharps(b.len() as u8, key_clef(seg)))))
    } else if repeats(b, 'b') {
        Some(Some(Some(Key::Flats(b.len() as u8, key_clef(seg)))))
    } else if b == "n"@ {
        Some(Some(Some(Key::Open)))
    } else if b == "-"@ {
        Some(None)
    } else {
        None
    }
}

/// The kind of part that a key segment makes: "-" no music; one starting
/// '#', 'b' or 'n' music.
pub open spec fn key_template(seg: Seq<char>) -> Option<PartTemplate> {
    let b = key_body(seg);
    if b == "-"@ {
        Some(PartTemplate::Nonmusic)
    } else if starts_with_seq(b, "#"@) || starts_with_seq(b, "b"@) || starts_with_seq(b, "n"@) {
        Some(PartTemplate::Music)
    } else {
        None
    }
}

pub open spec fn clef_templates(segs: Seq<Seq<char>>) -> Seq<PartTemplate> {
    collect(segs, |s: Seq<char>| clef_template(s))
}

pub open spec fn clef_entries(segs: Seq<Seq<char>>) -> Seq<Option<ClefSignature>> {
    collect(segs, |s: Seq<char>| clef_entry(s))
}

pub open spec fn time_templates(segs: Seq<Seq<char>>) -> Seq<PartTemplate> {
    collect(segs, |s: Seq<char>| time_template(s))
}

pub open spec fn time_entries(segs: Seq<Seq<char>>) -> Seq<Option<TimeView>> {
    collect(segs, |s: Seq<char>| time_entry(s))
}

pub open spec fn key_templates(segs: Seq<Seq<char>>) -> Seq<PartTemplate> {
    collect(segs, |s: Seq<char>| key_template(s))
}

pub open spec fn key_entries(segs: Seq<Seq<char>>) -> Seq<Option<KeySignature>> {
    collect(segs, |s: Seq<char>| key_entry(s))
}

/// A bar code that the reader cannot take: a rest over several bars (it
/// has no length), a count-in whose notes do not read, or parts of which
/// one that is reached cannot be taken.
pub open spec fn bar_panics(code: Seq<char>) -> bool {
    match bar_code(code) {
        BarCode::MultiRest => true,
        BarCode::CountIn(rest) => !(notes_of_code(rest) is Notes),
        BarCode::Parts(c) => parts_panic(part_codes(c)),
        _ => false,
    }
}

/// Why a bar code fails, where it does: only a part of a bar of parts can.
pub open spec fn bar_failure(code: Seq<char>) -> Option<PartErr> {
    match bar_code(code) {
        BarCode::Parts(c) => first_part_failure(part_codes(c)),
        _ => None,
    }
}

/// The layout of a bar read from a code that does not fail: none for a
/// bar without parts, the kinds of the clefs, times, keys or parts.
pub open spec fn bar_template(code: Seq<char>) -> Seq<PartTemplate> {
    match bar_code(code) {
        BarCode::Clefs(segs) => clef_templates(segs),
        BarCode::Times(segs) => time_templates(segs),
        BarCode::Keys(segs) => key_templates(segs),
        BarCode::Parts(c) => part_codes(c).map_values(
            |pc: Seq<char>|
                if starts_with_seq(trim_seq(pc), "lyr"@) {
                    PartTemplate::Nonmusic
                } else {
                    PartTemplate::Music
                },
        ),
        _ => Seq::empty(),
    }
}

/// The bar read from a bar code that does not fail, with its layout `t`
/// (see `bar_code`); at position 0.
pub open spec fn bar_made(code: Seq<char>, t: Seq<PartTemplate>, bar: Bar) -> bool {
    &&& bar.position == 0
    &&& t == bar_template(code)
    &&& match bar_code(code) {
        BarCode::Barline(b) => bar.duration == 0 && bar.btype == BarType::NonContent(NonContentType::Barline(b)),
        BarCode::VerticalLine => bar.duration == 0 && bar.btype == BarType::NonContent(NonContentType::VerticalLine),
        BarCode::Spacer(w, h) => bar.duration == 0 && (bar.btype matches BarType::NonContent(
            NonContentType::Spacer(a, b),
        ) && opt_view(a) == w && opt_view(b) == h),
        BarCode::CountIn(rest) => {
            &&& bar.btype matches BarType::CountIn(notes)
            &&& bar.duration == notes.duration
            &&& notes_of_code(rest) matches NotesOutcome::Notes(qs)
            &&& notes.wf()
            &&& notes.items@.len() == qs.len()
            &&& forall|k: int| 0 <= k < qs.len() ==> #[trigger] note_matches(notes.items@[k], qs[k], k as usize)
        },
        BarCode::MultiRest => false,
        BarCode::Clefs(segs) => bar.duration == 0 && (bar.btype matches BarType::BarAttribute(
            BarAttributeType::Clefs(cs),
        ) && cs@ == clef_entries(segs)),
        BarCode::Times(segs) => bar.duration == 0 && (bar.btype matches BarType::BarAttribute(
            BarAttributeType::Times(ts),
        ) && times_view(ts@) == time_entries(segs)),
        BarCode::Keys(segs) => bar.duration == 0 && (bar.btype matches BarType::BarAttribute(
            BarAttributeType::Keys(ks),
        ) && ks@ == key_entries(segs)),
        BarCode::Parts(c) => {
            &&& bar.btype matches BarType::Standard(parts)
            &&& parts_read(t, parts@, part_codes(c), (144 * (code.len() + 1)) as int)
            &&& bar.duration == parts_max_duration(parts@)
        },
    }
}

/// What `QCode::bar` gives for a code: the error of the first part that
/// fails, else the bar and its layout.
pub open spec fn bar_result(code: Seq<char>, r: Result<(BarTemplate, Bar), NotationError>) -> bool {
    match bar_failure(code) {
        Some(e) => r matches Err(err) && part_error(e, err),
        None => r matches Ok((t, bar)) && bar_made(code, t.0@, bar),
    }
}

/// The layout of parts read is the kinds of their codes.
proof fn lemma_parts_template(t: Seq<PartTemplate>, parts: Seq<Part>, ps: Seq<Seq<char>>, bound: int)
    requires
        parts_read(t, parts, ps, bound),
    ensures
        t == ps.map_values(
            |pc: Seq<char>|
                if starts_with_seq(trim_seq(pc), "lyr"@) {
                    PartTemplate::Nonmusic
                } else {
                    PartTemplate::Music
                },
        ),
{
    reveal(part_made);
    assert forall|k: int| 0 <= k < t.len() implies t[k] == (if starts_with_seq(trim_seq(ps[k]), "lyr"@) {
        PartTemplate::Nonmusic
    } else {
        PartTemplate::Music
    }) by {
        assert(part_made(t[k], parts[k], ps[k]));
    }
    assert(t =~= ps.map_values(
        |pc: Seq<char>|
            if starts_with_seq(trim_seq(pc), "lyr"@) {
                PartTemplate::Nonmusic
            } else {
                PartTemplate::Music
            },
    ));
}

/// The text of an optional string.
pub open spec fn opt_view(s: Option<String>) -> Option<Seq<char>> {
    match s {
        Some(x) => Some(x@),
        None => None,
    }
}

impl TimeNominator {
    /// The number as written.
    pub fn from_str(s: &str) -> (r: Self)
        ensures
            r.0@ == s@,
    {
        TimeNominator(s.to_string())
    }
}

impl TimeDenominator {
    /// The number as written.
    pub fn from_str(s: &str) -> (r: Self)
        ensures
            r.0@ == s@,
    {
        TimeDenominator(s.to_string())
    }
}

/// Whether the characters equal a literal.
fn eq_lit(s: &[char], lit: &str) -> (r: bool)
    ensures
        r == (s@ == lit@),
{
    let p = to_chars(lit);
    crate::text::chars_eq(s, p.as_slice())
}

/// Whether `c` occurs in the characters.
fn find_char(s: &[char], c: char) -> (r: bool)
    ensures
        r == has_char(s@, c),
{
    let mut i: usize = 0;
    while i < s.len()
        invariant
            i <= s@.len(),
            forall|k: int| 0 <= k < i ==> s@[k] != c,
        decreases s@.len() - i,
    {
        if s[i] == c {
            assert(s@[i as int] == c);
            return true;
        }
        i = i + 1;
    }
    false
}

/// A split always gives at least one piece, and at least two where the
/// separator occurs.
proof fn lemma_split_count(s: Seq<char>, c: char)
    ensures
        split_seq(s, c).len() >= 1,
        has_char(s, c) ==> split_seq(s, c).len() >= 2,
    decreases s.len(),
{
    lemma_first_index_bounds(s, c);
    crate::text::lemma_first_index_first(s, c);
    match first_index(s, c) {
        Some(i) => {
            if 0 <= i < s.len() {
                lemma_split_count(s.skip(i + 1), c);
            }
        },
        None => {
            if has_char(s, c) {
                let k = choose|k: int| 0 <= k < s.len() && s[k] == c;
                assert(s[k] != c);
            }
        },
    }
}

/// One more segment adds its entry, where it gives one.
proof fn lemma_collect_step<A>(segs: Seq<Seq<char>>, f: spec_fn(Seq<char>) -> Option<A>, i: int)
    requires
        0 <= i < segs.len(),
    ensures
        collect(segs.take(i + 1), f) == collect(segs.take(i), f) + match f(segs[i]) {
            Some(a) => seq![a],
            None => Seq::empty(),
        },
{
    assert(segs.take(i + 1).drop_last() =~= segs.take(i));
    assert(segs.take(i + 1).last() == segs[i]);
}

/// Reads the clefs of a clef bar and the kinds of part they make.
fn read_clefs(segs: &Vec<Vec<char>>) -> (r: (Vec<PartTemplate>, Vec<Option<ClefSignature>>))
    ensures
        r.0@ == clef_templates(views(segs@)),
        r.1@ == clef_entries(views(segs@)),
{
    let ghost all = views(segs@);
    let mut ts: Vec<PartTemplate> = Vec::new();
    let mut cs: Vec<Option<ClefSignature>> = Vec::new();
    let mut i: usize = 0;
    assert(all.take(0) =~= Seq::<Seq<char>>::empty());
    while i < segs.len()
        invariant
            all == views(segs@),
            i <= all.len(),
            ts@ == clef_templates(all.take(i as int)),
            cs@ == clef_entries(all.take(i as int)),
        decreases all.len() - i,
    {
        proof {
            lemma_collect_step(all, |s: Seq<char>| clef_template(s), i as int);
            lemma_collect_step(all, |s: Seq<char>| clef_entry(s), i as int);
            assert(all[i as int] == segs@[i as int]@);
        }
        let u = to_upper(segs[i].as_slice());
        let g = eq_lit(u.as_slice(), "G");
        let f = eq_lit(u.as_slice(), "F");
        let c = eq_lit(u.as_slice(), "C");
        let dash = eq_lit(u.as_slice(), "-");
        if g {
            cs.push(Some(Some(Clef::G)));
        } else if f {
            cs.push(Some(Some(Clef::F)));
        } else if c {
            cs.push(Some(Some(Clef::C)));
        } else if dash {
            cs.push(None);
        }
        if dash {
            ts.push(PartTemplate::Nonmusic);
        } else if g || f || c {
            ts.push(PartTemplate::Music);
        }
        proof {
            assert(ts@ =~= clef_templates(all.take(i + 1)));
            assert(cs@ =~= clef_entries(all.take(i + 1)));
        }
        i = i + 1;
    }
    assert(all.take(all.len() as int) =~= all);
    (ts, cs)
}

/// Reads the times of a time bar and the kinds of part they make.
fn read_times(segs: &Vec<Vec<char>>) -> (r: (Vec<PartTemplate>, Vec<Option<TimeSignature>>))
    ensures
        r.0@ == time_templates(views(segs@)),
        times_view(r.1@) == time_entries(views(segs@)),
{
    let ghost all = views(segs@);
    let mut ts: Vec<PartTemplate> = Vec::new();
    let mut xs: Vec<Option<TimeSignature>> = Vec::new();
    let mut i: usize = 0;
    assert(all.take(0) =~= Seq::<Seq<char>>::empty());
    assert(times_view(xs@) =~= Seq::<Option<TimeView>>::empty());
    while i < segs.len()
        invariant
            all == views(segs@),
            i <= all.len(),
            ts@ == time_templates(all.take(i as int)),
            times_view(xs@) == time_entries(all.take(i as int)),
        decreases all.len() - i,
    {
        proof {
            lemma_collect_step(all, |s: Seq<char>| time_template(s), i as int);
            lemma_collect_step(all, |s: Seq<char>| time_entry(s), i as int);
            assert(all[i as int] == segs@[i as int]@);
        }
        let seg = segs[i].as_slice();
        let ghost before = xs@;
        if find_char(seg, ':') {
            proof {
                lemma_split_count(seg@, ':');
            }
            let p = split(seg, ':');
            assert(views(p@)[0] == p@[0]@ && views(p@)[1] == p@[1]@);
            let n = string_from(p[0].as_slice());
            let d = string_from(p[1].as_slice());
            xs.push(Some(Some(Time::Standard(TimeNominator::from_str(n.as_str()), TimeDenominator::from_str(d.as_str())))));
        } else if eq_lit(seg, "c") {
            xs.push(Some(Some(Time::Cut)));
        } else if eq_lit(seg, "C") {
            xs.push(Some(Some(Time::Common)));
        } else if eq_lit(seg, "-") {
            xs.push(None);
        }
        proof {
            assert(times_view(xs@) =~= time_entries(all.take(i + 1))) by {
                assert(xs@.len() == before.len() || xs@ == before.push(xs@.last()));
                if xs@.len() > before.len() {
                    assert(xs@.drop_last() =~= before);
                    assert(times_view(xs@) =~= times_view(before).push(time_view(xs@.last())));
                }
            }
        }
        let u = to_upper(seg);
        if eq_lit(u.as_slice(), "-") {
            ts.push(PartTemplate::Nonmusic);
        } else if find_char(u.as_slice(), ':') || eq_lit(u.as_slice(), "C") {
            ts.push(PartTemplate::Music);
        }
        proof {
            assert(ts@ =~= time_templates(all.take(i + 1)));
        }
        i = i + 1;
    }
    assert(all.take(all.len() as int) =~= all);
    (ts, xs)
}

/// Whether the characters are one to six copies of `c` (see `repeats`).
fn is_repeat(s: &[char], c: char) -> (r: bool)
    ensures
        r == repeats(s@, c),
{
    if s.len() < 1 || s.len() > 6 {
        return false;
    }
    let mut i: usize = 0;
    while i < s.len()
        invariant
            i <= s@.len(),
            forall|k: int| 0 <= k < i ==> s@[k] == c,
        decreases s@.len() - i,
    {
        if s[i] != c {
            return false;
        }
        i = i + 1;
    }
    true
}

/// A key segment without its clef letters (see `key_body`), and the clef
/// they name (see `key_clef`).
fn read_key_body(seg: &[char]) -> (r: (Vec<char>, Clef))
    ensures
        r.0@ == key_body(seg@),
        r.1 == key_clef(seg@),
{
    let a = to_lower(seg);
    let f = begins(a.as_slice(), "f");
    let b = if f {
        proof { reveal_strlit("f"); }
        slice_chars(a.as_slice(), 1, a.len())
    } else {
        a
    };
    assert(b@ == (if starts_with_seq(lower_seq(seg@), "f"@) { lower_seq(seg@).skip(1) } else { lower_seq(seg@) }));
    if begins(b.as_slice(), "c") {
        proof { reveal_strlit("c"); }
        (slice_chars(b.as_slice(), 1, b.len()), Clef::C)
    } else if f {
        (b, Clef::F)
    } else {
        (b, Clef::G)
    }
}

/// Reads the keys of a key bar and the kinds of part they make.
fn read_keys(segs: &Vec<Vec<char>>, from: usize) -> (r: (Vec<PartTemplate>, Vec<Option<KeySignature>>))
    requires
        from <= segs@.len(),
    ensures
        r.0@ == key_templates(views(segs@).skip(from as int)),
        r.1@ == key_entries(views(segs@).skip(from as int)),
{
    let ghost all = views(segs@).skip(from as int);
    let mut ts: Vec<PartTemplate> = Vec::new();
    let mut ks: Vec<Option<KeySignature>> = Vec::new();
    let mut i: usize = from;
    assert(all.take(0) =~= Seq::<Seq<char>>::empty());
    while i < segs.len()
        invariant
            all == views(segs@).skip(from as int),
            from <= i <= segs@.len(),
            ts@ == key_templates(all.take(i - from)),
            ks@ == key_entries(all.take(i - from)),
        decreases segs@.len() - i,
    {
        proof {
            lemma_collect_step(all, |s: Seq<char>| key_template(s), i - from);
            lemma_collect_step(all, |s: Seq<char>| key_entry(s), i - from);
            assert(all[i - from] == segs@[i as int]@);
        }
        let (b, clef) = read_key_body(segs[i].as_slice());
        if is_repeat(b.as_slice(), '#') {
            ks.push(Some(Some(Key::Sharps(b.len() as u8, clef))));
        } else if is_repeat(b.as_slice(), 'b') {
            ks.push(Some(Some(Key::Flats(b.len() as u8, clef))));
        } else if eq_lit(b.as_slice(), "n") {
            ks.push(Some(Some(Key::Open)));
        } else if eq_lit(b.as_slice(), "-") {
            ks.push(None);
        }
        if eq_lit(b.as_slice(), "-") {
            ts.push(PartTemplate::Nonmusic);
        } else if begins(b.as_slice(), "#") || begins(b.as_slice(), "b") || begins(b.as_slice(), "n") {
            ts.push(PartTemplate::Music);
        }
        proof {
            assert(ts@ =~= key_templates(all.take(i + 1 - from)));
            assert(ks@ =~= key_entries(all.take(i + 1 - from)));
        }
        i = i + 1;
    }
    assert(all.take(segs@.len() - from) =~= all);
    (ts, ks)
}

/// The longest of parts each within a bound is within it.
proof fn lemma_parts_max_le(parts: Seq<Part>, bound: int)
    requires
        forall|k: int| 0 <= k < parts.len() ==> (#[trigger] parts[k]).duration <= bound,
        bound >= 0,
    ensures
        parts_max_duration(parts) <= bound,
    decreases parts.len(),
{
    if parts.len() > 0 {
        lemma_parts_max_le(parts.drop_last(), bound);
    }
}

/// Parts read within a bound are read within any larger one.
proof fn lemma_parts_read_weaken(t: Seq<PartTemplate>, parts: Seq<Part>, ne: Seq<Seq<char>>, a: int, b: int)
    requires
        parts_read(t, parts, ne, a),
        a <= b,
    ensures
        parts_read(t, parts, ne, b),
        forall|k: int| 0 <= k < parts.len() ==> (#[trigger] parts[k]).duration <= a,
{
    assert forall|k: int| 0 <= k < parts.len() implies (#[trigger] parts[k]).duration <= a by {
        assert(part_made(t[k], parts[k], ne[k]) && parts[k].duration <= a);
    }
}

impl QCode {
    /// Reads a bar and its layout from a bar code (see `bar_code` and
    /// `bar_result`).
    pub fn bar(code: &str) -> (r: Result<(BarTemplate, Bar), NotationError>)
        requires
            !bar_panics(code@),
            144 * (code@.len() + 1) <= usize::MAX,
        ensures
            bar_result(code@, r),
            r matches Ok((t, bar)) ==> bar.duration <= 144 * (code@.len() + 1),
    {
        let chars = to_chars(code);
        let c = trim(chars.as_slice());
        proof {
            lemma_trim_len(code@);
            reveal_strlit("5");
            reveal_strlit("10");
            reveal_strlit("30");
            reveal_strlit("150");
        }
        if begins(c.as_slice(), "bld") {
            let bar = Bar::new(BarType::NonContent(NonContentType::Barline(BarlineType::Double)));
            Ok((BarTemplate(Vec::new()), bar))
        } else if begins(c.as_slice(), "blt") {
            let bar = Bar::new(BarType::NonContent(NonContentType::Barline(BarlineType::FraseTick)));
            Ok((BarTemplate(Vec::new()), bar))
        } else if begins(c.as_slice(), "bl") {
            let bar = Bar::new(BarType::NonContent(NonContentType::Barline(BarlineType::Single)));
            Ok((BarTemplate(Vec::new()), bar))
        } else if begins(c.as_slice(), "vl") {
            let bar = Bar::new(BarType::NonContent(NonContentType::VerticalLine));
            Ok((BarTemplate(Vec::new()), bar))
        } else if begins(c.as_slice(), "ci") {
            let rest = rest_after_space(c.as_slice());
            proof {
                lemma_after_space_within(c@);
            }
            let s = string_from(rest.as_slice());
            let notes = match QCode::notes(s.as_str()) {
                Ok(n) => n,
                Err(e) => {
                    return Err(e);
                },
            };
            proof {
                assert(144 * (rest@.len() + 1) <= 144 * (code@.len() + 1)) by (nonlinear_arith)
                    requires
                        rest@.len() <= code@.len();
            }
            let bar = Bar::new(BarType::CountIn(notes));
            Ok((BarTemplate(Vec::new()), bar))
        } else if begins(c.as_slice(), "sp1") {
            let bar = Bar::new(BarType::NonContent(NonContentType::Spacer(Some("5".to_string()), Some("150".to_string()))));
            Ok((BarTemplate(Vec::new()), bar))
        } else if begins(c.as_slice(), "sp2") {
            let bar = Bar::new(BarType::NonContent(NonContentType::Spacer(Some("10".to_string()), Some("150".to_string()))));
            Ok((BarTemplate(Vec::new()), bar))
        } else if begins(c.as_slice(), "sp3") {
            let bar = Bar::new(BarType::NonContent(NonContentType::Spacer(Some("30".to_string()), Some("150".to_string()))));
            Ok((BarTemplate(Vec::new()), bar))
        } else if begins(c.as_slice(), "sp") {
            let segs = split(c.as_slice(), ' ');
            let w = if segs.len() >= 2 {
                assert(views(segs@)[1] == segs@[1]@);
                Some(string_from(segs[1].as_slice()))
            } else {
                None
            };
            let h = if segs.len() >= 3 {
                assert(views(segs@)[2] == segs@[2]@);
                Some(string_from(segs[2].as_slice()))
            } else {
                None
            };
            let bar = Bar::new(BarType::NonContent(NonContentType::Spacer(w, h)));
            Ok((BarTemplate(Vec::new()), bar))
        } else if begins(c.as_slice(), "mul") {
            proof {
                assert(false);
            }
            Err(NotationError::Basic)
        } else if begins(c.as_slice(), "cle") {
            let rest = rest_after_space(c.as_slice());
            let segs = split(rest.as_slice(), ' ');
            let (ts, cs) = read_clefs(&segs);
            let bar = Bar::from_clefs(cs);
            Ok((BarTemplate(ts), bar))
        } else if begins(c.as_slice(), "tim") {
            let rest = rest_after_space(c.as_slice());
            let segs = split(rest.as_slice(), ' ');
            let (ts, xs) = read_times(&segs);
            let bar = Bar::from_times(xs);
            Ok((BarTemplate(ts), bar))
        } else if begins(c.as_slice(), "key") {
            let segs = split(c.as_slice(), ' ');
            let (ts, ks) = read_keys(&segs, 1);
            let bar = Bar::from_keys(ks);
            Ok((BarTemplate(ts), bar))
        } else {
            let s = string_from(c.as_slice());
            let (template, parts) = match QCode::parts(s.as_str()) {
                Ok(x) => x,
                Err(e) => {
                    return Err(e);
                },
            };
            proof {
                assert(144 * (c@.len() + 1) <= 144 * (code@.len() + 1)) by (nonlinear_arith)
                    requires
                        c@.len() <= code@.len();
                lemma_parts_read_weaken(
                    template.0@,
                    parts@,
                    part_codes(c@),
                    (144 * (c@.len() + 1)) as int,
                    (144 * (code@.len() + 1)) as int,
                );
                lemma_parts_max_le(parts@, (144 * (c@.len() + 1)) as int);
                lemma_parts_template(template.0@, parts@, part_codes(c@), (144 * (c@.len() + 1)) as int);
            }
            let bar = Bar::from_parts(parts);
            Ok((template, bar))
        }
    }
}

/// Why a bars code fails: a bar fails, or a bar's layout differs from the
/// first layout given.
pub enum BarsErr {
    Bar(PartErr),
    Mismatch,
}

/// Where reading the bar codes stands: failed, or going with the first
/// layout given so far.
pub enum BarsOutcome {
    Fails(BarsErr),
    Going(Option<Seq<PartTemplate>>),
}

/// The bar codes of a bars code: the trimmed code split at each '|',
/// empty pieces left out.
pub open spec fn bar_codes(code: Seq<char>) -> Seq<Seq<char>> {
    non_empty(split_seq(trim_seq(code), '|'))
}

/// One more bar code read: a failing bar fails the whole; the first
/// non-empty layout is kept, and a later non-empty one that differs from
/// it fails the whole.
pub open spec fn bars_step(st: BarsOutcome, code: Seq<char>) -> BarsOutcome {
    match st {
        BarsOutcome::Fails(e) => BarsOutcome::Fails(e),
        BarsOutcome::Going(first) => match bar_failure(code) {
            Some(e) => BarsOutcome::Fails(BarsErr::Bar(e)),
            None => {
                let t = bar_template(code);
                match first {
                    Some(f) => if t.len() > 0 && t != f {
                        BarsOutcome::Fails(BarsErr::Mismatch)
                    } else {
                        BarsOutcome::Going(Some(f))
                    },
                    None => if t.len() > 0 {
                        BarsOutcome::Going(Some(t))
                    } else {
                        BarsOutcome::Going(None)
                    },
                }
            },
        },
    }
}

/// The bar codes read in order.
pub open spec fn bars_outcome(codes: Seq<Seq<char>>) -> BarsOutcome
    decreases codes.len(),
{
    if codes.len() == 0 {
        BarsOutcome::Going(None)
    } else {
        bars_step(bars_outcome(codes.drop_last()), codes.last())
    }
}

/// The reader cannot take a bar code that it reaches.
pub open spec fn bars_panic(codes: Seq<Seq<char>>) -> bool {
    exists|k: int| 0 <= k < codes.len() && bars_outcome(codes.take(k)) is Going && #[trigger] bar_panics(codes[k])
}

/// The message for a bars code without bars or layout.
pub open spec fn no_bars_message(code: Seq<char>) -> Seq<char> {
    "no bars in code: "@ + trim_seq(code)
}

/// The message for a layout that differs from the first.
pub open spec fn mismatch_message(a: Seq<char>, b: Seq<char>) -> Seq<char> {
    "bar template mismatch: "@ + a + " != "@ + b
}

/// The summed lengths of the pieces.
pub open spec fn total_len(ps: Seq<Seq<char>>) -> int
    decreases ps.len(),
{
    if ps.len() == 0 {
        0
    } else {
        total_len(ps.drop_last()) + ps.last().len()
    }
}

proof fn lemma_total_len_append(a: Seq<Seq<char>>, b: Seq<Seq<char>>)
    ensures
        total_len(a + b) == total_len(a) + total_len(b),
    decreases b.len(),
{
    if b.len() == 0 {
        assert(a + b =~= a);
    } else {
        lemma_total_len_append(a, b.drop_last());
        assert((a + b).drop_last() =~= a + b.drop_last());
    }
}

/// The pieces of a split and the separators between them make up the text.
proof fn lemma_split_total(s: Seq<char>, c: char)
    ensures
        total_len(split_seq(s, c)) + split_seq(s, c).len() == s.len() + 1,
    decreases s.len(),
{
    reveal_with_fuel(total_len, 2);
    lemma_first_index_bounds(s, c);
    match first_index(s, c) {
        Some(i) => {
            if 0 <= i < s.len() {
                lemma_split_total(s.skip(i + 1), c);
                lemma_total_len_append(seq![s.take(i)], split_seq(s.skip(i + 1), c));
                assert(seq![s.take(i)].drop_last() =~= Seq::<Seq<char>>::empty());
            } else {
                assert(seq![s].drop_last() =~= Seq::<Seq<char>>::empty());
            }
        },
        None => {
            assert(seq![s].drop_last() =~= Seq::<Seq<char>>::empty());
        },
    }
}

/// Leaving out empty pieces makes neither more pieces nor more text.
proof fn lemma_non_empty_total(ps: Seq<Seq<char>>)
    ensures
        total_len(non_empty(ps)) == total_len(ps),
        non_empty(ps).len() <= ps.len(),
    decreases ps.len(),
{
    if ps.len() > 0 {
        lemma_non_empty_total(ps.drop_last());
        if ps.last().len() > 0 {
            assert(non_empty(ps).drop_last() =~= non_empty(ps.drop_last()));
        }
    }
}

proof fn lemma_total_nonneg(ps: Seq<Seq<char>>)
    ensures
        total_len(ps) >= 0,
    decreases ps.len(),
{
    if ps.len() > 0 {
        lemma_total_nonneg(ps.drop_last());
    }
}

/// A prefix of the pieces holds no more text than all of them.
proof fn lemma_total_take(ps: Seq<Seq<char>>, k: int)
    requires
        0 <= k <= ps.len(),
    ensures
        total_len(ps.take(k)) <= total_len(ps),
    decreases ps.len() - k,
{
    if k < ps.len() {
        lemma_total_take(ps, k + 1);
        assert(ps.take(k + 1).drop_last() =~= ps.take(k));
    } else {
        assert(ps.take(k) =~= ps);
    }
}

/// No piece is longer than the text of all of them.
proof fn lemma_piece_le_total(ps: Seq<Seq<char>>, j: int)
    requires
        0 <= j < ps.len(),
    ensures
        ps[j].len() <= total_len(ps),
{
    lemma_total_take(ps, j + 1);
    lemma_total_nonneg(ps.take(j));
    assert(ps.take(j + 1).drop_last() =~= ps.take(j));
    assert(ps.take(j + 1).last() == ps[j]);
}

/// The text of a bar layout as the `format!` macro writes it with `{:?}`
/// (the derived `Debug`). Nothing is claimed of the text: what `Debug`
/// writes is not stated.
#[verifier::external_body]
fn template_debug_text(t: &BarTemplate) -> (r: String) {
    format!("{:?}", t)
}

/// Whether two layouts are equal.
fn templates_eq(a: &Vec<PartTemplate>, b: &Vec<PartTemplate>) -> (r: bool)
    ensures
        r == (a@ == b@),
{
    if a.len() != b.len() {
        return false;
    }
    let mut i: usize = 0;
    while i < a.len()
        invariant
            i <= a@.len(),
            a@.len() == b@.len(),
            forall|k: int| 0 <= k < i ==> a@[k] == b@[k],
        decreases a@.len() - i,
    {
        if a[i] != b[i] {
            return false;
        }
        i = i + 1;
    }
    assert(a@ =~= b@);
    true
}

/// A copy of a layout.
fn copy_templates(a: &Vec<PartTemplate>) -> (r: Vec<PartTemplate>)
    ensures
        r@ == a@,
{
    let mut r: Vec<PartTemplate> = Vec::new();
    let mut i: usize = 0;
    while i < a.len()
        invariant
            i <= a@.len(),
            r@ == a@.take(i as int),
        decreases a@.len() - i,
    {
        r.push(a[i]);
        assert(a@.take(i + 1) =~= a@.take(i as int).push(a@[i as int]));
        i = i + 1;
    }
    assert(a@.take(a@.len() as int) =~= a@);
    r
}

/// The layout kept so far, as the contracts see it.
pub open spec fn first_view(first: Option<BarTemplate>) -> Option<Seq<PartTemplate>> {
    match first {
        Some(t) => Some(t.0@),
        None => None,
    }
}

/// Once reading fails before the end, the whole fails the same way.
proof fn lemma_bars_fail_prefix(codes: Seq<Seq<char>>, m: int)
    requires
        0 <= m <= codes.len(),
        bars_outcome(codes.take(m)) is Fails,
    ensures
        bars_outcome(codes) == bars_outcome(codes.take(m)),
    decreases codes.len() - m,
{
    if m < codes.len() {
        assert(codes.take(m + 1).drop_last() =~= codes.take(m));
        lemma_bars_fail_prefix(codes, m + 1);
    } else {
        assert(codes.take(m) =~= codes);
    }
}

/// The bar code at `k` is reached and so, by the requirement, taken.
proof fn lemma_bar_no_panic_at(codes: Seq<Seq<char>>, k: int)
    requires
        !bars_panic(codes),
        0 <= k < codes.len(),
        bars_outcome(codes.take(k)) is Going,
    ensures
        !bar_panics(codes[k]),
{
}

/// Adding a bar at the end moves none of the bars before it.
proof fn lemma_bar_start_push(s: Seq<Bar>, b: Bar, k: int)
    requires
        0 <= k <= s.len(),
    ensures
        bar_start(s.push(b), k) == bar_start(s, k),
    decreases k,
{
    if k > 0 {
        lemma_bar_start_push(s, b, k - 1);
        assert(s.push(b)[k - 1] == s[k - 1]);
    }
}

/// The bars made from the codes, each placed where the ones before it
/// end.
pub open spec fn bars_made(codes: Seq<Seq<char>>, items: Seq<Bar>) -> bool {
    &&& items.len() == codes.len()
    &&& forall|k: int|
        0 <= k < codes.len() ==> bar_made(#[trigger] codes[k], bar_template(codes[k]), Bar { position: 0, ..items[k] })
            && items[k].position == bar_start(items, k)
}

/// The bars read so far, each made from its code.
spec fn bars_read(read: Seq<Bar>, ne: Seq<Seq<char>>) -> bool {
    &&& read.len() == ne.len()
    &&& forall|k: int| 0 <= k < ne.len() ==> bar_made(#[trigger] ne[k], bar_template(ne[k]), read[k])
}

proof fn lemma_bars_read_push(read: Seq<Bar>, ne: Seq<Seq<char>>, b: Bar, code: Seq<char>)
    requires
        bars_read(read, ne),
        bar_made(code, bar_template(code), b),
    ensures
        bars_read(read.push(b), ne.push(code)),
{
    assert forall|k: int| 0 <= k < ne.len() + 1 implies bar_made(#[trigger] ne.push(code)[k], bar_template(ne.push(code)[k]), read.push(b)[k]) by {
        if k < ne.len() {
            assert(ne.push(code)[k] == ne[k]);
            assert(read.push(b)[k] == read[k]);
        }
    }
}

impl QCode {
    /// Reads bars from a code of bar codes joined by '|' (see `bar_codes`
    /// and `bars_outcome`): the first bar that fails, or whose non-empty
    /// layout differs from the first one given, makes the error; without a
    /// layout there are no bars; else the bars, placed one after the
    /// other, with their notes numbered across the score from 0 (see
    /// `bars_numbered`), and the first layout.
    pub fn bars(code: &str) -> (r: Result<(BarTemplate, Bars), NotationError>)
        requires
            !bars_panic(bar_codes(code@)),
            144 * (code@.len() + 1) <= usize::MAX,
        ensures
            ({
                let codes = bar_codes(code@);
                match bars_outcome(codes) {
                    BarsOutcome::Fails(BarsErr::Bar(e)) => r matches Err(err) && part_error(e, err),
                    BarsOutcome::Fails(BarsErr::Mismatch) => r matches Err(NotationError::Generic(m))
                        && exists|a: Seq<char>, b: Seq<char>| m@ == mismatch_message(a, b),
                    BarsOutcome::Going(None) => r matches Err(NotationError::Generic(m)) && m@ == no_bars_message(
                        code@,
                    ),
                    BarsOutcome::Going(Some(f)) => r matches Ok((t, bars)) && t.0@ == f && exists|read: Seq<Bar>|
                        bars_made(codes, read) && bars_numbered(read, bars.items@, 0),
                }
            }),
    {
        let chars = to_chars(code);
        let c = trim(chars.as_slice());
        let pieces = split(c.as_slice(), '|');
        let ghost all = views(pieces@);
        let ghost codes = bar_codes(code@);
        proof {
            lemma_trim_len(code@);
            lemma_split_total(c@, '|');
            assert(all == split_seq(c@, '|'));
        }
        let mut first: Option<BarTemplate> = None;
        let mut read: Vec<Bar> = Vec::new();
        let mut i: usize = 0;
        assert(all.take(0) =~= Seq::<Seq<char>>::empty());
        while i < pieces.len()
            invariant
                all == views(pieces@),
                codes == non_empty(all),
                codes == bar_codes(code@),
                144 * (code@.len() + 1) <= usize::MAX,
                c@.len() <= code@.len(),
                total_len(all) + all.len() == c@.len() + 1,
                !bars_panic(codes),
                i <= all.len(),
                bars_outcome(non_empty(all.take(i as int))) == BarsOutcome::Going(first_view(first)),
                bars_read(read@, non_empty(all.take(i as int))),
                bar_start(read@, read@.len() as int) <= 144 * (total_len(all.take(i as int)) + i),
            decreases all.len() - i,
        {
            let ghost ne = non_empty(all.take(i as int));
            proof {
                lemma_non_empty_prefix(all, i as int);
                assert(all[i as int] == pieces@[i as int]@);
                lemma_piece_le_total(all, i as int);
                lemma_total_take(all, i as int);
                lemma_total_nonneg(all.take(i as int));
                assert(all.take(i + 1).drop_last() =~= all.take(i as int));
                assert(all.take(i + 1).last() == all[i as int]);
            }
            if pieces[i].len() > 0 {
                let s = string_from(pieces[i].as_slice());
                proof {
                    let k = ne.len() as int;
                    assert(codes.take(k) == ne);
                    assert(codes[k] == s@);
                    lemma_bar_no_panic_at(codes, k);
                }
                let (t, bar) = match QCode::bar(s.as_str()) {
                    Ok(x) => x,
                    Err(e) => {
                        proof {
                            let k = ne.len() as int;
                            assert(codes.take(k + 1).drop_last() =~= codes.take(k));
                            assert(codes.take(k + 1).last() == codes[k]);
                            lemma_bars_fail_prefix(codes, k + 1);
                        }
                        return Err(e);
                    },
                };
                proof {
                    let k = ne.len() as int;
                    assert(codes.take(k + 1).drop_last() =~= codes.take(k));
                    assert(codes.take(k + 1).last() == codes[k]);
                    assert(ne.push(s@).drop_last() =~= ne);
                }
                match &first {
                    Some(f) => {
                        if t.0.len() > 0 && !templates_eq(&t.0, &f.0) {
                            let mut m = "bar template mismatch: ".to_string();
                            let a = template_debug_text(&t);
                            let b = template_debug_text(f);
                            m.append(a.as_str());
                            m.append(" != ");
                            m.append(b.as_str());
                            proof {
                                let k = ne.len() as int;
                                lemma_bars_fail_prefix(codes, k + 1);
                                assert(m@ == mismatch_message(a@, b@));
                            }
                            return Err(NotationError::Generic(m));
                        }
                    },
                    None => {
                        if t.0.len() > 0 {
                            first = Some(BarTemplate(copy_templates(&t.0)));
                        }
                    },
                }
                proof {
                    lemma_bars_read_push(read@, ne, bar, s@);
                    lemma_bar_start_push(read@, bar, read@.len() as int);
                    assert(144 * (total_len(all.take(i as int)) + i) + 144 * (s@.len() + 1) == 144 * (
                    total_len(all.take(i + 1)) + i + 1));
                }
                read.push(bar);
            } else {
                proof {
                    assert(144 * (total_len(all.take(i as int)) + i) <= 144 * (total_len(all.take(i + 1)) + i
                        + 1));
                }
            }
            i = i + 1;
        }
        assert(all.take(all.len() as int) =~= all);
        assert(bars_outcome(codes) == BarsOutcome::Going(first_view(first)));
        assert(bars_read(read@, codes));
        match first {
            None => {
                let m = message("no bars in code: ", c.as_slice(), "");
                proof {
                    reveal_strlit("");
                    assert(m@ =~= no_bars_message(code@));
                }
                Err(NotationError::Generic(m))
            },
            Some(t) => {
                let ghost before = read@;
                let bars = Bars::new(read);
                proof {
                    assert forall|k: int| 0 <= k < codes.len() implies bar_made(
                        #[trigger] codes[k],
                        bar_template(codes[k]),
                        Bar { position: 0, ..bars.items@[k] },
                    ) && bars.items@[k].position == bar_start(bars.items@, k) by {
                        assert(bar_made(codes[k], bar_template(codes[k]), before[k]));
                        crate::bar::lemma_bar_start_monotone(before, k, before.len() as int);
                        crate::bar::lemma_bar_start_monotone(before, 0, k);
                        assert(bars.items@[k] == Bar { position: bar_start(before, k) as usize, ..before[k] });
                        assert(Bar { position: 0, ..bars.items@[k] } == before[k]);
                        assert forall|j: int| 0 <= j < before.len() implies #[trigger] before[j].duration == bars.items@[j].duration by {
                            assert(bars.items@[j] == Bar { position: bar_start(before, j) as usize, ..before[j] });
                        }
                        lemma_bar_start_same(before, bars.items@, k);
                    }
                    assert(bars.items@.len() == codes.len());
                    assert(t.0@ == first_view(Some(t))->0);
                    assert(bars_outcome(codes) == BarsOutcome::Going(Some(t.0@)));
                }
                assert(bars_made(codes, bars.items@));
                let ghost made = bars.items@;
                let mut bars = bars;
                number_bars(&mut bars.items, 0, Ghost(0));
                assert(bars_made(codes, made) && bars_numbered(made, bars.items@, 0));
                Ok((t, bars))
            },
        }
    }
}

} // verus!
