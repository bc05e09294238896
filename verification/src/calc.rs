//! Where the heads of a chord stand beside the stem.

use vstd::prelude::*;

use crate::core_defs::DirUD;
use crate::error::NotationError;
use crate::decimal::{decimal, u64_to_decimal};
use crate::head::{Head, HeadPlacement, Heads};
use crate::text::push_chars;
use crate::note::{Note, NoteType};

verus! {

/// The levels of a chord in the order in which its heads are placed: from
/// the bottom (the largest level) up for a stem up, from the top down for
/// a stem down.
pub open spec fn placing_order(levels: Seq<i8>, dir: DirUD) -> Seq<i8> {
    match dir {
        DirUD::Up => levels.reverse(),
        DirUD::Down => levels,
    }
}

/// How far the `k`-th placed level lies from the one placed before it,
/// counted in the placing direction.
pub open spec fn gap(ls: Seq<i8>, k: int, dir: DirUD) -> int {
    match dir {
        DirUD::Up => ls[k - 1] - ls[k],
        DirUD::Down => ls[k] - ls[k - 1],
    }
}

/// The side to which a head is moved: right of a stem up, left of a stem
/// down.
pub open spec fn side(dir: DirUD) -> HeadPlacement {
    match dir {
        DirUD::Up => HeadPlacement::Right,
        DirUD::Down => HeadPlacement::Left,
    }
}

/// Where the `k`-th placed head stands: the first in the middle; a head a
/// step (or no step) from the one before goes to the side when that one
/// stands in the middle; every other head stands in the middle.
pub open spec fn placement_at(ls: Seq<i8>, dir: DirUD, k: nat) -> HeadPlacement
    decreases k,
{
    if k == 0 {
        HeadPlacement::Center
    } else {
        let g = gap(ls, k as int, dir);
        if 0 <= g <= 1 && placement_at(ls, dir, (k - 1) as nat) == HeadPlacement::Center {
            side(dir)
        } else {
            HeadPlacement::Center
        }
    }
}

/// The differences between neighbouring placed levels fit in an `i8`.
pub open spec fn gaps_fit(ls: Seq<i8>, dir: DirUD) -> bool {
    forall|k: int| 0 < k < ls.len() ==> -128 <= #[trigger] gap(ls, k, dir) <= 127
}

/// The message of the error for a chord without a stem direction.
pub open spec fn no_direction_message(note_text: Seq<char>) -> Seq<char> {
    "Note "@ + note_text + " has no direction"@
}

/// The placements of a chord: entry `k` holds the `k`-th placed level, its
/// placement and the `k`-th head of the note.
pub open spec fn placements_made(
    r: Seq<(i8, HeadPlacement, Head)>,
    heads: Seq<Head>,
    dir: DirUD,
) -> bool {
    let ls = placing_order(heads.map_values(|h: Head| h.level), dir);
    &&& r.len() == heads.len()
    &&& forall|k: int| 0 <= k < r.len() ==> #[trigger] r[k] == (ls[k], placement_at(ls, dir, k as nat), heads[k])
}

/// Two neighbouring heads a step apart never stand on the same side: one
/// of them stands in the middle and the other beside it.
pub proof fn lemma_close_heads_alternate(ls: Seq<i8>, dir: DirUD, k: nat)
    requires
        0 < k < ls.len(),
        0 <= gap(ls, k as int, dir) <= 1,
    ensures
        placement_at(ls, dir, k) != placement_at(ls, dir, (k - 1) as nat),
        placement_at(ls, dir, k) == HeadPlacement::Center || placement_at(ls, dir, (k - 1) as nat)
            == HeadPlacement::Center,
{
}

/// A head two or more steps from the one placed before it stands in the
/// middle.
pub proof fn lemma_far_heads_centered(ls: Seq<i8>, dir: DirUD, k: nat)
    requires
        0 < k < ls.len(),
        !(0 <= gap(ls, k as int, dir) <= 1),
    ensures
        placement_at(ls, dir, k) == HeadPlacement::Center,
{
}

/// The text of the heads of a chord as the `format!` macro writes it with
/// `{:?}` (the derived `Debug`). Nothing is claimed of the text: what
/// `Debug` writes is not stated.
#[verifier::external_body]
fn heads_debug_text(heads: &Heads) -> (r: String) {
    format!("{:?}", heads)
}

/// The text of a chord: its id, where it starts and ends, its length, and
/// the text of its heads.
pub open spec fn chord_text(note: Note, heads_text: Seq<char>) -> Seq<char> {
    "Note id:"@ + decimal(note.id as nat) + " pos:"@ + decimal(note.position as nat) + " end:"@ + decimal(
        note.end_position as nat,
    ) + " dur:"@ + decimal(note.duration as nat) + " heads:"@ + heads_text
}

/// Writes the text of a chord (see `chord_text`).
fn chord_text_of(note: &Note, heads: &Heads) -> (r: String)
    ensures
        exists|t: Seq<char>| r@ == chord_text(*note, t),
{
    let mut m = "Note id:".to_string();
    proof {
        reveal_strlit("Note id:");
    }
    let d = u64_to_decimal(note.id as u64);
    push_chars(&mut m, d.as_slice());
    m.append(" pos:");
    let d = u64_to_decimal(note.position as u64);
    push_chars(&mut m, d.as_slice());
    m.append(" end:");
    let d = u64_to_decimal(note.end_position as u64);
    push_chars(&mut m, d.as_slice());
    m.append(" dur:");
    let d = u64_to_decimal(note.duration as u64);
    push_chars(&mut m, d.as_slice());
    m.append(" heads:");
    let t = heads_debug_text(heads);
    m.append(t.as_str());
    assert(m@ =~= chord_text(*note, t@));
    m
}

/// The levels in placing order.
fn ordered_levels(levels: &Vec<i8>, dir: DirUD) -> (r: Vec<i8>)
    ensures
        r@ == placing_order(levels@, dir),
{
    match dir {
        DirUD::Down => {
            let mut r: Vec<i8> = Vec::new();
            let mut i: usize = 0;
            while i < levels.len()
                invariant
                    i <= levels@.len(),
                    r@ == levels@.take(i as int),
                decreases levels@.len() - i,
            {
                r.push(levels[i]);
                assert(levels@.take(i + 1) =~= levels@.take(i as int).push(levels@[i as int]));
                i = i + 1;
            }
            assert(levels@.take(levels@.len() as int) =~= levels@);
            r
        },
        DirUD::Up => {
            let mut r: Vec<i8> = Vec::new();
            let n = levels.len();
            let mut i: usize = 0;
            while i < n
                invariant
                    n == levels@.len(),
                    i <= n,
                    r@.len() == i,
                    forall|j: int| 0 <= j < i ==> #[trigger] r@[j] == levels@[n - 1 - j],
                decreases n - i,
            {
                r.push(levels[n - 1 - i]);
                i = i + 1;
            }
            assert(r@ =~= levels@.reverse());
            r
        },
    }
}

/// Places the heads of a chord beside the stem (see `placement_at`); a note
/// without heads has no placements, and a chord without a stem direction
/// is an error.
pub fn note_get_heads_placements(note: &Note) -> (r: Result<Vec<(i8, HeadPlacement, Head)>, NotationError>)
    requires
        note.ntype matches NoteType::Heads(h) ==> (note.direction matches Some(dir) ==> gaps_fit(
            placing_order(h.heads@.map_values(|x: Head| x.level), dir),
            dir,
        )),
    ensures
        match note.ntype {
            NoteType::Heads(h) => match note.direction {
                None => r matches Err(NotationError::Generic(m)) && exists|t: Seq<char>|
                    m@ == no_direction_message(chord_text(*note, t)),
                Some(dir) => r matches Ok(v) && placements_made(v@, h.heads@, dir),
            },
            _ => r matches Ok(v) && v@.len() == 0,
        },
{
    match &note.ntype {
        NoteType::Heads(heads) => {
            let dir = match note.direction {
                Some(d) => d,
                None => {
                    let mut m = "Note ".to_string();
                    let text = chord_text_of(note, heads);
                    m.append(text.as_str());
                    m.append(" has no direction");
                    proof {
                        let t = choose|t: Seq<char>| text@ == chord_text(*note, t);
                        assert(m@ == no_direction_message(chord_text(*note, t)));
                    }
                    return Err(NotationError::Generic(m));
                },
            };
            let levels = heads.levels();
            let ls = ordered_levels(&levels, dir);
            let ghost hs = heads.heads@;
            let n = ls.len();
            let mut result: Vec<(i8, HeadPlacement, Head)> = Vec::new();
            let mut i: usize = 0;
            let mut prev = HeadPlacement::Center;
            while i < n
                invariant
                    n == ls@.len(),
                    n == hs.len(),
                    hs == heads.heads@,
                    ls@ == placing_order(hs.map_values(|x: Head| x.level), dir),
                    gaps_fit(ls@, dir),
                    i <= n,
                    result@.len() == i,
                    i > 0 ==> prev == placement_at(ls@, dir, (i - 1) as nat),
                    forall|k: int| 0 <= k < i ==> #[trigger] result@[k] == (ls@[k], placement_at(ls@, dir, k as nat), hs[k]),
                decreases n - i,
            {
                let place = if i == 0 {
                    HeadPlacement::Center
                } else {
                    assert(-128 <= gap(ls@, i as int, dir) <= 127);
                    let g: i8 = match dir {
                        DirUD::Up => ls[i - 1] - ls[i],
                        DirUD::Down => ls[i] - ls[i - 1],
                    };
                    let close = g == 0 || g == 1;
                    let prev_center = match prev {
                        HeadPlacement::Center => true,
                        _ => false,
                    };
                    if close && prev_center {
                        match dir {
                            DirUD::Up => HeadPlacement::Right,
                            DirUD::Down => HeadPlacement::Left,
                        }
                    } else {
                        HeadPlacement::Center
                    }
                };
                let head = heads.heads[i];
                result.push((ls[i], place, head));
                prev = place;
                i = i + 1;
            }
            Ok(result)
        },
        _ => Ok(Vec::new()),
    }
}

} // verus!
