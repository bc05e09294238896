//! The columns of the whole score, bar by bar: the content columns of a
//! bar of parts (see `content_columns`), and one column for a bar of
//! barline, vertical line, spacer, clefs, keys or times, with an item for
//! each row that shows something; a count-in has none. Where the items are
//! drawn is measured elsewhere.

use vstd::prelude::*;

use crate::bar::{Bar, BarAttributeType, BarType, BarlineType, Bars, KeySignature, NonContentType, TimeSignature};
use crate::columns::{columns_made, columns_ready, content_columns, parts_length, BarColumn};
use crate::core_defs::{ClefSignature, Position};
use crate::error::NotationError;
use crate::part::{BarTemplate, PartTemplate};
use crate::playback::Key;

verus! {

/// What stands in one row of a column of a bar without content.
#[derive(Debug, PartialEq, Eq, Clone, Copy, Structural)]
pub enum ColumnItem {
    /// A vertical line, spaced for the kind of its row.
    VerticalLine(PartTemplate),
    Barline(BarlineType),
    Spacer,
    /// A clef, or the mark of a row without one.
    Clef(ClefSignature),
    /// A key, or the mark of a row without one.
    Key(KeySignature),
    /// A time, where one is given (`true`), or the mark of a row without
    /// one.
    Time(bool),
}

/// A column of the score: the content column of a bar of parts, or the
/// column of another bar, at the bar's position, with an item per row.
#[derive(Debug, PartialEq, Eq)]
pub enum MatrixColumn {
    Content(BarColumn),
    Other(Position, Vec<Option<ColumnItem>>),
}

/// The item of a row for a bar of music rows only (a barline, a spacer).
pub open spec fn music_only(t: PartTemplate, item: ColumnItem) -> Option<ColumnItem> {
    match t {
        PartTemplate::Music => Some(item),
        PartTemplate::Nonmusic => None,
    }
}

/// The items of a bar that is neither of parts nor a count-in, by the
/// rows of the layout: a vertical line in every row; a barline or a spacer
/// in each music row; for clefs, keys and times, one item for each entry
/// that is given, none for an entry left out.
pub open spec fn other_items(b: Bar, rows: Seq<PartTemplate>) -> Seq<Option<ColumnItem>> {
    match b.btype {
        BarType::NonContent(NonContentType::VerticalLine) => rows.map_values(
            |t: PartTemplate| Some(ColumnItem::VerticalLine(t)),
        ),
        BarType::NonContent(NonContentType::Barline(bt)) => rows.map_values(
            |t: PartTemplate| music_only(t, ColumnItem::Barline(bt)),
        ),
        BarType::NonContent(NonContentType::Spacer(_, _)) => rows.map_values(
            |t: PartTemplate| music_only(t, ColumnItem::Spacer),
        ),
        BarType::BarAttribute(BarAttributeType::Clefs(cs)) => cs@.map_values(
            |c: Option<ClefSignature>|
                match c {
                    Some(x) => Some(ColumnItem::Clef(x)),
                    None => None,
                },
        ),
        BarType::BarAttribute(BarAttributeType::Keys(ks)) => ks@.map_values(
            |k: Option<KeySignature>|
                match k {
                    Some(x) => Some(ColumnItem::Key(x)),
                    None => None,
                },
        ),
        BarType::BarAttribute(BarAttributeType::Times(ts)) => ts@.map_values(
            |t: Option<TimeSignature>|
                match t {
                    Some(x) => Some(ColumnItem::Time(x is Some)),
                    None => None,
                },
        ),
        _ => Seq::empty(),
    }
}

/// The content column in a column of the score.
pub open spec fn content_of(c: MatrixColumn) -> BarColumn {
    match c {
        MatrixColumn::Content(bc) => bc,
        _ => arbitrary(),
    }
}

/// The columns of one bar: for a bar of parts, its content columns from
/// the bar's position on (see `columns_made`); none for a count-in; else
/// one column at the bar's position with its items (see `other_items`).
pub open spec fn bar_columns(b: Bar, rows: Seq<PartTemplate>, cols: Seq<MatrixColumn>) -> bool {
    match b.btype {
        BarType::Standard(parts) => {
            &&& forall|k: int| 0 <= k < cols.len() ==> (#[trigger] cols[k]) is Content
            &&& columns_made(parts@, b.position as int, cols.map_values(|c: MatrixColumn| content_of(c)))
        },
        BarType::CountIn(_) => cols.len() == 0,
        _ => cols.len() == 1 && (cols[0] matches MatrixColumn::Other(x, items) && x == b.position && items@
            == other_items(b, rows)),
    }
}

/// A bar can be laid out: the complexes of a bar of parts are set up and
/// its end fits; a barline is single, double or a phrase tick; a key has
/// no naturals; it is not a rest over several bars.
pub open spec fn bar_layable(b: Bar) -> bool {
    match b.btype {
        BarType::Standard(parts) => columns_ready(parts@) && b.position + parts_length(parts@) <= usize::MAX,
        BarType::MultiRest(_) => false,
        BarType::NonContent(NonContentType::Barline(bt)) => bt == BarlineType::Single || bt == BarlineType::Double
            || bt == BarlineType::FraseTick,
        BarType::BarAttribute(BarAttributeType::Keys(ks)) => forall|k: int|
            0 <= k < ks@.len() ==> !(#[trigger] ks@[k] matches Some(Some(Key::Naturals(_, _)))),
        _ => true,
    }
}

/// The message for a score laid out without a layout.
pub open spec fn missing_template_message() -> Seq<char> {
    "Bartemplate is missing!"@
}

/// The items of a row for a bar of music rows only (see `music_only`).
fn rows_items(rows: &Vec<PartTemplate>, item: ColumnItem, every: bool) -> (r: Vec<Option<ColumnItem>>)
    ensures
        r@.len() == rows@.len(),
        forall|k: int|
            0 <= k < rows@.len() ==> #[trigger] r@[k] == (if every {
                Some(item)
            } else {
                music_only(rows@[k], item)
            }),
{
    let mut r: Vec<Option<ColumnItem>> = Vec::new();
    let mut i: usize = 0;
    while i < rows.len()
        invariant
            i <= rows@.len(),
            r@.len() == i,
            forall|k: int|
                0 <= k < i ==> #[trigger] r@[k] == (if every {
                    Some(item)
                } else {
                    music_only(rows@[k], item)
                }),
        decreases rows@.len() - i,
    {
        let it = if every {
            Some(item)
        } else {
            match rows[i] {
                PartTemplate::Music => Some(item),
                PartTemplate::Nonmusic => None,
            }
        };
        r.push(it);
        i = i + 1;
    }
    r
}

/// The column of a bar that is neither of parts nor a count-in.
fn other_column(b: &Bar, rows: &Vec<PartTemplate>) -> (r: Vec<Option<ColumnItem>>)
    requires
        !(b.btype is Standard),
        !(b.btype is CountIn),
        !(b.btype is MultiRest),
    ensures
        r@ == other_items(*b, rows@),
{
    let mut r: Vec<Option<ColumnItem>> = Vec::new();
    match &b.btype {
        BarType::NonContent(NonContentType::VerticalLine) => {
            let mut out: Vec<Option<ColumnItem>> = Vec::new();
            let mut i: usize = 0;
            while i < rows.len()
                invariant
                    i <= rows@.len(),
                    out@ == rows@.take(i as int).map_values(|t: PartTemplate| Some(ColumnItem::VerticalLine(t))),
                decreases rows@.len() - i,
            {
                out.push(Some(ColumnItem::VerticalLine(rows[i])));
                proof {
                    assert(rows@.take(i + 1).map_values(|t: PartTemplate| Some(ColumnItem::VerticalLine(t)))
                        =~= rows@.take(i as int).map_values(|t: PartTemplate| Some(ColumnItem::VerticalLine(t))).push(
                        Some(ColumnItem::VerticalLine(rows@[i as int])),
                    ));
                }
                i = i + 1;
            }
            assert(rows@.take(rows@.len() as int) =~= rows@);
            return out;
        },
        BarType::NonContent(NonContentType::Barline(bt)) => {
            r = rows_items(rows, ColumnItem::Barline(*bt), false);
        },
        BarType::NonContent(NonContentType::Spacer(_, _)) => {
            r = rows_items(rows, ColumnItem::Spacer, false);
        },
        BarType::BarAttribute(BarAttributeType::Clefs(cs)) => {
            let mut i: usize = 0;
            while i < cs.len()
                invariant
                    i <= cs@.len(),
                    r@.len() == i,
                    forall|k: int|
                        0 <= k < i ==> #[trigger] r@[k] == (match cs@[k] {
                            Some(x) => Some(ColumnItem::Clef(x)),
                            None => None,
                        }),
                decreases cs@.len() - i,
            {
                let it = match cs[i] {
                    Some(x) => Some(ColumnItem::Clef(x)),
                    None => None,
                };
                r.push(it);
                i = i + 1;
            }
        },
        BarType::BarAttribute(BarAttributeType::Keys(ks)) => {
            let mut i: usize = 0;
            while i < ks.len()
                invariant
                    i <= ks@.len(),
                    r@.len() == i,
                    forall|k: int|
                        0 <= k < i ==> #[trigger] r@[k] == (match ks@[k] {
                            Some(x) => Some(ColumnItem::Key(x)),
                            None => None,
                        }),
                decreases ks@.len() - i,
            {
                let it = match ks[i] {
                    Some(x) => Some(ColumnItem::Key(x)),
                    None => None,
                };
                r.push(it);
                i = i + 1;
            }
        },
        BarType::BarAttribute(BarAttributeType::Times(ts)) => {
            let mut i: usize = 0;
            while i < ts.len()
                invariant
                    i <= ts@.len(),
                    r@.len() == i,
                    forall|k: int|
                        0 <= k < i ==> #[trigger] r@[k] == (match ts@[k] {
                            Some(x) => Some(ColumnItem::Time(x is Some)),
                            None => None,
                        }),
                decreases ts@.len() - i,
            {
                let it = match &ts[i] {
                    Some(x) => Some(
                        ColumnItem::Time(
                            match x {
                                Some(_) => true,
                                None => false,
                            },
                        ),
                    ),
                    None => None,
                };
                r.push(it);
                i = i + 1;
            }
        },
        _ => {},
    }
    assert(r@ =~= other_items(*b, rows@));
    r
}

/// The columns of a bar (see `bar_columns`).
fn columns_of_bar(b: &Bar, rows: &Vec<PartTemplate>) -> (r: Vec<MatrixColumn>)
    requires
        bar_layable(*b),
    ensures
        bar_columns(*b, rows@, r@),
{
    match &b.btype {
        BarType::Standard(parts) => {
            let cols = content_columns(parts, b.position);
            let ghost cv = cols@;
            assert(cv.take(cv.len() as int) =~= cv);
            let mut out: Vec<MatrixColumn> = Vec::new();
            let mut cols = cols;
            let mut rest: Vec<BarColumn> = Vec::new();
            let n = cols.len();
            let mut i: usize = 0;
            while i < n
                invariant
                    n == cv.len(),
                    i <= n,
                    cols@ == cv.take(n - i),
                    out@.len() == 0,
                    rest@.len() == i,
                    forall|k: int| 0 <= k < i ==> #[trigger] rest@[k] == cv[n - 1 - k],
                decreases n - i,
            {
                let c = cols.pop().unwrap();
                proof {
                    assert(cv.take(n - i).drop_last() =~= cv.take(n - i - 1));
                }
                rest.push(c);
                i = i + 1;
            }
            let mut j: usize = 0;
            while j < n
                invariant
                    n == cv.len(),
                    j <= n,
                    rest@.len() == n - j,
                    forall|k: int| 0 <= k < n - j ==> #[trigger] rest@[k] == cv[n - 1 - k],
                    out@.len() == j,
                    forall|k: int| 0 <= k < j ==> #[trigger] out@[k] == MatrixColumn::Content(cv[k]),
                decreases n - j,
            {
                assert(rest@[n - j - 1] == cv[j as int]);
                let c = rest.pop().unwrap();
                out.push(MatrixColumn::Content(c));
                j = j + 1;
            }
            assert(out@.map_values(|c: MatrixColumn| content_of(c)) =~= cv);
            out
        },
        BarType::CountIn(_) => Vec::new(),
        _ => {
            let items = other_column(b, rows);
            let mut out: Vec<MatrixColumn> = Vec::new();
            out.push(MatrixColumn::Other(b.position, items));
            out
        },
    }
}

impl Bars {
    /// The columns of the score, bar by bar (see `bar_columns`), by the
    /// rows of the layout given; without a layout, the error that it is
    /// missing.
    pub fn matrix_columns(&self, template: Option<BarTemplate>) -> (r: Result<Vec<Vec<MatrixColumn>>, NotationError>)
        requires
            template is Some ==> forall|i: int| 0 <= i < self.items@.len() ==> bar_layable(#[trigger] self.items@[i]),
        ensures
            match template {
                None => r matches Err(NotationError::Generic(m)) && m@ == missing_template_message(),
                Some(t) => r matches Ok(cols) && cols@.len() == self.items@.len() && forall|i: int|
                    0 <= i < self.items@.len() ==> bar_columns(#[trigger] self.items@[i], t.0@, cols@[i]@),
            },
    {
        let t = match template {
            Some(t) => t,
            None => {
                let m = "Bartemplate is missing!".to_string();
                proof {
                    reveal_strlit("Bartemplate is missing!");
                }
                return Err(NotationError::Generic(m));
            },
        };
        let mut cols: Vec<Vec<MatrixColumn>> = Vec::new();
        let mut i: usize = 0;
        while i < self.items.len()
            invariant
                i <= self.items@.len(),
                forall|q: int| 0 <= q < self.items@.len() ==> bar_layable(#[trigger] self.items@[q]),
                cols@.len() == i,
                forall|q: int| 0 <= q < i ==> bar_columns(#[trigger] self.items@[q], t.0@, cols@[q]@),
            decreases self.items@.len() - i,
        {
            cols.push(columns_of_bar(&self.items[i], &t.0));
            i = i + 1;
        }
        Ok(cols)
    }
}

} // verus!
