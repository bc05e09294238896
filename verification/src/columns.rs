//! The columns of a bar of parts: one for each position where a complex of
//! some part starts, in order, with its length and, for each part, the
//! complex of that part that stands in it.

use vstd::prelude::*;

use crate::complex::Complex;
use crate::core_defs::{Duration, Position};
use crate::part::Part;

verus! {

/// A column of a bar: where it stands (counted from the start of the
/// score), how long it lasts, and for each part the index of its complex
/// in the column, if it has one there.
#[derive(Debug, PartialEq, Eq)]
pub struct BarColumn {
    pub position: Position,
    pub duration: Duration,
    pub items: Vec<Option<usize>>,
}

/// The complexes of a part, none before they are made.
pub open spec fn complexes_of(p: Part) -> Seq<Complex> {
    match p.complexes {
        Some(cs) => cs@,
        None => Seq::empty(),
    }
}

/// Complex `c` of `cs` is the last one that starts at `x`.
pub open spec fn last_complex_at(cs: Seq<Complex>, x: int, c: int) -> bool {
    &&& 0 <= c < cs.len()
    &&& cs[c].position == x
    &&& forall|j: int| c < j < cs.len() ==> #[trigger] cs[j].position != x
}

/// Some complex of `cs` starts at `x`.
pub open spec fn complex_starts_at(cs: Seq<Complex>, x: int) -> bool {
    exists|c: int| 0 <= c < cs.len() && #[trigger] cs[c].position == x
}

/// Some complex of some part starts at `x`.
pub open spec fn any_complex_at(parts: Seq<Part>, x: int) -> bool {
    exists|p: int| 0 <= p < parts.len() && complex_starts_at(complexes_of(#[trigger] parts[p]), x)
}

/// The longest of the parts.
pub open spec fn parts_length(parts: Seq<Part>) -> int
    decreases parts.len(),
{
    if parts.len() == 0 {
        0
    } else {
        let m = parts_length(parts.drop_last());
        if parts.last().duration > m {
            parts.last().duration as int
        } else {
            m
        }
    }
}

/// Some column lies at `x` (counted within the bar).
pub open spec fn has_column(cols: Seq<BarColumn>, start: int, x: int) -> bool {
    exists|k: int| 0 <= k < cols.len() && #[trigger] cols[k].position == start + x
}

/// The columns of a bar that starts at `start`: one for each position
/// where some complex starts, in increasing order; each lasts up to the
/// next one, the last up to the end of the longest part; in each, a part
/// has its last complex that starts there, or none.
pub open spec fn columns_made(parts: Seq<Part>, start: int, cols: Seq<BarColumn>) -> bool {
    &&& forall|k1: int, k2: int| 0 <= k1 < k2 < cols.len() ==> cols[k1].position < cols[k2].position
    &&& forall|k: int| 0 <= k < cols.len() ==> any_complex_at(parts, #[trigger] cols[k].position - start)
    &&& forall|p: int, c: int|
        #![trigger complexes_of(parts[p])[c]]
        0 <= p < parts.len() && 0 <= c < complexes_of(parts[p]).len() ==> has_column(
            cols,
            start,
            complexes_of(parts[p])[c].position as int,
        )
    &&& forall|k: int|
        0 <= k < cols.len() ==> (#[trigger] cols[k]).duration == (if k + 1 < cols.len() {
            cols[k + 1].position - cols[k].position
        } else {
            parts_length(parts) + start - cols[k].position
        })
    &&& forall|k: int|
        0 <= k < cols.len() ==> (#[trigger] cols[k]).items@.len() == parts.len() && forall|p: int|
            #![trigger cols[k].items@[p]]
            0 <= p < parts.len() ==> match cols[k].items@[p] {
                Some(c) => last_complex_at(complexes_of(parts[p]), cols[k].position - start, c as int),
                None => !complex_starts_at(complexes_of(parts[p]), cols[k].position - start),
            }
}

/// Every part has its complexes, and none of them starts past the end of
/// the longest part.
pub open spec fn columns_ready(parts: Seq<Part>) -> bool {
    forall|p: int|
        0 <= p < parts.len() ==> (#[trigger] parts[p]).complexes is Some && forall|c: int|
            0 <= c < complexes_of(parts[p]).len() ==> #[trigger] complexes_of(parts[p])[c].position
                <= parts_length(parts)
}

/// The longest of the parts (see `parts_length`).
fn longest(parts: &Vec<Part>) -> (r: Duration)
    ensures
        r == parts_length(parts@),
{
    let mut m: Duration = 0;
    let mut i: usize = 0;
    assert(parts@.take(0) =~= Seq::<Part>::empty());
    while i < parts.len()
        invariant
            i <= parts@.len(),
            m == parts_length(parts@.take(i as int)),
        decreases parts@.len() - i,
    {
        assert(parts@.take(i + 1).drop_last() =~= parts@.take(i as int));
        if parts[i].duration > m {
            m = parts[i].duration;
        }
        i = i + 1;
    }
    assert(parts@.take(parts@.len() as int) =~= parts@);
    m
}

/// Puts `x` into the increasing list, where it is not there yet.
fn insert_sorted(xs: &mut Vec<usize>, x: usize)
    requires
        forall|a: int, b: int| 0 <= a < b < old(xs)@.len() ==> old(xs)@[a] < old(xs)@[b],
    ensures
        forall|a: int, b: int| 0 <= a < b < final(xs)@.len() ==> final(xs)@[a] < final(xs)@[b],
        final(xs)@.to_set() == old(xs)@.to_set().insert(x),
{
    let ghost xs0 = xs@;
    let mut i: usize = 0;
    while i < xs.len() && xs[i] < x
        invariant
            xs@ == xs0,
            i <= xs@.len(),
            forall|a: int| 0 <= a < i ==> #[trigger] xs@[a] < x,
        decreases xs@.len() - i,
    {
        i = i + 1;
    }
    if i < xs.len() && xs[i] == x {
        assert(xs0.to_set().insert(x) =~= xs0.to_set());
        return;
    }
    xs.insert(i, x);
    proof {
        assert forall|a: int, b: int| 0 <= a < b < xs@.len() implies xs@[a] < xs@[b] by {
            if b < i {
            } else if b == i {
            } else if a < i {
                assert(xs0[a] < x);
                assert(x < xs0[i as int] || i == xs0.len());
                assert(xs0[a] < xs0[b - 1] || a == b - 1);
            } else if a == i {
                assert(x < xs0[i as int]);
                assert(xs0[i as int] <= xs0[b - 1]);
            }
        }
        assert forall|y: usize| #[trigger] xs@.to_set().contains(y) implies xs0.to_set().insert(x).contains(y) by {
            let k = choose|k: int| 0 <= k < xs@.len() && xs@[k] == y;
            if k < i {
                assert(xs0[k] == y);
            } else if k > i {
                assert(xs0[k - 1] == y);
            }
        }
        assert forall|y: usize| #[trigger] xs0.to_set().insert(x).contains(y) implies xs@.to_set().contains(y) by {
            if y == x {
                assert(xs@[i as int] == x);
            } else {
                let k = choose|k: int| 0 <= k < xs0.len() && xs0[k] == y;
                if k < i {
                    assert(xs@[k] == y);
                } else {
                    assert(xs@[k + 1] == y);
                }
            }
        }
        assert(xs@.to_set() =~= xs0.to_set().insert(x));
    }
}

/// The last complex that starts at `x`, if any.
fn last_at_position(cs: &Vec<Complex>, x: usize) -> (r: Option<usize>)
    ensures
        match r {
            Some(c) => last_complex_at(cs@, x as int, c as int),
            None => !complex_starts_at(cs@, x as int),
        },
{
    let mut found: Option<usize> = None;
    let mut c: usize = 0;
    while c < cs.len()
        invariant
            c <= cs@.len(),
            match found {
                Some(f) => f < c && cs@[f as int].position == x && forall|j: int|
                    f < j < c ==> #[trigger] cs@[j].position != x,
                None => forall|j: int| 0 <= j < c ==> #[trigger] cs@[j].position != x,
            },
        decreases cs@.len() - c,
    {
        if cs[c].position == x {
            found = Some(c);
        }
        c = c + 1;
    }
    found
}

/// The columns of a bar of parts that starts at `start` (see
/// `columns_made`).
pub fn content_columns(parts: &Vec<Part>, start: usize) -> (r: Vec<BarColumn>)
    requires
        columns_ready(parts@),
        start + parts_length(parts@) <= usize::MAX,
    ensures
        columns_made(parts@, start as int, r@),
{
    let total = longest(parts);
    let mut xs: Vec<usize> = Vec::new();
    let mut p: usize = 0;
    while p < parts.len()
        invariant
            p <= parts@.len(),
            columns_ready(parts@),
            total == parts_length(parts@),
            forall|a: int, b: int| 0 <= a < b < xs@.len() ==> xs@[a] < xs@[b],
            forall|k: int| 0 <= k < xs@.len() ==> any_complex_at(parts@, #[trigger] xs@[k] as int),
            forall|k: int| 0 <= k < xs@.len() ==> #[trigger] xs@[k] <= total,
            forall|q: int, d: int|
                #![trigger complexes_of(parts@[q])[d]]
                0 <= q < p && 0 <= d < complexes_of(parts@[q]).len() ==> xs@.to_set().contains(
                    complexes_of(parts@[q])[d].position,
                ),
        decreases parts@.len() - p,
    {
        let ghost xs_p = xs@;
        match &parts[p].complexes {
            Some(cs) => {
                let mut c: usize = 0;
                while c < cs.len()
                    invariant
                        p < parts@.len(),
                        c <= cs@.len(),
                        cs@ == complexes_of(parts@[p as int]),
                        columns_ready(parts@),
                        total == parts_length(parts@),
                        xs_p.to_set().subset_of(xs@.to_set()),
                        forall|a: int, b: int| 0 <= a < b < xs@.len() ==> xs@[a] < xs@[b],
                        forall|k: int| 0 <= k < xs@.len() ==> any_complex_at(parts@, #[trigger] xs@[k] as int),
                        forall|k: int| 0 <= k < xs@.len() ==> #[trigger] xs@[k] <= total,
                        forall|d: int| 0 <= d < c ==> xs@.to_set().contains(#[trigger] cs@[d].position),
                    decreases cs@.len() - c,
                {
                    let ghost before = xs@;
                    let x = cs[c].position;
                    insert_sorted(&mut xs, x);
                    proof {
                        assert(x <= total);
                        assert forall|k: int| 0 <= k < xs@.len() implies any_complex_at(
                            parts@,
                            #[trigger] xs@[k] as int,
                        ) && xs@[k] <= total by {
                            assert(xs@.to_set().contains(xs@[k]));
                            if xs@[k] != x {
                                assert(before.to_set().contains(xs@[k]));
                                let j = choose|j: int| 0 <= j < before.len() && before[j] == xs@[k];
                                assert(any_complex_at(parts@, before[j] as int));
                            } else {
                                assert(complex_starts_at(complexes_of(parts@[p as int]), x as int));
                            }
                        }
                        assert forall|d: int| 0 <= d < c + 1 implies xs@.to_set().contains(#[trigger] cs@[d].position) by {
                            if d < c {
                                assert(before.to_set().contains(cs@[d].position));
                            }
                        }
                    }
                    c = c + 1;
                }
            },
            None => {},
        }
        proof {
            assert forall|q: int, d: int|
                #![trigger complexes_of(parts@[q])[d]]
                0 <= q < p + 1 && 0 <= d < complexes_of(parts@[q]).len() implies xs@.to_set().contains(
                complexes_of(parts@[q])[d].position,
            ) by {
                if q < p {
                    assert(xs_p.to_set().contains(complexes_of(parts@[q])[d].position));
                }
            }
        }
        p = p + 1;
    }
    let mut r: Vec<BarColumn> = Vec::new();
    let mut k: usize = 0;
    while k < xs.len()
        invariant
            k <= xs@.len(),
            r@.len() == k,
            total == parts_length(parts@),
            start + total <= usize::MAX,
            forall|a: int, b: int| 0 <= a < b < xs@.len() ==> xs@[a] < xs@[b],
            forall|j: int| 0 <= j < xs@.len() ==> #[trigger] xs@[j] <= total,
            forall|j: int|
                0 <= j < k ==> (#[trigger] r@[j]).position == start + xs@[j] && r@[j].duration == (if j + 1
                    < xs@.len() {
                    xs@[j + 1] - xs@[j]
                } else {
                    total - xs@[j]
                }) && r@[j].items@.len() == parts@.len() && forall|q: int|
                    #![trigger r@[j].items@[q]]
                    0 <= q < parts@.len() ==> match r@[j].items@[q] {
                        Some(c) => last_complex_at(complexes_of(parts@[q]), xs@[j] as int, c as int),
                        None => !complex_starts_at(complexes_of(parts@[q]), xs@[j] as int),
                    },
        decreases xs@.len() - k,
    {
        let x = xs[k];
        let d = if k + 1 < xs.len() {
            xs[k + 1] - x
        } else {
            total - x
        };
        let mut items: Vec<Option<usize>> = Vec::new();
        let mut q: usize = 0;
        while q < parts.len()
            invariant
                q <= parts@.len(),
                items@.len() == q,
                forall|e: int|
                    #![trigger items@[e]]
                    0 <= e < q ==> match items@[e] {
                        Some(c) => last_complex_at(complexes_of(parts@[e]), x as int, c as int),
                        None => !complex_starts_at(complexes_of(parts@[e]), x as int),
                    },
            decreases parts@.len() - q,
        {
            let item = match &parts[q].complexes {
                Some(cs) => last_at_position(cs, x),
                None => None,
            };
            items.push(item);
            q = q + 1;
        }
        r.push(BarColumn { position: start + x, duration: d, items });
        k = k + 1;
    }
    proof {
        assert forall|q: int, c: int|
            #![trigger complexes_of(parts@[q])[c]]
            0 <= q < parts@.len() && 0 <= c < complexes_of(parts@[q]).len() implies has_column(
            r@,
            start as int,
            complexes_of(parts@[q])[c].position as int,
        ) by {
            let y = complexes_of(parts@[q])[c].position;
            assert(xs@.to_set().contains(y));
            let j = choose|j: int| 0 <= j < xs@.len() && xs@[j] == y;
            assert(r@[j].position == start + y);
        }
        assert forall|j: int| 0 <= j < r@.len() implies any_complex_at(parts@, #[trigger] r@[j].position - start) by {
            assert(r@[j].position - start == xs@[j]);
        }
    }
    r
}

/// The sum of the lengths of the columns.
pub open spec fn sum_column_durations(cols: Seq<BarColumn>) -> int
    decreases cols.len(),
{
    if cols.len() == 0 {
        0
    } else {
        sum_column_durations(cols.drop_last()) + cols.last().duration
    }
}

/// The columns of a bar fill it from the first column to the end of its
/// longest part.
pub proof fn lemma_columns_fill(parts: Seq<Part>, start: int, cols: Seq<BarColumn>)
    requires
        columns_made(parts, start, cols),
        cols.len() > 0,
    ensures
        sum_column_durations(cols) == parts_length(parts) + start - cols[0].position,
{
    lemma_columns_prefix(parts, start, cols, cols.len() - 1);
    assert(cols.drop_last() =~= cols.take(cols.len() - 1));
    assert(cols.last() == cols[cols.len() - 1]);
}

/// The first `k` columns last up to where column `k` starts.
proof fn lemma_columns_prefix(parts: Seq<Part>, start: int, cols: Seq<BarColumn>, k: int)
    requires
        columns_made(parts, start, cols),
        0 <= k < cols.len(),
    ensures
        sum_column_durations(cols.take(k)) == cols[k].position - cols[0].position,
    decreases k,
{
    if k > 0 {
        lemma_columns_prefix(parts, start, cols, k - 1);
        assert(cols.take(k).drop_last() =~= cols.take(k - 1));
        assert(cols.take(k).last() == cols[k - 1]);
        assert(cols[k - 1].duration == cols[k].position - cols[k - 1].position);
    } else {
        assert(cols.take(0) =~= Seq::<BarColumn>::empty());
    }
}

} // verus!
