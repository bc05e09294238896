//! Character-sequence operations the quick-code reader is built from:
//! searching, splitting, trimming, replacing and case folding.

use vstd::prelude::*;
use vstd::string::*;

verus! {

/// The lower-case form of an ASCII letter; every other character is kept.
pub open spec fn ascii_lower(c: char) -> char {
    if 'A' <= c && c <= 'Z' {
        ((c as u32) + 32) as char
    } else {
        c
    }
}

/// The upper-case form of an ASCII letter; every other character is kept.
pub open spec fn ascii_upper(c: char) -> char {
    if 'a' <= c && c <= 'z' {
        ((c as u32) - 32) as char
    } else {
        c
    }
}

pub open spec fn lower_seq(s: Seq<char>) -> Seq<char> {
    s.map_values(|c: char| ascii_lower(c))
}

pub open spec fn upper_seq(s: Seq<char>) -> Seq<char> {
    s.map_values(|c: char| ascii_upper(c))
}

/// `pat` occurs in `s` starting at index `i`.
pub open spec fn occurs_at(s: Seq<char>, pat: Seq<char>, i: int) -> bool {
    0 <= i && i + pat.len() <= s.len() && s.subrange(i, i + pat.len()) == pat
}

/// `pat` occurs somewhere in `s`.
pub open spec fn contains_seq(s: Seq<char>, pat: Seq<char>) -> bool {
    exists|i: int| occurs_at(s, pat, i)
}

pub open spec fn starts_with_seq(s: Seq<char>, pat: Seq<char>) -> bool {
    pat.len() <= s.len() && s.subrange(0, pat.len() as int) == pat
}

/// The characters that `char::is_whitespace` accepts: the Unicode
/// `White_Space` property.
pub open spec fn is_ws(c: char) -> bool {
    ||| ('\u{9}' <= c && c <= '\u{d}')
    ||| c == ' '
    ||| c == '\u{85}'
    ||| c == '\u{a0}'
    ||| c == '\u{1680}'
    ||| ('\u{2000}' <= c && c <= '\u{200a}')
    ||| c == '\u{2028}'
    ||| c == '\u{2029}'
    ||| c == '\u{202f}'
    ||| c == '\u{205f}'
    ||| c == '\u{3000}'
}

/// The number of leading whitespace characters of `s`.
pub open spec fn lead_ws(s: Seq<char>) -> nat
    decreases s.len(),
{
    if s.len() > 0 && is_ws(s[0]) {
        1 + lead_ws(s.drop_first())
    } else {
        0
    }
}

/// The number of trailing whitespace characters of `s`.
pub open spec fn trail_ws(s: Seq<char>) -> nat
    decreases s.len(),
{
    if s.len() > 0 && is_ws(s.last()) {
        1 + trail_ws(s.drop_last())
    } else {
        0
    }
}

/// `s` without leading whitespace.
pub open spec fn trim_start_seq(s: Seq<char>) -> Seq<char> {
    s.skip(lead_ws(s) as int)
}

/// `s` without trailing whitespace.
pub open spec fn trim_end_seq(s: Seq<char>) -> Seq<char> {
    s.take(s.len() - trail_ws(s))
}

/// `s` without leading and trailing whitespace, as `str::trim` gives it.
pub open spec fn trim_seq(s: Seq<char>) -> Seq<char> {
    trim_end_seq(trim_start_seq(s))
}

/// The index of the first occurrence of `c` in `s`, if there is one.
pub open spec fn first_index(s: Seq<char>, c: char) -> Option<int>
    decreases s.len(),
{
    if s.len() == 0 {
        None
    } else if s[0] == c {
        Some(0)
    } else {
        match first_index(s.drop_first(), c) {
            Some(i) => Some(i + 1),
            None => None,
        }
    }
}

/// The pieces of `s` between occurrences of `sep`, as `str::split` with a
/// character separator gives them: always at least one piece.
pub open spec fn split_seq(s: Seq<char>, sep: char) -> Seq<Seq<char>>
    decreases s.len(),
{
    match first_index(s, sep) {
        Some(i) => {
            if 0 <= i < s.len() {
                seq![s.take(i)] + split_seq(s.skip(i + 1), sep)
            } else {
                seq![s]
            }
        },
        None => seq![s],
    }
}

/// `s` with every non-overlapping occurrence of `pat`, found from the left,
/// replaced by `rep`, as `str::replace` does it for a non-empty pattern.
pub open spec fn replace_seq(s: Seq<char>, pat: Seq<char>, rep: Seq<char>) -> Seq<char>
    decreases s.len(),
{
    if pat.len() == 0 || s.len() < pat.len() {
        s
    } else if s.take(pat.len() as int) == pat {
        rep + replace_seq(s.skip(pat.len() as int), pat, rep)
    } else {
        seq![s[0]] + replace_seq(s.drop_first(), pat, rep)
    }
}

/// Unfolds `first_index`: it names the first position holding `c`.
pub proof fn lemma_first_index(s: Seq<char>, c: char, i: int)
    requires
        0 <= i < s.len(),
        s[i] == c,
        forall|k: int| 0 <= k < i ==> s[k] != c,
    ensures
        first_index(s, c) == Some(i),
    decreases s.len(),
{
    if i > 0 {
        lemma_first_index(s.drop_first(), c, i - 1);
    }
}

/// `first_index` finds nothing where `c` does not occur.
pub proof fn lemma_first_index_none(s: Seq<char>, c: char)
    requires
        forall|k: int| 0 <= k < s.len() ==> s[k] != c,
    ensures
        first_index(s, c) == None::<int>,
    decreases s.len(),
{
    if s.len() > 0 {
        lemma_first_index_none(s.drop_first(), c);
    }
}

/// Whether `c` is a whitespace character.
pub fn is_whitespace(c: char) -> (r: bool)
    ensures
        r == is_ws(c),
{
    ('\u{9}' <= c && c <= '\u{d}') || c == ' ' || c == '\u{85}' || c == '\u{a0}' || c == '\u{1680}'
        || ('\u{2000}' <= c && c <= '\u{200a}') || c == '\u{2028}' || c == '\u{2029}'
        || c == '\u{202f}' || c == '\u{205f}' || c == '\u{3000}'
}

/// The characters without leading and trailing whitespace.
pub fn trim(s: &[char]) -> (r: Vec<char>)
    ensures
        r@ == trim_seq(s@),
{
    let n = s.len();
    let mut a: usize = 0;
    assert(s@.skip(0) =~= s@);
    while a < n && is_whitespace(s[a])
        invariant
            n == s@.len(),
            a <= n,
            lead_ws(s@) == a + lead_ws(s@.skip(a as int)),
        decreases n - a,
    {
        assert(s@.skip(a as int).drop_first() =~= s@.skip(a + 1));
        a = a + 1;
    }
    assert(lead_ws(s@.skip(a as int)) == 0);
    let ghost t = trim_start_seq(s@);
    assert(t =~= s@.skip(a as int));
    let mut b: usize = n;
    while b > a && is_whitespace(s[b - 1])
        invariant
            n == s@.len(),
            a <= b <= n,
            t == s@.skip(a as int),
            trail_ws(t) == (n - b) + trail_ws(s@.subrange(a as int, b as int)),
        decreases b - a,
    {
        assert(s@.subrange(a as int, b as int).drop_last() =~= s@.subrange(a as int, b - 1));
        b = b - 1;
    }
    assert(trail_ws(s@.subrange(a as int, b as int)) == 0);
    assert(t.take(t.len() - trail_ws(t)) =~= s@.subrange(a as int, b as int));
    let mut r: Vec<char> = Vec::new();
    let mut i: usize = a;
    while i < b
        invariant
            a <= i <= b <= s@.len(),
            r@ == s@.subrange(a as int, i as int),
        decreases b - i,
    {
        r.push(s[i]);
        i = i + 1;
        assert(r@ =~= s@.subrange(a as int, i as int));
    }
    r
}

/// The characters from index `a` up to (not including) index `b`.
pub fn slice_chars(s: &[char], a: usize, b: usize) -> (r: Vec<char>)
    requires
        a <= b <= s@.len(),
    ensures
        r@ == s@.subrange(a as int, b as int),
{
    let mut r: Vec<char> = Vec::new();
    let mut i: usize = a;
    while i < b
        invariant
            a <= i <= b <= s@.len(),
            r@ == s@.subrange(a as int, i as int),
        decreases b - i,
    {
        r.push(s[i]);
        i = i + 1;
        assert(r@ =~= s@.subrange(a as int, i as int));
    }
    r
}

/// The views of a sequence of character vectors.
pub open spec fn views(v: Seq<Vec<char>>) -> Seq<Seq<char>> {
    v.map_values(|x: Vec<char>| x@)
}

/// The pieces of `s` between occurrences of `sep`.
pub fn split(s: &[char], sep: char) -> (r: Vec<Vec<char>>)
    ensures
        views(r@) == split_seq(s@, sep),
        r@.len() >= 1,
{
    let n = s.len();
    let mut r: Vec<Vec<char>> = Vec::new();
    let mut start: usize = 0;
    let mut j: usize = 0;
    assert(s@.skip(0) =~= s@);
    assert(views(r@) + split_seq(s@, sep) =~= split_seq(s@, sep));
    while j < n
        invariant
            n == s@.len(),
            start <= j <= n,
            split_seq(s@, sep) == views(r@) + split_seq(s@.skip(start as int), sep),
            forall|k: int| start <= k < j ==> s@[k] != sep,
        decreases n - j,
    {
        if s[j] == sep {
            let ghost t = s@.skip(start as int);
            proof {
                lemma_first_index(t, sep, (j - start) as int);
                assert(t.take((j - start) as int) =~= s@.subrange(start as int, j as int));
                assert(t.skip((j - start) + 1) =~= s@.skip(j + 1));
            }
            let piece = slice_chars(s, start, j);
            let ghost before = r@;
            r.push(piece);
            assert(views(r@) =~= views(before) + seq![piece@]);
            start = j + 1;
            j = j + 1;
        } else {
            j = j + 1;
        }
    }
    let ghost t = s@.skip(start as int);
    proof {
        lemma_first_index_none(t, sep);
    }
    let piece = slice_chars(s, start, n);
    assert(piece@ =~= t);
    let ghost before = r@;
    r.push(piece);
    assert(views(r@) =~= views(before) + seq![piece@]);
    r
}

/// The characters with every occurrence of `pat`, found from the left
/// without overlap, replaced by `rep`.
pub fn replace(s: &[char], pat: &[char], rep: &[char]) -> (r: Vec<char>)
    requires
        pat@.len() > 0,
    ensures
        r@ == replace_seq(s@, pat@, rep@),
{
    let n = s.len();
    let mut r: Vec<char> = Vec::new();
    let mut i: usize = 0;
    assert(s@.skip(0) =~= s@);
    assert(r@ + replace_seq(s@, pat@, rep@) =~= replace_seq(s@, pat@, rep@));
    while i < n
        invariant
            n == s@.len(),
            pat@.len() > 0,
            i <= n,
            replace_seq(s@, pat@, rep@) == r@ + replace_seq(s@.skip(i as int), pat@, rep@),
        decreases n - i,
    {
        let ghost t = s@.skip(i as int);
        if matches_at(s, pat, i) {
            assert(t.take(pat@.len() as int) =~= s@.subrange(i as int, i + pat@.len()));
            assert(t.skip(pat@.len() as int) =~= s@.skip(i + pat@.len()));
            let ghost before = r@;
            let mut k: usize = 0;
            while k < rep.len()
                invariant
                    k <= rep@.len(),
                    r@ == before + rep@.take(k as int),
                decreases rep.len() - k,
            {
                r.push(rep[k]);
                k = k + 1;
                assert(r@ =~= before + rep@.take(k as int));
            }
            assert(rep@.take(rep@.len() as int) =~= rep@);
            assert(before + replace_seq(t, pat@, rep@) =~= r@ + replace_seq(s@.skip(i + pat@.len()), pat@, rep@));
            i = i + pat.len();
        } else {
            if n - i >= pat.len() {
                assert(t.take(pat@.len() as int) =~= s@.subrange(i as int, i + pat@.len()));
                assert(t.drop_first() =~= s@.skip(i + 1));
            } else {
                assert(replace_seq(t, pat@, rep@) == t);
            }
            let ghost before = r@;
            r.push(s[i]);
            if n - i >= pat.len() {
                assert(before + replace_seq(t, pat@, rep@) =~= r@ + replace_seq(s@.skip(i + 1), pat@, rep@));
            } else {
                proof {
                    lemma_replace_short(s@.skip(i + 1), pat@, rep@);
                }
                assert(t =~= seq![s@[i as int]] + s@.skip(i + 1));
                assert(before + replace_seq(t, pat@, rep@) =~= r@ + replace_seq(s@.skip(i + 1), pat@, rep@));
            }
            i = i + 1;
        }
    }
    assert(s@.skip(n as int) =~= Seq::<char>::empty());
    assert(r@ + Seq::<char>::empty() =~= r@);
    r
}

/// A sequence shorter than the pattern is left as it is.
pub proof fn lemma_replace_short(s: Seq<char>, pat: Seq<char>, rep: Seq<char>)
    requires
        s.len() < pat.len(),
    ensures
        replace_seq(s, pat, rep) == s,
{
}

pub proof fn lemma_first_index_bounds(s: Seq<char>, c: char)
    ensures
        first_index(s, c) matches Some(i) ==> 0 <= i < s.len() && s[i] == c,
    decreases s.len(),
{
    if s.len() > 0 && s[0] != c {
        lemma_first_index_bounds(s.drop_first(), c);
    }
}

/// `split_seq` gives at most one piece more than there are characters.
pub proof fn lemma_split_len(s: Seq<char>, c: char)
    ensures
        split_seq(s, c).len() <= s.len() + 1,
    decreases s.len(),
{
    lemma_first_index_bounds(s, c);
    match first_index(s, c) {
        Some(i) => {
            if 0 <= i < s.len() {
                lemma_split_len(s.skip(i + 1), c);
            }
        },
        None => {},
    }
}

/// `trim_seq` keeps a stretch of `s`: the one starting at the offset
/// returned.
pub proof fn lemma_trim_offset(s: Seq<char>) -> (a: int)
    ensures
        0 <= a,
        a + trim_seq(s).len() <= s.len(),
        forall|k: int| 0 <= k < trim_seq(s).len() ==> #[trigger] trim_seq(s)[k] == s[a + k],
{
    lemma_lead_ws_le(s);
    lemma_trail_ws_le(trim_start_seq(s));
    lead_ws(s) as int
}

/// The first index of `c` is the first: no earlier position holds `c`; and
/// where there is none, no position holds it.
pub proof fn lemma_first_index_first(s: Seq<char>, c: char)
    ensures
        first_index(s, c) matches Some(i) ==> forall|k: int| 0 <= k < i ==> s[k] != c,
        first_index(s, c) is None ==> forall|k: int| 0 <= k < s.len() ==> s[k] != c,
    decreases s.len(),
{
    if s.len() > 0 && s[0] != c {
        let t = s.drop_first();
        lemma_first_index_first(t, c);
        lemma_first_index_bounds(t, c);
        match first_index(t, c) {
            Some(j) => {
                assert forall|k: int| 0 <= k < j + 1 implies s[k] != c by {
                    if k > 0 {
                        assert(s[k] == t[k - 1]);
                    }
                }
            },
            None => {
                assert forall|k: int| 0 <= k < s.len() implies s[k] != c by {
                    if k > 0 {
                        assert(s[k] == t[k - 1]);
                    }
                }
            },
        }
    }
}

/// No piece of a split holds the separator.
pub proof fn lemma_split_no_sep(s: Seq<char>, c: char)
    ensures
        forall|k: int, j: int|
            0 <= k < split_seq(s, c).len() && 0 <= j < split_seq(s, c)[k].len() ==> #[trigger] split_seq(s, c)[k][j]
                != c,
    decreases s.len(),
{
    lemma_first_index_bounds(s, c);
    lemma_first_index_first(s, c);
    match first_index(s, c) {
        Some(i) => {
            if 0 <= i < s.len() {
                lemma_split_no_sep(s.skip(i + 1), c);
                let r = split_seq(s, c);
                let rest = split_seq(s.skip(i + 1), c);
                assert forall|k: int, j: int| 0 <= k < r.len() && 0 <= j < r[k].len() implies #[trigger] r[k][j] != c by {
                    if k > 0 {
                        assert(r[k] == rest[k - 1]);
                    } else {
                        assert(r[0] == s.take(i));
                    }
                }
            }
        },
        None => {},
    }
}

/// No piece of a split is longer than what was split.
pub proof fn lemma_split_parts_len(s: Seq<char>, c: char)
    ensures
        forall|k: int| 0 <= k < split_seq(s, c).len() ==> #[trigger] split_seq(s, c)[k].len() <= s.len(),
    decreases s.len(),
{
    lemma_first_index_bounds(s, c);
    match first_index(s, c) {
        Some(i) => {
            if 0 <= i < s.len() {
                lemma_split_parts_len(s.skip(i + 1), c);
                let r = split_seq(s, c);
                let rest = split_seq(s.skip(i + 1), c);
                assert forall|k: int| 0 <= k < r.len() implies #[trigger] r[k].len() <= s.len() by {
                    if k > 0 {
                        assert(r[k] == rest[k - 1]);
                    }
                }
            }
        },
        None => {},
    }
}

/// Replacing by something no longer than the pattern does not lengthen.
pub proof fn lemma_replace_len(s: Seq<char>, pat: Seq<char>, rep: Seq<char>)
    requires
        rep.len() <= pat.len(),
    ensures
        replace_seq(s, pat, rep).len() <= s.len(),
    decreases s.len(),
{
    if pat.len() == 0 || s.len() < pat.len() {
    } else if s.take(pat.len() as int) == pat {
        lemma_replace_len(s.skip(pat.len() as int), pat, rep);
    } else {
        lemma_replace_len(s.drop_first(), pat, rep);
    }
}

pub proof fn lemma_lead_ws_le(s: Seq<char>)
    ensures
        lead_ws(s) <= s.len(),
    decreases s.len(),
{
    if s.len() > 0 && is_ws(s[0]) {
        lemma_lead_ws_le(s.drop_first());
    }
}

pub proof fn lemma_trail_ws_le(s: Seq<char>)
    ensures
        trail_ws(s) <= s.len(),
    decreases s.len(),
{
    if s.len() > 0 && is_ws(s.last()) {
        lemma_trail_ws_le(s.drop_last());
    }
}

/// Trimming does not lengthen.
pub proof fn lemma_trim_len(s: Seq<char>)
    ensures
        trim_seq(s).len() <= s.len(),
{
    lemma_lead_ws_le(s);
    let t = trim_start_seq(s);
    lemma_trail_ws_le(t);
}

/// Calls `String::push`, which std documents as appending the character
/// to the end of the string; the contract claims just that.
#[verifier::external_body]
pub(crate) fn push_char(s: &mut String, c: char)
    ensures
        final(s)@ == old(s)@.push(c),
{
    s.push(c);
}

/// The characters of a string slice.
pub fn to_chars(s: &str) -> (v: Vec<char>)
    ensures
        v@ == s@,
{
    let n = s.unicode_len();
    let mut v: Vec<char> = Vec::new();
    let mut i: usize = 0;
    while i < n
        invariant
            n == s@.len(),
            i <= n,
            v@ == s@.take(i as int),
        decreases n - i,
    {
        let c = s.get_char(i);
        v.push(c);
        i = i + 1;
        assert(v@ =~= s@.take(i as int));
    }
    assert(v@ =~= s@);
    v
}

/// A `String` holding the given characters.
pub fn string_from(v: &[char]) -> (s: String)
    ensures
        s@ == v@,
{
    let mut s = String::new();
    let mut i: usize = 0;
    while i < v.len()
        invariant
            i <= v@.len(),
            s@ == v@.take(i as int),
        decreases v.len() - i,
    {
        push_char(&mut s, v[i]);
        i = i + 1;
        assert(s@ =~= v@.take(i as int));
    }
    assert(s@ =~= v@);
    s
}

/// Appends the given characters to a string.
pub fn push_chars(s: &mut String, v: &[char])
    ensures
        final(s)@ == old(s)@ + v@,
{
    let ghost start = s@;
    let mut i: usize = 0;
    while i < v.len()
        invariant
            i <= v@.len(),
            s@ == start + v@.take(i as int),
        decreases v.len() - i,
    {
        push_char(s, v[i]);
        i = i + 1;
        assert(s@ =~= start + v@.take(i as int));
    }
    assert(v@.take(v@.len() as int) =~= v@);
}

/// Whether two character sequences are equal.
pub fn chars_eq(a: &[char], b: &[char]) -> (r: bool)
    ensures
        r == (a@ == b@),
{
    if a.len() != b.len() {
        return false;
    }
    let mut i: usize = 0;
    while i < a.len()
        invariant
            a@.len() == b@.len(),
            i <= a@.len(),
            forall|j: int| 0 <= j < i ==> a@[j] == b@[j],
        decreases a.len() - i,
    {
        if a[i] != b[i] {
            return false;
        }
        i = i + 1;
    }
    assert(a@ =~= b@);
    true
}

/// Whether `pat` occurs in `s` starting at index `i`.
pub fn matches_at(s: &[char], pat: &[char], i: usize) -> (r: bool)
    ensures
        r == occurs_at(s@, pat@, i as int),
{
    if i > s.len() || pat.len() > s.len() - i {
        return false;
    }
    let mut k: usize = 0;
    while k < pat.len()
        invariant
            i + pat@.len() <= s@.len(),
            s@.len() <= usize::MAX,
            k <= pat@.len(),
            forall|j: int| 0 <= j < k ==> s@[i + j] == pat@[j],
        decreases pat.len() - k,
    {
        if s[i + k] != pat[k] {
            assert(s@.subrange(i as int, i + pat@.len())[k as int] != pat@[k as int]);
            return false;
        }
        k = k + 1;
    }
    assert(s@.subrange(i as int, i + pat@.len()) =~= pat@);
    true
}

/// Whether `pat` occurs in `s`.
pub fn contains(s: &[char], pat: &[char]) -> (r: bool)
    ensures
        r == contains_seq(s@, pat@),
{
    if pat.len() > s.len() {
        return false;
    }
    let last = s.len() - pat.len();
    let mut i: usize = 0;
    while i < last
        invariant
            last == s@.len() - pat@.len(),
            i <= last,
            forall|j: int| 0 <= j < i ==> !occurs_at(s@, pat@, j),
        decreases last - i,
    {
        if matches_at(s, pat, i) {
            return true;
        }
        i = i + 1;
    }
    if matches_at(s, pat, last) {
        return true;
    }
    assert forall|j: int| !occurs_at(s@, pat@, j) by {
        if 0 <= j && j + pat@.len() <= s@.len() {
            assert(j <= last);
        }
    }
    false
}

/// Whether `s` begins with `pat`.
pub fn starts_with(s: &[char], pat: &[char]) -> (r: bool)
    ensures
        r == starts_with_seq(s@, pat@),
{
    matches_at(s, pat, 0)
}

/// The characters with ASCII letters turned to lower case.
pub fn to_lower(s: &[char]) -> (r: Vec<char>)
    ensures
        r@ == lower_seq(s@),
{
    let mut r: Vec<char> = Vec::new();
    let mut i: usize = 0;
    while i < s.len()
        invariant
            i <= s@.len(),
            r@ == lower_seq(s@.take(i as int)),
        decreases s.len() - i,
    {
        let c = s[i];
        let l = if 'A' <= c && c <= 'Z' {
            char_shift(c, true)
        } else {
            c
        };
        r.push(l);
        i = i + 1;
        assert(r@ =~= lower_seq(s@.take(i as int)));
    }
    assert(s@.take(s@.len() as int) =~= s@);
    r
}

/// The characters with ASCII letters turned to upper case.
pub fn to_upper(s: &[char]) -> (r: Vec<char>)
    ensures
        r@ == upper_seq(s@),
{
    let mut r: Vec<char> = Vec::new();
    let mut i: usize = 0;
    while i < s.len()
        invariant
            i <= s@.len(),
            r@ == upper_seq(s@.take(i as int)),
        decreases s.len() - i,
    {
        let c = s[i];
        let u = if 'a' <= c && c <= 'z' {
            char_shift(c, false)
        } else {
            c
        };
        r.push(u);
        i = i + 1;
        assert(r@ =~= upper_seq(s@.take(i as int)));
    }
    assert(s@.take(s@.len() as int) =~= s@);
    r
}

/// Moves an ASCII letter between the two cases.
fn char_shift(c: char, down: bool) -> (r: char)
    requires
        down ==> 'A' <= c && c <= 'Z',
        !down ==> 'a' <= c && c <= 'z',
    ensures
        down ==> r == ascii_lower(c),
        !down ==> r == ascii_upper(c),
{
    let n: u32 = c as u32;
    let m: u32 = if down {
        n + 32
    } else {
        n - 32
    };
    let r = char_from_ascii(m);
    r
}

/// The character of an ASCII code point.
fn char_from_ascii(m: u32) -> (r: char)
    requires
        m < 128,
    ensures
        r == m as char,
{
    let b: u8 = m as u8;
    b as char
}

} // verus!
