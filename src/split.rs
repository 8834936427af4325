//! Depth-aware splitting of a span into its top-level elements, and of an
//! object element into key and value.
use vstd::prelude::*;
use crate::text::{
    is_blank, lemma_trim_len, lemma_trim_strippable_prefix, lemma_trim_strippable_suffix, strips,
    trim, trimmed, Strip,
};

verus! {

/// Where a left-to-right scan stands after some prefix of a span.
pub struct ScanState {
    /// Open brackets, counted while no brace is open.
    pub bracket: nat,
    /// Open braces, counted while no bracket is open.
    pub brace: nat,
    /// Inside a double-quoted run.
    pub quoted: bool,
    /// Inside a double-quoted run, right after a backslash.
    pub escaped: bool,
}

pub open spec fn initial_state() -> ScanState {
    ScanState { bracket: 0, brace: 0, quoted: false, escaped: false }
}

/// The scan state after reading `c` in state `st`.
pub open spec fn step(st: ScanState, c: char) -> ScanState {
    if st.quoted {
        if st.escaped {
            ScanState { escaped: false, ..st }
        } else if c == '\\' {
            ScanState { escaped: true, ..st }
        } else if c == '"' {
            ScanState { quoted: false, ..st }
        } else {
            st
        }
    } else if c == '"' {
        ScanState { quoted: true, ..st }
    } else if c == '{' && st.bracket == 0 {
        ScanState { brace: st.brace + 1, ..st }
    } else if c == '[' && st.brace == 0 {
        ScanState { bracket: st.bracket + 1, ..st }
    } else if c == ']' && st.bracket > 0 {
        ScanState { bracket: (st.bracket - 1) as nat, ..st }
    } else if c == '}' && st.brace > 0 {
        ScanState { brace: (st.brace - 1) as nat, ..st }
    } else {
        st
    }
}

/// The scan state after the first `n` characters of `s`.
pub open spec fn state_after(s: Seq<char>, n: int) -> ScanState
    decreases n,
{
    if n <= 0 {
        initial_state()
    } else {
        step(state_after(s, n - 1), s[n - 1])
    }
}

/// The characters that separate elements: the comma, and in arrays the semicolon.
pub open spec fn is_separator(c: char, semicolon: bool) -> bool {
    c == ',' || (semicolon && c == ';')
}

/// Whether `c`, read in state `st`, ends an element: a separator outside any
/// bracket, brace or quoted run.
pub open spec fn splits_at(st: ScanState, c: char, semicolon: bool) -> bool {
    !st.quoted && st.bracket == 0 && st.brace == 0 && is_separator(c, semicolon)
}

/// The characters trimmed from each element.
pub open spec fn element_strip(semicolon: bool) -> Strip {
    if semicolon {
        Strip::Element
    } else {
        Strip::Comma
    }
}

/// The rest of a split of `s` from position `i`, where `done` holds the
/// elements found so far and the current element starts at `start`.
pub open spec fn split_from(
    s: Seq<char>,
    i: int,
    done: Seq<Seq<char>>,
    start: int,
    semicolon: bool,
) -> Seq<Seq<char>>
    decreases s.len() - i,
{
    if i >= s.len() {
        done.push(trim(s.subrange(start, s.len() as int), element_strip(semicolon)))
    } else if splits_at(state_after(s, i), s[i], semicolon) {
        split_from(
            s,
            i + 1,
            done.push(trim(s.subrange(start, i), element_strip(semicolon))),
            i,
            semicolon,
        )
    } else {
        split_from(s, i + 1, done, start, semicolon)
    }
}

/// The top-level elements of `s`, each trimmed; a trailing separator leaves
/// an empty last element.
pub open spec fn split(s: Seq<char>, semicolon: bool) -> Seq<Seq<char>> {
    split_from(s, 0, Seq::empty(), 0, semicolon)
}

proof fn lemma_split_from_lengths(
    s: Seq<char>,
    i: int,
    done: Seq<Seq<char>>,
    start: int,
    semicolon: bool,
)
    requires
        0 <= start <= i <= s.len(),
        forall|j: int| 0 <= j < done.len() ==> #[trigger] done[j].len() <= s.len(),
    ensures
        split_from(s, i, done, start, semicolon).len() >= 1,
        forall|j: int|
            0 <= j < split_from(s, i, done, start, semicolon).len() ==> #[trigger] split_from(
                s,
                i,
                done,
                start,
                semicolon,
            )[j].len() <= s.len(),
    decreases s.len() - i,
{
    let k = element_strip(semicolon);
    if i >= s.len() {
        lemma_trim_len(s.subrange(start, s.len() as int), k);
    } else if splits_at(state_after(s, i), s[i], semicolon) {
        lemma_trim_len(s.subrange(start, i), k);
        let d2 = done.push(trim(s.subrange(start, i), k));
        assert forall|j: int| 0 <= j < d2.len() implies #[trigger] d2[j].len() <= s.len() by {
            if j < done.len() {
                assert(d2[j] == done[j]);
            }
        }
        lemma_split_from_lengths(s, i + 1, d2, i, semicolon);
    } else {
        lemma_split_from_lengths(s, i + 1, done, start, semicolon);
    }
}

/// A split yields at least one element, and no element longer than the span.
pub proof fn lemma_split_lengths(s: Seq<char>, semicolon: bool)
    ensures
        split(s, semicolon).len() >= 1,
        forall|j: int|
            0 <= j < split(s, semicolon).len() ==> #[trigger] split(s, semicolon)[j].len()
                <= s.len(),
{
    lemma_split_from_lengths(s, 0, Seq::empty(), 0, semicolon);
}

/// The views of a vector of character vectors.
pub open spec fn views(v: Seq<Vec<char>>) -> Seq<Seq<char>> {
    v.map_values(|e: Vec<char>| e@)
}

/// Splits `s` into its top-level elements.
pub fn split_elements(s: &Vec<char>, semicolon: bool) -> (r: Vec<Vec<char>>)
    ensures
        views(r@) == split(s@, semicolon),
{
    let ghost k = element_strip(semicolon);
    let strip = if semicolon {
        Strip::Element
    } else {
        Strip::Comma
    };
    let mut all_elements: Vec<Vec<char>> = Vec::new();
    let mut start: usize = 0;
    let mut bracket: usize = 0;
    let mut brace: usize = 0;
    let mut quoted = false;
    let mut escaped = false;
    let mut i: usize = 0;
    assert(views(all_elements@) =~= Seq::<Seq<char>>::empty());
    while i < s.len()
        invariant
            strip == k,
            k == element_strip(semicolon),
            start <= i <= s@.len(),
            bracket <= i,
            brace <= i,
            state_after(s@, i as int) == (ScanState {
                bracket: bracket as nat,
                brace: brace as nat,
                quoted,
                escaped,
            }),
            split_from(s@, i as int, views(all_elements@), start as int, semicolon) == split(
                s@,
                semicolon,
            ),
        decreases s@.len() - i,
    {
        let ch = s[i];
        if !quoted && bracket == 0 && brace == 0 && (ch == ',' || (semicolon && ch == ';')) {
            let element = trimmed(s, start, i, strip);
            let ghost before = all_elements@;
            all_elements.push(element);
            assert(views(all_elements@) =~= views(before).push(element@));
            start = i;
        }
        if quoted {
            if escaped {
                escaped = false;
            } else if ch == '\\' {
                escaped = true;
            } else if ch == '"' {
                quoted = false;
            }
        } else if ch == '"' {
            quoted = true;
        } else if ch == '{' && bracket == 0 {
            brace = brace + 1;
        } else if ch == '[' && brace == 0 {
            bracket = bracket + 1;
        } else if ch == ']' && bracket > 0 {
            bracket = bracket - 1;
        } else if ch == '}' && brace > 0 {
            brace = brace - 1;
        }
        i = i + 1;
    }
    let element = trimmed(s, start, s.len(), strip);
    let ghost before = all_elements@;
    all_elements.push(element);
    assert(views(all_elements@) =~= views(before).push(element@));
    all_elements
}

/// Splits the content of an array: commas and semicolons separate elements.
pub fn split_array_elements(string: &Vec<char>) -> (r: Vec<Vec<char>>)
    ensures
        views(r@) == split(string@, true),
{
    split_elements(string, true)
}

/// Splits the content of an object: commas separate its key-value pairs.
pub fn split_object_elements(object_str: &Vec<char>) -> (r: Vec<Vec<char>>)
    ensures
        views(r@) == split(object_str@, false),
{
    split_elements(object_str, false)
}

/// The first colon of `s` at or after position `i` that is not inside a
/// double-quoted run.
pub open spec fn colon_from(s: Seq<char>, i: int) -> Option<int>
    decreases s.len() - i,
{
    if i < 0 || i >= s.len() {
        None
    } else if s[i] == ':' && !state_after(s, i).quoted {
        Some(i)
    } else {
        colon_from(s, i + 1)
    }
}

/// The position of the colon that parts an object element into key and value.
pub open spec fn key_colon(s: Seq<char>) -> Option<int> {
    colon_from(s, 0)
}

pub proof fn lemma_colon_from_in_range(s: Seq<char>, i: int)
    requires
        0 <= i,
    ensures
        colon_from(s, i) matches Some(k) ==> i <= k < s.len() && s[k] == ':',
    decreases s.len() - i,
{
    if 0 <= i < s.len() && !(s[i] == ':' && !state_after(s, i).quoted) {
        lemma_colon_from_in_range(s, i + 1);
    }
}

/// Finds the colon that parts an object element into key and value.
pub fn find_key_colon(s: &Vec<char>) -> (r: Option<usize>)
    ensures
        r matches Some(k) ==> key_colon(s@) == Some(k as int),
        r is None ==> key_colon(s@) is None,
{
    let mut quoted = false;
    let mut escaped = false;
    let mut i: usize = 0;
    while i < s.len()
        invariant
            i <= s@.len(),
            state_after(s@, i as int).quoted == quoted,
            state_after(s@, i as int).escaped == escaped,
            colon_from(s@, i as int) == key_colon(s@),
        decreases s@.len() - i,
    {
        let ch = s[i];
        if ch == ':' && !quoted {
            return Some(i);
        }
        if quoted {
            if escaped {
                escaped = false;
            } else if ch == '\\' {
                escaped = true;
            } else if ch == '"' {
                quoted = false;
            }
        } else if ch == '"' {
            quoted = true;
        }
        i = i + 1;
    }
    None
}


/// The scan state after reading `s` from state `st`.
pub open spec fn run(st: ScanState, s: Seq<char>) -> ScanState
    decreases s.len(),
{
    if s.len() == 0 {
        st
    } else {
        step(run(st, s.drop_last()), s.last())
    }
}

pub proof fn lemma_state_after_run(s: Seq<char>, n: int)
    requires
        0 <= n <= s.len(),
    ensures
        state_after(s, n) == run(initial_state(), s.take(n)),
    decreases n,
{
    if n > 0 {
        lemma_state_after_run(s, n - 1);
        assert(s.take(n).drop_last() =~= s.take(n - 1));
    } else {
        assert(s.take(0).len() == 0);
    }
}

pub proof fn lemma_run_concat(st: ScanState, a: Seq<char>, b: Seq<char>)
    ensures
        run(st, a + b) == run(run(st, a), b),
    decreases b.len(),
{
    if b.len() == 0 {
        assert(a + b =~= a);
    } else {
        lemma_run_concat(st, a, b.drop_last());
        assert((a + b).drop_last() =~= a + b.drop_last());
        assert((a + b).last() == b.last());
    }
}

/// No element of a split of `s` ends at a position in `i..j`.
pub open spec fn no_split_between(s: Seq<char>, i: int, j: int, semicolon: bool) -> bool {
    forall|p: int| i <= p < j ==> !splits_at(#[trigger] state_after(s, p), s[p], semicolon)
}

pub proof fn lemma_split_from_skip(
    s: Seq<char>,
    i: int,
    j: int,
    done: Seq<Seq<char>>,
    start: int,
    semicolon: bool,
)
    requires
        0 <= i <= j <= s.len(),
        no_split_between(s, i, j, semicolon),
    ensures
        split_from(s, i, done, start, semicolon) == split_from(s, j, done, start, semicolon),
    decreases j - i,
{
    if i < j {
        assert(!splits_at(state_after(s, i), s[i], semicolon));
        lemma_split_from_skip(s, i + 1, j, done, start, semicolon);
    }
}

pub proof fn lemma_split_from_done(
    s: Seq<char>,
    i: int,
    done: Seq<Seq<char>>,
    start: int,
    semicolon: bool,
)
    ensures
        split_from(s, i, done, start, semicolon) == done + split_from(
            s,
            i,
            Seq::empty(),
            start,
            semicolon,
        ),
    decreases s.len() - i,
{
    let k = element_strip(semicolon);
    if i >= s.len() {
        assert(done.push(trim(s.subrange(start, s.len() as int), k)) =~= done + Seq::<
            Seq<char>,
        >::empty().push(trim(s.subrange(start, s.len() as int), k)));
    } else if splits_at(state_after(s, i), s[i], semicolon) {
        let e = trim(s.subrange(start, i), k);
        lemma_split_from_done(s, i + 1, done.push(e), i, semicolon);
        lemma_split_from_done(s, i + 1, Seq::empty().push(e), i, semicolon);
        assert(done.push(e) + split_from(s, i + 1, Seq::empty(), i, semicolon) =~= done + (
        Seq::empty().push(e) + split_from(s, i + 1, Seq::empty(), i, semicolon)));
    } else {
        lemma_split_from_done(s, i + 1, done, start, semicolon);
        lemma_split_from_done(s, i + 1, Seq::empty(), start, semicolon);
    }
}

pub proof fn lemma_state_after_prefix(s: Seq<char>, t: Seq<char>, n: int)
    requires
        0 <= n <= s.len(),
        n <= t.len(),
        s.take(n) == t.take(n),
    ensures
        state_after(s, n) == state_after(t, n),
{
    lemma_state_after_run(s, n);
    lemma_state_after_run(t, n);
}

proof fn lemma_split_from_shift(
    x: Seq<char>,
    b: Seq<char>,
    o: int,
    j: int,
    done: Seq<Seq<char>>,
    sx: int,
    sb: int,
    semicolon: bool,
)
    requires
        0 <= o,
        x.len() == o + b.len(),
        x.subrange(o, x.len() as int) == b,
        run(initial_state(), x.take(o)) == initial_state(),
        0 <= j <= b.len(),
        (sx == o + sb && 0 <= sb <= j) || (sb == 0 && 0 <= sx <= o && forall|q: int|
            sx <= q < o ==> strips(element_strip(semicolon), #[trigger] x[q])),
    ensures
        split_from(x, o + j, done, sx, semicolon) == split_from(b, j, done, sb, semicolon),
    decreases b.len() - j,
{
    let k = element_strip(semicolon);
    if j < b.len() {
        lemma_state_after_run(x, o + j);
        lemma_state_after_run(b, j);
        assert(x.take(o + j) =~= x.take(o) + b.take(j));
        lemma_run_concat(initial_state(), x.take(o), b.take(j));
        assert(x[o + j] == b[j]);
    }
    if j == b.len() || splits_at(state_after(b, j), b[j], semicolon) {
        if sx == o + sb && 0 <= sb <= j {
            assert(x.subrange(sx, o + j) =~= b.subrange(sb, j));
        } else {
            let p = x.subrange(sx, o);
            assert(x.subrange(sx, o + j) =~= p + b.subrange(0, j));
            assert forall|i: int| 0 <= i < p.len() implies strips(k, #[trigger] p[i]) by {
                assert(p[i] == x[sx + i]);
            }
            lemma_trim_strippable_prefix(p, b.subrange(0, j), k);
        }
    }
    if j < b.len() {
        if splits_at(state_after(b, j), b[j], semicolon) {
            let e = trim(b.subrange(sb, j), k);
            lemma_split_from_shift(x, b, o, j + 1, done.push(e), o + j, j, semicolon);
        } else {
            lemma_split_from_shift(x, b, o, j + 1, done, sx, sb, semicolon);
        }
    } else {
        assert(x.len() == o + j);
    }
}

/// An element without a top-level separator, followed by a comma: the split
/// of the whole is that element, trimmed, followed by the split of the rest.
pub proof fn lemma_split_join(a: Seq<char>, b: Seq<char>, semicolon: bool)
    requires
        no_split_between(a, 0, a.len() as int, semicolon),
        run(initial_state(), a) == initial_state(),
    ensures
        split(a + seq![','] + b, semicolon) == seq![trim(a, element_strip(semicolon))] + split(
            b,
            semicolon,
        ),
{
    let x = a + seq![','] + b;
    let n = a.len() as int;
    let o = n + 1;
    let k = element_strip(semicolon);
    assert forall|p: int| 0 <= p < n implies !splits_at(
        #[trigger] state_after(x, p),
        x[p],
        semicolon,
    ) by {
        assert(x.take(p) =~= a.take(p));
        lemma_state_after_prefix(x, a, p);
        assert(x[p] == a[p]);
    }
    lemma_split_from_skip(x, 0, n, Seq::empty(), 0, semicolon);
    lemma_state_after_run(x, n);
    assert(x.take(n) =~= a);
    assert(x[n] == ',');
    assert(x.subrange(0, n) =~= a);
    let d = Seq::<Seq<char>>::empty().push(trim(a, k));
    assert(state_after(x, n) == initial_state());
    assert(splits_at(state_after(x, n), x[n], semicolon));
    assert(split_from(x, n, Seq::empty(), 0, semicolon) == split_from(x, o, d, n, semicolon));
    assert(x.take(o) =~= a + seq![',']);
    lemma_run_concat(initial_state(), a, seq![',']);
    assert(seq![','].drop_last() =~= Seq::<char>::empty());
    assert(run(initial_state(), Seq::<char>::empty()) == initial_state());
    assert(seq![','].last() == ',');
    assert(run(initial_state(), seq![',']) == initial_state());
    assert(x.subrange(o, x.len() as int) =~= b);
    lemma_split_from_shift(x, b, o, 0, d, n, 0, semicolon);
    lemma_split_from_done(b, 0, d, 0, semicolon);
    assert(d =~= seq![trim(a, k)]);
}

proof fn lemma_split_from_suffix(
    c: Seq<char>,
    a: Seq<char>,
    i: int,
    done: Seq<Seq<char>>,
    start: int,
    semicolon: bool,
)
    requires
        forall|q: int| 0 <= q < a.len() ==> is_blank(#[trigger] a[q]),
        0 <= start <= i <= c.len(),
    ensures
        split_from(c + a, i, done, start, semicolon) == split_from(c, i, done, start, semicolon),
    decreases c.len() - i,
{
    let x = c + a;
    let k = element_strip(semicolon);
    if i < c.len() {
        assert(x.take(i) =~= c.take(i));
        lemma_state_after_prefix(x, c, i);
        assert(x[i] == c[i]);
        if splits_at(state_after(c, i), c[i], semicolon) {
            assert(x.subrange(start, i) =~= c.subrange(start, i));
            lemma_split_from_suffix(c, a, i + 1, done.push(trim(c.subrange(start, i), k)), i, semicolon);
        } else {
            lemma_split_from_suffix(c, a, i + 1, done, start, semicolon);
        }
    } else {
        assert forall|p: int| c.len() <= p < x.len() implies !splits_at(
            #[trigger] state_after(x, p),
            x[p],
            semicolon,
        ) by {
            assert(x[p] == a[p - c.len()]);
            assert(is_blank(a[p - c.len()]));
        }
        lemma_split_from_skip(x, i, x.len() as int, done, start, semicolon);
        assert(x.subrange(start, x.len() as int) =~= c.subrange(start, c.len() as int) + a);
        assert forall|q: int| 0 <= q < a.len() implies strips(k, #[trigger] a[q]) by {
            assert(is_blank(a[q]));
        }
        lemma_trim_strippable_suffix(c.subrange(start, c.len() as int), a, k);
    }
}

/// Blanks around a span change nothing in its split.
pub proof fn lemma_split_strip_blanks(b: Seq<char>, c: Seq<char>, a: Seq<char>, semicolon: bool)
    requires
        forall|q: int| 0 <= q < b.len() ==> is_blank(#[trigger] b[q]),
        forall|q: int| 0 <= q < a.len() ==> is_blank(#[trigger] a[q]),
    ensures
        split(b + c + a, semicolon) == split(c, semicolon),
{
    let x = b + c + a;
    let y = b + c;
    let n = b.len() as int;
    let k = element_strip(semicolon);
    lemma_split_from_suffix(y, a, 0, Seq::empty(), 0, semicolon);
    assert forall|p: int| 0 <= p < n implies !splits_at(
        #[trigger] state_after(y, p),
        y[p],
        semicolon,
    ) by {
        assert(y[p] == b[p]);
        assert(is_blank(b[p]));
    }
    lemma_split_from_skip(y, 0, n, Seq::empty(), 0, semicolon);
    assert(y.take(n) =~= b);
    lemma_run_blanks(b, n);
    assert(b.take(n) =~= b);
    assert(y.subrange(n, y.len() as int) =~= c);
    assert forall|q: int| 0 <= q < n implies strips(k, #[trigger] y[q]) by {
        assert(y[q] == b[q]);
        assert(is_blank(b[q]));
    }
    lemma_split_from_shift(y, c, n, 0, Seq::empty(), 0, 0, semicolon);
}

proof fn lemma_run_blanks(b: Seq<char>, p: int)
    requires
        forall|q: int| 0 <= q < b.len() ==> is_blank(#[trigger] b[q]),
        0 <= p <= b.len(),
    ensures
        run(initial_state(), b.take(p)) == initial_state(),
    decreases p,
{
    if p > 0 {
        lemma_run_blanks(b, p - 1);
        assert(b.take(p).drop_last() =~= b.take(p - 1));
        assert(b.take(p).last() == b[p - 1]);
        assert(is_blank(b[p - 1]));
    } else {
        assert(b.take(0).len() == 0);
    }
}

/// A span without a top-level separator splits into itself alone, trimmed.
pub proof fn lemma_split_single(a: Seq<char>, semicolon: bool)
    requires
        no_split_between(a, 0, a.len() as int, semicolon),
    ensures
        split(a, semicolon) == seq![trim(a, element_strip(semicolon))],
{
    lemma_split_from_skip(a, 0, a.len() as int, Seq::empty(), 0, semicolon);
    assert(a.subrange(0, a.len() as int) =~= a);
    assert(Seq::<Seq<char>>::empty().push(trim(a, element_strip(semicolon))) =~= seq![
        trim(a, element_strip(semicolon)),
    ]);
}

} // verus!
