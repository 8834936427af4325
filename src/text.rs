//! Character sets, trimming and conversions between `str` and character vectors.
use vstd::prelude::*;

verus! {

/// The sets of characters that the repair engine trims from the ends of a span.
#[derive(Clone, Copy, PartialEq, Eq, Structural)]
pub enum Strip {
    /// Space, tab and newline.
    Blank,
    /// `Blank` and the comma.
    Comma,
    /// `Comma` and the semicolon: what surrounds an array element.
    Element,
    /// `Element` and the colon: what surrounds the content of a whole value.
    Wrapper,
    /// The double quote alone.
    Quote,
}

pub open spec fn is_blank(c: char) -> bool {
    c == ' ' || c == '\n' || c == '\t'
}

/// Whether `c` belongs to the set `k`.
pub open spec fn strips(k: Strip, c: char) -> bool {
    match k {
        Strip::Blank => is_blank(c),
        Strip::Comma => is_blank(c) || c == ',',
        Strip::Element => is_blank(c) || c == ',' || c == ';',
        Strip::Wrapper => is_blank(c) || c == ',' || c == ';' || c == ':',
        Strip::Quote => c == '"',
    }
}

/// `s` without its leading characters of the set `k`.
pub open spec fn trim_start(s: Seq<char>, k: Strip) -> Seq<char>
    decreases s.len(),
{
    if s.len() > 0 && strips(k, s[0]) {
        trim_start(s.drop_first(), k)
    } else {
        s
    }
}

/// `s` without its trailing characters of the set `k`.
pub open spec fn trim_end(s: Seq<char>, k: Strip) -> Seq<char>
    decreases s.len(),
{
    if s.len() > 0 && strips(k, s.last()) {
        trim_end(s.drop_last(), k)
    } else {
        s
    }
}

/// `s` without the characters of the set `k` at either end.
pub open spec fn trim(s: Seq<char>, k: Strip) -> Seq<char> {
    trim_end(trim_start(s, k), k)
}

/// `s` between a leading and a trailing double quote.
pub open spec fn quoted(s: Seq<char>) -> Seq<char> {
    seq!['"'] + s + seq!['"']
}

/// Whether `s` starts with `open` and ends with `close`.
pub open spec fn delimited(s: Seq<char>, open: char, close: char) -> bool {
    s.len() > 0 && s[0] == open && s.last() == close
}

pub proof fn lemma_trim_start_is_suffix(s: Seq<char>, k: Strip)
    ensures
        exists|a: int| 0 <= a <= s.len() && trim_start(s, k) == s.subrange(a, s.len() as int),
    decreases s.len(),
{
    if s.len() > 0 && strips(k, s[0]) {
        lemma_trim_start_is_suffix(s.drop_first(), k);
        let a = choose|a: int|
            0 <= a <= s.drop_first().len() && trim_start(s.drop_first(), k) == s.drop_first().subrange(
                a,
                s.drop_first().len() as int,
            );
        assert(s.drop_first().subrange(a, s.drop_first().len() as int) =~= s.subrange(
            a + 1,
            s.len() as int,
        ));
    } else {
        assert(s =~= s.subrange(0, s.len() as int));
    }
}

pub proof fn lemma_trim_end_is_prefix(s: Seq<char>, k: Strip)
    ensures
        exists|b: int| 0 <= b <= s.len() && trim_end(s, k) == s.subrange(0, b),
    decreases s.len(),
{
    if s.len() > 0 && strips(k, s.last()) {
        lemma_trim_end_is_prefix(s.drop_last(), k);
        let b = choose|b: int|
            0 <= b <= s.drop_last().len() && trim_end(s.drop_last(), k) == s.drop_last().subrange(0, b);
        assert(s.drop_last().subrange(0, b) =~= s.subrange(0, b));
    } else {
        assert(s =~= s.subrange(0, s.len() as int));
    }
}

/// Trimming keeps a contiguous part of the span, so it never makes it longer.
pub proof fn lemma_trim_len(s: Seq<char>, k: Strip)
    ensures
        trim(s, k).len() <= s.len(),
{
    lemma_trim_start_is_suffix(s, k);
    lemma_trim_end_is_prefix(trim_start(s, k), k);
}

/// Leading characters of the set are trimmed away whatever follows them.
pub proof fn lemma_trim_strippable_prefix(p: Seq<char>, y: Seq<char>, k: Strip)
    requires
        forall|i: int| 0 <= i < p.len() ==> strips(k, #[trigger] p[i]),
    ensures
        trim(p + y, k) == trim(y, k),
    decreases p.len(),
{
    if p.len() > 0 {
        assert((p + y)[0] == p[0]);
        assert((p + y).drop_first() =~= p.drop_first() + y);
        assert forall|i: int| 0 <= i < p.drop_first().len() implies strips(
            k,
            #[trigger] p.drop_first()[i],
        ) by {
            assert(p.drop_first()[i] == p[i + 1]);
        }
        lemma_trim_strippable_prefix(p.drop_first(), y, k);
    } else {
        assert(p + y =~= y);
    }
}

proof fn lemma_trim_start_concat(y: Seq<char>, a: Seq<char>, k: Strip)
    ensures
        trim_start(y + a, k) == if trim_start(y, k).len() > 0 {
            trim_start(y, k) + a
        } else {
            trim_start(a, k)
        },
    decreases y.len(),
{
    if y.len() == 0 {
        assert(y + a =~= a);
    } else {
        assert((y + a)[0] == y[0]);
        if strips(k, y[0]) {
            assert((y + a).drop_first() =~= y.drop_first() + a);
            lemma_trim_start_concat(y.drop_first(), a, k);
        }
    }
}

proof fn lemma_trim_end_strippable_suffix(t: Seq<char>, a: Seq<char>, k: Strip)
    requires
        forall|i: int| 0 <= i < a.len() ==> strips(k, #[trigger] a[i]),
    ensures
        trim_end(t + a, k) == trim_end(t, k),
    decreases a.len(),
{
    if a.len() == 0 {
        assert(t + a =~= t);
    } else {
        assert((t + a).last() == a.last());
        assert((t + a).drop_last() =~= t + a.drop_last());
        assert forall|i: int| 0 <= i < a.drop_last().len() implies strips(
            k,
            #[trigger] a.drop_last()[i],
        ) by {
            assert(a.drop_last()[i] == a[i]);
        }
        lemma_trim_end_strippable_suffix(t, a.drop_last(), k);
    }
}

proof fn lemma_trim_start_all_strippable(a: Seq<char>, k: Strip)
    requires
        forall|i: int| 0 <= i < a.len() ==> strips(k, #[trigger] a[i]),
    ensures
        trim_start(a, k).len() == 0,
    decreases a.len(),
{
    if a.len() > 0 {
        assert forall|i: int| 0 <= i < a.drop_first().len() implies strips(
            k,
            #[trigger] a.drop_first()[i],
        ) by {
            assert(a.drop_first()[i] == a[i + 1]);
        }
        lemma_trim_start_all_strippable(a.drop_first(), k);
    }
}

/// Trailing characters of the set are trimmed away whatever precedes them.
pub proof fn lemma_trim_strippable_suffix(y: Seq<char>, a: Seq<char>, k: Strip)
    requires
        forall|i: int| 0 <= i < a.len() ==> strips(k, #[trigger] a[i]),
    ensures
        trim(y + a, k) == trim(y, k),
{
    lemma_trim_start_concat(y, a, k);
    if trim_start(y, k).len() > 0 {
        lemma_trim_end_strippable_suffix(trim_start(y, k), a, k);
    } else {
        lemma_trim_start_all_strippable(a, k);
        assert(trim_start(a, k) =~= trim_start(y, k));
    }
}

/// Bounds `a`, `b` with `s[a..b] == trim(s[lo..hi], k)`.
pub fn trim_bounds(s: &Vec<char>, lo: usize, hi: usize, k: Strip) -> (r: (usize, usize))
    requires
        lo <= hi <= s@.len(),
    ensures
        lo <= r.0 <= r.1 <= hi,
        s@.subrange(r.0 as int, r.1 as int) == trim(s@.subrange(lo as int, hi as int), k),
{
    let mut a: usize = lo;
    while a < hi && strips_exec(k, s[a])
        invariant
            lo <= a <= hi <= s@.len(),
            trim_start(s@.subrange(lo as int, hi as int), k) == trim_start(
                s@.subrange(a as int, hi as int),
                k,
            ),
        decreases hi - a,
    {
        assert(s@.subrange(a as int, hi as int).drop_first() =~= s@.subrange(
            a + 1,
            hi as int,
        ));
        a = a + 1;
    }
    assert(trim_start(s@.subrange(a as int, hi as int), k) == s@.subrange(a as int, hi as int));
    let mut b: usize = hi;
    while b > a && strips_exec(k, s[b - 1])
        invariant
            lo <= a <= b <= hi <= s@.len(),
            trim(s@.subrange(lo as int, hi as int), k) == trim_end(
                s@.subrange(a as int, b as int),
                k,
            ),
        decreases b - a,
    {
        assert(s@.subrange(a as int, b as int).drop_last() =~= s@.subrange(
            a as int,
            b - 1,
        ));
        b = b - 1;
    }
    (a, b)
}

pub fn strips_exec(k: Strip, c: char) -> (r: bool)
    ensures
        r == strips(k, c),
{
    let blank = c == ' ' || c == '\n' || c == '\t';
    match k {
        Strip::Blank => blank,
        Strip::Comma => blank || c == ',',
        Strip::Element => blank || c == ',' || c == ';',
        Strip::Wrapper => blank || c == ',' || c == ';' || c == ':',
        Strip::Quote => c == '"',
    }
}

/// A copy of `s[lo..hi]`.
pub fn copy_range(s: &Vec<char>, lo: usize, hi: usize) -> (r: Vec<char>)
    requires
        lo <= hi <= s@.len(),
    ensures
        r@ == s@.subrange(lo as int, hi as int),
{
    let mut r: Vec<char> = Vec::new();
    let mut i: usize = lo;
    while i < hi
        invariant
            lo <= i <= hi <= s@.len(),
            r@ == s@.subrange(lo as int, i as int),
        decreases hi - i,
    {
        r.push(s[i]);
        i = i + 1;
    }
    r
}

/// `trim(s[lo..hi], k)`, as a new vector.
pub fn trimmed(s: &Vec<char>, lo: usize, hi: usize, k: Strip) -> (r: Vec<char>)
    requires
        lo <= hi <= s@.len(),
    ensures
        r@ == trim(s@.subrange(lo as int, hi as int), k),
{
    let (a, b) = trim_bounds(s, lo, hi, k);
    copy_range(s, a, b)
}

/// Appends the characters of `t` to `r`.
pub fn append_chars(r: &mut Vec<char>, t: &Vec<char>)
    ensures
        final(r)@ == old(r)@ + t@,
{
    let mut i: usize = 0;
    while i < t.len()
        invariant
            i <= t@.len(),
            r@ == old(r)@ + t@.subrange(0, i as int),
        decreases t@.len() - i,
    {
        r.push(t[i]);
        i = i + 1;
    }
    assert(t@.subrange(0, t@.len() as int) =~= t@);
}

/// The characters of a string slice, in order.
pub fn chars_of(s: &str) -> (r: Vec<char>)
    ensures
        r@ == s@,
{
    let mut r: Vec<char> = Vec::new();
    for c in it: s.chars()
        invariant
            r@ == it.seq().take(it.index() as int),
            it.seq() == s@,
    {
        r.push(c);
    }
    r
}

/// Relies on `String::from_iter` over `char`s: the string holds exactly those characters, in order.
#[verifier::external_body]
pub(crate) fn string_of(v: Vec<char>) -> (r: String)
    ensures
        r@ == v@,
{
    String::from_iter(v)
}

} // verus!
