//! Rendering of scalar tokens, in the type-preserving and in the stringified mode.
use vstd::prelude::*;
use crate::text::{append_chars, delimited, quoted, trim, trimmed, Strip};

verus! {

/// How scalar tokens are rendered.
#[derive(Clone, Copy, Debug, PartialEq, Eq, Structural)]
pub enum Mode {
    /// Booleans and numbers stay bare; other tokens become strings.
    Typed,
    /// Every non-empty token becomes a string.
    Stringified,
}

pub open spec fn is_digit(c: char) -> bool {
    '0' <= c && c <= '9'
}

pub open spec fn all_digits(s: Seq<char>) -> bool {
    forall|i: int| 0 <= i < s.len() ==> is_digit(#[trigger] s[i])
}

/// Whether `c` is `l`, where a lowercase ASCII letter `l` also matches its capital.
pub open spec fn same_letter(c: char, l: char) -> bool {
    c == l || ('a' <= l && l <= 'z' && (c as u32) + 32 == (l as u32))
}

/// Whether `s` spells the lowercase word `w`, in any ASCII case.
pub open spec fn word_is(s: Seq<char>, w: Seq<char>) -> bool {
    s.len() == w.len() && forall|i: int| 0 <= i < s.len() ==> same_letter(#[trigger] s[i], w[i])
}

pub open spec fn without_sign(s: Seq<char>) -> Seq<char> {
    if s.len() > 0 && (s[0] == '+' || s[0] == '-') {
        s.drop_first()
    } else {
        s
    }
}

/// Digits with at most one decimal point, and at least one digit.
pub open spec fn is_mantissa(m: Seq<char>) -> bool {
    (m.len() >= 1 && all_digits(m)) || (m.len() >= 2 && exists|k: int|
        0 <= k < m.len() && m[k] == '.' && all_digits(m.take(k)) && all_digits(
            #[trigger] m.skip(k + 1),
        ))
}

/// An optional sign, then at least one digit.
pub open spec fn is_exponent(x: Seq<char>) -> bool {
    without_sign(x).len() >= 1 && all_digits(without_sign(x))
}

/// A mantissa with an optional exponent introduced by `e` or `E`.
pub open spec fn is_decimal(u: Seq<char>) -> bool {
    is_mantissa(u) || exists|k: int|
        0 <= k < u.len() && same_letter(u[k], 'e') && is_mantissa(#[trigger] u.take(k))
            && is_exponent(u.skip(k + 1))
}

/// The texts that `f64::from_str` accepts after lowercasing: an optional sign,
/// then `inf`, `infinity`, `nan` or a decimal number. Every text that `i64` or
/// `u64` accepts is among them.
pub open spec fn is_float_text(t: Seq<char>) -> bool {
    let u = without_sign(t);
    word_is(u, seq!['i', 'n', 'f']) || word_is(u, seq!['i', 'n', 'f', 'i', 'n', 'i', 't', 'y'])
        || word_is(u, seq!['n', 'a', 'n']) || is_decimal(u)
}

/// `true` or `false`, in any ASCII case.
pub open spec fn is_bool_text(t: Seq<char>) -> bool {
    word_is(t, seq!['t', 'r', 'u', 'e']) || word_is(t, seq!['f', 'a', 'l', 's', 'e'])
}

/// Tokens that the type-preserving mode leaves as they are.
pub open spec fn stays_bare(t: Seq<char>) -> bool {
    is_bool_text(t) || is_float_text(t) || delimited(t, '[', ']') || delimited(t, '{', '}')
        || t.len() == 0
}

/// A token as a string: its surrounding quotes, if any, replaced by one pair.
pub open spec fn as_string(t: Seq<char>) -> Seq<char> {
    quoted(trim(t, Strip::Quote))
}

/// The type-preserving rendering of a trimmed token.
pub open spec fn typed_leaf(t: Seq<char>) -> Seq<char> {
    if stays_bare(t) {
        t
    } else if word_is(t, seq!['n', 'o', 'n', 'e']) {
        seq!['N', 'o', 'n', 'e']
    } else {
        as_string(t)
    }
}

/// The stringified rendering of a trimmed token.
pub open spec fn stringified_leaf(t: Seq<char>) -> Seq<char> {
    if t.len() == 0 {
        t
    } else {
        as_string(t)
    }
}

pub open spec fn leaf(t: Seq<char>, mode: Mode) -> Seq<char> {
    match mode {
        Mode::Typed => typed_leaf(t),
        Mode::Stringified => stringified_leaf(t),
    }
}

/// Every character of a mantissa is a digit or the decimal point.
pub proof fn lemma_mantissa_chars(m: Seq<char>)
    requires
        is_mantissa(m),
    ensures
        forall|i: int| 0 <= i < m.len() ==> is_digit(#[trigger] m[i]) || m[i] == '.',
{
    if !(m.len() >= 1 && all_digits(m)) {
        let k = choose|k: int|
            0 <= k < m.len() && m[k] == '.' && all_digits(m.take(k)) && all_digits(
                #[trigger] m.skip(k + 1),
            );
        assert forall|i: int| 0 <= i < m.len() implies is_digit(#[trigger] m[i]) || m[i] == '.' by {
            if i < k {
                assert(m.take(k)[i] == m[i]);
            } else if i > k {
                assert(m.skip(k + 1)[i - k - 1] == m[i]);
            }
        }
    }
}

fn same_letter_exec(c: char, l: char) -> (r: bool)
    ensures
        r == same_letter(c, l),
{
    c == l || ('a' <= l && l <= 'z' && (c as u32) + 32 == (l as u32))
}

/// Whether `s[lo..hi]` spells the lowercase word `w`, in any ASCII case.
fn word_at(s: &Vec<char>, lo: usize, hi: usize, w: &[char]) -> (r: bool)
    requires
        lo <= hi <= s@.len(),
    ensures
        r == word_is(s@.subrange(lo as int, hi as int), w@),
{
    if hi - lo != w.len() {
        return false;
    }
    let mut i: usize = 0;
    while i < w.len()
        invariant
            hi - lo == w@.len(),
            lo <= hi <= s@.len(),
            i <= w@.len(),
            forall|j: int| 0 <= j < i ==> same_letter(s@[lo + j], w@[j]),
        decreases w@.len() - i,
    {
        if !same_letter_exec(s[lo + i], w[i]) {
            assert(s@.subrange(lo as int, hi as int)[i as int] == s@[lo + i]);
            return false;
        }
        i = i + 1;
    }
    assert forall|j: int| 0 <= j < hi - lo implies same_letter(
        #[trigger] s@.subrange(lo as int, hi as int)[j],
        w@[j],
    ) by {
        assert(s@.subrange(lo as int, hi as int)[j] == s@[lo + j]);
    }
    true
}

fn digits_between(s: &Vec<char>, lo: usize, hi: usize) -> (r: bool)
    requires
        lo <= hi <= s@.len(),
    ensures
        r == all_digits(s@.subrange(lo as int, hi as int)),
{
    let mut i: usize = lo;
    while i < hi
        invariant
            lo <= i <= hi <= s@.len(),
            forall|j: int| lo <= j < i ==> is_digit(s@[j]),
        decreases hi - i,
    {
        if !('0' <= s[i] && s[i] <= '9') {
            assert(s@.subrange(lo as int, hi as int)[i - lo] == s@[i as int]);
            return false;
        }
        i = i + 1;
    }
    assert forall|j: int| 0 <= j < hi - lo implies is_digit(
        #[trigger] s@.subrange(lo as int, hi as int)[j],
    ) by {
        assert(s@.subrange(lo as int, hi as int)[j] == s@[lo + j]);
    }
    true
}

/// The first position in `lo..hi` whose character is `l` (ignoring ASCII case
/// for a lowercase letter), or `hi`.
fn find_letter(s: &Vec<char>, lo: usize, hi: usize, l: char) -> (r: usize)
    requires
        lo <= hi <= s@.len(),
    ensures
        lo <= r <= hi,
        forall|j: int| lo <= j < r ==> !same_letter(s@[j], l),
        r < hi ==> same_letter(s@[r as int], l),
{
    let mut i: usize = lo;
    while i < hi
        invariant
            lo <= i <= hi <= s@.len(),
            forall|j: int| lo <= j < i ==> !same_letter(s@[j], l),
        decreases hi - i,
    {
        if same_letter_exec(s[i], l) {
            return i;
        }
        i = i + 1;
    }
    hi
}

fn mantissa_between(s: &Vec<char>, lo: usize, hi: usize) -> (r: bool)
    requires
        lo <= hi <= s@.len(),
    ensures
        r == is_mantissa(s@.subrange(lo as int, hi as int)),
{
    let ghost m = s@.subrange(lo as int, hi as int);
    let k = find_letter(s, lo, hi, '.');
    if k == hi {
        assert forall|k2: int| 0 <= k2 < m.len() implies m[k2] != '.' by {
            assert(m[k2] == s@[lo + k2]);
        }
        hi > lo && digits_between(s, lo, hi)
    } else {
        let ghost kk = k - lo;
        assert(m[kk] == '.');
        assert(m.take(kk) =~= s@.subrange(lo as int, k as int));
        assert(m.skip(kk + 1) =~= s@.subrange(k + 1, hi as int));
        let r = hi - lo >= 2 && digits_between(s, lo, k) && digits_between(s, k + 1, hi);
        proof {
            if !r && is_mantissa(m) {
                assert(!is_digit(m[kk]));
                let k2 = choose|k2: int|
                    0 <= k2 < m.len() && m[k2] == '.' && all_digits(m.take(k2)) && all_digits(
                        #[trigger] m.skip(k2 + 1),
                    );
                if k2 < kk {
                    assert(m[k2] == s@[lo + k2]);
                } else if k2 > kk {
                    assert(m.take(k2)[kk] == m[kk]);
                }
            }
        }
        r
    }
}

fn exponent_between(s: &Vec<char>, lo: usize, hi: usize) -> (r: bool)
    requires
        lo <= hi <= s@.len(),
    ensures
        r == is_exponent(s@.subrange(lo as int, hi as int)),
{
    let ghost x = s@.subrange(lo as int, hi as int);
    if lo < hi && (s[lo] == '+' || s[lo] == '-') {
        assert(without_sign(x) =~= s@.subrange(lo + 1, hi as int));
        hi > lo + 1 && digits_between(s, lo + 1, hi)
    } else {
        hi > lo && digits_between(s, lo, hi)
    }
}

fn decimal_between(s: &Vec<char>, lo: usize, hi: usize) -> (r: bool)
    requires
        lo <= hi <= s@.len(),
    ensures
        r == is_decimal(s@.subrange(lo as int, hi as int)),
{
    let ghost u = s@.subrange(lo as int, hi as int);
    let k = find_letter(s, lo, hi, 'e');
    if k == hi {
        assert forall|k2: int| 0 <= k2 < u.len() implies !same_letter(u[k2], 'e') by {
            assert(u[k2] == s@[lo + k2]);
        }
        mantissa_between(s, lo, hi)
    } else {
        let ghost kk = k - lo;
        assert(u[kk] == s@[k as int]);
        assert(u.take(kk) =~= s@.subrange(lo as int, k as int));
        assert(u.skip(kk + 1) =~= s@.subrange(k + 1, hi as int));
        proof {
            if is_mantissa(u) {
                lemma_mantissa_chars(u);
                assert(is_digit(u[kk]) || u[kk] == '.');
            }
        }
        let r = mantissa_between(s, lo, k) && exponent_between(s, k + 1, hi);
        proof {
            if !r && is_decimal(u) {
                let k2 = choose|k2: int|
                    0 <= k2 < u.len() && same_letter(u[k2], 'e') && is_mantissa(
                        #[trigger] u.take(k2),
                    ) && is_exponent(u.skip(k2 + 1));
                if k2 < kk {
                    assert(u[k2] == s@[lo + k2]);
                } else if k2 > kk {
                    lemma_mantissa_chars(u.take(k2));
                    assert(u.take(k2)[kk] == u[kk]);
                }
            }
        }
        r
    }
}

fn float_between(s: &Vec<char>, lo: usize, hi: usize) -> (r: bool)
    requires
        lo <= hi <= s@.len(),
    ensures
        r == is_float_text(s@.subrange(lo as int, hi as int)),
{
    let ghost t = s@.subrange(lo as int, hi as int);
    let a = if lo < hi && (s[lo] == '+' || s[lo] == '-') {
        lo + 1
    } else {
        lo
    };
    assert(without_sign(t) =~= s@.subrange(a as int, hi as int));
    let inf = ['i', 'n', 'f'];
    let infinity = ['i', 'n', 'f', 'i', 'n', 'i', 't', 'y'];
    let nan = ['n', 'a', 'n'];
    assert(inf@ =~= seq!['i', 'n', 'f']);
    assert(infinity@ =~= seq!['i', 'n', 'f', 'i', 'n', 'i', 't', 'y']);
    assert(nan@ =~= seq!['n', 'a', 'n']);
    word_at(s, a, hi, &inf) || word_at(s, a, hi, &infinity) || word_at(s, a, hi, &nan)
        || decimal_between(s, a, hi)
}

fn stays_bare_exec(t: &Vec<char>) -> (r: bool)
    ensures
        r == stays_bare(t@),
{
    let n = t.len();
    assert(t@.subrange(0, n as int) =~= t@);
    let tr = ['t', 'r', 'u', 'e'];
    let fa = ['f', 'a', 'l', 's', 'e'];
    assert(tr@ =~= seq!['t', 'r', 'u', 'e']);
    assert(fa@ =~= seq!['f', 'a', 'l', 's', 'e']);
    word_at(t, 0, n, &tr) || word_at(t, 0, n, &fa) || float_between(t, 0, n) || (n > 0 && t[0]
        == '[' && t[n - 1] == ']') || (n > 0 && t[0] == '{' && t[n - 1] == '}') || n == 0
}

/// `trim(t, Quote)` between a pair of double quotes.
fn as_string_exec(t: &Vec<char>) -> (r: Vec<char>)
    ensures
        r@ == as_string(t@),
{
    let n = t.len();
    assert(t@.subrange(0, n as int) =~= t@);
    let inner = trimmed(t, 0, n, Strip::Quote);
    let mut r: Vec<char> = Vec::new();
    r.push('"');
    append_chars(&mut r, &inner);
    r.push('"');
    assert(r@ =~= quoted(inner@));
    r
}

/// Renders a trimmed token in the type-preserving mode.
pub fn format_value(value_str: &Vec<char>) -> (r: Vec<char>)
    ensures
        r@ == typed_leaf(value_str@),
{
    if stays_bare_exec(value_str) {
        return value_str.clone();
    }
    let n = value_str.len();
    assert(value_str@.subrange(0, n as int) =~= value_str@);
    let none = ['n', 'o', 'n', 'e'];
    assert(none@ =~= seq!['n', 'o', 'n', 'e']);
    if word_at(value_str, 0, n, &none) {
        let r = vec!['N', 'o', 'n', 'e'];
        assert(r@ =~= seq!['N', 'o', 'n', 'e']);
        r
    } else {
        as_string_exec(value_str)
    }
}

/// Renders a trimmed token in the stringified mode.
pub fn format_stringified_value(value_str: &Vec<char>) -> (r: Vec<char>)
    ensures
        r@ == stringified_leaf(value_str@),
{
    if value_str.len() == 0 {
        Vec::new()
    } else {
        as_string_exec(value_str)
    }
}

/// Renders a trimmed token in the given mode.
pub fn format_leaf(value_str: &Vec<char>, mode: Mode) -> (r: Vec<char>)
    ensures
        r@ == leaf(value_str@, mode),
{
    match mode {
        Mode::Typed => format_value(value_str),
        Mode::Stringified => format_stringified_value(value_str),
    }
}

} // verus!
