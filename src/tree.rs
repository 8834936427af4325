//! A model of JSON documents: their text as written, with blanks between
//! tokens and escapes in strings, their canonical text, and how the scan of
//! the splitter passes over both.
use vstd::prelude::*;
use crate::coerce::{
    is_decimal, is_digit, is_float_text, is_mantissa, leaf, lemma_mantissa_chars, same_letter,
    stays_bare, word_is, Mode,
};
use crate::normalize::{braced, bracketed};
use crate::split::{
    colon_from, initial_state, key_colon, lemma_run_concat, lemma_split_join, lemma_split_single,
    lemma_state_after_run, no_split_between, run, split, splits_at, state_after, step, ScanState,
};
use crate::text::{
    is_blank, lemma_trim_strippable_prefix, lemma_trim_strippable_suffix, quoted, strips, trim,
    trim_end, trim_start, Strip,
};

verus! {

/// The blanks written before and after a token.
pub struct Pad {
    pub before: Seq<char>,
    pub after: Seq<char>,
}

/// A JSON document.
pub enum Json {
    /// A string, by the characters between its quotes, escapes included.
    Str(Seq<char>),
    /// A bare token: a number, a boolean or another word.
    Bare(Seq<char>),
    Arr(Items),
    Obj(Members),
}

/// The elements of an array, each with the blanks around it; an empty array
/// holds only blanks.
pub enum Items {
    Nil(Seq<char>),
    Cons(Pad, Box<Json>, Box<Items>),
}

/// The members of an object: the blanks around the key, the key by the
/// characters between its quotes, the blanks around the value, and the value.
pub enum Members {
    Nil(Seq<char>),
    Cons(Pad, Seq<char>, Pad, Box<Json>, Box<Members>),
}

pub open spec fn blanks(s: Seq<char>) -> bool {
    forall|i: int| 0 <= i < s.len() ==> is_blank(#[trigger] s[i])
}

pub open spec fn pad_ok(p: Pad) -> bool {
    blanks(p.before) && blanks(p.after)
}

/// The scan state right after the opening quote of a string at top level.
pub open spec fn in_string() -> ScanState {
    ScanState { bracket: 0, brace: 0, quoted: true, escaped: false }
}

/// What may stand between the quotes of a string: read after the opening
/// quote, it never ends the quoted run and leaves no escape pending; and it
/// ends in no quote, which there could only be an escaped one.
pub open spec fn string_body(x: Seq<char>) -> bool {
    &&& forall|p: int| 0 <= p <= x.len() ==> (#[trigger] run(in_string(), x.take(p))).quoted
    &&& !run(in_string(), x).escaped
    &&& (x.len() > 0 ==> x.last() != '"')
}

/// Characters that may make up a bare token: no blank, separator, colon,
/// quote, backslash, bracket or brace.
pub open spec fn plain(c: char) -> bool {
    !is_blank(c) && c != ',' && c != ';' && c != ':' && c != '"' && c != '\\' && c != '['
        && c != ']' && c != '{' && c != '}'
}

pub open spec fn bare_token(t: Seq<char>) -> bool {
    t.len() >= 1 && forall|i: int| 0 <= i < t.len() ==> plain(#[trigger] t[i])
}

pub open spec fn wf(j: Json) -> bool
    decreases j,
{
    match j {
        Json::Str(x) => string_body(x),
        Json::Bare(t) => bare_token(t),
        Json::Arr(items) => wf_items(items),
        Json::Obj(members) => wf_members(members),
    }
}

pub open spec fn wf_items(items: Items) -> bool
    decreases items,
{
    match items {
        Items::Nil(w) => blanks(w),
        Items::Cons(p, h, rest) => pad_ok(p) && wf(*h) && wf_items(*rest),
    }
}

pub open spec fn wf_members(members: Members) -> bool
    decreases members,
{
    match members {
        Members::Nil(w) => blanks(w),
        Members::Cons(kp, k, vp, v, rest) => pad_ok(kp) && string_body(k) && pad_ok(vp) && wf(*v)
            && wf_members(*rest),
    }
}

pub open spec fn padded(p: Pad, s: Seq<char>) -> Seq<char> {
    p.before + s + p.after
}

/// A member as written, from its parts and the text of its value.
pub open spec fn member_text(kp: Pad, k: Seq<char>, vp: Pad, v: Seq<char>) -> Seq<char> {
    padded(kp, quoted(k)) + seq![':'] + padded(vp, v)
}

/// The text of a document as written.
pub open spec fn text(j: Json) -> Seq<char>
    decreases j,
{
    match j {
        Json::Str(x) => quoted(x),
        Json::Bare(t) => t,
        Json::Arr(items) => bracketed(text_items(items)),
        Json::Obj(members) => braced(text_members(members)),
    }
}

pub open spec fn text_items(items: Items) -> Seq<char>
    decreases items,
{
    match items {
        Items::Nil(w) => w,
        Items::Cons(p, h, rest) => match *rest {
            Items::Nil(_) => padded(p, text(*h)),
            _ => padded(p, text(*h)) + seq![','] + text_items(*rest),
        },
    }
}

pub open spec fn text_members(members: Members) -> Seq<char>
    decreases members,
{
    match members {
        Members::Nil(w) => w,
        Members::Cons(kp, k, vp, v, rest) => match *rest {
            Members::Nil(_) => member_text(kp, k, vp, text(*v)),
            _ => member_text(kp, k, vp, text(*v)) + seq![','] + text_members(*rest),
        },
    }
}

/// A member in canonical form.
pub open spec fn canonical_member(k: Seq<char>, v: Seq<char>) -> Seq<char> {
    quoted(k) + seq![':', ' '] + v
}

/// The canonical text of a document: no blanks but one space after each
/// comma and colon.
pub open spec fn render(j: Json) -> Seq<char>
    decreases j,
{
    match j {
        Json::Str(x) => quoted(x),
        Json::Bare(t) => t,
        Json::Arr(items) => bracketed(render_items(items)),
        Json::Obj(members) => braced(render_members(members)),
    }
}

pub open spec fn render_items(items: Items) -> Seq<char>
    decreases items,
{
    match items {
        Items::Nil(_) => Seq::empty(),
        Items::Cons(_, h, rest) => match *rest {
            Items::Nil(_) => render(*h),
            _ => render(*h) + seq![',', ' '] + render_items(*rest),
        },
    }
}

pub open spec fn render_members(members: Members) -> Seq<char>
    decreases members,
{
    match members {
        Members::Nil(_) => Seq::empty(),
        Members::Cons(_, k, _, v, rest) => match *rest {
            Members::Nil(_) => canonical_member(k, render(*v)),
            _ => canonical_member(k, render(*v)) + seq![',', ' '] + render_members(*rest),
        },
    }
}

/// A bare token as rendered in the given mode, as a document.
pub open spec fn coerced_token(t: Seq<char>, mode: Mode) -> Json {
    match mode {
        Mode::Typed => if stays_bare(t) {
            Json::Bare(t)
        } else if word_is(t, seq!['n', 'o', 'n', 'e']) {
            Json::Bare(seq!['N', 'o', 'n', 'e'])
        } else {
            Json::Str(t)
        },
        Mode::Stringified => Json::Str(t),
    }
}

/// The document with each bare token replaced as the mode renders it.
pub open spec fn coerced(j: Json, mode: Mode) -> Json
    decreases j,
{
    match j {
        Json::Str(x) => Json::Str(x),
        Json::Bare(t) => coerced_token(t, mode),
        Json::Arr(items) => Json::Arr(coerced_items(items, mode)),
        Json::Obj(members) => Json::Obj(coerced_members(members, mode)),
    }
}

pub open spec fn coerced_items(items: Items, mode: Mode) -> Items
    decreases items,
{
    match items {
        Items::Nil(w) => Items::Nil(w),
        Items::Cons(p, h, rest) => Items::Cons(
            p,
            Box::new(coerced(*h, mode)),
            Box::new(coerced_items(*rest, mode)),
        ),
    }
}

pub open spec fn coerced_members(members: Members, mode: Mode) -> Members
    decreases members,
{
    match members {
        Members::Nil(w) => Members::Nil(w),
        Members::Cons(kp, k, vp, v, rest) => Members::Cons(
            kp,
            k,
            vp,
            Box::new(coerced(*v, mode)),
            Box::new(coerced_members(*rest, mode)),
        ),
    }
}

/// A scan state in which no separator ends an element.
pub open spec fn protected(st: ScanState) -> bool {
    st.quoted || st.bracket > 0 || st.brace > 0
}

/// Inside one kind of nesting, outside quotes.
pub open spec fn nested(st: ScanState) -> bool {
    !st.quoted && !st.escaped && ((st.bracket >= 1 && st.brace == 0) || (st.brace >= 1
        && st.bracket == 0))
}

/// Every prefix of `s`, read from `st`, leaves the scan protected.
pub open spec fn guarded(st: ScanState, s: Seq<char>) -> bool {
    forall|p: int| 0 <= p <= s.len() ==> protected(#[trigger] run(st, s.take(p)))
}

/// No separator of `s`, read from the initial state, ends an element.
pub open spec fn top_clean(s: Seq<char>) -> bool {
    forall|p: int|
        0 <= p < s.len() ==> !splits_at(#[trigger] run(initial_state(), s.take(p)), s[p], true)
}

/// Read from the initial state, `s` comes back to it and ends no element.
pub open spec fn top_level(s: Seq<char>) -> bool {
    top_clean(s) && run(initial_state(), s) == initial_state()
}

/// Read from `st`, `s` comes back to it and stays protected.
pub open spec fn inside(st: ScanState, s: Seq<char>) -> bool {
    guarded(st, s) && run(st, s) == st
}

pub proof fn lemma_run_one(st: ScanState, c: char)
    ensures
        run(st, seq![c]) == step(st, c),
{
    assert(seq![c].drop_last() =~= Seq::<char>::empty());
    assert(seq![c].last() == c);
    assert(run(st, Seq::<char>::empty()) == st);
    assert(run(st, seq![c]) == step(run(st, seq![c].drop_last()), seq![c].last()));
}

proof fn lemma_guarded_concat(st: ScanState, a: Seq<char>, b: Seq<char>)
    requires
        guarded(st, a),
        guarded(run(st, a), b),
    ensures
        guarded(st, a + b),
{
    assert forall|p: int| 0 <= p <= (a + b).len() implies protected(
        #[trigger] run(st, (a + b).take(p)),
    ) by {
        if p <= a.len() {
            assert((a + b).take(p) =~= a.take(p));
        } else {
            assert((a + b).take(p) =~= a + b.take(p - a.len()));
            lemma_run_concat(st, a, b.take(p - a.len()));
            assert(protected(run(run(st, a), b.take(p - a.len()))));
        }
    }
}

proof fn lemma_inside_concat(st: ScanState, a: Seq<char>, b: Seq<char>)
    requires
        inside(st, a),
        inside(st, b),
    ensures
        inside(st, a + b),
{
    lemma_guarded_concat(st, a, b);
    lemma_run_concat(st, a, b);
}

proof fn lemma_top_level_concat(a: Seq<char>, b: Seq<char>)
    requires
        top_level(a),
        top_level(b),
    ensures
        top_level(a + b),
{
    lemma_run_concat(initial_state(), a, b);
    assert forall|p: int| 0 <= p < (a + b).len() implies !splits_at(
        #[trigger] run(initial_state(), (a + b).take(p)),
        (a + b)[p],
        true,
    ) by {
        if p < a.len() {
            assert((a + b).take(p) =~= a.take(p));
            assert((a + b)[p] == a[p]);
        } else {
            assert((a + b).take(p) =~= a + b.take(p - a.len()));
            lemma_run_concat(initial_state(), a, b.take(p - a.len()));
            assert((a + b)[p] == b[p - a.len()]);
        }
    }
}

/// Characters that leave an unquoted scan state as it is.
pub open spec fn inert(c: char) -> bool {
    c != '"' && c != '[' && c != ']' && c != '{' && c != '}'
}

proof fn lemma_run_inert(st: ScanState, s: Seq<char>, p: int)
    requires
        !st.quoted,
        forall|i: int| 0 <= i < s.len() ==> inert(#[trigger] s[i]),
        0 <= p <= s.len(),
    ensures
        run(st, s.take(p)) == st,
    decreases p,
{
    if p > 0 {
        lemma_run_inert(st, s, p - 1);
        assert(s.take(p).drop_last() =~= s.take(p - 1));
        assert(s.take(p).last() == s[p - 1]);
    }
}

/// Inert characters keep a protected state as it is.
proof fn lemma_inert_inside(st: ScanState, s: Seq<char>)
    requires
        !st.quoted,
        protected(st),
        forall|i: int| 0 <= i < s.len() ==> inert(#[trigger] s[i]),
    ensures
        inside(st, s),
{
    assert forall|p: int| 0 <= p <= s.len() implies protected(#[trigger] run(st, s.take(p))) by {
        lemma_run_inert(st, s, p);
    }
    lemma_run_inert(st, s, s.len() as int);
    assert(s.take(s.len() as int) =~= s);
}

/// Inert characters other than separators pass at top level.
proof fn lemma_inert_top(s: Seq<char>)
    requires
        forall|i: int| 0 <= i < s.len() ==> inert(#[trigger] s[i]) && s[i] != ',' && s[i] != ';',
    ensures
        top_level(s),
{
    assert forall|p: int| 0 <= p < s.len() implies !splits_at(
        #[trigger] run(initial_state(), s.take(p)),
        s[p],
        true,
    ) by {
        lemma_run_inert(initial_state(), s, p);
    }
    lemma_run_inert(initial_state(), s, s.len() as int);
    assert(s.take(s.len() as int) =~= s);
}

proof fn lemma_blanks_inside(st: ScanState, w: Seq<char>)
    requires
        blanks(w),
        nested(st),
    ensures
        inside(st, w),
{
    assert forall|i: int| 0 <= i < w.len() implies inert(#[trigger] w[i]) by {
        assert(is_blank(w[i]));
    }
    lemma_inert_inside(st, w);
}

proof fn lemma_blanks_top(w: Seq<char>)
    requires
        blanks(w),
    ensures
        top_level(w),
{
    assert forall|i: int| 0 <= i < w.len() implies inert(#[trigger] w[i]) && w[i] != ',' && w[i]
        != ';' by {
        assert(is_blank(w[i]));
    }
    lemma_inert_top(w);
}

proof fn lemma_char_inside(st: ScanState, c: char)
    requires
        nested(st),
        c == ',' || c == ':',
    ensures
        inside(st, seq![c]),
{
    let s = seq![c];
    assert(s[0] == c);
    lemma_inert_inside(st, s);
}

proof fn lemma_colon_top()
    ensures
        top_level(seq![':']),
{
    let s = seq![':'];
    assert(s[0] == ':');
    lemma_inert_top(s);
}

/// Reading `open`, then `inner`, then `close` from a protected state.
proof fn lemma_wrapped_nested(st: ScanState, open: char, inner: Seq<char>, close: char, st1: ScanState)
    requires
        protected(st),
        step(st, open) == st1,
        protected(st1),
        inside(st1, inner),
        step(st1, close) == st,
    ensures
        inside(st, seq![open] + inner + seq![close]),
{
    lemma_run_one(st, open);
    assert(guarded(st, seq![open])) by {
        assert forall|p: int| 0 <= p <= 1 implies protected(#[trigger] run(st, seq![open].take(p))) by {
            if p == 0 {
                assert(seq![open].take(0) =~= Seq::<char>::empty());
            } else {
                assert(seq![open].take(1) =~= seq![open]);
            }
        }
    }
    lemma_guarded_concat(st, seq![open], inner);
    lemma_run_concat(st, seq![open], inner);
    lemma_run_one(st1, close);
    assert(guarded(st1, seq![close])) by {
        assert forall|p: int| 0 <= p <= 1 implies protected(#[trigger] run(st1, seq![close].take(p))) by {
            if p == 0 {
                assert(seq![close].take(0) =~= Seq::<char>::empty());
            } else {
                assert(seq![close].take(1) =~= seq![close]);
            }
        }
    }
    lemma_guarded_concat(st, seq![open] + inner, seq![close]);
    lemma_run_concat(st, seq![open] + inner, seq![close]);
}

/// Reading `open`, then `inner`, then `close` from the initial state.
proof fn lemma_wrapped_top(open: char, inner: Seq<char>, close: char, st1: ScanState)
    requires
        step(initial_state(), open) == st1,
        inside(st1, inner),
        step(st1, close) == initial_state(),
        open != ',' && open != ';',
    ensures
        top_level(seq![open] + inner + seq![close]),
{
    let r = seq![open] + inner + seq![close];
    lemma_run_one(initial_state(), open);
    assert forall|p: int| 0 <= p < r.len() implies !splits_at(
        #[trigger] run(initial_state(), r.take(p)),
        r[p],
        true,
    ) by {
        if p == 0 {
            assert(r.take(0) =~= Seq::<char>::empty());
        } else {
            assert(r.take(p) =~= seq![open] + inner.take(p - 1));
            lemma_run_concat(initial_state(), seq![open], inner.take(p - 1));
            assert(protected(run(st1, inner.take(p - 1))));
        }
    }
    lemma_run_concat(initial_state(), seq![open], inner);
    lemma_run_concat(initial_state(), seq![open] + inner, seq![close]);
    lemma_run_one(st1, close);
}

/// Inside a quoted run the depths stay as they are, and the rest of the
/// state follows the string body as from the opening quote at top level.
proof fn lemma_run_quoted(st: ScanState, x: Seq<char>, p: int)
    requires
        st.quoted,
        !st.escaped,
        string_body(x),
        0 <= p <= x.len(),
    ensures
        run(st, x.take(p)) == (ScanState {
            bracket: st.bracket,
            brace: st.brace,
            quoted: true,
            escaped: run(in_string(), x.take(p)).escaped,
        }),
    decreases p,
{
    if p > 0 {
        lemma_run_quoted(st, x, p - 1);
        assert(x.take(p).drop_last() =~= x.take(p - 1));
        assert(x.take(p).last() == x[p - 1]);
        assert(run(in_string(), x.take(p)).quoted);
        assert(run(in_string(), x.take(p - 1)).quoted);
    } else {
        assert(x.take(0).len() == 0);
    }
}

proof fn lemma_string_inside(st: ScanState, x: Seq<char>)
    requires
        st.quoted,
        !st.escaped,
        string_body(x),
    ensures
        inside(st, x),
{
    assert forall|p: int| 0 <= p <= x.len() implies protected(#[trigger] run(st, x.take(p))) by {
        lemma_run_quoted(st, x, p);
    }
    lemma_run_quoted(st, x, x.len() as int);
    assert(x.take(x.len() as int) =~= x);
}

proof fn lemma_string_nested(x: Seq<char>, st: ScanState)
    requires
        string_body(x),
        nested(st),
    ensures
        inside(st, quoted(x)),
{
    let sq = ScanState { quoted: true, ..st };
    lemma_string_inside(sq, x);
    lemma_wrapped_nested(st, '"', x, '"', sq);
}

proof fn lemma_string_top(x: Seq<char>)
    requires
        string_body(x),
    ensures
        top_level(quoted(x)),
{
    lemma_string_inside(in_string(), x);
    lemma_wrapped_top('"', x, '"', in_string());
}

proof fn lemma_padded_inside(st: ScanState, p: Pad, s: Seq<char>)
    requires
        pad_ok(p),
        nested(st),
        inside(st, s),
    ensures
        inside(st, padded(p, s)),
{
    lemma_blanks_inside(st, p.before);
    lemma_blanks_inside(st, p.after);
    lemma_inside_concat(st, p.before, s);
    lemma_inside_concat(st, p.before + s, p.after);
}

proof fn lemma_padded_top(p: Pad, s: Seq<char>)
    requires
        pad_ok(p),
        top_level(s),
    ensures
        top_level(padded(p, s)),
{
    lemma_blanks_top(p.before);
    lemma_blanks_top(p.after);
    lemma_top_level_concat(p.before, s);
    lemma_top_level_concat(p.before + s, p.after);
}

/// Read from inside a bracket or brace run, the text of a document comes
/// back to where it started and never leaves the nesting.
pub proof fn lemma_nested_text(j: Json, st: ScanState)
    requires
        wf(j),
        nested(st),
    ensures
        inside(st, text(j)),
    decreases j, 1nat,
{
    match j {
        Json::Str(x) => {
            lemma_string_nested(x, st);
        },
        Json::Bare(t) => {
            assert forall|i: int| 0 <= i < t.len() implies inert(#[trigger] t[i]) by {
                assert(plain(t[i]));
            }
            lemma_inert_inside(st, t);
        },
        Json::Arr(items) => {
            let st1 = step(st, '[');
            lemma_nested_items(items, st1);
            lemma_wrapped_nested(st, '[', text_items(items), ']', st1);
        },
        Json::Obj(members) => {
            let st1 = step(st, '{');
            lemma_nested_members(members, st1);
            lemma_wrapped_nested(st, '{', text_members(members), '}', st1);
        },
    }
}

pub proof fn lemma_nested_items(items: Items, st: ScanState)
    requires
        wf_items(items),
        nested(st),
    ensures
        inside(st, text_items(items)),
    decreases items, 1nat,
{
    match items {
        Items::Nil(w) => {
            lemma_blanks_inside(st, w);
        },
        Items::Cons(p, h, rest) => {
            lemma_nested_text(*h, st);
            lemma_padded_inside(st, p, text(*h));
            match *rest {
                Items::Nil(_) => {},
                _ => {
                    lemma_nested_items(*rest, st);
                    lemma_char_inside(st, ',');
                    let a = padded(p, text(*h));
                    lemma_inside_concat(st, a, seq![',']);
                    lemma_inside_concat(st, a + seq![','], text_items(*rest));
                },
            }
        },
    }
}

proof fn lemma_nested_member(kp: Pad, k: Seq<char>, vp: Pad, v: Json, st: ScanState)
    requires
        pad_ok(kp),
        string_body(k),
        pad_ok(vp),
        wf(v),
        nested(st),
    ensures
        inside(st, member_text(kp, k, vp, text(v))),
    decreases v, 2nat,
{
    lemma_string_nested(k, st);
    lemma_padded_inside(st, kp, quoted(k));
    lemma_char_inside(st, ':');
    lemma_nested_text(v, st);
    lemma_padded_inside(st, vp, text(v));
    lemma_inside_concat(st, padded(kp, quoted(k)), seq![':']);
    lemma_inside_concat(st, padded(kp, quoted(k)) + seq![':'], padded(vp, text(v)));
}

pub proof fn lemma_nested_members(members: Members, st: ScanState)
    requires
        wf_members(members),
        nested(st),
    ensures
        inside(st, text_members(members)),
    decreases members, 1nat,
{
    match members {
        Members::Nil(w) => {
            lemma_blanks_inside(st, w);
        },
        Members::Cons(kp, k, vp, v, rest) => {
            lemma_nested_member(kp, k, vp, *v, st);
            match *rest {
                Members::Nil(_) => {},
                _ => {
                    lemma_nested_members(*rest, st);
                    lemma_char_inside(st, ',');
                    let a = member_text(kp, k, vp, text(*v));
                    lemma_inside_concat(st, a, seq![',']);
                    lemma_inside_concat(st, a + seq![','], text_members(*rest));
                },
            }
        },
    }
}

/// Read from the initial state, the text of a document comes back to it, and
/// no separator in it ends an element.
pub proof fn lemma_top_text(j: Json)
    requires
        wf(j),
    ensures
        top_level(text(j)),
{
    let init = initial_state();
    match j {
        Json::Str(x) => {
            lemma_string_top(x);
        },
        Json::Bare(t) => {
            assert forall|i: int| 0 <= i < t.len() implies inert(#[trigger] t[i]) && t[i] != ','
                && t[i] != ';' by {
                assert(plain(t[i]));
            }
            lemma_inert_top(t);
        },
        Json::Arr(items) => {
            let st1 = step(init, '[');
            lemma_nested_items(items, st1);
            lemma_wrapped_top('[', text_items(items), ']', st1);
        },
        Json::Obj(members) => {
            let st1 = step(init, '{');
            lemma_nested_members(members, st1);
            lemma_wrapped_top('{', text_members(members), '}', st1);
        },
    }
}

proof fn lemma_member_top(kp: Pad, k: Seq<char>, vp: Pad, v: Json)
    requires
        pad_ok(kp),
        string_body(k),
        pad_ok(vp),
        wf(v),
    ensures
        top_level(member_text(kp, k, vp, text(v))),
{
    lemma_string_top(k);
    lemma_padded_top(kp, quoted(k));
    lemma_colon_top();
    lemma_top_text(v);
    lemma_padded_top(vp, text(v));
    lemma_top_level_concat(padded(kp, quoted(k)), seq![':']);
    lemma_top_level_concat(padded(kp, quoted(k)) + seq![':'], padded(vp, text(v)));
}

/// Characters that no trimming but that of quotes removes.
pub open spec fn edge(c: char) -> bool {
    !is_blank(c) && c != ',' && c != ';' && c != ':'
}

/// A span whose first and last characters are edge characters.
pub open spec fn firm(s: Seq<char>) -> bool {
    s.len() >= 1 && edge(s[0]) && edge(s.last())
}

pub proof fn lemma_trim_firm(s: Seq<char>, k: Strip)
    requires
        firm(s),
        k != Strip::Quote,
    ensures
        trim(s, k) == s,
{
    assert(!strips(k, s[0]));
    assert(!strips(k, s.last()));
}

/// Trimming a firm span between blanks leaves the span.
pub proof fn lemma_trim_padded(b: Seq<char>, c: Seq<char>, a: Seq<char>, k: Strip)
    requires
        blanks(b),
        blanks(a),
        firm(c),
        k != Strip::Quote,
    ensures
        trim(b + c + a, k) == c,
{
    assert forall|i: int| 0 <= i < b.len() implies strips(k, #[trigger] b[i]) by {
        assert(is_blank(b[i]));
    }
    assert forall|i: int| 0 <= i < a.len() implies strips(k, #[trigger] a[i]) by {
        assert(is_blank(a[i]));
    }
    assert(b + c + a =~= b + (c + a));
    lemma_trim_strippable_prefix(b, c + a, k);
    lemma_trim_strippable_suffix(c, a, k);
    lemma_trim_firm(c, k);
}

pub proof fn lemma_text_firm(j: Json)
    requires
        wf(j),
    ensures
        firm(text(j)),
{
    match j {
        Json::Bare(t) => {
            assert(plain(t[0]));
            assert(plain(t[t.len() - 1]));
        },
        _ => {},
    }
}

pub proof fn lemma_top_no_split(a: Seq<char>, semicolon: bool)
    requires
        top_clean(a),
    ensures
        no_split_between(a, 0, a.len() as int, semicolon),
{
    assert forall|p: int| 0 <= p < a.len() implies !splits_at(
        #[trigger] state_after(a, p),
        a[p],
        semicolon,
    ) by {
        lemma_state_after_run(a, p);
        assert(!splits_at(run(initial_state(), a.take(p)), a[p], true));
    }
}

/// The blanks before the first element.
pub open spec fn items_lead(items: Items) -> Seq<char> {
    match items {
        Items::Nil(w) => w,
        Items::Cons(p, _, _) => p.before,
    }
}

/// The blanks after the last element.
pub open spec fn items_trail(items: Items) -> Seq<char>
    decreases items,
{
    match items {
        Items::Nil(_) => Seq::empty(),
        Items::Cons(p, _, rest) => match *rest {
            Items::Nil(_) => p.after,
            _ => items_trail(*rest),
        },
    }
}

/// The text of the elements between the first and the last blanks.
pub open spec fn items_core(items: Items) -> Seq<char>
    decreases items,
{
    match items {
        Items::Nil(_) => Seq::empty(),
        Items::Cons(p, h, rest) => match *rest {
            Items::Nil(_) => text(*h),
            _ => text(*h) + p.after + seq![','] + items_lead(*rest) + items_core(*rest),
        },
    }
}

/// The texts of the elements of an array, without their blanks.
pub open spec fn item_texts(items: Items) -> Seq<Seq<char>>
    decreases items,
{
    match items {
        Items::Nil(_) => Seq::empty(),
        Items::Cons(_, h, rest) => seq![text(*h)] + item_texts(*rest),
    }
}

pub proof fn lemma_items_shape(items: Items)
    requires
        wf_items(items),
        items is Cons,
    ensures
        text_items(items) == items_lead(items) + items_core(items) + items_trail(items),
        blanks(items_lead(items)),
        blanks(items_trail(items)),
        firm(items_core(items)),
    decreases items,
{
    match items {
        Items::Nil(_) => {},
        Items::Cons(p, h, rest) => {
            lemma_text_firm(*h);
            match *rest {
                Items::Nil(_) => {},
                Items::Cons(q, _, _) => {
                    lemma_items_shape(*rest);
                    let c = items_core(items);
                    assert(text_items(items) =~= items_lead(items) + c + items_trail(items));
                    assert(c[0] == text(*h)[0]);
                    assert(c.last() == items_core(*rest).last());
                },
            }
        },
    }
}

/// Splitting the text of array content gives back the texts of its elements.
pub proof fn lemma_split_items(items: Items)
    requires
        wf_items(items),
        items is Cons,
    ensures
        split(text_items(items), true) == item_texts(items),
    decreases items,
{
    match items {
        Items::Nil(_) => {},
        Items::Cons(p, h, rest) => {
            let a = padded(p, text(*h));
            lemma_top_text(*h);
            lemma_padded_top(p, text(*h));
            lemma_top_no_split(a, true);
            lemma_text_firm(*h);
            lemma_trim_padded(p.before, text(*h), p.after, Strip::Element);
            match *rest {
                Items::Nil(_) => {
                    lemma_split_single(a, true);
                    assert(seq![text(*h)] + item_texts(*rest) =~= seq![text(*h)]);
                },
                _ => {
                    lemma_split_items(*rest);
                    lemma_split_join(a, text_items(*rest), true);
                },
            }
        },
    }
}

/// A member without the blanks at its ends.
pub open spec fn member_core(kp: Pad, k: Seq<char>, vp: Pad, v: Seq<char>) -> Seq<char> {
    quoted(k) + kp.after + seq![':'] + vp.before + v
}

pub open spec fn members_lead(members: Members) -> Seq<char> {
    match members {
        Members::Nil(w) => w,
        Members::Cons(kp, _, _, _, _) => kp.before,
    }
}

pub open spec fn members_trail(members: Members) -> Seq<char>
    decreases members,
{
    match members {
        Members::Nil(_) => Seq::empty(),
        Members::Cons(_, _, vp, _, rest) => match *rest {
            Members::Nil(_) => vp.after,
            _ => members_trail(*rest),
        },
    }
}

pub open spec fn members_core(members: Members) -> Seq<char>
    decreases members,
{
    match members {
        Members::Nil(_) => Seq::empty(),
        Members::Cons(kp, k, vp, v, rest) => match *rest {
            Members::Nil(_) => member_core(kp, k, vp, text(*v)),
            _ => member_core(kp, k, vp, text(*v)) + vp.after + seq![','] + members_lead(*rest)
                + members_core(*rest),
        },
    }
}

/// The members of an object, each without the blanks at its ends.
pub open spec fn member_cores(members: Members) -> Seq<Seq<char>>
    decreases members,
{
    match members {
        Members::Nil(_) => Seq::empty(),
        Members::Cons(kp, k, vp, v, rest) => seq![member_core(kp, k, vp, text(*v))] + member_cores(
            *rest,
        ),
    }
}

proof fn lemma_member_core_firm(kp: Pad, k: Seq<char>, vp: Pad, v: Json)
    requires
        wf(v),
    ensures
        firm(member_core(kp, k, vp, text(v))),
        member_text(kp, k, vp, text(v)) == kp.before + member_core(kp, k, vp, text(v)) + vp.after,
{
    lemma_text_firm(v);
    let c = member_core(kp, k, vp, text(v));
    assert(c[0] == '"');
    assert(c.last() == text(v).last());
    assert(member_text(kp, k, vp, text(v)) =~= kp.before + c + vp.after);
}

pub proof fn lemma_members_shape(members: Members)
    requires
        wf_members(members),
        members is Cons,
    ensures
        text_members(members) == members_lead(members) + members_core(members) + members_trail(
            members,
        ),
        blanks(members_lead(members)),
        blanks(members_trail(members)),
        firm(members_core(members)),
        members_core(members)[0] == '"',
    decreases members,
{
    match members {
        Members::Nil(_) => {},
        Members::Cons(kp, k, vp, v, rest) => {
            lemma_member_core_firm(kp, k, vp, *v);
            let m = member_core(kp, k, vp, text(*v));
            assert(m[0] == '"');
            match *rest {
                Members::Nil(_) => {},
                Members::Cons(_, _, _, _, _) => {
                    lemma_members_shape(*rest);
                    let c = members_core(members);
                    assert(text_members(members) =~= members_lead(members) + c + members_trail(
                        members,
                    ));
                    assert(c[0] == m[0]);
                    assert(c.last() == members_core(*rest).last());
                },
            }
        },
    }
}

/// Splitting the text of object content gives back its members, each
/// without the blanks at its ends.
pub proof fn lemma_split_members(members: Members)
    requires
        wf_members(members),
        members is Cons,
    ensures
        split(text_members(members), false) == member_cores(members),
    decreases members,
{
    match members {
        Members::Nil(_) => {},
        Members::Cons(kp, k, vp, v, rest) => {
            let a = member_text(kp, k, vp, text(*v));
            lemma_member_top(kp, k, vp, *v);
            lemma_top_no_split(a, false);
            lemma_member_core_firm(kp, k, vp, *v);
            lemma_trim_padded(kp.before, member_core(kp, k, vp, text(*v)), vp.after, Strip::Comma);
            match *rest {
                Members::Nil(_) => {
                    lemma_split_single(a, false);
                    assert(seq![member_core(kp, k, vp, text(*v))] + member_cores(*rest) =~= seq![
                        member_core(kp, k, vp, text(*v)),
                    ]);
                },
                _ => {
                    lemma_split_members(*rest);
                    lemma_split_join(a, text_members(*rest), false);
                },
            }
        },
    }
}

proof fn lemma_colon_from_skip(s: Seq<char>, i: int, j: int)
    requires
        0 <= i <= j <= s.len(),
        forall|p: int| i <= p < j ==> !(s[p] == ':' && !(#[trigger] state_after(s, p)).quoted),
    ensures
        colon_from(s, i) == colon_from(s, j),
    decreases j - i,
{
    if i < j {
        assert(!(s[i] == ':' && !state_after(s, i).quoted));
        lemma_colon_from_skip(s, i + 1, j);
    }
}

/// In a member, the key ends at the first colon outside quotes.
pub proof fn lemma_member_colon(kp: Pad, k: Seq<char>, vp: Pad, v: Seq<char>)
    requires
        string_body(k),
        pad_ok(kp),
    ensures
        key_colon(member_core(kp, k, vp, v)) == Some(k.len() + 2 + kp.after.len() as int),
{
    let e = member_core(kp, k, vp, v);
    let n = k.len() as int;
    let m = n + 2 + kp.after.len();
    let init = initial_state();
    lemma_run_one(init, '"');
    assert forall|p: int| 0 <= p < m implies !(e[p] == ':' && !(#[trigger] state_after(
        e,
        p,
    )).quoted) by {
        if 1 <= p <= n {
            lemma_state_after_run(e, p);
            assert(e.take(p) =~= seq!['"'] + k.take(p - 1));
            lemma_run_concat(init, seq!['"'], k.take(p - 1));
            assert(run(in_string(), k.take(p - 1)).quoted);
        } else if p == 0 {
            assert(e[0] == '"');
        } else if p == n + 1 {
            assert(e[n + 1] == '"');
        } else {
            assert(e[p] == kp.after[p - n - 2]);
            assert(is_blank(kp.after[p - n - 2]));
        }
    }
    lemma_colon_from_skip(e, 0, m);
    lemma_state_after_run(e, m);
    assert(e.take(m) =~= quoted(k) + kp.after);
    lemma_string_top(k);
    lemma_blanks_top(kp.after);
    lemma_top_level_concat(quoted(k), kp.after);
    assert(e[m] == ':');
}

proof fn lemma_trim_quoted(x: Seq<char>)
    requires
        string_body(x),
    ensures
        trim(quoted(x), Strip::Quote) == x,
{
    let q = quoted(x);
    let y = x + seq!['"'];
    assert(q[0] == '"');
    assert(q.drop_first() =~= y);
    assert(trim_start(q, Strip::Quote) == trim_start(y, Strip::Quote));
    if x.len() > 0 {
        assert(x.take(1) =~= seq![x[0]]);
        lemma_run_one(in_string(), x[0]);
        assert(run(in_string(), x.take(1)).quoted);
        assert(y[0] == x[0]);
        assert(trim_start(y, Strip::Quote) == y);
        assert(y.last() == '"');
        assert(y.drop_last() =~= x);
        assert(trim_end(y, Strip::Quote) == trim_end(x, Strip::Quote));
        assert(trim_end(x, Strip::Quote) == x);
    } else {
        assert(y =~= seq!['"']);
        assert(y.drop_first() =~= Seq::<char>::empty());
        assert(trim_start(y, Strip::Quote) == trim_start(y.drop_first(), Strip::Quote));
        assert(trim_start(Seq::<char>::empty(), Strip::Quote) == Seq::<char>::empty());
        assert(trim_end(Seq::<char>::empty(), Strip::Quote) == Seq::<char>::empty());
        assert(x =~= Seq::<char>::empty());
    }
}

/// A text that starts with none of the characters a float text can start
/// with, and spells none of its words, is no float text.
pub proof fn lemma_not_float(q: Seq<char>)
    requires
        q.len() >= 1,
        !is_digit(q[0]),
        q[0] != '.' && q[0] != '+' && q[0] != '-',
        !same_letter(q[0], 'e'),
        !word_is(q, seq!['i', 'n', 'f']),
        !word_is(q, seq!['i', 'n', 'f', 'i', 'n', 'i', 't', 'y']),
        !word_is(q, seq!['n', 'a', 'n']),
    ensures
        !is_float_text(q),
{
    if is_mantissa(q) {
        lemma_mantissa_chars(q);
        assert(!is_digit(q[0]));
    }
    if is_decimal(q) && !is_mantissa(q) {
        let k = choose|k: int|
            0 <= k < q.len() && same_letter(q[k], 'e') && is_mantissa(#[trigger] q.take(k))
                && crate::coerce::is_exponent(q.skip(k + 1));
        if k > 0 {
            lemma_mantissa_chars(q.take(k));
            assert(q.take(k)[0] == q[0]);
        }
    }
}

/// A string is left as it is by either mode.
pub proof fn lemma_leaf_string(x: Seq<char>, mode: Mode)
    requires
        string_body(x),
    ensures
        leaf(quoted(x), mode) == quoted(x),
{
    let q = quoted(x);
    assert(q[0] == '"');
    assert(!same_letter('"', 'i'));
    assert(!same_letter('"', 'n'));
    assert(!same_letter('"', 'e'));
    assert(!same_letter('"', 't'));
    assert(!same_letter('"', 'f'));
    assert(!word_is(q, seq!['i', 'n', 'f']));
    assert(!word_is(q, seq!['i', 'n', 'f', 'i', 'n', 'i', 't', 'y']));
    assert(!word_is(q, seq!['n', 'a', 'n']));
    lemma_not_float(q);
    assert(!word_is(q, seq!['t', 'r', 'u', 'e']));
    assert(!word_is(q, seq!['f', 'a', 'l', 's', 'e']));
    assert(!word_is(q, seq!['n', 'o', 'n', 'e']));
    lemma_trim_quoted(x);
}

proof fn lemma_plain_run(t: Seq<char>, p: int)
    requires
        bare_token(t),
        0 <= p <= t.len(),
    ensures
        run(in_string(), t.take(p)) == in_string(),
    decreases p,
{
    if p > 0 {
        lemma_plain_run(t, p - 1);
        assert(t.take(p).drop_last() =~= t.take(p - 1));
        assert(t.take(p).last() == t[p - 1]);
        assert(plain(t[p - 1]));
    } else {
        assert(t.take(0).len() == 0);
    }
}

/// A bare token may stand between quotes.
proof fn lemma_token_body(t: Seq<char>)
    requires
        bare_token(t),
    ensures
        string_body(t),
{
    assert forall|p: int| 0 <= p <= t.len() implies (#[trigger] run(in_string(), t.take(p))).quoted by {
        lemma_plain_run(t, p);
    }
    lemma_plain_run(t, t.len() as int);
    assert(t.take(t.len() as int) =~= t);
    assert(plain(t[t.len() - 1]));
}

/// A bare token is rendered as the mode's coercion of it says.
pub proof fn lemma_leaf_token(t: Seq<char>, mode: Mode)
    requires
        bare_token(t),
    ensures
        leaf(t, mode) == text(coerced_token(t, mode)),
{
    assert(plain(t[0]));
    assert(plain(t[t.len() - 1]));
    assert(trim(t, Strip::Quote) == t);
}

/// Whether the mode renders each bare token of the document as it stands:
/// in the type-preserving mode, booleans and numbers; in the stringified
/// mode, there must be no bare token at all.
pub open spec fn tokens_kept(j: Json, mode: Mode) -> bool
    decreases j,
{
    match j {
        Json::Str(_) => true,
        Json::Bare(t) => mode == Mode::Typed && stays_bare(t),
        Json::Arr(items) => items_kept(items, mode),
        Json::Obj(members) => members_kept(members, mode),
    }
}

pub open spec fn items_kept(items: Items, mode: Mode) -> bool
    decreases items,
{
    match items {
        Items::Nil(_) => true,
        Items::Cons(_, h, rest) => tokens_kept(*h, mode) && items_kept(*rest, mode),
    }
}

pub open spec fn members_kept(members: Members, mode: Mode) -> bool
    decreases members,
{
    match members {
        Members::Nil(_) => true,
        Members::Cons(_, _, _, v, rest) => tokens_kept(*v, mode) && members_kept(*rest, mode),
    }
}

pub proof fn lemma_coerced_kept(j: Json, mode: Mode)
    requires
        tokens_kept(j, mode),
    ensures
        coerced(j, mode) == j,
    decreases j,
{
    match j {
        Json::Arr(items) => lemma_coerced_items_kept(items, mode),
        Json::Obj(members) => lemma_coerced_members_kept(members, mode),
        _ => {},
    }
}

pub proof fn lemma_coerced_items_kept(items: Items, mode: Mode)
    requires
        items_kept(items, mode),
    ensures
        coerced_items(items, mode) == items,
    decreases items,
{
    match items {
        Items::Nil(_) => {},
        Items::Cons(_, h, rest) => {
            lemma_coerced_kept(*h, mode);
            lemma_coerced_items_kept(*rest, mode);
        },
    }
}

pub proof fn lemma_coerced_members_kept(members: Members, mode: Mode)
    requires
        members_kept(members, mode),
    ensures
        coerced_members(members, mode) == members,
    decreases members,
{
    match members {
        Members::Nil(_) => {},
        Members::Cons(_, _, _, v, rest) => {
            lemma_coerced_kept(*v, mode);
            lemma_coerced_members_kept(*rest, mode);
        },
    }
}

/// Coercing a bare token gives a well-formed document that coerces to itself.
proof fn lemma_coerced_token(t: Seq<char>, mode: Mode)
    requires
        bare_token(t),
    ensures
        wf(coerced_token(t, mode)),
        coerced(coerced_token(t, mode), mode) == coerced_token(t, mode),
{
    lemma_token_body(t);
    let none = seq!['N', 'o', 'n', 'e'];
    if mode == Mode::Typed && !stays_bare(t) && word_is(t, seq!['n', 'o', 'n', 'e']) {
        assert forall|i: int| 0 <= i < none.len() implies plain(#[trigger] none[i]) by {}
        assert(!same_letter('N', 'e'));
        assert(!same_letter('N', 't'));
        assert(!same_letter('N', 'f'));
        assert(same_letter('N', 'n') && same_letter('o', 'o') && same_letter('n', 'n')
            && same_letter('e', 'e'));
        assert(!word_is(none, seq!['t', 'r', 'u', 'e']));
        assert(!word_is(none, seq!['f', 'a', 'l', 's', 'e']));
        assert(!word_is(none, seq!['i', 'n', 'f']));
        assert(!word_is(none, seq!['i', 'n', 'f', 'i', 'n', 'i', 't', 'y']));
        assert(!word_is(none, seq!['n', 'a', 'n']));
        assert(crate::coerce::without_sign(none) == none);
        lemma_not_float(none);
        assert(!stays_bare(none));
        assert(word_is(none, seq!['n', 'o', 'n', 'e']));
    }
}

/// Coercion keeps a document well formed, and coercing twice is coercing once.
pub proof fn lemma_coerced_wf(j: Json, mode: Mode)
    requires
        wf(j),
    ensures
        wf(coerced(j, mode)),
        coerced(coerced(j, mode), mode) == coerced(j, mode),
    decreases j,
{
    match j {
        Json::Bare(t) => lemma_coerced_token(t, mode),
        Json::Arr(items) => lemma_coerced_items_wf(items, mode),
        Json::Obj(members) => lemma_coerced_members_wf(members, mode),
        _ => {},
    }
}

pub proof fn lemma_coerced_items_wf(items: Items, mode: Mode)
    requires
        wf_items(items),
    ensures
        wf_items(coerced_items(items, mode)),
        coerced_items(coerced_items(items, mode), mode) == coerced_items(items, mode),
    decreases items,
{
    match items {
        Items::Nil(_) => {},
        Items::Cons(_, h, rest) => {
            lemma_coerced_wf(*h, mode);
            lemma_coerced_items_wf(*rest, mode);
        },
    }
}

pub proof fn lemma_coerced_members_wf(members: Members, mode: Mode)
    requires
        wf_members(members),
    ensures
        wf_members(coerced_members(members, mode)),
        coerced_members(coerced_members(members, mode), mode) == coerced_members(members, mode),
    decreases members,
{
    match members {
        Members::Nil(_) => {},
        Members::Cons(_, _, _, v, rest) => {
            lemma_coerced_wf(*v, mode);
            lemma_coerced_members_wf(*rest, mode);
        },
    }
}

/// The blanks of canonical text before an element or a key: none before the
/// first, one space before the others.
pub open spec fn canonical_pad(first: bool) -> Pad {
    Pad { before: if first { Seq::empty() } else { seq![' '] }, after: Seq::empty() }
}

/// The blanks of canonical text around a value: one space before it.
pub open spec fn value_pad() -> Pad {
    Pad { before: seq![' '], after: Seq::empty() }
}

/// The document with the blanks of canonical text.
pub open spec fn canonical(j: Json) -> Json
    decreases j,
{
    match j {
        Json::Str(x) => Json::Str(x),
        Json::Bare(t) => Json::Bare(t),
        Json::Arr(items) => Json::Arr(canonical_items(items, true)),
        Json::Obj(members) => Json::Obj(canonical_members(members, true)),
    }
}

pub open spec fn canonical_items(items: Items, first: bool) -> Items
    decreases items,
{
    match items {
        Items::Nil(_) => Items::Nil(Seq::empty()),
        Items::Cons(_, h, rest) => Items::Cons(
            canonical_pad(first),
            Box::new(canonical(*h)),
            Box::new(canonical_items(*rest, false)),
        ),
    }
}

pub open spec fn canonical_members(members: Members, first: bool) -> Members
    decreases members,
{
    match members {
        Members::Nil(_) => Members::Nil(Seq::empty()),
        Members::Cons(_, k, _, v, rest) => Members::Cons(
            canonical_pad(first),
            k,
            value_pad(),
            Box::new(canonical(*v)),
            Box::new(canonical_members(*rest, false)),
        ),
    }
}

/// The canonical text is the text of the document with canonical blanks;
/// blanks do not change it; and coercion does not touch blanks.
pub proof fn lemma_canonical(j: Json, mode: Mode)
    ensures
        wf(j) ==> wf(canonical(j)),
        text(canonical(j)) == render(j),
        render(canonical(j)) == render(j),
        coerced(canonical(j), mode) == canonical(coerced(j, mode)),
    decreases j,
{
    match j {
        Json::Arr(items) => lemma_canonical_items(items, true, mode),
        Json::Obj(members) => lemma_canonical_members(members, true, mode),
        _ => {},
    }
}

pub proof fn lemma_canonical_items(items: Items, first: bool, mode: Mode)
    ensures
        wf_items(items) ==> wf_items(canonical_items(items, first)),
        text_items(canonical_items(items, first)) == (if first || items is Nil {
            Seq::empty()
        } else {
            seq![' ']
        }) + render_items(items),
        render_items(canonical_items(items, first)) == render_items(items),
        coerced_items(canonical_items(items, first), mode) == canonical_items(
            coerced_items(items, mode),
            first,
        ),
        canonical_items(items, first) is Nil <==> items is Nil,
    decreases items,
{
    match items {
        Items::Nil(_) => {
            assert(Seq::<char>::empty() + Seq::<char>::empty() =~= Seq::<char>::empty());
        },
        Items::Cons(_, h, rest) => {
            lemma_canonical(*h, mode);
            lemma_canonical_items(*rest, false, mode);
            let pre: Seq<char> = if first { Seq::empty() } else { seq![' '] };
            let t = text(canonical(*h));
            assert(padded(canonical_pad(first), t) =~= pre + t);
            assert(forall|i: int| 0 <= i < seq![' '].len() ==> is_blank(#[trigger] seq![' '][i]));
            match *rest {
                Items::Nil(_) => {},
                _ => {
                    assert(pre + t + seq![','] + (seq![' '] + render_items(*rest)) =~= pre + (
                    render(*h) + seq![',', ' '] + render_items(*rest)));
                },
            }
        },
    }
}

pub proof fn lemma_canonical_members(members: Members, first: bool, mode: Mode)
    ensures
        wf_members(members) ==> wf_members(canonical_members(members, first)),
        text_members(canonical_members(members, first)) == (if first || members is Nil {
            Seq::empty()
        } else {
            seq![' ']
        }) + render_members(members),
        render_members(canonical_members(members, first)) == render_members(members),
        coerced_members(canonical_members(members, first), mode) == canonical_members(
            coerced_members(members, mode),
            first,
        ),
        canonical_members(members, first) is Nil <==> members is Nil,
    decreases members,
{
    match members {
        Members::Nil(_) => {
            assert(Seq::<char>::empty() + Seq::<char>::empty() =~= Seq::<char>::empty());
        },
        Members::Cons(_, k, _, v, rest) => {
            lemma_canonical(*v, mode);
            lemma_canonical_members(*rest, false, mode);
            let pre: Seq<char> = if first { Seq::empty() } else { seq![' '] };
            let t = text(canonical(*v));
            assert(member_text(canonical_pad(first), k, value_pad(), t) =~= pre + canonical_member(
                k,
                render(*v),
            ));
            assert(forall|i: int| 0 <= i < seq![' '].len() ==> is_blank(#[trigger] seq![' '][i]));
            match *rest {
                Members::Nil(_) => {},
                _ => {
                    assert(pre + canonical_member(k, render(*v)) + seq![','] + (seq![' ']
                        + render_members(*rest)) =~= pre + (canonical_member(k, render(*v))
                        + seq![',', ' '] + render_members(*rest)));
                },
            }
        },
    }
}

} // verus!
