//! Classifying a span by its outer delimiters, and removing or restoring them.
use vstd::prelude::*;
use crate::text::{append_chars, delimited, lemma_trim_len, trim, trimmed, Strip};

verus! {

/// What a span stands for: an object, an array, or a scalar value.
#[derive(Clone, Copy, Debug, PartialEq, Eq, Structural)]
pub enum JsonContext {
    Array,
    Object,
    Value,
}

/// The context of a trimmed span, from its first and last character.
pub open spec fn classify(s: Seq<char>) -> JsonContext {
    if delimited(s, '{', '}') {
        JsonContext::Object
    } else if delimited(s, '[', ']') {
        JsonContext::Array
    } else {
        JsonContext::Value
    }
}

/// The span without its first and last character, and without the stray
/// blanks and separators that this uncovers.
pub open spec fn interior(s: Seq<char>) -> Seq<char> {
    if s.len() >= 2 {
        trim(s.subrange(1, s.len() - 1), Strip::Wrapper)
    } else {
        Seq::empty()
    }
}

/// What the normalizer works on for a span of the given context.
pub open spec fn content(ctx: JsonContext, s: Seq<char>) -> Seq<char> {
    match ctx {
        JsonContext::Value => s,
        _ => interior(s),
    }
}

/// Normalized content with the delimiters of its context put back.
pub open spec fn rewrapped(p: Seq<char>, ctx: JsonContext) -> Seq<char> {
    match ctx {
        JsonContext::Array => seq!['['] + p + seq![']'],
        JsonContext::Object => seq!['{'] + p + seq!['}'],
        JsonContext::Value => p,
    }
}

/// The span itself if it is enclosed in brackets, else the span in brackets.
pub open spec fn array_wrapped(s: Seq<char>) -> Seq<char> {
    if delimited(s, '[', ']') {
        s
    } else {
        seq!['['] + s + seq![']']
    }
}

pub proof fn lemma_interior_shorter(s: Seq<char>)
    ensures
        s.len() >= 2 ==> interior(s).len() < s.len(),
        interior(s).len() <= s.len(),
{
    if s.len() >= 2 {
        lemma_trim_len(s.subrange(1, s.len() - 1), Strip::Wrapper);
    }
}

pub fn starts_and_ends(s: &Vec<char>, open: char, close: char) -> (r: bool)
    ensures
        r == delimited(s@, open, close),
{
    s.len() > 0 && s[0] == open && s[s.len() - 1] == close
}

pub fn json_context(trimmed_str: &Vec<char>) -> (r: JsonContext)
    ensures
        r == classify(trimmed_str@),
{
    if starts_and_ends(trimmed_str, '{', '}') {
        JsonContext::Object
    } else if starts_and_ends(trimmed_str, '[', ']') {
        JsonContext::Array
    } else {
        JsonContext::Value
    }
}

/// The interior of a span: its first and last character dropped, then trimmed.
pub fn interior_of(s: &Vec<char>) -> (r: Vec<char>)
    ensures
        r@ == interior(s@),
{
    if s.len() >= 2 {
        trimmed(s, 1, s.len() - 1, Strip::Wrapper)
    } else {
        Vec::new()
    }
}

pub fn content_str(json_context: JsonContext, trimmed_str: &Vec<char>) -> (r: Vec<char>)
    ensures
        r@ == content(json_context, trimmed_str@),
{
    match json_context {
        JsonContext::Value => trimmed_str.clone(),
        _ => interior_of(trimmed_str),
    }
}

/// `p` between `open` and `close`.
pub fn enclose(open: char, p: &Vec<char>, close: char) -> (r: Vec<char>)
    ensures
        r@ == seq![open] + p@ + seq![close],
{
    let mut r: Vec<char> = Vec::new();
    r.push(open);
    append_chars(&mut r, p);
    r.push(close);
    assert(r@ =~= seq![open] + p@ + seq![close]);
    r
}

pub fn rewrap_string(parsed_json_string: &Vec<char>, json_context: JsonContext) -> (r: Vec<char>)
    ensures
        r@ == rewrapped(parsed_json_string@, json_context),
{
    match json_context {
        JsonContext::Array => enclose('[', parsed_json_string, ']'),
        JsonContext::Object => enclose('{', parsed_json_string, '}'),
        JsonContext::Value => parsed_json_string.clone(),
    }
}

pub fn ensure_array_wrapper(string: &Vec<char>) -> (r: Vec<char>)
    ensures
        r@ == array_wrapped(string@),
{
    if starts_and_ends(string, '[', ']') {
        string.clone()
    } else {
        enclose('[', string, ']')
    }
}

} // verus!
