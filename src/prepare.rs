//! The entry points: trim the input, classify it, normalize it, put its delimiters back.
use vstd::prelude::*;
use crate::coerce::Mode;
use crate::context::{
    array_wrapped, classify, content, content_str, ensure_array_wrapper, json_context,
    rewrap_string, rewrapped, JsonContext,
};
use crate::normalize::{depth, normalize, normalize_fully, normalized};
use crate::text::{chars_of, string_of, trim, trimmed, Strip};

verus! {

/// The text that an entry point normalizes: the input without stray blanks
/// and separators at its ends, and for the array entry points, in brackets
/// unless it already is.
pub open spec fn entry_text(s: Seq<char>, as_array: bool) -> Seq<char> {
    let t = trim(s, Strip::Wrapper);
    if as_array {
        array_wrapped(t)
    } else {
        t
    }
}

/// What an entry point returns for input `s`.
pub open spec fn prepared(s: Seq<char>, as_array: bool, mode: Mode) -> Seq<char> {
    let x = entry_text(s, as_array);
    rewrapped(normalized(content(classify(x), x), classify(x), mode), classify(x))
}

/// Stripping the outer delimiters, normalizing the content and putting them
/// back gives the normalization of the whole text as a value.
pub proof fn lemma_prepared_is_value(s: Seq<char>, as_array: bool, mode: Mode)
    ensures
        prepared(s, as_array, mode) == normalized(entry_text(s, as_array), JsonContext::Value, mode),
{
}

/// The characters of the text that an entry point normalizes.
fn entry_of(input: &str, as_array: bool) -> (r: Vec<char>)
    ensures
        r@ == entry_text(input@, as_array),
{
    let chars = chars_of(input);
    let trimmed_str = trimmed(&chars, 0, chars.len(), Strip::Wrapper);
    assert(chars@.subrange(0, chars@.len() as int) =~= chars@);
    if as_array {
        ensure_array_wrapper(&trimmed_str)
    } else {
        trimmed_str
    }
}

fn prepare(input: &str, as_array: bool, mode: Mode) -> (r: String)
    ensures
        r@ == prepared(input@, as_array, mode),
{
    let entry = entry_of(input, as_array);
    let ctx = json_context(&entry);
    let content = content_str(ctx, &entry);
    let parsed_json_string = normalize_fully(&content, ctx, mode);
    string_of(rewrap_string(&parsed_json_string, ctx))
}

/// Why an input was not repaired.
#[derive(Clone, Copy, Debug, PartialEq, Eq, Structural)]
pub enum PrepareError {
    /// The input nests deeper than the limit allows.
    TooDeep,
}

/// Repairs the input as the entry point for `as_array` and `mode` does, but
/// refuses input that nests deeper than `max_depth` pairs of braces or
/// brackets, so that the recursion stays within that depth.
pub fn prepare_with_depth_limit(
    input: &str,
    as_array: bool,
    mode: Mode,
    max_depth: usize,
) -> (r: Result<String, PrepareError>)
    ensures
        r is Ok <==> depth(entry_text(input@, as_array), JsonContext::Value) <= max_depth,
        r matches Ok(v) ==> v@ == prepared(input@, as_array, mode),
{
    proof {
        lemma_prepared_is_value(input@, as_array, mode);
    }
    let entry = entry_of(input, as_array);
    match normalize(&entry, JsonContext::Value, mode, max_depth) {
        Some(v) => Ok(string_of(v)),
        None => Err(PrepareError::TooDeep),
    }
}

/// Repairs one value, object or array, keeping booleans and numbers bare.
pub fn prepare_json_string(input: &str) -> (r: String)
    ensures
        r@ == prepared(input@, false, Mode::Typed),
        r@ == normalized(entry_text(input@, false), JsonContext::Value, Mode::Typed),
{
    proof {
        lemma_prepared_is_value(input@, false, Mode::Typed);
    }
    prepare(input, false, Mode::Typed)
}

/// Repairs the input as an array, wrapping it in brackets unless it already is
/// one, keeping booleans and numbers bare.
pub fn prepare_json_array(input: &str) -> (r: String)
    ensures
        r@ == prepared(input@, true, Mode::Typed),
        r@ == normalized(entry_text(input@, true), JsonContext::Value, Mode::Typed),
{
    proof {
        lemma_prepared_is_value(input@, true, Mode::Typed);
    }
    prepare(input, true, Mode::Typed)
}

/// Repairs one value, object or array, turning every scalar into a string.
pub fn prepare_stringified_json_string(input: &str) -> (r: String)
    ensures
        r@ == prepared(input@, false, Mode::Stringified),
        r@ == normalized(entry_text(input@, false), JsonContext::Value, Mode::Stringified),
{
    proof {
        lemma_prepared_is_value(input@, false, Mode::Stringified);
    }
    prepare(input, false, Mode::Stringified)
}

/// Repairs the input as an array, wrapping it in brackets unless it already is
/// one, turning every scalar into a string.
pub fn prepare_stringified_json_array(input: &str) -> (r: String)
    ensures
        r@ == prepared(input@, true, Mode::Stringified),
        r@ == normalized(entry_text(input@, true), JsonContext::Value, Mode::Stringified),
{
    proof {
        lemma_prepared_is_value(input@, true, Mode::Stringified);
    }
    prepare(input, true, Mode::Stringified)
}

} // verus!
