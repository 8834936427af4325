//! The recursive normalizer: dispatch on context, split, recurse, reassemble.
use vstd::prelude::*;
use crate::coerce::{format_leaf, leaf, Mode};
use crate::context::{
    enclose, interior, interior_of, lemma_interior_shorter, starts_and_ends, JsonContext,
};
use crate::split::{
    find_key_colon, key_colon, lemma_colon_from_in_range, lemma_split_lengths, split,
    split_array_elements, split_object_elements, views,
};
use crate::text::{
    append_chars, chars_of, delimited, lemma_trim_len, quoted, string_of, trim, trimmed, Strip,
};

verus! {

/// `parts` joined by a comma and a space.
pub open spec fn join(parts: Seq<Seq<char>>) -> Seq<char>
    decreases parts.len(),
{
    if parts.len() == 0 {
        Seq::empty()
    } else if parts.len() == 1 {
        parts[0]
    } else {
        join(parts.drop_last()) + seq![',', ' '] + parts.last()
    }
}

pub open spec fn braced(p: Seq<char>) -> Seq<char> {
    seq!['{'] + p + seq!['}']
}

pub open spec fn bracketed(p: Seq<char>) -> Seq<char> {
    seq!['['] + p + seq![']']
}

/// Contexts that are still delimited rank below those whose delimiters are gone.
pub open spec fn rank(ctx: JsonContext) -> nat {
    match ctx {
        JsonContext::Value => 1,
        _ => 3,
    }
}

/// A key, trimmed, and put in double quotes unless it already is.
pub open spec fn key_text(key: Seq<char>) -> Seq<char> {
    let k = trim(key, Strip::Blank);
    if delimited(k, '"', '"') {
        k
    } else {
        quoted(k)
    }
}

/// The canonical text of span `s` in context `ctx`.
pub open spec fn normalized(s: Seq<char>, ctx: JsonContext, mode: Mode) -> Seq<char>
    decreases s.len(), rank(ctx), 0nat,
{
    if ctx == JsonContext::Value && delimited(s, '{', '}') {
        proof {
            lemma_interior_shorter(s);
        }
        braced(normalized(interior(s), JsonContext::Object, mode))
    } else if ctx == JsonContext::Array {
        join(normalized_elements(s, split(s, true).len(), mode))
    } else if delimited(s, '[', ']') {
        proof {
            lemma_interior_shorter(s);
        }
        bracketed(normalized(interior(s), JsonContext::Array, mode))
    } else if ctx == JsonContext::Object {
        join(normalized_pairs(s, split(s, false).len(), mode))
    } else {
        leaf(s, mode)
    }
}

/// The first `k` elements of array content `s`, each normalized as a value.
pub open spec fn normalized_elements(s: Seq<char>, k: nat, mode: Mode) -> Seq<Seq<char>>
    decreases s.len(), 2nat, k,
{
    if k == 0 || k > split(s, true).len() {
        Seq::empty()
    } else {
        proof {
            lemma_split_lengths(s, true);
        }
        normalized_elements(s, (k - 1) as nat, mode).push(
            normalized(split(s, true)[k - 1], JsonContext::Value, mode),
        )
    }
}

/// An object element with its key quoted and its value normalized, or
/// `None` where the element has no colon.
pub open spec fn normalized_pair(e: Seq<char>, mode: Mode) -> Option<Seq<char>>
    decreases e.len(), 1nat, 1nat,
{
    match key_colon(e) {
        Some(c) => {
            proof {
                lemma_colon_from_in_range(e, 0);
                lemma_trim_len(e.subrange(c + 1, e.len() as int), Strip::Comma);
            }
            Some(
                key_text(e.subrange(0, c)) + seq![':', ' '] + normalized(
                    trim(e.subrange(c + 1, e.len() as int), Strip::Comma),
                    JsonContext::Value,
                    mode,
                ),
            )
        },
        None => None,
    }
}

/// The normalized pairs among the first `k` elements of object content `s`.
pub open spec fn normalized_pairs(s: Seq<char>, k: nat, mode: Mode) -> Seq<Seq<char>>
    decreases s.len(), 2nat, k,
{
    if k == 0 || k > split(s, false).len() {
        Seq::empty()
    } else {
        proof {
            lemma_split_lengths(s, false);
        }
        let prev = normalized_pairs(s, (k - 1) as nat, mode);
        match normalized_pair(split(s, false)[k - 1], mode) {
            Some(p) => prev.push(p),
            None => prev,
        }
    }
}

/// How deeply `s` nests in context `ctx`: the number of enclosing brace or
/// bracket pairs that the normalizer strips on its deepest path.
pub open spec fn depth(s: Seq<char>, ctx: JsonContext) -> nat
    decreases s.len(), rank(ctx), 0nat,
{
    if ctx == JsonContext::Value && delimited(s, '{', '}') {
        proof {
            lemma_interior_shorter(s);
        }
        1 + depth(interior(s), JsonContext::Object)
    } else if ctx == JsonContext::Array {
        elements_depth(s, split(s, true).len())
    } else if delimited(s, '[', ']') {
        proof {
            lemma_interior_shorter(s);
        }
        1 + depth(interior(s), JsonContext::Array)
    } else if ctx == JsonContext::Object {
        pairs_depth(s, split(s, false).len())
    } else {
        0
    }
}

/// The deepest of the first `k` elements of array content `s`.
pub open spec fn elements_depth(s: Seq<char>, k: nat) -> nat
    decreases s.len(), 2nat, k,
{
    if k == 0 || k > split(s, true).len() {
        0
    } else {
        proof {
            lemma_split_lengths(s, true);
        }
        let d = depth(split(s, true)[k - 1], JsonContext::Value);
        let prev = elements_depth(s, (k - 1) as nat);
        if d > prev {
            d
        } else {
            prev
        }
    }
}

/// How deeply the value of an object element nests; nothing for an element
/// without a colon.
pub open spec fn pair_depth(e: Seq<char>) -> nat
    decreases e.len(), 1nat, 1nat,
{
    match key_colon(e) {
        Some(c) => {
            proof {
                lemma_colon_from_in_range(e, 0);
                lemma_trim_len(e.subrange(c + 1, e.len() as int), Strip::Comma);
            }
            depth(trim(e.subrange(c + 1, e.len() as int), Strip::Comma), JsonContext::Value)
        },
        None => 0,
    }
}

/// The deepest of the first `k` elements of object content `s`.
pub open spec fn pairs_depth(s: Seq<char>, k: nat) -> nat
    decreases s.len(), 2nat, k,
{
    if k == 0 || k > split(s, false).len() {
        0
    } else {
        proof {
            lemma_split_lengths(s, false);
        }
        let d = pair_depth(split(s, false)[k - 1]);
        let prev = pairs_depth(s, (k - 1) as nat);
        if d > prev {
            d
        } else {
            prev
        }
    }
}

proof fn lemma_elements_depth_grows(s: Seq<char>, i: nat, k: nat)
    requires
        i <= k <= split(s, true).len(),
    ensures
        elements_depth(s, i) <= elements_depth(s, k),
    decreases k - i,
{
    if i < k {
        lemma_elements_depth_grows(s, i, (k - 1) as nat);
    }
}

proof fn lemma_pairs_depth_grows(s: Seq<char>, i: nat, k: nat)
    requires
        i <= k <= split(s, false).len(),
    ensures
        pairs_depth(s, i) <= pairs_depth(s, k),
    decreases k - i,
{
    if i < k {
        lemma_pairs_depth_grows(s, i, (k - 1) as nat);
    }
}

/// No span nests deeper than it is long.
pub proof fn lemma_depth_bound(s: Seq<char>, ctx: JsonContext)
    ensures
        depth(s, ctx) <= s.len(),
    decreases s.len(), rank(ctx), 0nat,
{
    if ctx == JsonContext::Value && delimited(s, '{', '}') {
        lemma_interior_shorter(s);
        lemma_depth_bound(interior(s), JsonContext::Object);
    } else if ctx == JsonContext::Array {
        lemma_elements_depth_bound(s, split(s, true).len());
    } else if delimited(s, '[', ']') {
        lemma_interior_shorter(s);
        lemma_depth_bound(interior(s), JsonContext::Array);
    } else if ctx == JsonContext::Object {
        lemma_pairs_depth_bound(s, split(s, false).len());
    }
}

proof fn lemma_elements_depth_bound(s: Seq<char>, k: nat)
    ensures
        elements_depth(s, k) <= s.len(),
    decreases s.len(), 2nat, k,
{
    if k > 0 && k <= split(s, true).len() {
        lemma_split_lengths(s, true);
        lemma_depth_bound(split(s, true)[k - 1], JsonContext::Value);
        lemma_elements_depth_bound(s, (k - 1) as nat);
    }
}

proof fn lemma_pair_depth_bound(e: Seq<char>)
    ensures
        pair_depth(e) <= e.len(),
    decreases e.len(), 1nat, 1nat,
{
    if let Some(c) = key_colon(e) {
        lemma_colon_from_in_range(e, 0);
        let v = trim(e.subrange(c + 1, e.len() as int), Strip::Comma);
        lemma_trim_len(e.subrange(c + 1, e.len() as int), Strip::Comma);
        lemma_depth_bound(v, JsonContext::Value);
    }
}

proof fn lemma_pairs_depth_bound(s: Seq<char>, k: nat)
    ensures
        pairs_depth(s, k) <= s.len(),
    decreases s.len(), 2nat, k,
{
    if k > 0 && k <= split(s, false).len() {
        lemma_split_lengths(s, false);
        lemma_pair_depth_bound(split(s, false)[k - 1]);
        lemma_pairs_depth_bound(s, (k - 1) as nat);
    }
}

pub proof fn lemma_join_push(parts: Seq<Seq<char>>, p: Seq<char>)
    ensures
        join(parts.push(p)) == if parts.len() == 0 {
            p
        } else {
            join(parts) + seq![',', ' '] + p
        },
{
    assert(parts.push(p).drop_last() =~= parts);
    if parts.len() == 0 {
        assert(parts.push(p)[0] == p);
    }
}

proof fn lemma_normalized_elements_len(s: Seq<char>, k: nat, mode: Mode)
    requires
        k <= split(s, true).len(),
    ensures
        normalized_elements(s, k, mode).len() == k,
    decreases k,
{
    if k > 0 {
        lemma_normalized_elements_len(s, (k - 1) as nat, mode);
    }
}

/// Normalizes span `s` in context `ctx`, or gives up where it nests deeper
/// than `budget`.
pub fn normalize(s: &Vec<char>, ctx: JsonContext, mode: Mode, budget: usize) -> (r: Option<
    Vec<char>,
>)
    ensures
        r is Some <==> depth(s@, ctx) <= budget,
        r matches Some(v) ==> v@ == normalized(s@, ctx, mode),
    decreases s@.len(), rank(ctx), 0nat,
{
    if ctx == JsonContext::Value && starts_and_ends(s, '{', '}') {
        handle_object_w_wrapper(s, mode, budget)
    } else if ctx == JsonContext::Array {
        handle_array_content(s, mode, budget)
    } else if starts_and_ends(s, '[', ']') {
        handle_array_w_wrapper(s, mode, budget)
    } else if ctx == JsonContext::Object {
        handle_object_content(s, mode, budget)
    } else {
        Some(format_leaf(s, mode))
    }
}

/// Normalizes a span enclosed in braces: its interior as object content.
pub fn handle_object_w_wrapper(string: &Vec<char>, mode: Mode, budget: usize) -> (r: Option<
    Vec<char>,
>)
    requires
        delimited(string@, '{', '}'),
    ensures
        r is Some <==> 1 + depth(interior(string@), JsonContext::Object) <= budget,
        r matches Some(v) ==> v@ == braced(normalized(interior(string@), JsonContext::Object, mode)),
    decreases string@.len(), 0nat, 0nat,
{
    proof {
        lemma_interior_shorter(string@);
    }
    if budget == 0 {
        return None;
    }
    let content_string = interior_of(string);
    match normalize(&content_string, JsonContext::Object, mode, budget - 1) {
        Some(new_object_substance) => Some(enclose('{', &new_object_substance, '}')),
        None => None,
    }
}

/// Normalizes a span enclosed in brackets: its interior as array content.
pub fn handle_array_w_wrapper(string: &Vec<char>, mode: Mode, budget: usize) -> (r: Option<
    Vec<char>,
>)
    requires
        delimited(string@, '[', ']'),
    ensures
        r is Some <==> 1 + depth(interior(string@), JsonContext::Array) <= budget,
        r matches Some(v) ==> v@ == bracketed(normalized(interior(string@), JsonContext::Array, mode)),
    decreases string@.len(), 0nat, 0nat,
{
    proof {
        lemma_interior_shorter(string@);
    }
    if budget == 0 {
        return None;
    }
    let content_str = interior_of(string);
    match handle_array_content(&content_str, mode, budget - 1) {
        Some(array_str) => Some(enclose('[', &array_str, ']')),
        None => None,
    }
}

/// Normalizes array content: each element as a value, joined by `", "`.
pub fn handle_array_content(string: &Vec<char>, mode: Mode, budget: usize) -> (r: Option<Vec<char>>)
    ensures
        r is Some <==> depth(string@, JsonContext::Array) <= budget,
        r matches Some(v) ==> v@ == normalized(string@, JsonContext::Array, mode),
    decreases string@.len(), 2nat, 0nat,
{
    let elements = split_array_elements(string);
    proof {
        lemma_split_lengths(string@, true);
    }
    let ghost n = split(string@, true).len();
    let mut out: Vec<char> = Vec::new();
    let mut i: usize = 0;
    while i < elements.len()
        invariant
            i <= elements@.len(),
            n == split(string@, true).len(),
            views(elements@) == split(string@, true),
            forall|j: int|
                0 <= j < split(string@, true).len() ==> #[trigger] split(string@, true)[j].len()
                    <= string@.len(),
            out@ == join(normalized_elements(string@, i as nat, mode)),
            elements_depth(string@, i as nat) <= budget,
        decreases elements@.len() - i,
    {
        let element = &elements[i];
        assert(views(elements@)[i as int] == element@);
        let new_element = match normalize(element, JsonContext::Value, mode, budget) {
            Some(v) => v,
            None => {
                proof {
                    lemma_elements_depth_grows(string@, (i + 1) as nat, n);
                }
                return None;
            },
        };
        proof {
            lemma_normalized_elements_len(string@, i as nat, mode);
            lemma_join_push(normalized_elements(string@, i as nat, mode), new_element@);
        }
        if i > 0 {
            out.push(',');
            out.push(' ');
        }
        append_chars(&mut out, &new_element);
        assert(out@ =~= join(normalized_elements(string@, (i + 1) as nat, mode)));
        i = i + 1;
    }
    Some(out)
}

/// Normalizes object content: each `key: value` element with its key quoted
/// and its value normalized, joined by `", "`; elements without a colon are dropped.
pub fn handle_object_content(string: &Vec<char>, mode: Mode, budget: usize) -> (r: Option<
    Vec<char>,
>)
    requires
        !delimited(string@, '[', ']'),
    ensures
        r is Some <==> depth(string@, JsonContext::Object) <= budget,
        r matches Some(v) ==> v@ == normalized(string@, JsonContext::Object, mode),
    decreases string@.len(), 2nat, 0nat,
{
    let elements = split_object_elements(string);
    proof {
        lemma_split_lengths(string@, false);
    }
    let ghost n = split(string@, false).len();
    let mut out: Vec<char> = Vec::new();
    let mut count: usize = 0;
    let mut i: usize = 0;
    while i < elements.len()
        invariant
            i <= elements@.len(),
            count <= i,
            n == split(string@, false).len(),
            views(elements@) == split(string@, false),
            forall|j: int|
                0 <= j < split(string@, false).len() ==> #[trigger] split(string@, false)[j].len()
                    <= string@.len(),
            count == normalized_pairs(string@, i as nat, mode).len(),
            out@ == join(normalized_pairs(string@, i as nat, mode)),
            pairs_depth(string@, i as nat) <= budget,
            depth(string@, JsonContext::Object) == pairs_depth(string@, n),
        decreases elements@.len() - i,
    {
        let kv_pair = &elements[i];
        assert(views(elements@)[i as int] == kv_pair@);
        match find_key_colon(kv_pair) {
            Some(c) => {
                proof {
                    lemma_colon_from_in_range(kv_pair@, 0);
                    lemma_trim_len(
                        kv_pair@.subrange(c + 1, kv_pair@.len() as int),
                        Strip::Comma,
                    );
                }
                let trimmed_key = trimmed(kv_pair, 0, c, Strip::Blank);
                let new_key = if starts_and_ends(&trimmed_key, '"', '"') {
                    trimmed_key
                } else {
                    enclose('"', &trimmed_key, '"')
                };
                let trimmed_value = trimmed(kv_pair, c + 1, kv_pair.len(), Strip::Comma);
                assert(pair_depth(kv_pair@) == depth(trimmed_value@, JsonContext::Value));
                let new_value = match normalize(&trimmed_value, JsonContext::Value, mode, budget) {
                    Some(v) => v,
                    None => {
                        proof {
                            assert(split(string@, false)[i as int] == kv_pair@);
                            assert(pairs_depth(string@, (i + 1) as nat) >= pair_depth(kv_pair@));
                            lemma_pairs_depth_grows(string@, (i + 1) as nat, n);
                        }
                        return None;
                    },
                };
                let ghost pair = new_key@ + seq![':', ' '] + new_value@;
                assert(normalized_pair(kv_pair@, mode) == Some(pair));
                proof {
                    lemma_join_push(normalized_pairs(string@, i as nat, mode), pair);
                }
                if count > 0 {
                    out.push(',');
                    out.push(' ');
                }
                append_chars(&mut out, &new_key);
                out.push(':');
                out.push(' ');
                append_chars(&mut out, &new_value);
                assert(out@ =~= join(normalized_pairs(string@, (i + 1) as nat, mode)));
                count = count + 1;
            },
            None => {
                assert(normalized_pair(kv_pair@, mode) is None);
                assert(pair_depth(kv_pair@) == 0);
            },
        }
        i = i + 1;
    }
    Some(out)
}

/// Normalizes `chars` in context `ctx`, however deeply it nests.
pub fn normalize_fully(chars: &Vec<char>, ctx: JsonContext, mode: Mode) -> (r: Vec<char>)
    ensures
        r@ == normalized(chars@, ctx, mode),
{
    proof {
        lemma_depth_bound(chars@, ctx);
    }
    normalize(chars, ctx, mode, chars.len()).unwrap()
}

/// Normalizes `string` in context `json_context`, keeping booleans and numbers bare.
pub fn parse_json_string(string: &str, json_context: JsonContext) -> (r: String)
    ensures
        r@ == normalized(string@, json_context, Mode::Typed),
{
    let chars = chars_of(string);
    string_of(normalize_fully(&chars, json_context, Mode::Typed))
}

/// Normalizes `string` in context `json_context`, turning every scalar into a string.
pub fn parse_stringified_json_string(string: &str, json_context: JsonContext) -> (r: String)
    ensures
        r@ == normalized(string@, json_context, Mode::Stringified),
{
    let chars = chars_of(string);
    string_of(normalize_fully(&chars, json_context, Mode::Stringified))
}

/// `join` read from the front.
pub proof fn lemma_join_front(a: Seq<char>, rest: Seq<Seq<char>>)
    ensures
        join(seq![a] + rest) == if rest.len() == 0 {
            a
        } else {
            a + seq![',', ' '] + join(rest)
        },
    decreases rest.len(),
{
    let x = seq![a] + rest;
    if rest.len() == 0 {
        assert(x =~= seq![a]);
    } else {
        assert(x.drop_last() =~= seq![a] + rest.drop_last());
        assert(x.last() == rest.last());
        lemma_join_front(a, rest.drop_last());
        if rest.len() == 1 {
            assert(rest.drop_last() =~= Seq::<Seq<char>>::empty());
        }
    }
}

/// The value a normalized pair holds, or empty where there is none.
pub open spec fn pair_or_empty(e: Seq<char>, mode: Mode) -> Seq<char> {
    match normalized_pair(e, mode) {
        Some(p) => p,
        None => Seq::empty(),
    }
}

/// The normalized elements are the elements of the split, each normalized.
pub proof fn lemma_normalized_elements_map(s: Seq<char>, k: nat, mode: Mode)
    requires
        k <= split(s, true).len(),
    ensures
        normalized_elements(s, k, mode) == split(s, true).take(k as int).map_values(
            |e: Seq<char>| normalized(e, JsonContext::Value, mode),
        ),
    decreases k,
{
    if k > 0 {
        lemma_normalized_elements_map(s, (k - 1) as nat, mode);
        assert(split(s, true).take(k as int).drop_last() =~= split(s, true).take(k - 1));
        assert(normalized_elements(s, k, mode) =~= split(s, true).take(k as int).map_values(
            |e: Seq<char>| normalized(e, JsonContext::Value, mode),
        ));
    } else {
        assert(split(s, true).take(0).map_values(
            |e: Seq<char>| normalized(e, JsonContext::Value, mode),
        ) =~= Seq::<Seq<char>>::empty());
    }
}

/// Where every element has a colon, the normalized pairs are the elements of
/// the split, each normalized as a pair.
pub proof fn lemma_normalized_pairs_map(s: Seq<char>, k: nat, mode: Mode)
    requires
        k <= split(s, false).len(),
        forall|i: int| 0 <= i < k ==> (#[trigger] normalized_pair(split(s, false)[i], mode)) is Some,
    ensures
        normalized_pairs(s, k, mode) == split(s, false).take(k as int).map_values(
            |e: Seq<char>| pair_or_empty(e, mode),
        ),
    decreases k,
{
    if k > 0 {
        lemma_normalized_pairs_map(s, (k - 1) as nat, mode);
        assert(normalized_pair(split(s, false)[k - 1], mode) is Some);
        assert(split(s, false).take(k as int).drop_last() =~= split(s, false).take(k - 1));
        assert(normalized_pairs(s, k, mode) =~= split(s, false).take(k as int).map_values(
            |e: Seq<char>| pair_or_empty(e, mode),
        ));
    } else {
        assert(split(s, false).take(0).map_values(|e: Seq<char>| pair_or_empty(e, mode))
            =~= Seq::<Seq<char>>::empty());
    }
}

} // verus!
