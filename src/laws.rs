//! Properties of the repair engine as a whole.
use vstd::prelude::*;
use crate::coerce::{leaf, Mode};
use crate::context::{interior, JsonContext};
use crate::normalize::{
    braced, bracketed, join, key_text, lemma_join_front, lemma_normalized_elements_map,
    lemma_normalized_pairs_map, normalized, normalized_elements, normalized_pair, normalized_pairs,
    pair_or_empty,
};
use crate::prepare::{entry_text, lemma_prepared_is_value, prepared};
use crate::split::{lemma_split_single, lemma_split_strip_blanks, no_split_between, split};
use crate::text::{delimited, lemma_trim_strippable_prefix, quoted, trim, Strip};
use crate::tree::{
    blanks, canonical, canonical_member, coerced, coerced_items, coerced_members, item_texts,
    items_core, items_kept, items_lead, items_trail, lemma_canonical, lemma_coerced_kept,
    lemma_coerced_wf, lemma_items_shape, lemma_leaf_string, lemma_leaf_token, lemma_member_colon,
    lemma_members_shape, lemma_split_items, lemma_split_members, lemma_text_firm,
    lemma_top_no_split, lemma_top_text, lemma_trim_firm, lemma_trim_padded, member_core, member_cores, members_core, members_kept, members_lead, members_trail, pad_ok,
    plain, render, render_items, render_members, string_body, text, text_items, text_members,
    tokens_kept, wf, wf_items, wf_members, Items, Json, Members, Pad,
};

verus! {

/// A text enclosed in braces in which no separator stands outside every
/// bracket, brace and quoted run: one object, not several.
pub open spec fn is_single_object(t: Seq<char>) -> bool {
    delimited(t, '{', '}') && no_split_between(t, 0, t.len() as int, true)
}

/// The array entry point turns a single bare object into an array of one
/// element: that object as the value entry point renders it, in brackets.
pub proof fn law_single_object_becomes_one_element_array(s: Seq<char>, mode: Mode)
    requires
        is_single_object(trim(s, Strip::Wrapper)),
    ensures
        split(trim(s, Strip::Wrapper), true) == seq![trim(s, Strip::Wrapper)],
        prepared(s, true, mode) == bracketed(prepared(s, false, mode)),
{
    let t = trim(s, Strip::Wrapper);
    assert(trim(t, Strip::Element) == t);
    lemma_split_single(t, true);
    let x = seq!['['] + t + seq![']'];
    assert(x.subrange(1, x.len() - 1) =~= t);
    assert(trim(t, Strip::Wrapper) == t);
    assert(interior(x) == t);
    lemma_prepared_is_value(s, true, mode);
    lemma_prepared_is_value(s, false, mode);
    reveal_with_fuel(normalized_elements, 2);
    assert(normalized_elements(t, 1, mode) =~= seq![normalized(t, JsonContext::Value, mode)]);
    assert(join(seq![normalized(t, JsonContext::Value, mode)]) == normalized(
        t,
        JsonContext::Value,
        mode,
    ));
}

/// Given the text of a well-formed object, the array entry point returns an
/// array whose one element is the canonical text of the coerced object.
pub proof fn law_object_becomes_one_element_array(members: Members, mode: Mode)
    requires
        wf(Json::Obj(members)),
    ensures
        prepared(text(Json::Obj(members)), true, mode) == bracketed(
            render(coerced(Json::Obj(members), mode)),
        ),
{
    let j = Json::Obj(members);
    let t = text(j);
    lemma_top_text(j);
    lemma_top_no_split(t, true);
    lemma_text_firm(j);
    lemma_trim_firm(t, Strip::Wrapper);
    law_single_object_becomes_one_element_array(t, mode);
    law_entry_round_trip(j, Seq::empty(), Seq::empty(), mode);
    assert(Seq::<char>::empty() + t + Seq::<char>::empty() =~= t);
}

/// Normalizing the text of a well-formed document, however it is spaced,
/// gives the canonical text of the same document: the same keys in the same
/// order and the same strings, where only each bare token is replaced as the
/// mode renders it.
pub proof fn law_document_round_trip(j: Json, mode: Mode)
    requires
        wf(j),
    ensures
        normalized(text(j), JsonContext::Value, mode) == render(coerced(j, mode)),
    decreases j, 1nat,
{
    match j {
        Json::Str(x) => {
            assert(quoted(x)[0] == '"');
            assert(!delimited(quoted(x), '{', '}'));
            assert(!delimited(quoted(x), '[', ']'));
            lemma_leaf_string(x, mode);
            assert(normalized(quoted(x), JsonContext::Value, mode) == leaf(quoted(x), mode));
        },
        Json::Bare(t) => {
            assert(plain(t[0]));
            assert(!delimited(t, '{', '}'));
            assert(!delimited(t, '[', ']'));
            lemma_leaf_token(t, mode);
            assert(normalized(t, JsonContext::Value, mode) == leaf(t, mode));
        },
        Json::Arr(items) => {
            let ti = text_items(items);
            let r = bracketed(ti);
            assert(r[0] == '[');
            assert(r.subrange(1, r.len() - 1) =~= ti);
            let e = Seq::<char>::empty();
            match items {
                Items::Nil(w) => {
                    assert(w + e =~= w);
                    assert forall|i: int| 0 <= i < w.len() implies crate::text::strips(
                        Strip::Wrapper,
                        #[trigger] w[i],
                    ) by {}
                    lemma_trim_strippable_prefix(w, e, Strip::Wrapper);
                    assert(trim(e, Strip::Wrapper) == e);
                    assert(interior(r) == e);
                    assert(e.subrange(0, 0) =~= e);
                    assert(trim(e, Strip::Element) == e);
                    assert(split(e, true) =~= seq![e]);
                    assert(leaf(e, mode) == e);
                    reveal_with_fuel(normalized_elements, 2);
                    assert(normalized(e, JsonContext::Value, mode) == e);
                    assert(normalized_elements(e, 1, mode) =~= seq![e]);
                    assert(join(seq![e]) == e);
                    assert(normalized(e, JsonContext::Array, mode) == e);
                    assert(render(coerced(j, mode)) =~= bracketed(e));
                },
                Items::Cons(_, _, _) => {
                    lemma_items_shape(items);
                    let core = items_core(items);
                    lemma_trim_padded(items_lead(items), core, items_trail(items), Strip::Wrapper);
                    assert(interior(r) == core);
                    lemma_split_strip_blanks(items_lead(items), core, items_trail(items), true);
                    lemma_split_items(items);
                    let n = split(core, true).len();
                    lemma_normalized_elements_map(core, n, mode);
                    assert(split(core, true).take(n as int) =~= item_texts(items));
                    lemma_items_round_trip(items, mode);
                    assert(normalized_elements(core, n, mode) =~= item_texts(items).map_values(
                        |e: Seq<char>| normalized(e, JsonContext::Value, mode),
                    ));
                    assert(normalized(core, JsonContext::Array, mode) == render_items(
                        coerced_items(items, mode),
                    ));
                    assert(normalized(r, JsonContext::Value, mode) == bracketed(
                        normalized(core, JsonContext::Array, mode),
                    ));
                },
            }
        },
        Json::Obj(members) => {
            let tm = text_members(members);
            let r = braced(tm);
            assert(r[0] == '{');
            assert(r.subrange(1, r.len() - 1) =~= tm);
            let e = Seq::<char>::empty();
            match members {
                Members::Nil(w) => {
                    assert(w + e =~= w);
                    assert forall|i: int| 0 <= i < w.len() implies crate::text::strips(
                        Strip::Wrapper,
                        #[trigger] w[i],
                    ) by {}
                    lemma_trim_strippable_prefix(w, e, Strip::Wrapper);
                    assert(trim(e, Strip::Wrapper) == e);
                    assert(interior(r) == e);
                    assert(e.subrange(0, 0) =~= e);
                    assert(trim(e, Strip::Comma) == e);
                    assert(split(e, false) =~= seq![e]);
                    assert(normalized_pair(e, mode) is None);
                    reveal_with_fuel(normalized_pairs, 2);
                    assert(normalized_pairs(e, 1, mode) =~= Seq::<Seq<char>>::empty());
                    assert(join(Seq::<Seq<char>>::empty()) == e);
                    assert(normalized(e, JsonContext::Object, mode) == e);
                    assert(render(coerced(j, mode)) =~= braced(e));
                },
                Members::Cons(_, _, _, _, _) => {
                    lemma_members_shape(members);
                    let core = members_core(members);
                    lemma_trim_padded(
                        members_lead(members),
                        core,
                        members_trail(members),
                        Strip::Wrapper,
                    );
                    assert(interior(r) == core);
                    assert(!delimited(core, '[', ']'));
                    lemma_split_strip_blanks(members_lead(members), core, members_trail(members), false);
                    lemma_split_members(members);
                    let n = split(core, false).len();
                    lemma_members_round_trip(members, mode);
                    lemma_normalized_pairs_map(core, n, mode);
                    assert(split(core, false).take(n as int) =~= member_cores(members));
                    assert(normalized_pairs(core, n, mode) =~= member_cores(members).map_values(
                        |e: Seq<char>| pair_or_empty(e, mode),
                    ));
                    assert(normalized(core, JsonContext::Object, mode) == render_members(
                        coerced_members(members, mode),
                    ));
                    assert(normalized(r, JsonContext::Value, mode) == braced(
                        normalized(core, JsonContext::Object, mode),
                    ));
                },
            }
        },
    }
}

proof fn lemma_items_round_trip(items: Items, mode: Mode)
    requires
        wf_items(items),
        items is Cons,
    ensures
        join(item_texts(items).map_values(|e: Seq<char>| normalized(e, JsonContext::Value, mode)))
            == render_items(coerced_items(items, mode)),
    decreases items, 1nat,
{
    match items {
        Items::Nil(_) => {},
        Items::Cons(_, h, rest) => {
            let f = |e: Seq<char>| normalized(e, JsonContext::Value, mode);
            law_document_round_trip(*h, mode);
            let tail = item_texts(*rest).map_values(f);
            assert(item_texts(items).map_values(f) =~= seq![f(text(*h))] + tail);
            lemma_join_front(f(text(*h)), tail);
            match *rest {
                Items::Nil(_) => {
                    assert(tail =~= Seq::<Seq<char>>::empty());
                },
                Items::Cons(_, _, _) => {
                    lemma_items_round_trip(*rest, mode);
                    assert(tail.len() >= 1);
                },
            }
        },
    }
}

proof fn lemma_member_round_trip(kp: Pad, k: Seq<char>, vp: Pad, v: Json, mode: Mode)
    requires
        pad_ok(kp),
        string_body(k),
        pad_ok(vp),
        wf(v),
    ensures
        normalized_pair(member_core(kp, k, vp, text(v)), mode) == Some(
            canonical_member(k, render(coerced(v, mode))),
        ),
    decreases v, 2nat,
{
    let tv = text(v);
    let a = member_core(kp, k, vp, tv);
    let c = k.len() + 2 + kp.after.len() as int;
    let e = Seq::<char>::empty();
    lemma_member_colon(kp, k, vp, tv);
    assert(a.subrange(0, c) =~= e + quoted(k) + kp.after);
    assert(quoted(k)[0] == '"' && quoted(k).last() == '"');
    lemma_trim_padded(e, quoted(k), kp.after, Strip::Blank);
    assert(key_text(a.subrange(0, c)) == quoted(k));
    assert(a.subrange(c + 1, a.len() as int) =~= vp.before + tv + e);
    lemma_text_firm(v);
    lemma_trim_padded(vp.before, tv, e, Strip::Comma);
    law_document_round_trip(v, mode);
}

proof fn lemma_members_round_trip(members: Members, mode: Mode)
    requires
        wf_members(members),
        members is Cons,
    ensures
        forall|i: int|
            0 <= i < member_cores(members).len() ==> (#[trigger] normalized_pair(
                member_cores(members)[i],
                mode,
            )) is Some,
        join(member_cores(members).map_values(|e: Seq<char>| pair_or_empty(e, mode)))
            == render_members(coerced_members(members, mode)),
    decreases members, 1nat,
{
    match members {
        Members::Nil(_) => {},
        Members::Cons(kp, k, vp, v, rest) => {
            let f = |e: Seq<char>| pair_or_empty(e, mode);
            let a = member_core(kp, k, vp, text(*v));
            lemma_member_round_trip(kp, k, vp, *v, mode);
            let tail = member_cores(*rest).map_values(f);
            assert(member_cores(members).map_values(f) =~= seq![f(a)] + tail);
            lemma_join_front(f(a), tail);
            match *rest {
                Members::Nil(_) => {
                    assert(tail =~= Seq::<Seq<char>>::empty());
                    assert(member_cores(members) =~= seq![a]);
                },
                Members::Cons(_, _, _, _, _) => {
                    lemma_members_round_trip(*rest, mode);
                    assert(tail.len() >= 1);
                    assert forall|i: int| 0 <= i < member_cores(members).len() implies (
                    #[trigger] normalized_pair(member_cores(members)[i], mode)) is Some by {
                        if i > 0 {
                            assert(member_cores(members)[i] == member_cores(*rest)[i - 1]);
                        }
                    }
                },
            }
        },
    }
}

/// The value entry point, given the text of a well-formed document with any
/// blanks around it, returns the canonical text of the coerced document.
pub proof fn law_entry_round_trip(j: Json, before: Seq<char>, after: Seq<char>, mode: Mode)
    requires
        wf(j),
        blanks(before),
        blanks(after),
    ensures
        prepared(before + text(j) + after, false, mode) == render(coerced(j, mode)),
{
    lemma_text_firm(j);
    lemma_trim_padded(before, text(j), after, Strip::Wrapper);
    lemma_prepared_is_value(before + text(j) + after, false, mode);
    law_document_round_trip(j, mode);
}

/// Normalizing the canonical text of a well-formed document gives the
/// canonical text of the coerced document.
pub proof fn law_canonical_round_trip(j: Json, mode: Mode)
    requires
        wf(j),
    ensures
        normalized(render(j), JsonContext::Value, mode) == render(coerced(j, mode)),
        prepared(render(j), false, mode) == render(coerced(j, mode)),
{
    lemma_canonical(j, mode);
    let c = canonical(j);
    law_document_round_trip(c, mode);
    lemma_canonical(coerced(j, mode), mode);
    lemma_text_firm(c);
    lemma_trim_padded(Seq::empty(), render(j), Seq::empty(), Strip::Wrapper);
    assert(Seq::<char>::empty() + render(j) + Seq::<char>::empty() =~= render(j));
    lemma_prepared_is_value(render(j), false, mode);
}

/// Canonical text is left byte for byte as it is, by the normalizer and by
/// the entry points: that of a well-formed document whose bare tokens the
/// mode keeps (booleans and numbers in the type-preserving mode, none in the
/// stringified mode).
pub proof fn law_canonical_text_is_fixed(j: Json, mode: Mode)
    requires
        wf(j),
        tokens_kept(j, mode),
    ensures
        normalized(render(j), JsonContext::Value, mode) == render(j),
        prepared(render(j), false, mode) == render(j),
        j is Arr ==> prepared(render(j), true, mode) == render(j),
{
    law_canonical_round_trip(j, mode);
    lemma_coerced_kept(j, mode);
    lemma_canonical(j, mode);
    lemma_text_firm(canonical(j));
    lemma_trim_padded(Seq::empty(), render(j), Seq::empty(), Strip::Wrapper);
    assert(Seq::<char>::empty() + render(j) + Seq::<char>::empty() =~= render(j));
    lemma_prepared_is_value(render(j), true, mode);
}

/// Normalizing the output for a well-formed document once more changes
/// nothing, through the normalizer and through the value entry point.
pub proof fn law_normalizing_twice_is_normalizing_once(j: Json, mode: Mode)
    requires
        wf(j),
    ensures
        normalized(normalized(text(j), JsonContext::Value, mode), JsonContext::Value, mode)
            == normalized(text(j), JsonContext::Value, mode),
        prepared(prepared(text(j), false, mode), false, mode) == prepared(text(j), false, mode),
{
    law_document_round_trip(j, mode);
    lemma_coerced_wf(j, mode);
    let c = coerced(j, mode);
    law_canonical_round_trip(c, mode);
    assert(Seq::<char>::empty() + text(j) + Seq::<char>::empty() =~= text(j));
    law_entry_round_trip(j, Seq::empty(), Seq::empty(), mode);
}

/// In the stringified mode the output document holds no bare token: every
/// scalar is a string.
pub proof fn law_stringified_output_has_only_strings(j: Json)
    requires
        wf(j),
    ensures
        tokens_kept(coerced(j, Mode::Stringified), Mode::Stringified),
    decreases j,
{
    match j {
        Json::Arr(items) => lemma_stringified_items(items),
        Json::Obj(members) => lemma_stringified_members(members),
        _ => {},
    }
}

proof fn lemma_stringified_items(items: Items)
    requires
        wf_items(items),
    ensures
        items_kept(coerced_items(items, Mode::Stringified), Mode::Stringified),
    decreases items,
{
    match items {
        Items::Nil(_) => {},
        Items::Cons(_, h, rest) => {
            law_stringified_output_has_only_strings(*h);
            lemma_stringified_items(*rest);
        },
    }
}

proof fn lemma_stringified_members(members: Members)
    requires
        wf_members(members),
    ensures
        members_kept(coerced_members(members, Mode::Stringified), Mode::Stringified),
    decreases members,
{
    match members {
        Members::Nil(_) => {},
        Members::Cons(_, _, _, v, rest) => {
            law_stringified_output_has_only_strings(*v);
            lemma_stringified_members(*rest);
        },
    }
}

} // verus!
