//! What is read out of JSON documents.

use crate::json::{texts_among, with_field, Json};
use crate::laws::{lemma_picks_last, lemma_picks_nothing, picks};
use crate::text::{trimmed, white_space};
use vstd::prelude::*;

verus! {

/// The text of a member is given as it stands, unless there is nothing but white space in it.
pub proof fn law_text_is_read_as_it_stands(
    fields: Map<Seq<char>, Json>,
    key: Seq<char>,
    text: Seq<char>,
)
    requires
        fields.contains_key(key),
        fields[key] == Json::Text(text),
    ensures
        (exists|i: int| 0 <= i < text.len() && !white_space(#[trigger] text[i]))
            <==> Json::Fields(fields).text_at(key) == Some(text),
        (forall|i: int| 0 <= i < text.len() ==> white_space(#[trigger] text[i]))
            <==> Json::Fields(fields).text_at(key) is None,
{
    lemma_trimmed_is_empty(text);
}

proof fn lemma_trimmed_is_empty(s: Seq<char>)
    ensures
        trimmed(s).len() == 0 <==> (forall|i: int|
            0 <= i < s.len() ==> white_space(#[trigger] s[i])),
    decreases s.len(),
{
    let blank = |c: char| white_space(c);
    if s.len() > 0 {
        if white_space(s[0]) {
            lemma_trimmed_is_empty(s.skip(1));
            if forall|i: int| 0 <= i < s.skip(1).len() ==> white_space(#[trigger] s.skip(1)[i]) {
                assert forall|i: int| 0 <= i < s.len() implies white_space(#[trigger] s[i]) by {
                    if i > 0 {
                        assert(s.skip(1)[i - 1] == s[i]);
                    }
                }
            }
        } else {
            lemma_kept_start(s, blank);
        }
    }
}

proof fn lemma_kept_start(s: Seq<char>, drop: spec_fn(char) -> bool)
    requires
        s.len() > 0,
        !drop(s[0]),
    ensures
        crate::text::without_trailing(s, drop).len() > 0,
    decreases s.len(),
{
    if s.len() > 1 && drop(s.last()) {
        lemma_kept_start(s.drop_last(), drop);
    }
}

/// A document that is no object, or lacks a member, or has another kind of value there, gives
/// neither a text nor a number nor a list.
pub proof fn law_other_members_give_nothing(document: Json, key: Seq<char>)
    ensures
        !(document is Fields) ==> document.field(key) is None,
        document is Fields ==> document.field(key) == (if document->Fields_0.contains_key(key) {
            Some(document->Fields_0[key])
        } else {
            None
        }),
        !(document.field(key) matches Some(Json::Text(_))) ==> document.text_at(key) is None
            && document.string_at(key) is None,
        !(document.field(key) matches Some(Json::Integer(_))) ==> document.integer_at(key) is None,
        !(document.field(key) matches Some(Json::List(_))) ==> document.list_at(key) is None
            && document.texts_at(key).len() == 0,
{
}

/// Texts, whole numbers within range and lists are read as they stand.
pub proof fn law_members_are_read_as_they_stand(document: Json, key: Seq<char>)
    ensures
        document.field(key) matches Some(Json::Text(text)) ==> document.string_at(key) == Some(
            text,
        ),
        document.field(key) matches Some(Json::Integer(n)) ==> (match document.integer_at(key) {
            Some(m) => m == n,
            None => n < i64::MIN || i64::MAX < n,
        }),
        document.field(key) matches Some(Json::List(items)) ==> document.list_at(key) == Some(
            items,
        ) && document.texts_at(key) == texts_among(items),
{
}

/// Picks the texts.
pub open spec fn text_pick() -> spec_fn(Json) -> Option<Seq<char>> {
    |item: Json|
        match item {
            Json::Text(text) => Some(text),
            _ => None,
        }
}

/// The texts in a list are all its texts, in their order.
pub proof fn law_texts_are_picked_in_order(items: Seq<Json>)
    ensures
        picks(items, texts_among(items), text_pick()),
    decreases items.len(),
{
    if items.len() == 0 {
        lemma_picks_nothing(items, texts_among(items), text_pick());
    } else {
        law_texts_are_picked_in_order(items.drop_last());
        lemma_picks_last(items, texts_among(items.drop_last()), text_pick());
    }
}

/// Setting a member of an object sets that member and leaves the others.
pub proof fn law_setting_a_member_sets_it_alone(
    document: Json,
    key: Seq<char>,
    value: Json,
    other: Seq<char>,
)
    ensures
        document is Fields ==> with_field(document, key, value).field(key) == Some(value),
        other != key ==> with_field(document, key, value).field(other) == document.field(other),
        !(document is Fields) ==> with_field(document, key, value) == document,
{
}

} // verus!
