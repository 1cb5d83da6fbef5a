//! JSON documents as compact text.

use crate::decimal::{integer_text, natural_text, write_integer};
use crate::json::{
    lemma_last_entry, lemma_members_finite, lemma_models, lemma_no_entry, members, models, Json,
    Number, Object, Value,
};
use crate::ordering::{law_sorting_keeps_items, law_sorting_orders, law_sorting_repeats_none};
use crate::queries::{add_distinct, by_text, sort_texts};
use crate::text::{
    joined, lemma_before_irreflexive, lemma_before_total, lemma_before_transitive, text_before,
    texts,
};
use vstd::prelude::*;

verus! {

/// A character inside a JSON string.
pub open spec fn escaped(c: char) -> Seq<char> {
    if c == '"' || c == '\\' {
        seq!['\\', c]
    } else if c == '\u{8}' {
        seq!['\\', 'b']
    } else if c == '\u{9}' {
        seq!['\\', 't']
    } else if c == '\u{a}' {
        seq!['\\', 'n']
    } else if c == '\u{c}' {
        seq!['\\', 'f']
    } else if c == '\u{d}' {
        seq!['\\', 'r']
    } else if c as int <= 0x1f {
        seq!['\\', 'u', '0', '0', low_hex_digit(c as int / 16), low_hex_digit(c as int % 16)]
    } else {
        seq![c]
    }
}

/// A hexadecimal digit in lower case.
pub open spec fn low_hex_digit(n: int) -> char {
    if n < 10 {
        (48 + n) as char
    } else {
        (87 + n) as char
    }
}

/// The characters of a text inside a JSON string.
pub open spec fn all_escaped(text: Seq<char>) -> Seq<char>
    decreases text.len(),
{
    if text.len() == 0 {
        Seq::empty()
    } else {
        all_escaped(text.drop_last()) + escaped(text.last())
    }
}

/// A text as a JSON string.
pub open spec fn quoted(text: Seq<char>) -> Seq<char> {
    seq!['"'] + all_escaped(text) + seq!['"']
}

/// Calls `serde_json::to_string` on a string, which always succeeds: it puts the text in quotation
/// marks and escapes quotation marks, backslashes and control characters.
#[verifier::external_body]
pub(crate) fn quote(text: &str) -> (literal: String)
    ensures
        literal@ == quoted(text@),
{
    serde_json::to_string(text).unwrap()
}

/// Keys stand in ascending order, none twice.
pub open spec fn ascending(keys: Seq<Seq<char>>) -> bool {
    forall|i: int, j: int|
        0 <= i < j < keys.len() ==> text_before(#[trigger] keys[i], #[trigger] keys[j])
}

/// The keys of the members, in ascending order.
pub open spec fn lists_keys(keys: Seq<Seq<char>>, fields: Map<Seq<char>, Json>) -> bool {
    &&& ascending(keys)
    &&& forall|key: Seq<char>| #[trigger] keys.contains(key) == fields.contains_key(key)
}

/// The order in which members are written.
pub open spec fn key_order(fields: Map<Seq<char>, Json>) -> Seq<Seq<char>> {
    choose|keys: Seq<Seq<char>>| lists_keys(keys, fields)
}

/// A document as text without white space, the members of objects in the order of their keys.
pub open spec fn compact(document: Json) -> Seq<char>
    decreases document,
{
    match document {
        Json::Null => "null"@,
        Json::Bool(b) => if b {
            "true"@
        } else {
            "false"@
        },
        Json::Integer(n) => integer_text(n),
        Json::Float(text) => text,
        Json::Text(text) => quoted(text),
        Json::List(items) => "["@ + joined(item_texts(items), ","@) + "]"@,
        Json::Fields(fields) => "{"@ + joined(member_texts(fields, key_order(fields)), ","@)
            + "}"@,
    }
}

/// Documents as texts, one by one.
pub open spec fn item_texts(items: Seq<Json>) -> Seq<Seq<char>>
    decreases items,
{
    if items.len() == 0 {
        Seq::empty()
    } else {
        item_texts(items.drop_last()).push(compact(items.last()))
    }
}

/// Members as texts, one by one, of an object that has finitely many.
pub open spec fn member_texts(fields: Map<Seq<char>, Json>, keys: Seq<Seq<char>>) -> Seq<Seq<char>>
    decreases fields, keys.len(),
{
    if keys.len() == 0 {
        Seq::empty()
    } else {
        let key = keys.last();
        member_texts(fields, keys.drop_last()).push(
            if fields.dom().finite() && fields.contains_key(key) {
                quoted(key) + ":"@ + compact(fields[key])
            } else {
                Seq::empty()
            },
        )
    }
}

/// Keys that are the same stand in one ascending order only.
proof fn lemma_one_order(a: Seq<Seq<char>>, b: Seq<Seq<char>>)
    requires
        ascending(a),
        ascending(b),
        forall|key: Seq<char>| #[trigger] a.contains(key) == b.contains(key),
    ensures
        a == b,
    decreases a.len(),
{
    if a.len() == 0 {
        if b.len() > 0 {
            assert(b.contains(b[0]));
            assert(a.contains(b[0]));
        }
    } else {
        assert(a.contains(a.last()));
        assert(b.contains(a.last()));
        let j = choose|j: int| 0 <= j < b.len() && b[j] == a.last();
        assert(b.contains(b.last()));
        assert(a.contains(b.last()));
        let i = choose|i: int| 0 <= i < a.len() && a[i] == b.last();
        if i < a.len() - 1 && j < b.len() - 1 {
            assert(text_before(a[i], a[a.len() - 1]));
            assert(text_before(b[j], b[b.len() - 1]));
            lemma_before_transitive(a.last(), b.last(), a.last());
            lemma_before_irreflexive(a.last());
        }
        lemma_before_irreflexive(a.last());
        assert(a.last() == b.last());
        let shorter_a = a.drop_last();
        let shorter_b = b.drop_last();
        assert(ascending(shorter_a));
        assert(ascending(shorter_b));
        assert forall|key: Seq<char>| #[trigger]
            shorter_a.contains(key) == shorter_b.contains(key) by {
            if shorter_a.contains(key) {
                let k = choose|k: int| 0 <= k < shorter_a.len() && shorter_a[k] == key;
                assert(a[k] == key);
                assert(text_before(a[k], a[a.len() - 1]));
                assert(a.contains(key));
                let m = choose|m: int| 0 <= m < b.len() && b[m] == key;
                if m < b.len() - 1 {
                    assert(shorter_b[m] == key);
                }
            }
            if shorter_b.contains(key) {
                let k = choose|k: int| 0 <= k < shorter_b.len() && shorter_b[k] == key;
                assert(b[k] == key);
                assert(text_before(b[k], b[b.len() - 1]));
                assert(b.contains(key));
                assert(a.contains(key));
                let m = choose|m: int| 0 <= m < a.len() && a[m] == key;
                if m < a.len() - 1 {
                    assert(shorter_a[m] == key);
                }
            }
        }
        lemma_one_order(shorter_a, shorter_b);
        assert(a =~= shorter_a.push(a.last()));
        assert(b =~= shorter_b.push(b.last()));
    }
}

/// The keys of an object, in ascending order.
fn ordered_keys(object: &Object) -> (keys: Vec<String>)
    ensures
        texts(keys@) == key_order(object@),
        lists_keys(key_order(object@), object@),
{
    let ghost entries = object.entries@;
    let mut found: Vec<String> = Vec::new();
    let mut i: usize = 0;
    while i < object.entries.len()
        invariant
            entries == object.entries@,
            i <= entries.len(),
            texts(found@).no_duplicates(),
            forall|key: Seq<char>| #[trigger]
                texts(found@).contains(key) == members(entries.take(i as int)).contains_key(key),
        decreases entries.len() - i,
    {
        let ghost before = texts(found@);
        let ghost fresh = entries[i as int].0@;
        proof {
            assert(entries.take(i + 1).drop_last() =~= entries.take(i as int));
        }
        add_distinct(&mut found, object.entries[i].0.clone());
        proof {
            assert forall|key: Seq<char>| #[trigger] texts(found@).contains(key) == members(
                entries.take(i + 1),
            ).contains_key(key) by {
                assert(before.contains(key) == members(entries.take(i as int)).contains_key(key));
                if before.contains(key) {
                    let k = choose|k: int| 0 <= k < before.len() && before[k] == key;
                    assert(texts(found@)[k] == key);
                }
                if key == fresh && !before.contains(key) {
                    assert(texts(found@)[before.len() as int] == key);
                }
            }
        }
        i = i + 1;
    }
    assert(entries.take(i as int) =~= entries);
    let keys = sort_texts(&found);
    proof {
        let all = texts(found@);
        let sorted = texts(keys@);
        law_sorting_orders(all, by_text());
        law_sorting_keeps_items(all, by_text());
        law_sorting_repeats_none(all, by_text());
        assert forall|i: int, j: int| 0 <= i < j < sorted.len() implies text_before(
            #[trigger] sorted[i],
            #[trigger] sorted[j],
        ) by {
            assert(sorted[i] != sorted[j]);
            lemma_before_total(sorted[i], sorted[j]);
        }
        assert forall|key: Seq<char>| #[trigger] sorted.contains(key) == object@.contains_key(
            key,
        ) by {
            assert(all.contains(key) == object@.contains_key(key));
        }
        assert(lists_keys(sorted, object@));
        lemma_one_order(sorted, key_order(object@));
    }
    keys
}

/// Adds a part to parts in one, with a comma before it unless it is the first.
fn with_part(
    text: String,
    part: &str,
    Ghost(parts): Ghost<Seq<Seq<char>>>,
    first: bool,
) -> (all: String)
    requires
        text@ == joined(parts, ","@),
        first == (parts.len() == 0),
    ensures
        all@ == joined(parts.push(part@), ","@),
{
    assert(parts.push(part@).drop_last() =~= parts);
    if first {
        part.to_owned()
    } else {
        text.concat(",").concat(part)
    }
}

/// Writes a document as text without white space, the members of objects in the order of their
/// keys.
pub fn compact_text(value: &Value) -> (text: String)
    ensures
        text@ == compact(value@),
    decreases value,
{
    match value {
        Value::Null => "null".to_owned(),
        Value::Bool(b) => if *b {
            "true".to_owned()
        } else {
            "false".to_owned()
        },
        Value::Number(Number::PosInt(n)) => natural_text(*n),
        Value::Number(Number::NegInt(n)) => write_integer(*n),
        Value::Number(Number::Float(digits)) => digits.clone(),
        Value::String(text) => quote(text.as_str()),
        Value::Array(items) => {
            let ghost documents = models(items@);
            let mut text: String = String::new();
            let mut i: usize = 0;
            assert(text@ =~= joined(item_texts(documents.take(0)), ","@));
            while i < items.len()
                invariant
                    *value == Value::Array(*items),
                    documents == models(items@),
                    i <= items@.len(),
                    text@ == joined(item_texts(documents.take(i as int)), ","@),
                    item_texts(documents.take(i as int)).len() == i,
                decreases items@.len() - i,
            {
                proof {
                    lemma_models(items@);
                    assert(decreases_to!(value => value->Array_0));
                    assert(decreases_to!(value->Array_0 => value->Array_0@));
                    assert(decreases_to!(value->Array_0@ => value->Array_0@[i as int]));
                    assert(documents.take(i + 1).drop_last() =~= documents.take(i as int));
                }
                let part = compact_text(&items[i]);
                let ghost before = item_texts(documents.take(i as int));
                text = with_part(text, part.as_str(), Ghost(before), i == 0);
                i = i + 1;
            }
            proof {
                lemma_models(items@);
                assert(documents.take(i as int) =~= documents);
            }
            "[".to_owned().concat(text.as_str()).concat("]")
        },
        Value::Object(object) => {
            let keys = ordered_keys(object);
            let ghost all = texts(keys@);
            let mut text: String = String::new();
            let mut i: usize = 0;
            proof {
                lemma_members_finite(object.entries@);
            }
            assert(text@ =~= joined(member_texts(object@, all.take(0)), ","@));
            while i < keys.len()
                invariant
                    *value == Value::Object(*object),
                    all == texts(keys@),
                    lists_keys(all, object@),
                    object@.dom().finite(),
                    i <= keys@.len(),
                    text@ == joined(member_texts(object@, all.take(i as int)), ","@),
                    member_texts(object@, all.take(i as int)).len() == i,
                decreases keys@.len() - i,
            {
                proof {
                    assert(all.take(i + 1).drop_last() =~= all.take(i as int));
                    assert(all.contains(all[i as int]));
                }
                if let Some(at) = object.find(keys[i].as_str()) {
                    proof {
                        let entries = value->Object_0.entries;
                        assert(decreases_to!(value => value->Object_0));
                        assert(decreases_to!(value->Object_0 => value->Object_0.entries));
                        assert(decreases_to!(entries => entries@));
                        assert(decreases_to!(entries@ => entries@[at as int]));
                        assert(decreases_to!(entries@[at as int] => entries@[at as int].1));
                        lemma_last_entry(entries@, all[i as int], at as int);
                    }
                    let member = compact_text(&object.entries[at].1);
                    let part = quote(keys[i].as_str()).concat(":").concat(member.as_str());
                    let ghost before = member_texts(object@, all.take(i as int));
                    text = with_part(text, part.as_str(), Ghost(before), i == 0);
                } else {
                    proof {
                        lemma_no_entry(object.entries@, all[i as int]);
                    }
                }
                i = i + 1;
            }
            assert(all.take(i as int) =~= all);
            "{".to_owned().concat(text.as_str()).concat("}")
        },
    }
}

proof fn lemma_item_texts(items: Seq<Json>)
    ensures
        item_texts(items).len() == items.len(),
        forall|i: int|
            0 <= i < items.len() ==> #[trigger] item_texts(items)[i] == compact(items[i]),
    decreases items.len(),
{
    if items.len() > 0 {
        lemma_item_texts(items.drop_last());
    }
}

/// A list is written as its items between brackets, with commas between them.
pub proof fn law_lists_are_written_item_by_item(items: Seq<Json>, written: Seq<Seq<char>>)
    requires
        written.len() == items.len(),
        forall|i: int| 0 <= i < items.len() ==> #[trigger] written[i] == compact(items[i]),
    ensures
        compact(Json::List(items)) == "["@ + joined(written, ","@) + "]"@,
{
    lemma_item_texts(items);
    assert(item_texts(items) =~= written);
}

proof fn lemma_member_texts(fields: Map<Seq<char>, Json>, keys: Seq<Seq<char>>)
    requires
        fields.dom().finite(),
        forall|i: int| 0 <= i < keys.len() ==> fields.contains_key(#[trigger] keys[i]),
    ensures
        member_texts(fields, keys).len() == keys.len(),
        forall|i: int|
            0 <= i < keys.len() ==> #[trigger] member_texts(fields, keys)[i] == quoted(keys[i])
                + ":"@ + compact(fields[keys[i]]),
    decreases keys.len(),
{
    if keys.len() > 0 {
        let shorter = keys.drop_last();
        assert(fields.contains_key(keys[keys.len() - 1]));
        assert forall|i: int| 0 <= i < shorter.len() implies fields.contains_key(
            #[trigger] shorter[i],
        ) by {
            assert(shorter[i] == keys[i]);
        }
        lemma_member_texts(fields, shorter);
        assert forall|i: int| 0 <= i < keys.len() implies #[trigger] member_texts(fields, keys)[i]
            == quoted(keys[i]) + ":"@ + compact(fields[keys[i]]) by {
            if i < shorter.len() {
                assert(member_texts(fields, keys)[i] == member_texts(fields, shorter)[i]);
            }
        }
    }
}

/// An object is written as its members between braces, in the order of their keys and with commas
/// between them, each as its key in quotation marks, a colon and its value.
pub proof fn law_objects_are_written_member_by_member(
    fields: Map<Seq<char>, Json>,
    keys: Seq<Seq<char>>,
    written: Seq<Seq<char>>,
)
    requires
        fields.dom().finite(),
        forall|i: int, j: int|
            0 <= i < j < keys.len() ==> text_before(#[trigger] keys[i], #[trigger] keys[j]),
        forall|key: Seq<char>| #[trigger] keys.contains(key) == fields.contains_key(key),
        written.len() == keys.len(),
        forall|i: int|
            0 <= i < keys.len() ==> #[trigger] written[i] == quoted(keys[i]) + ":"@ + compact(
                fields[keys[i]],
            ),
    ensures
        compact(Json::Fields(fields)) == "{"@ + joined(written, ","@) + "}"@,
{
    assert(lists_keys(keys, fields));
    lemma_one_order(keys, key_order(fields));
    assert forall|i: int| 0 <= i < keys.len() implies fields.contains_key(#[trigger] keys[i]) by {
        assert(keys.contains(keys[i]));
    }
    lemma_member_texts(fields, keys);
    assert(member_texts(fields, keys) =~= written);
}

/// What is neither a list nor an object is written as JSON writes it.
pub proof fn law_plain_values_are_written_plainly(n: int, text: Seq<char>)
    ensures
        compact(Json::Null) == "null"@,
        compact(Json::Bool(true)) == "true"@,
        compact(Json::Bool(false)) == "false"@,
        compact(Json::Integer(n)) == integer_text(n),
        compact(Json::Float(text)) == text,
        compact(Json::Text(text)) == quoted(text),
{
}

} // verus!
