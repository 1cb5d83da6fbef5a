//! JSON documents: the values that upstream catalogues exchange, and their mathematical model.

use crate::text::{is_blank, same_text, texts, trim};
use vstd::prelude::*;

verus! {

/// What a JSON document says, whatever way it is held in memory.
pub enum Json {
    Null,
    Bool(bool),
    /// A number without fraction or exponent.
    Integer(int),
    /// Any other number, by the digits it is written with.
    Float(Seq<char>),
    Text(Seq<char>),
    List(Seq<Json>),
    Fields(Map<Seq<char>, Json>),
}

/// A JSON number.
#[derive(Debug)]
pub enum Number {
    PosInt(u64),
    NegInt(i64),
    /// A number with a fraction or an exponent, as it is written.
    Float(String),
}

/// The members of a JSON object. Where a key occurs twice, the later member counts.
#[derive(Debug)]
pub struct Object {
    pub entries: Vec<(String, Value)>,
}

/// A JSON document.
#[derive(Debug)]
pub enum Value {
    Null,
    Bool(bool),
    Number(Number),
    String(String),
    Array(Vec<Value>),
    Object(Object),
}

impl View for Number {
    type V = Json;

    open spec fn view(&self) -> Json {
        match self {
            Number::PosInt(n) => Json::Integer(*n as int),
            Number::NegInt(n) => Json::Integer(*n as int),
            Number::Float(text) => Json::Float(text@),
        }
    }
}

/// The document that a value holds.
pub open spec fn model(value: Value) -> Json
    decreases value,
{
    match value {
        Value::Null => Json::Null,
        Value::Bool(b) => Json::Bool(b),
        Value::Number(n) => n@,
        Value::String(s) => Json::Text(s@),
        Value::Array(items) => Json::List(models(items@)),
        Value::Object(object) => Json::Fields(members(object.entries@)),
    }
}

/// The documents that a sequence of values holds.
pub open spec fn models(values: Seq<Value>) -> Seq<Json>
    decreases values,
{
    if values.len() == 0 {
        Seq::empty()
    } else {
        models(values.drop_last()).push(model(values.last()))
    }
}

/// The members that a sequence of entries holds, later entries replacing earlier ones.
pub open spec fn members(entries: Seq<(String, Value)>) -> Map<Seq<char>, Json>
    decreases entries,
{
    if entries.len() == 0 {
        Map::empty()
    } else {
        members(entries.drop_last()).insert(entries.last().0@, model(entries.last().1))
    }
}

impl View for Value {
    type V = Json;

    open spec fn view(&self) -> Json {
        model(*self)
    }
}

impl View for Object {
    type V = Map<Seq<char>, Json>;

    open spec fn view(&self) -> Map<Seq<char>, Json> {
        members(self.entries@)
    }
}

/// Each value of a sequence holds its own document.
pub proof fn lemma_models(values: Seq<Value>)
    ensures
        models(values).len() == values.len(),
        forall|i: int| 0 <= i < values.len() ==> #[trigger] models(values)[i] == model(values[i]),
    decreases values.len(),
{
    if values.len() > 0 {
        lemma_models(values.drop_last());
    }
}

/// Adding a value adds its document.
pub proof fn lemma_models_push(values: Seq<Value>, value: Value)
    ensures
        models(values.push(value)) == models(values).push(model(value)),
{
    assert(values.push(value).drop_last() =~= values);
}

impl Clone for Value {
    fn clone(&self) -> (copy: Value)
        ensures
            copy@ == self@,
        decreases self,
    {
        match self {
            Value::Null => Value::Null,
            Value::Bool(b) => Value::Bool(*b),
            Value::Number(n) => Value::Number(n.clone()),
            Value::String(s) => Value::String(s.clone()),
            Value::Array(items) => {
                let mut copies: Vec<Value> = Vec::new();
                let mut i: usize = 0;
                while i < items.len()
                    invariant
                        i <= items.len(),
                        *self == Value::Array(*items),
                        copies@.len() == i,
                        models(copies@) == models(items@.take(i as int)),
                    decreases items.len() - i,
                {
                    proof {
                        assert(decreases_to!(self => self->Array_0));
                        assert(decreases_to!(self->Array_0 => self->Array_0@));
                        assert(decreases_to!(self->Array_0@ => self->Array_0@[i as int]));
                    }
                    let copy = items[i].clone();
                    let ghost before = copies@;
                    copies.push(copy);
                    proof {
                        assert(items@.take(i + 1).drop_last() =~= items@.take(i as int));
                        assert(copies@.drop_last() =~= before);
                    }
                    i = i + 1;
                }
                assert(items@.take(i as int) =~= items@);
                Value::Array(copies)
            },
            Value::Object(object) => {
                let mut copies: Vec<(String, Value)> = Vec::new();
                let mut i: usize = 0;
                while i < object.entries.len()
                    invariant
                        i <= object.entries.len(),
                        *self == Value::Object(*object),
                        copies@.len() == i,
                        members(copies@) == members(object.entries@.take(i as int)),
                    decreases object.entries.len() - i,
                {
                    proof {
                        let entries = self->Object_0.entries;
                        assert(decreases_to!(self => self->Object_0));
                        assert(decreases_to!(self->Object_0 => self->Object_0.entries));
                        assert(decreases_to!(entries => entries@));
                        assert(decreases_to!(entries@ => entries@[i as int]));
                        assert(decreases_to!(entries@[i as int] => entries@[i as int].1));
                    }
                    let key = object.entries[i].0.clone();
                    let copy = object.entries[i].1.clone();
                    let ghost before = copies@;
                    copies.push((key, copy));
                    proof {
                        let entries = object.entries@;
                        assert(entries.take(i + 1).drop_last() =~= entries.take(i as int));
                        assert(copies@.drop_last() =~= before);
                    }
                    i = i + 1;
                }
                assert(object.entries@.take(i as int) =~= object.entries@);
                Value::Object(Object { entries: copies })
            },
        }
    }
}

impl Clone for Number {
    fn clone(&self) -> (copy: Number)
        ensures
            copy@ == self@,
    {
        match self {
            Number::PosInt(n) => Number::PosInt(*n),
            Number::NegInt(n) => Number::NegInt(*n),
            Number::Float(text) => Number::Float(text.clone()),
        }
    }
}

impl Json {
    /// The member of an object under a key.
    pub open spec fn field(self, key: Seq<char>) -> Option<Json> {
        match self {
            Json::Fields(fields) => if fields.contains_key(key) {
                Some(fields[key])
            } else {
                None
            },
            _ => None,
        }
    }

    pub open spec fn text(self) -> Option<Seq<char>> {
        match self {
            Json::Text(text) => Some(text),
            _ => None,
        }
    }

    /// The number, where it is whole and within the range of `i64`.
    pub open spec fn integer(self) -> Option<i64> {
        match self {
            Json::Integer(n) => if i64::MIN <= n <= i64::MAX {
                Some(n as i64)
            } else {
                None
            },
            _ => None,
        }
    }

    pub open spec fn list(self) -> Option<Seq<Json>> {
        match self {
            Json::List(items) => Some(items),
            _ => None,
        }
    }

    /// The text of a member, blank or not.
    pub open spec fn string_at(self, key: Seq<char>) -> Option<Seq<char>> {
        match self.field(key) {
            Some(value) => value.text(),
            None => None,
        }
    }

    /// The text of a member that is not blank.
    pub open spec fn text_at(self, key: Seq<char>) -> Option<Seq<char>> {
        match self.field(key) {
            Some(Json::Text(text)) => if is_blank(text) {
                None
            } else {
                Some(text)
            },
            _ => None,
        }
    }

    /// The text of a member that is not blank, or nothing.
    pub open spec fn text_or_empty(self, key: Seq<char>) -> Seq<char> {
        match self.text_at(key) {
            Some(text) => text,
            None => Seq::empty(),
        }
    }

    /// The whole number that a member holds.
    pub open spec fn integer_at(self, key: Seq<char>) -> Option<i64> {
        match self.field(key) {
            Some(value) => value.integer(),
            None => None,
        }
    }

    /// The items of a member that is a list.
    pub open spec fn list_at(self, key: Seq<char>) -> Option<Seq<Json>> {
        match self.field(key) {
            Some(value) => value.list(),
            None => None,
        }
    }

    /// The texts in a member that is a list.
    pub open spec fn texts_at(self, key: Seq<char>) -> Seq<Seq<char>> {
        match self.list_at(key) {
            Some(items) => texts_among(items),
            None => Seq::empty(),
        }
    }
}

/// The texts among some documents, in their order.
pub open spec fn texts_among(items: Seq<Json>) -> Seq<Seq<char>>
    decreases items.len(),
{
    if items.len() == 0 {
        Seq::empty()
    } else {
        let before = texts_among(items.drop_last());
        match items.last() {
            Json::Text(text) => before.push(text),
            _ => before,
        }
    }
}

/// A number, or nothing.
pub open spec fn integer_or_null(n: Option<i64>) -> Json {
    match n {
        Some(n) => Json::Integer(n as int),
        None => Json::Null,
    }
}

/// A text, or nothing.
pub open spec fn text_or_null(text: Option<Seq<char>>) -> Json {
    match text {
        Some(text) => Json::Text(text),
        None => Json::Null,
    }
}

/// What an optional document says.
pub open spec fn held_reply(reply: Option<Value>) -> Option<Json> {
    match reply {
        Some(value) => Some(value@),
        None => None,
    }
}

/// What optional documents say.
pub open spec fn held_replies(replies: Seq<Option<Value>>) -> Seq<Option<Json>> {
    replies.map_values(|reply: Option<Value>| held_reply(reply))
}

/// A list of texts.
pub open spec fn text_list(items: Seq<Seq<char>>) -> Json {
    Json::List(items.map_values(|text: Seq<char>| Json::Text(text)))
}

/// Where an entry has the last occurrence of its key, it is the one that counts.
pub proof fn lemma_last_entry(entries: Seq<(String, Value)>, key: Seq<char>, i: int)
    requires
        0 <= i < entries.len(),
        entries[i].0@ == key,
        forall|j: int| i < j < entries.len() ==> (#[trigger] entries[j]).0@ != key,
    ensures
        members(entries).contains_key(key),
        members(entries)[key] == model(entries[i].1),
    decreases entries.len(),
{
    if i < entries.len() - 1 {
        assert(entries.last() == entries[entries.len() - 1]);
        assert forall|j: int| i < j < entries.drop_last().len() implies (
        #[trigger] entries.drop_last()[j]).0@ != key by {
            assert(entries.drop_last()[j] == entries[j]);
        }
        lemma_last_entry(entries.drop_last(), key, i);
    }
}

/// Entries hold finitely many members.
pub proof fn lemma_members_finite(entries: Seq<(String, Value)>)
    ensures
        members(entries).dom().finite(),
    decreases entries.len(),
{
    if entries.len() > 0 {
        lemma_members_finite(entries.drop_last());
    }
}

/// A key that no entry has is the key of no member.
pub proof fn lemma_no_entry(entries: Seq<(String, Value)>, key: Seq<char>)
    requires
        forall|j: int| 0 <= j < entries.len() ==> (#[trigger] entries[j]).0@ != key,
    ensures
        !members(entries).contains_key(key),
    decreases entries.len(),
{
    if entries.len() > 0 {
        assert forall|j: int| 0 <= j < entries.drop_last().len() implies (
        #[trigger] entries.drop_last()[j]).0@ != key by {
            assert(entries.drop_last()[j] == entries[j]);
        }
        lemma_no_entry(entries.drop_last(), key);
        assert(entries.last() == entries[entries.len() - 1]);
    }
}

proof fn lemma_replaced_entry(entries: Seq<(String, Value)>, i: int, entry: (String, Value))
    requires
        0 <= i < entries.len(),
        entries[i].0@ == entry.0@,
        forall|j: int| i < j < entries.len() ==> (#[trigger] entries[j]).0@ != entry.0@,
    ensures
        members(entries.update(i, entry)) == members(entries).insert(entry.0@, model(entry.1)),
    decreases entries.len(),
{
    let updated = entries.update(i, entry);
    if i == entries.len() - 1 {
        assert(updated.drop_last() =~= entries.drop_last());
        assert(members(updated) =~= members(entries).insert(entry.0@, model(entry.1)));
    } else {
        assert forall|j: int| i < j < entries.drop_last().len() implies (
        #[trigger] entries.drop_last()[j]).0@ != entry.0@ by {
            assert(entries.drop_last()[j] == entries[j]);
        }
        lemma_replaced_entry(entries.drop_last(), i, entry);
        assert(updated.drop_last() =~= entries.drop_last().update(i, entry));
        assert(entries.last() == entries[entries.len() - 1]);
        assert(members(updated) =~= members(entries).insert(entry.0@, model(entry.1)));
    }
}

impl Object {
    /// An object without members.
    pub fn new() -> (object: Object)
        ensures
            object@ == Map::<Seq<char>, Json>::empty(),
    {
        Object { entries: Vec::new() }
    }

    /// The position of the member under a key.
    pub(crate) fn find(&self, key: &str) -> (place: Option<usize>)
        ensures
            match place {
                Some(i) => {
                    &&& i < self.entries@.len()
                    &&& self.entries@[i as int].0@ == key@
                    &&& forall|j: int|
                        i < j < self.entries@.len() ==> (#[trigger] self.entries@[j]).0@ != key@
                },
                None => forall|j: int|
                    0 <= j < self.entries@.len() ==> (#[trigger] self.entries@[j]).0@ != key@,
            },
    {
        let mut i: usize = self.entries.len();
        while 0 < i
            invariant
                i <= self.entries@.len(),
                forall|j: int|
                    i <= j < self.entries@.len() ==> (#[trigger] self.entries@[j]).0@ != key@,
            decreases i,
        {
            i = i - 1;
            if same_text(self.entries[i].0.as_str(), key) {
                return Some(i);
            }
        }
        None
    }

    /// The member under a key.
    pub fn get(&self, key: &str) -> (member: Option<&Value>)
        ensures
            member is Some == self@.contains_key(key@),
            member matches Some(value) ==> value@ == self@[key@],
    {
        match self.find(key) {
            Some(i) => {
                proof {
                    lemma_last_entry(self.entries@, key@, i as int);
                }
                Some(&self.entries[i].1)
            },
            None => {
                proof {
                    lemma_no_entry(self.entries@, key@);
                }
                None
            },
        }
    }

    /// Sets the member under a key.
    pub fn insert(&mut self, key: &str, value: Value)
        ensures
            final(self)@ == old(self)@.insert(key@, value@),
    {
        let place = self.find(key);
        let entry = (key.to_owned(), value);
        match place {
            Some(i) => {
                proof {
                    lemma_replaced_entry(self.entries@, i as int, entry);
                }
                self.entries.set(i, entry);
            },
            None => {
                let ghost before = self.entries@;
                self.entries.push(entry);
                assert(self.entries@.drop_last() =~= before);
            },
        }
    }
}

impl Clone for Object {
    fn clone(&self) -> (copy: Object)
        ensures
            copy@ == self@,
    {
        let mut copies: Vec<(String, Value)> = Vec::new();
        let mut i: usize = 0;
        while i < self.entries.len()
            invariant
                i <= self.entries.len(),
                members(copies@) == members(self.entries@.take(i as int)),
            decreases self.entries.len() - i,
        {
            let key = self.entries[i].0.clone();
            let copy = self.entries[i].1.clone();
            let ghost before = copies@;
            copies.push((key, copy));
            proof {
                assert(self.entries@.take(i + 1).drop_last() =~= self.entries@.take(i as int));
                assert(copies@.drop_last() =~= before);
            }
            i = i + 1;
        }
        assert(self.entries@.take(i as int) =~= self.entries@);
        Object { entries: copies }
    }
}

impl Value {
    /// The member under a key, where the value is an object that has one.
    pub fn get(&self, key: &str) -> (member: Option<&Value>)
        ensures
            member is Some == self@.field(key@) is Some,
            member matches Some(value) ==> self@.field(key@) == Some(value@),
    {
        match self {
            Value::Object(object) => object.get(key),
            _ => None,
        }
    }

    pub fn as_str(&self) -> (text: Option<&str>)
        ensures
            text is Some == self@.text() is Some,
            text matches Some(t) ==> self@.text() == Some(t@),
    {
        match self {
            Value::String(text) => Some(text.as_str()),
            _ => None,
        }
    }

    /// The number, where it is whole and within range.
    pub fn as_i64(&self) -> (number: Option<i64>)
        ensures
            number == self@.integer(),
    {
        match self {
            Value::Number(Number::PosInt(n)) => if *n <= 0x7fff_ffff_ffff_ffff {
                Some(*n as i64)
            } else {
                None
            },
            Value::Number(Number::NegInt(n)) => Some(*n),
            _ => None,
        }
    }

    pub fn as_array(&self) -> (items: Option<&Vec<Value>>)
        ensures
            items is Some == self@.list() is Some,
            items matches Some(i) ==> self@ == Json::List(models(i@)),
    {
        match self {
            Value::Array(items) => Some(items),
            _ => None,
        }
    }

    pub fn as_object(&self) -> (object: Option<&Object>)
        ensures
            object is Some == self@ is Fields,
            object matches Some(o) ==> self@ == Json::Fields(o@),
    {
        match self {
            Value::Object(object) => Some(object),
            _ => None,
        }
    }

    /// A text as a document.
    pub fn from_text(text: &str) -> (value: Value)
        ensures
            value@ == Json::Text(text@),
    {
        Value::String(text.to_owned())
    }

    /// A whole number as a document.
    pub fn from_integer(n: i64) -> (value: Value)
        ensures
            value@ == Json::Integer(n as int),
    {
        if n < 0 {
            Value::Number(Number::NegInt(n))
        } else {
            Value::Number(Number::PosInt(n as u64))
        }
    }
}

/// The whole number that a member holds.
pub fn int_field(value: &Value, key: &str) -> (number: Option<i64>)
    ensures
        number == value@.integer_at(key@),
{
    match value.get(key) {
        Some(member) => member.as_i64(),
        None => None,
    }
}

/// The text that a member holds, blank or not.
pub fn raw_string<'a>(value: &'a Value, key: &str) -> (text: Option<&'a str>)
    ensures
        text is Some == value@.string_at(key@) is Some,
        text matches Some(t) ==> value@.string_at(key@) == Some(t@),
{
    match value.get(key) {
        Some(member) => member.as_str(),
        None => None,
    }
}

/// The text that a member holds, unless it is blank.
pub fn string_field<'a>(value: &'a Value, key: &str) -> (text: Option<&'a str>)
    ensures
        text is Some == value@.text_at(key@) is Some,
        text matches Some(t) ==> value@.text_at(key@) == Some(t@),
{
    match value.get(key) {
        Some(member) => match member.as_str() {
            Some(text) => if trim(text).is_empty() {
                None
            } else {
                Some(text)
            },
            None => None,
        },
        None => None,
    }
}

/// The text that a member holds, or nothing where it is blank or missing.
pub fn string_or_empty<'a>(value: &'a Value, key: &str) -> (text: &'a str)
    ensures
        text@ == value@.text_or_empty(key@),
{
    match string_field(value, key) {
        Some(text) => text,
        None => {
            proof {
                reveal_strlit("");
                assert(""@ =~= Seq::<char>::empty());
            }
            ""
        },
    }
}

/// The texts in a member that is a list.
pub fn string_array(value: &Value, key: &str) -> (found: Vec<String>)
    ensures
        texts(found@) == value@.texts_at(key@),
{
    let mut found: Vec<String> = Vec::new();
    let member = value.get(key);
    if let Some(member) = member {
        if let Some(items) = member.as_array() {
            let ghost documents = models(items@);
            let mut i: usize = 0;
            assert(texts(found@) =~= texts_among(documents.take(0)));
            while i < items.len()
                invariant
                    i <= items.len(),
                    documents == models(items@),
                    texts(found@) == texts_among(documents.take(i as int)),
                decreases items.len() - i,
            {
                proof {
                    lemma_models(items@);
                    assert(documents.take(i + 1).drop_last() =~= documents.take(i as int));
                }
                let ghost before = found@;
                if let Some(text) = items[i].as_str() {
                    found.push(text.to_owned());
                    assert(texts(found@) =~= texts(before).push(text@));
                }
                i = i + 1;
            }
            proof {
                lemma_models(items@);
                assert(documents.take(i as int) =~= documents);
            }
            return found;
        }
    }
    assert(texts(found@) =~= Seq::<Seq<char>>::empty());
    found
}

/// A list of texts as a document.
pub fn strings_array(values: Vec<String>) -> (value: Value)
    ensures
        value@ == text_list(texts(values@)),
{
    let mut items: Vec<Value> = Vec::new();
    let mut i: usize = 0;
    while i < values.len()
        invariant
            i <= values.len(),
            items@.len() == i,
            forall|j: int| 0 <= j < i ==> (#[trigger] items@[j])@ == Json::Text(values@[j]@),
        decreases values.len() - i,
    {
        items.push(Value::String(values[i].clone()));
        i = i + 1;
    }
    proof {
        lemma_models(items@);
        assert(models(items@) =~= texts(values@).map_values(|text: Seq<char>| Json::Text(text)));
    }
    Value::Array(items)
}

/// A number as a document, or null.
pub fn option_int(value: Option<i64>) -> (number: Value)
    ensures
        number@ == integer_or_null(value),
{
    match value {
        Some(n) => Value::from_integer(n),
        None => Value::Null,
    }
}

/// A text as a document, or null.
pub fn option_text(value: Option<&str>) -> (text: Value)
    ensures
        text@ == text_or_null(
            match value {
                Some(t) => Some(t@),
                None => None,
            },
        ),
{
    match value {
        Some(t) => Value::from_text(t),
        None => Value::Null,
    }
}

/// Sets a member, where the value is an object.
pub fn set_field(value: &mut Value, key: &str, field: Value)
    ensures
        final(value)@ == with_field(old(value)@, key@, field@),
{
    if let Value::Object(object) = value {
        object.insert(key, field);
    }
}

/// A document with a member set, where it is an object.
pub open spec fn with_field(document: Json, key: Seq<char>, field: Json) -> Json {
    match document {
        Json::Fields(fields) => Json::Fields(fields.insert(key, field)),
        _ => document,
    }
}

} // verus!
