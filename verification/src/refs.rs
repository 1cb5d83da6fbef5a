//! Identifiers of centralized shows. Such an identifier carries the references to all seasons of
//! the show: a list of JSON objects, in Base64, behind a fixed prefix.

use crate::json_text::{quote, quoted};
use crate::models::{ref_models, RefModel, SourceRef};
use crate::text::{after_prefix, held, same_text, strip_prefix};
use crate::tokens::{
    base64_bytes, base64_refusal, base64_text, decode_base64, encode_base64, in_alphabet,
    law_foreign_characters_are_no_token, law_tokens_are_plain, law_tokens_read_back,
};
use vstd::prelude::*;
use vstd::slice::slice_subrange;

verus! {

/// Why an identifier does not name a centralized show.
#[derive(Debug)]
pub enum RefsError {
    /// The prefix is missing.
    Prefix,
    /// What follows the prefix is not Base64, for the reason in these words.
    Token(String),
    /// The payload, which is given, is not a list of references.
    Payload(Vec<u8>),
    /// The list of references is empty.
    Empty,
}

impl RefsError {
    /// The error in words, but for a payload that is not a list of references.
    pub fn message(&self) -> (text: Option<String>)
        ensures
            held(text) == (match *self {
                RefsError::Prefix => Some(
                    "Season Centralizer anime ids must start with central:"@,
                ),
                RefsError::Token(words) => Some(words@),
                RefsError::Payload(_) => None,
                RefsError::Empty => Some(
                    "Season Centralizer anime id did not include source refs"@,
                ),
            }),
    {
        match self {
            RefsError::Prefix => Some(
                "Season Centralizer anime ids must start with central:".to_owned(),
            ),
            RefsError::Token(words) => Some(words.clone()),
            RefsError::Payload(_) => None,
            RefsError::Empty => Some(
                "Season Centralizer anime id did not include source refs".to_owned(),
            ),
        }
    }
}

/// A text as a JSON string, in UTF-8.
pub open spec fn string_literal(text: Seq<char>) -> Seq<u8> {
    vstd::utf8::encode_utf8(quoted(text))
}

/// The length of the JSON value with which some bytes start, the white space before it included.
pub uninterp spec fn value_length(bytes: Seq<u8>) -> Option<usize>;

/// The text that some bytes write as a JSON string.
pub uninterp spec fn string_content(bytes: Seq<u8>) -> Option<Seq<char>>;

/// Calls `next` and `byte_offset` of a `serde_json::StreamDeserializer` that passes over values.
/// It claims no more of a value's extent than that it is not empty and lies within the bytes, and
/// that a string literal at the start is such a value.
#[verifier::external_body]
fn measure_value(bytes: &[u8]) -> (length: Option<usize>)
    ensures
        length == value_length(bytes@),
        length matches Some(n) ==> 0 < n <= bytes@.len(),
        forall|text: Seq<char>|
            (#[trigger] string_literal(text)).is_prefix_of(bytes@) ==> length is Some && length->0
                == string_literal(text).len(),
{
    let reader = serde_json::Deserializer::from_slice(bytes);
    let mut stream = reader.into_iter::<serde::de::IgnoredAny>();
    match stream.next() {
        Some(Ok(_)) => Some(stream.byte_offset()),
        _ => None,
    }
}

/// Calls `serde_json::from_slice` for a `String`. Which bytes it accepts is left unsaid, but for
/// this: it gives back the text of a string literal.
#[verifier::external_body]
fn read_string(bytes: &[u8]) -> (text: Option<String>)
    ensures
        text is Some == string_content(bytes@) is Some,
        text matches Some(t) ==> string_content(bytes@) == Some(t@),
        forall|content: Seq<char>|
            bytes@ == #[trigger] string_literal(content) ==> text is Some && text->0@ == content,
{
    serde_json::from_slice::<String>(bytes).ok()
}

/// White space between the tokens of a JSON document.
pub open spec fn json_space(b: u8) -> bool {
    b == 0x20 || b == 0x0a || b == 0x09 || b == 0x0d
}

/// The first position from `i` on that holds no white space.
pub open spec fn past_space(bytes: Seq<u8>, i: int) -> int
    decreases bytes.len() - i,
{
    if 0 <= i < bytes.len() && json_space(bytes[i]) {
        past_space(bytes, i + 1)
    } else {
        i
    }
}

/// There is a byte at a position, and it is the given one.
pub open spec fn has_byte(bytes: Seq<u8>, i: int, b: u8) -> bool {
    0 <= i < bytes.len() && bytes[i] == b
}

/// Passing over white space does not go back.
pub proof fn lemma_past_space(bytes: Seq<u8>, i: int)
    ensures
        i <= past_space(bytes, i),
        i <= bytes.len() ==> past_space(bytes, i) <= bytes.len(),
    decreases bytes.len() - i,
{
    if 0 <= i < bytes.len() && json_space(bytes[i]) {
        lemma_past_space(bytes, i + 1);
    }
}

/// The text of the string at a position, and the position past it.
pub open spec fn string_at(bytes: Seq<u8>, i: int) -> Option<(Seq<char>, int)> {
    match value_length(bytes.skip(i)) {
        Some(n) => match string_content(bytes.subrange(i, i + n)) {
            Some(text) => Some((text, i + n)),
            None => None,
        },
        None => None,
    }
}

/// Where a member of a reference stands: its value, and the position past it. A known member must
/// not have occurred before and must be a string; any other is passed over.
pub open spec fn member_at(
    bytes: Seq<u8>,
    i: int,
    source: Option<Seq<char>>,
    id: Option<Seq<char>>,
) -> Option<(Option<Seq<char>>, Option<Seq<char>>, int)> {
    match string_at(bytes, i) {
        None => None,
        Some((key, key_end)) => {
            let colon = past_space(bytes, key_end);
            if !has_byte(bytes, colon, 0x3a) {
                None
            } else {
                match value_length(bytes.skip(colon + 1)) {
                    None => None,
                    Some(n) => {
                        let end = colon + 1 + n;
                        let content = string_content(bytes.subrange(colon + 1, end));
                        if key == "source"@ {
                            if source is Some || content is None {
                                None
                            } else {
                                Some((content, id, end))
                            }
                        } else if key == "id"@ {
                            if id is Some || content is None {
                                None
                            } else {
                                Some((source, content, end))
                            }
                        } else {
                            Some((source, id, end))
                        }
                    },
                }
            }
        },
    }
}

/// A member ends after its start.
pub proof fn lemma_member_advances(
    bytes: Seq<u8>,
    i: int,
    source: Option<Seq<char>>,
    id: Option<Seq<char>>,
)
    ensures
        member_at(bytes, i, source, id) matches Some((_, _, end)) ==> i < end,
{
    if let Some((key, key_end)) = string_at(bytes, i) {
        lemma_past_space(bytes, key_end);
    }
}

/// The reference whose members go on at a position, and the position past its closing brace.
pub open spec fn members_at(
    bytes: Seq<u8>,
    i: int,
    source: Option<Seq<char>>,
    id: Option<Seq<char>>,
) -> Option<(RefModel, int)>
    decreases bytes.len() - i,
{
    match member_at(bytes, i, source, id) {
        None => None,
        Some((next_source, next_id, end)) => {
            let mark = past_space(bytes, end);
            if has_byte(bytes, mark, 0x2c) {
                proof {
                    lemma_past_space(bytes, end);
                    lemma_member_advances(bytes, i, source, id);
                }
                members_at(bytes, mark + 1, next_source, next_id)
            } else if has_byte(bytes, mark, 0x7d) && next_source is Some && next_id is Some {
                Some((RefModel { source: next_source->0, id: next_id->0 }, mark + 1))
            } else {
                None
            }
        },
    }
}

/// The reference that is written as a list of its two parts, and the position past its closing
/// bracket.
pub open spec fn pair_at(bytes: Seq<u8>, i: int) -> Option<(RefModel, int)> {
    match string_at(bytes, i) {
        None => None,
        Some((source, source_end)) => {
            let comma = past_space(bytes, source_end);
            if !has_byte(bytes, comma, 0x2c) {
                None
            } else {
                match string_at(bytes, comma + 1) {
                    None => None,
                    Some((id, id_end)) => {
                        let close = past_space(bytes, id_end);
                        if has_byte(bytes, close, 0x5d) {
                            Some((RefModel { source, id }, close + 1))
                        } else {
                            None
                        }
                    },
                }
            }
        },
    }
}

/// The reference at a position, and the position past it.
pub open spec fn ref_at(bytes: Seq<u8>, i: int) -> Option<(RefModel, int)> {
    if has_byte(bytes, i, 0x7b) {
        members_at(bytes, i + 1, None, None)
    } else if has_byte(bytes, i, 0x5b) {
        pair_at(bytes, i + 1)
    } else {
        None
    }
}

/// The members of a reference end after their start, and within the bytes.
pub proof fn lemma_members_advance(
    bytes: Seq<u8>,
    i: int,
    source: Option<Seq<char>>,
    id: Option<Seq<char>>,
)
    ensures
        members_at(bytes, i, source, id) matches Some((_, end)) ==> i < end <= bytes.len(),
    decreases bytes.len() - i,
{
    lemma_member_advances(bytes, i, source, id);
    if let Some((next_source, next_id, end)) = member_at(bytes, i, source, id) {
        let mark = past_space(bytes, end);
        lemma_past_space(bytes, end);
        if has_byte(bytes, mark, 0x2c) {
            lemma_members_advance(bytes, mark + 1, next_source, next_id);
        }
    }
}

/// A reference ends after its start, and within the bytes.
pub proof fn lemma_ref_advances(bytes: Seq<u8>, i: int)
    ensures
        ref_at(bytes, i) matches Some((_, end)) ==> i < end <= bytes.len(),
{
    lemma_members_advance(bytes, i + 1, None, None);
    if let Some((source, source_end)) = string_at(bytes, i + 1) {
        let comma = past_space(bytes, source_end);
        lemma_past_space(bytes, source_end);
        if let Some((id, id_end)) = string_at(bytes, comma + 1) {
            lemma_past_space(bytes, id_end);
        }
    }
}

/// The references of a list that goes on at a position, after `before`, and the position past its
/// closing bracket.
pub open spec fn refs_at(bytes: Seq<u8>, i: int, before: Seq<RefModel>) -> Option<
    (Seq<RefModel>, int),
>
    decreases bytes.len() - i,
{
    let mark = past_space(bytes, i);
    if has_byte(bytes, mark, 0x5d) {
        Some((before, mark + 1))
    } else if before.len() > 0 && !has_byte(bytes, mark, 0x2c) {
        None
    } else {
        let start = if before.len() > 0 {
            past_space(bytes, mark + 1)
        } else {
            mark
        };
        match ref_at(bytes, start) {
            Some((reference, end)) => {
                proof {
                    lemma_past_space(bytes, i);
                    lemma_past_space(bytes, mark + 1);
                    lemma_ref_advances(bytes, start);
                }
                refs_at(bytes, end, before.push(reference))
            },
            None => None,
        }
    }
}

/// The references that a payload holds.
pub open spec fn refs_in(bytes: Seq<u8>) -> Option<Seq<RefModel>> {
    let open = past_space(bytes, 0);
    if !has_byte(bytes, open, 0x5b) {
        None
    } else {
        match refs_at(bytes, open + 1, Seq::empty()) {
            Some((refs, end)) => if past_space(bytes, end) == bytes.len() {
                Some(refs)
            } else {
                None
            },
            None => None,
        }
    }
}

/// A reference as a JSON object.
pub open spec fn ref_bytes(r: RefModel) -> Seq<u8> {
    seq![0x7bu8] + string_literal("source"@) + seq![0x3au8] + string_literal(r.source) + seq![
        0x2cu8,
    ] + string_literal("id"@) + seq![0x3au8] + string_literal(r.id) + seq![0x7du8]
}

/// What follows in a payload once some references are written: the others, and the closing
/// bracket.
pub open spec fn refs_bytes(refs: Seq<RefModel>, first: bool) -> Seq<u8>
    decreases refs.len(),
{
    if refs.len() == 0 {
        seq![0x5du8]
    } else {
        (if first {
            Seq::empty()
        } else {
            seq![0x2cu8]
        }) + ref_bytes(refs[0]) + refs_bytes(refs.skip(1), false)
    }
}

/// References as a list of JSON objects.
pub open spec fn payload(refs: Seq<RefModel>) -> Seq<u8> {
    seq![0x5bu8] + refs_bytes(refs, true)
}

/// The identifier that carries some references.
pub open spec fn encoded(refs: Seq<RefModel>) -> Seq<char> {
    "central:"@ + base64_text(payload(refs))
}

/// Passes over white space.
fn skip_space(bytes: &[u8], i: usize) -> (next: usize)
    requires
        i <= bytes@.len(),
    ensures
        next == past_space(bytes@, i as int),
        i <= next <= bytes@.len(),
{
    let mut next: usize = i;
    while next < bytes.len() && (bytes[next] == 0x20 || bytes[next] == 0x0a || bytes[next] == 0x09
        || bytes[next] == 0x0d)
        invariant
            i <= next <= bytes@.len(),
            past_space(bytes@, i as int) == past_space(bytes@, next as int),
        decreases bytes@.len() - next,
    {
        next = next + 1;
    }
    next
}

/// Measures the value at a position.
fn measure_at(bytes: &[u8], i: usize) -> (length: Option<usize>)
    requires
        i <= bytes@.len(),
    ensures
        length == value_length(bytes@.skip(i as int)),
        length matches Some(n) ==> 0 < n && i + n <= bytes@.len(),
        forall|text: Seq<char>|
            (#[trigger] string_literal(text)).is_prefix_of(bytes@.skip(i as int)) ==> length is Some
                && length->0 == string_literal(text).len(),
{
    assert(bytes@.skip(i as int) =~= bytes@.subrange(i as int, bytes@.len() as int));
    measure_value(slice_subrange(bytes, i, bytes.len()))
}

/// Reads the string at a position.
fn read_string_at(bytes: &[u8], i: usize) -> (found: Option<(String, usize)>)
    requires
        i <= bytes@.len(),
    ensures
        found is Some == string_at(bytes@, i as int) is Some,
        found matches Some((text, end)) ==> string_at(bytes@, i as int) == Some((text@, end as int))
            && i < end <= bytes@.len(),
        forall|text: Seq<char>|
            (#[trigger] string_literal(text)).is_prefix_of(bytes@.skip(i as int)) ==> found is Some
                && (found->0).0@ == text && (found->0).1 == i + string_literal(text).len(),
{
    let total = bytes.len();
    match measure_at(bytes, i) {
        None => None,
        Some(n) => {
            assert(i + n <= total);
            proof {
                assert forall|text: Seq<char>|
                    (#[trigger] string_literal(text)).is_prefix_of(
                        bytes@.skip(i as int),
                    ) implies bytes@.subrange(i as int, i + n) == string_literal(text) by {
                    assert(bytes@.subrange(i as int, i + n) =~= bytes@.skip(i as int).subrange(
                        0,
                        n as int,
                    ));
                }
            }
            match read_string(slice_subrange(bytes, i, i + n)) {
                Some(text) => Some((text, i + n)),
                None => None,
            }
        },
    }
}

/// Where the parts of a reference stand that is written as an object at `start`.
proof fn lemma_ref_layout(bytes: Seq<u8>, start: int, r: RefModel)
    requires
        0 <= start <= bytes.len(),
        ref_bytes(r).is_prefix_of(bytes.skip(start)),
    ensures
        ({
            let key = start + 1;
            let colon = key + string_literal("source"@).len();
            let comma = colon + 1 + string_literal(r.source).len();
            let second = comma + 1 + string_literal("id"@).len();
            let close = second + 1 + string_literal(r.id).len();
            &&& has_byte(bytes, start, 0x7b)
            &&& string_literal("source"@).is_prefix_of(bytes.skip(key))
            &&& has_byte(bytes, colon, 0x3a)
            &&& string_literal(r.source).is_prefix_of(bytes.skip(colon + 1))
            &&& has_byte(bytes, comma, 0x2c)
            &&& string_literal("id"@).is_prefix_of(bytes.skip(comma + 1))
            &&& has_byte(bytes, second, 0x3a)
            &&& string_literal(r.id).is_prefix_of(bytes.skip(second + 1))
            &&& has_byte(bytes, close, 0x7d)
            &&& close + 1 == start + ref_bytes(r).len()
        }),
{
    let whole = ref_bytes(r);
    let a = string_literal("source"@);
    let b = string_literal(r.source);
    let c = string_literal("id"@);
    let d = string_literal(r.id);
    let colon = start + 1 + a.len();
    let comma = colon + 1 + b.len();
    let second = comma + 1 + c.len();
    let close = second + 1 + d.len();
    assert forall|k: int| 0 <= k < whole.len() implies bytes[start + k] == #[trigger] whole[k] by {
        assert(whole[k] == bytes.skip(start).subrange(0, whole.len() as int)[k]);
    }
    assert(whole[0] == 0x7b);
    assert(whole[1 + a.len() as int] == 0x3a);
    assert(whole[2 + a.len() + b.len() as int] == 0x2c);
    assert(whole[3 + a.len() + b.len() + c.len() as int] == 0x3a);
    assert(whole[4 + a.len() + b.len() + c.len() + d.len() as int] == 0x7d);
    assert forall|k: int| 0 <= k < a.len() implies bytes[start + 1 + k] == #[trigger] a[k] by {
        assert(whole[1 + k] == a[k]);
    }
    assert forall|k: int| 0 <= k < b.len() implies bytes[colon + 1 + k] == #[trigger] b[k] by {
        assert(whole[2 + a.len() + k] == b[k]);
    }
    assert forall|k: int| 0 <= k < c.len() implies bytes[comma + 1 + k] == #[trigger] c[k] by {
        assert(whole[3 + a.len() + b.len() + k] == c[k]);
    }
    assert forall|k: int| 0 <= k < d.len() implies bytes[second + 1 + k] == #[trigger] d[k] by {
        assert(whole[4 + a.len() + b.len() + c.len() + k] == d[k]);
    }
    assert(a =~= bytes.skip(start + 1).subrange(0, a.len() as int));
    assert(b =~= bytes.skip(colon + 1).subrange(0, b.len() as int));
    assert(c =~= bytes.skip(comma + 1).subrange(0, c.len() as int));
    assert(d =~= bytes.skip(second + 1).subrange(0, d.len() as int));
}

/// How far the reading of a reference that is written as an object at `start` has come: at its
/// first member or at its second.
spec fn on_track(
    start: int,
    i: int,
    source: Option<Seq<char>>,
    id: Option<Seq<char>>,
    r: RefModel,
) -> bool {
    ||| i == start + 1 && source is None && id is None
    ||| {
        &&& i == start + 3 + string_literal("source"@).len() + string_literal(r.source).len()
        &&& source == Some(r.source)
        &&& id is None
    }
}

/// Reads the members of the reference whose opening brace stands at `start`.
fn read_members(bytes: &[u8], start: usize) -> (found: Option<(SourceRef, usize)>)
    requires
        has_byte(bytes@, start as int, 0x7b),
    ensures
        found is Some == members_at(bytes@, start + 1, None, None) is Some,
        found matches Some((r, end)) ==> members_at(bytes@, start + 1, None, None) == Some(
            (r@, end as int),
        ) && start < end <= bytes@.len(),
        forall|r: RefModel|
            (#[trigger] ref_bytes(r)).is_prefix_of(bytes@.skip(start as int)) ==> found is Some && (
            found->0).0@ == r && (found->0).1 == start + ref_bytes(r).len(),
{
    let total = bytes.len();
    let mut i: usize = start + 1;
    let mut source: Option<String> = None;
    let mut id: Option<String> = None;
    loop
        invariant
            total == bytes@.len(),
            start < i <= total,
            members_at(bytes@, start + 1, None, None) == members_at(
                bytes@,
                i as int,
                held(source),
                held(id),
            ),
            forall|r: RefModel|
                (#[trigger] ref_bytes(r)).is_prefix_of(bytes@.skip(start as int)) ==> on_track(
                    start as int,
                    i as int,
                    held(source),
                    held(id),
                    r,
                ),
        decreases total - i,
    {
        proof {
            assert forall|r: RefModel|
                (#[trigger] ref_bytes(r)).is_prefix_of(bytes@.skip(start as int)) implies ({
                let key = if held(source) is None {
                    "source"@
                } else {
                    "id"@
                };
                let value = if held(source) is None {
                    r.source
                } else {
                    r.id
                };
                let colon = i + string_literal(key).len();
                &&& string_literal(key).is_prefix_of(bytes@.skip(i as int))
                &&& has_byte(bytes@, colon, 0x3a)
                &&& string_literal(value).is_prefix_of(bytes@.skip(colon + 1))
            }) by {
                lemma_ref_layout(bytes@, start as int, r);
            }
        }
        proof {
            reveal_strlit("source");
            reveal_strlit("id");
            assert("source"@.len() != "id"@.len());
        }
        let ghost first = held(source) is None;
        let (key, key_end) = match read_string_at(bytes, i) {
            Some((key, key_end)) => (key, key_end),
            None => {
                return None;
            },
        };
        let colon = skip_space(bytes, key_end);
        if colon == total || bytes[colon] != 0x3a {
            return None;
        }
        let n = match measure_at(bytes, colon + 1) {
            Some(n) => n,
            None => {
                return None;
            },
        };
        let end = colon + 1 + n;
        assert(end <= total);
        let ghost value = bytes@.subrange(colon + 1, end as int);
        let content = read_string(slice_subrange(bytes, colon + 1, end));
        proof {
            assert forall|text: Seq<char>|
                (#[trigger] string_literal(text)).is_prefix_of(
                    bytes@.skip(colon + 1),
                ) implies value == string_literal(text) by {
                assert(value =~= bytes@.skip(colon + 1).subrange(0, n as int));
            }
        }
        if same_text(key.as_str(), "source") {
            if source.is_some() || content.is_none() {
                return None;
            }
            source = content;
        } else if same_text(key.as_str(), "id") {
            if id.is_some() || content.is_none() {
                return None;
            }
            id = content;
        }
        proof {
            assert forall|r: RefModel|
                (#[trigger] ref_bytes(r)).is_prefix_of(bytes@.skip(start as int)) implies ({
                &&& has_byte(
                    bytes@,
                    end as int,
                    if first {
                        0x2cu8
                    } else {
                        0x7du8
                    },
                )
                &&& held(source) == Some(r.source)
                &&& held(id) == if first {
                    None
                } else {
                    Some(r.id)
                }
                &&& !first ==> end + 1 == start + ref_bytes(r).len()
            }) by {
                lemma_ref_layout(bytes@, start as int, r);
            }
        }
        let mark = skip_space(bytes, end);
        if mark < total && bytes[mark] == 0x2c {
            i = mark + 1;
        } else {
            if mark == total || bytes[mark] != 0x7d {
                return None;
            }
            return match (source, id) {
                (Some(source), Some(id)) => Some((SourceRef { source, id }, mark + 1)),
                _ => None,
            };
        }
    }
}

/// Reads the reference that is written as a list, whose opening bracket stands at `start`.
fn read_pair(bytes: &[u8], start: usize) -> (found: Option<(SourceRef, usize)>)
    requires
        has_byte(bytes@, start as int, 0x5b),
    ensures
        found is Some == pair_at(bytes@, start + 1) is Some,
        found matches Some((r, end)) ==> pair_at(bytes@, start + 1) == Some((r@, end as int))
            && start < end <= bytes@.len(),
{
    let total = bytes.len();
    match read_string_at(bytes, start + 1) {
        None => None,
        Some((source, source_end)) => {
            let comma = skip_space(bytes, source_end);
            if comma == total || bytes[comma] != 0x2c {
                return None;
            }
            match read_string_at(bytes, comma + 1) {
                None => None,
                Some((id, id_end)) => {
                    let close = skip_space(bytes, id_end);
                    if close == total || bytes[close] != 0x5d {
                        None
                    } else {
                        Some((SourceRef { source, id }, close + 1))
                    }
                },
            }
        },
    }
}

/// Reads the reference at a position.
fn read_ref(bytes: &[u8], i: usize) -> (found: Option<(SourceRef, usize)>)
    requires
        i <= bytes@.len(),
    ensures
        found is Some == ref_at(bytes@, i as int) is Some,
        found matches Some((r, end)) ==> ref_at(bytes@, i as int) == Some((r@, end as int)) && i
            < end <= bytes@.len(),
        forall|r: RefModel|
            (#[trigger] ref_bytes(r)).is_prefix_of(bytes@.skip(i as int)) ==> found is Some && (
            found->0).0@ == r && (found->0).1 == i + ref_bytes(r).len(),
{
    proof {
        assert forall|r: RefModel|
            (#[trigger] ref_bytes(r)).is_prefix_of(bytes@.skip(i as int)) implies has_byte(
            bytes@,
            i as int,
            0x7b,
        ) by {
            lemma_ref_layout(bytes@, i as int, r);
        }
    }
    if i == bytes.len() {
        None
    } else if bytes[i] == 0x7b {
        read_members(bytes, i)
    } else if bytes[i] == 0x5b {
        read_pair(bytes, i)
    } else {
        None
    }
}

/// Where the next reference stands in a list that is written as a payload.
proof fn lemma_rest_layout(bytes: Seq<u8>, i: int, rest: Seq<RefModel>, first: bool)
    requires
        0 <= i <= bytes.len(),
        bytes.skip(i) == refs_bytes(rest, first),
    ensures
        rest.len() == 0 ==> has_byte(bytes, i, 0x5d) && i + 1 == bytes.len(),
        rest.len() > 0 ==> ({
            let start = if first {
                i
            } else {
                i + 1
            };
            let end = start + ref_bytes(rest[0]).len();
            &&& !first ==> has_byte(bytes, i, 0x2c)
            &&& has_byte(bytes, start, 0x7b)
            &&& ref_bytes(rest[0]).is_prefix_of(bytes.skip(start))
            &&& end <= bytes.len()
            &&& bytes.skip(end) == refs_bytes(rest.skip(1), false)
        }),
{
    let tail = bytes.skip(i);
    if rest.len() == 0 {
        assert(tail[0] == 0x5d);
    } else {
        let one = ref_bytes(rest[0]);
        let others = refs_bytes(rest.skip(1), false);
        if first {
            assert(tail =~= one + others);
            assert(bytes.skip(i).subrange(0, one.len() as int) =~= one);
            assert(bytes.skip(i + one.len()) =~= tail.skip(one.len() as int));
            assert(tail.skip(one.len() as int) =~= others);
            lemma_ref_layout(bytes, i, rest[0]);
        } else {
            assert(tail =~= seq![0x2cu8] + one + others);
            assert(tail[0] == 0x2c);
            assert(bytes.skip(i + 1) =~= tail.skip(1));
            assert(tail.skip(1) =~= one + others);
            assert(bytes.skip(i + 1).subrange(0, one.len() as int) =~= one);
            assert(bytes.skip(i + 1 + one.len()) =~= bytes.skip(i + 1).skip(one.len() as int));
            assert(bytes.skip(i + 1).skip(one.len() as int) =~= others);
            lemma_ref_layout(bytes, i + 1, rest[0]);
        }
    }
}

/// Reads the references of a payload.
fn read_payload(bytes: &[u8]) -> (found: Option<Vec<SourceRef>>)
    ensures
        found is Some == refs_in(bytes@) is Some,
        found matches Some(refs) ==> refs_in(bytes@) == Some(ref_models(refs@)),
        forall|refs: Seq<RefModel>|
            bytes@ == #[trigger] payload(refs) ==> found is Some && ref_models((found->0)@) == refs,
{
    let total = bytes.len();
    proof {
        assert forall|refs: Seq<RefModel>| bytes@ == #[trigger] payload(refs) implies has_byte(
            bytes@,
            0,
            0x5b,
        ) && bytes@.skip(1) == refs_bytes(refs, true) by {
            assert(bytes@.skip(1) =~= refs_bytes(refs, true));
        }
    }
    let open = skip_space(bytes, 0);
    if open == total || bytes[open] != 0x5b {
        return None;
    }
    let mut refs: Vec<SourceRef> = Vec::new();
    let mut i: usize = open + 1;
    assert(ref_models(refs@) =~= Seq::<RefModel>::empty());
    proof {
        assert forall|all: Seq<RefModel>| bytes@ == #[trigger] payload(all) implies (refs@.len()
            <= all.len() && ref_models(refs@) == all.take(refs@.len() as int) && bytes@.skip(
            i as int,
        ) == refs_bytes(all.skip(refs@.len() as int), refs@.len() == 0)) by {
            assert(all.skip(0) =~= all);
            assert(all.take(0) =~= Seq::<RefModel>::empty());
        }
    }
    loop
        invariant
            total == bytes@.len(),
            i <= total,
            ref_models(refs@).len() == refs@.len(),
            refs_at(bytes@, open + 1, Seq::empty()) == refs_at(
                bytes@,
                i as int,
                ref_models(refs@),
            ),
            has_byte(bytes@, open as int, 0x5b),
            open == past_space(bytes@, 0),
            forall|all: Seq<RefModel>|
                bytes@ == #[trigger] payload(all) ==> refs@.len() <= all.len() && ref_models(refs@)
                    == all.take(refs@.len() as int) && bytes@.skip(i as int) == refs_bytes(
                    all.skip(refs@.len() as int),
                    refs@.len() == 0,
                ),
        decreases total - i,
    {
        let ghost before = refs@;
        proof {
            assert forall|all: Seq<RefModel>| bytes@ == #[trigger] payload(all) implies ({
                let rest = all.skip(before.len() as int);
                let start = if before.len() == 0 {
                    i as int
                } else {
                    i + 1
                };
                &&& rest.len() == 0 ==> has_byte(bytes@, i as int, 0x5d) && i + 1 == total && all
                    == ref_models(before)
                &&& rest.len() > 0 ==> {
                    &&& before.len() > 0 ==> has_byte(bytes@, i as int, 0x2c)
                    &&& has_byte(bytes@, start, 0x7b)
                    &&& ref_bytes(rest[0]).is_prefix_of(bytes@.skip(start))
                    &&& bytes@.skip(start + ref_bytes(rest[0]).len()) == refs_bytes(
                        rest.skip(1),
                        false,
                    )
                }
            }) by {
                let rest = all.skip(before.len() as int);
                lemma_rest_layout(bytes@, i as int, rest, before.len() == 0);
                if rest.len() == 0 {
                    assert(all.take(before.len() as int) =~= all);
                }
            }
        }
        let mark = skip_space(bytes, i);
        if mark < total && bytes[mark] == 0x5d {
            let end = skip_space(bytes, mark + 1);
            if end < total {
                return None;
            }
            return Some(refs);
        }
        let start: usize = if refs.len() > 0 {
            if mark == total || bytes[mark] != 0x2c {
                return None;
            }
            skip_space(bytes, mark + 1)
        } else {
            mark
        };
        match read_ref(bytes, start) {
            None => {
                return None;
            },
            Some((r, end)) => {
                refs.push(r);
                i = end;
                proof {
                    assert(ref_models(refs@) =~= ref_models(before).push(r@));
                    assert forall|all: Seq<RefModel>| bytes@ == #[trigger] payload(all) implies (
                    refs@.len() <= all.len() && ref_models(refs@) == all.take(refs@.len() as int)
                        && bytes@.skip(i as int) == refs_bytes(
                        all.skip(refs@.len() as int),
                        false,
                    )) by {
                        let rest = all.skip(before.len() as int);
                        assert(rest.skip(1) =~= all.skip(refs@.len() as int));
                        assert(all.take(refs@.len() as int) =~= all.take(before.len() as int).push(
                            rest[0],
                        ));
                    }
                }
            },
        }
    }
}

/// Appends a JSON string to a payload.
fn push_string(out: &mut Vec<u8>, text: &str)
    ensures
        final(out)@ == old(out)@ + string_literal(text@),
{
    let literal = quote(text);
    let ghost before = out@;
    out.extend_from_slice(literal.as_str().as_bytes());
    assert(out@ =~= before + string_literal(text@));
}

/// Writes references as a list of JSON objects.
fn write_payload(refs: &[SourceRef]) -> (bytes: Vec<u8>)
    ensures
        bytes@ == payload(ref_models(refs@)),
{
    let ghost all = ref_models(refs@);
    let mut bytes: Vec<u8> = Vec::new();
    bytes.push(0x5b);
    let mut i: usize = 0;
    proof {
        assert(all.skip(0) =~= all);
        assert(bytes@ =~= seq![0x5bu8]);
    }
    while i < refs.len()
        invariant
            all == ref_models(refs@),
            i <= refs@.len(),
            bytes@ + refs_bytes(all.skip(i as int), i == 0) == payload(all),
        decreases refs@.len() - i,
    {
        let ghost before = bytes@;
        if i > 0 {
            bytes.push(0x2c);
        }
        bytes.push(0x7b);
        push_string(&mut bytes, "source");
        bytes.push(0x3a);
        push_string(&mut bytes, refs[i].source.as_str());
        bytes.push(0x2c);
        push_string(&mut bytes, "id");
        bytes.push(0x3a);
        push_string(&mut bytes, refs[i].id.as_str());
        bytes.push(0x7d);
        proof {
            let rest = all.skip(i as int);
            let comma = if i == 0 {
                Seq::empty()
            } else {
                seq![0x2cu8]
            };
            assert(rest[0] == refs@[i as int]@);
            assert(rest.skip(1) =~= all.skip(i + 1));
            assert(bytes@ =~= before + comma + ref_bytes(rest[0]));
            assert(bytes@ + refs_bytes(all.skip(i + 1), false) =~= before + refs_bytes(
                rest,
                i == 0,
            ));
        }
        i = i + 1;
    }
    bytes.push(0x5d);
    proof {
        assert(all.skip(i as int) =~= Seq::<RefModel>::empty());
        assert(bytes@ =~= payload(all));
    }
    bytes
}

/// The identifier that carries some references.
pub fn encode_refs(refs: &[SourceRef]) -> (anime_id: String)
    ensures
        anime_id@ == encoded(ref_models(refs@)),
{
    let bytes = write_payload(refs);
    "central:".to_owned().concat(encode_base64(bytes.as_slice()).as_str())
}

/// Which fault an identifier has.
pub enum RefsFault {
    Prefix,
    /// What follows the prefix is refused in these words.
    Token(Seq<char>),
    /// These bytes are not a list of references.
    Payload(Seq<u8>),
    Empty,
}

/// The fault that an error reports.
pub open spec fn fault_of(error: RefsError) -> RefsFault {
    match error {
        RefsError::Prefix => RefsFault::Prefix,
        RefsError::Token(words) => RefsFault::Token(words@),
        RefsError::Payload(bytes) => RefsFault::Payload(bytes@),
        RefsError::Empty => RefsFault::Empty,
    }
}

/// The references that an identifier carries, or its fault.
pub open spec fn decoded(anime_id: Seq<char>) -> Result<Seq<RefModel>, RefsFault> {
    match after_prefix(anime_id, "central:"@) {
        None => Err(RefsFault::Prefix),
        Some(token) => match base64_bytes(token) {
            None => Err(RefsFault::Token(base64_refusal(token))),
            Some(bytes) => match refs_in(bytes) {
                None => Err(RefsFault::Payload(bytes)),
                Some(refs) => if refs.len() == 0 {
                    Err(RefsFault::Empty)
                } else {
                    Ok(refs)
                },
            },
        },
    }
}

/// The references that an identifier carries. It gives back the references of an identifier that
/// was made from them, unless there were none.
pub fn decode_refs(anime_id: &str) -> (refs: Result<Vec<SourceRef>, RefsError>)
    ensures
        match refs {
            Ok(found) => decoded(anime_id@) == Ok::<Seq<RefModel>, RefsFault>(ref_models(found@)),
            Err(error) => decoded(anime_id@) == Err::<Seq<RefModel>, RefsFault>(fault_of(error)),
        },
        forall|all: Seq<RefModel>|
            anime_id@ == #[trigger] encoded(all) ==> (if all.len() == 0 {
                refs is Err && refs->Err_0 is Empty
            } else {
                refs is Ok && ref_models(refs->Ok_0@) == all
            }),
{
    proof {
        assert forall|all: Seq<RefModel>| anime_id@ == #[trigger] encoded(all) implies after_prefix(
            anime_id@,
            "central:"@,
        ) == Some(base64_text(payload(all))) by {
            let prefix = "central:"@;
            assert(anime_id@.subrange(0, prefix.len() as int) =~= prefix);
            assert(anime_id@.skip(prefix.len() as int) =~= base64_text(payload(all)));
        }
    }
    let token = match strip_prefix(anime_id, "central:") {
        Some(token) => token,
        None => {
            return Err(RefsError::Prefix);
        },
    };
    let bytes = match decode_base64(token) {
        Ok(bytes) => {
            proof {
                law_tokens_read_back(bytes@);
                assert forall|all: Seq<RefModel>| anime_id@ == #[trigger] encoded(
                    all,
                ) implies bytes@ == payload(all) by {
                    law_tokens_read_back(payload(all));
                }
            }
            bytes
        },
        Err(words) => {
            return Err(RefsError::Token(words));
        },
    };
    match read_payload(bytes.as_slice()) {
        None => Err(RefsError::Payload(bytes)),
        Some(refs) => if refs.len() == 0 {
            assert(ref_models(refs@).len() == 0);
            Err(RefsError::Empty)
        } else {
            Ok(refs)
        },
    }
}

/// An identifier with a character behind its prefix that Base64 does not use is refused as no
/// token.
pub proof fn law_foreign_characters_are_refused(token: Seq<char>, i: int)
    requires
        0 <= i < token.len(),
        !in_alphabet(token[i]),
    ensures
        decoded("central:"@ + token) == Err::<Seq<RefModel>, RefsFault>(
            RefsFault::Token(base64_refusal(token)),
        ),
{
    let prefix = "central:"@;
    assert((prefix + token).subrange(0, prefix.len() as int) =~= prefix);
    assert((prefix + token).skip(prefix.len() as int) =~= token);
    law_foreign_characters_are_no_token(token, i);
}

/// The identifier of a show can stand in a path: behind the prefix it holds letters, digits,
/// hyphens and low lines alone.
pub proof fn law_identifiers_are_plain(refs: Seq<RefModel>, i: int)
    requires
        "central:"@.len() <= i < encoded(refs).len(),
    ensures
        in_alphabet(encoded(refs)[i]),
{
    law_tokens_are_plain(payload(refs), i - "central:"@.len());
}

} // verus!
