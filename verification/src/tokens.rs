//! Bytes as text that can stand in a URL: Base64 with the alphabet for URLs and without padding.

use base64::prelude::{Engine, BASE64_URL_SAFE_NO_PAD};
use vstd::prelude::*;

verus! {

/// The character that stands for six bits.
pub open spec fn base64_char(n: int) -> char {
    if n < 26 {
        (65 + n) as char
    } else if n < 52 {
        (71 + n) as char
    } else if n < 62 {
        (n - 4) as char
    } else if n == 62 {
        '-'
    } else {
        '_'
    }
}

/// Letters, digits, the hyphen and the low line.
pub open spec fn in_alphabet(c: char) -> bool {
    'A' <= c <= 'Z' || 'a' <= c <= 'z' || '0' <= c <= '9' || c == '-' || c == '_'
}

/// Bytes in Base64: four characters for three bytes, and for the rest as many as it takes, the
/// spare bits zero.
pub open spec fn base64_text(bytes: Seq<u8>) -> Seq<char>
    decreases bytes.len(),
{
    if bytes.len() == 0 {
        Seq::empty()
    } else {
        let a = bytes[0] as int;
        if bytes.len() == 1 {
            seq![base64_char(a / 4), base64_char(a % 4 * 16)]
        } else {
            let b = bytes[1] as int;
            if bytes.len() == 2 {
                seq![
                    base64_char(a / 4),
                    base64_char(a % 4 * 16 + b / 16),
                    base64_char(b % 16 * 4),
                ]
            } else {
                let c = bytes[2] as int;
                seq![
                    base64_char(a / 4),
                    base64_char(a % 4 * 16 + b / 16),
                    base64_char(b % 16 * 4 + c / 64),
                    base64_char(c % 64),
                ] + base64_text(bytes.skip(3))
            }
        }
    }
}

/// Some bytes are written as the text.
pub open spec fn is_base64(text: Seq<char>) -> bool {
    exists|bytes: Seq<u8>| #[trigger] base64_text(bytes) == text
}

/// The bytes that are written as a text, if there are any.
pub open spec fn base64_bytes(text: Seq<char>) -> Option<Seq<u8>> {
    if is_base64(text) {
        Some(choose|bytes: Seq<u8>| #[trigger] base64_text(bytes) == text)
    } else {
        None
    }
}

/// Calls `base64::Engine::encode` of `BASE64_URL_SAFE_NO_PAD`. It panics only beyond the length
/// that a slice can have.
#[verifier::external_body]
pub(crate) fn encode_base64(bytes: &[u8]) -> (text: String)
    ensures
        text@ == base64_text(bytes@),
{
    BASE64_URL_SAFE_NO_PAD.encode(bytes)
}

/// The words in which a text is refused that no bytes are written as.
pub uninterp spec fn base64_refusal(text: Seq<char>) -> Seq<char>;

/// Calls `base64::Engine::decode` of `BASE64_URL_SAFE_NO_PAD`. It accepts the texts that bytes are
/// written as and no others, neither padding nor spare bits that are set, and gives these bytes.
/// The error comes as the words of its `Display`, which depend on the text alone.
#[verifier::external_body]
pub(crate) fn decode_base64(text: &str) -> (bytes: Result<Vec<u8>, String>)
    ensures
        bytes is Ok == is_base64(text@),
        bytes matches Ok(b) ==> text@ == base64_text(b@),
        bytes matches Err(words) ==> words@ == base64_refusal(text@),
{
    BASE64_URL_SAFE_NO_PAD.decode(text).map_err(|error| error.to_string())
}

/// Each character stands for other bits.
proof fn lemma_base64_char(m: int, n: int)
    requires
        0 <= m < 64,
        0 <= n < 64,
    ensures
        base64_char(m) == base64_char(n) ==> m == n,
        in_alphabet(base64_char(m)),
{
}

/// Bytes are written in characters of the alphabet alone.
pub proof fn law_tokens_are_plain(bytes: Seq<u8>, i: int)
    requires
        0 <= i < base64_text(bytes).len(),
    ensures
        in_alphabet(base64_text(bytes)[i]),
    decreases bytes.len(),
{
    let a = bytes[0] as int;
    let b = bytes[1] as int;
    let c = bytes[2] as int;
    lemma_base64_char(a / 4, 0);
    lemma_base64_char(a % 4 * 16, 0);
    lemma_base64_char(a % 4 * 16 + b / 16, 0);
    lemma_base64_char(b % 16 * 4, 0);
    lemma_base64_char(b % 16 * 4 + c / 64, 0);
    lemma_base64_char(c % 64, 0);
    if i >= 4 {
        law_tokens_are_plain(bytes.skip(3), i - 4);
    }
}

/// Different bytes are written differently.
pub proof fn law_tokens_differ(x: Seq<u8>, y: Seq<u8>)
    requires
        base64_text(x) == base64_text(y),
    ensures
        x == y,
    decreases x.len(),
{
    let s = base64_text(x);
    let t = base64_text(y);
    lemma_base64_len(x);
    lemma_base64_len(y);
    if x.len() > 0 && y.len() > 0 {
        let (a, b, c) = (x[0] as int, x[1] as int, x[2] as int);
        let (d, e, f) = (y[0] as int, y[1] as int, y[2] as int);
        assert(s[0] == t[0] && s[1] == t[1]);
        lemma_base64_char(a / 4, d / 4);
        if x.len() == 1 {
            lemma_base64_char(a % 4 * 16, d % 4 * 16);
            assert(x =~= y);
        } else {
            lemma_base64_char(a % 4 * 16 + b / 16, d % 4 * 16 + e / 16);
            assert(s[2] == t[2]);
            if x.len() == 2 {
                lemma_base64_char(b % 16 * 4, e % 16 * 4);
                assert(x =~= y);
            } else {
                assert(s[3] == t[3]);
                lemma_base64_char(b % 16 * 4 + c / 64, e % 16 * 4 + f / 64);
                lemma_base64_char(c % 64, f % 64);
                assert(s.skip(4) =~= base64_text(x.skip(3)));
                assert(t.skip(4) =~= base64_text(y.skip(3)));
                law_tokens_differ(x.skip(3), y.skip(3));
                assert(x =~= seq![x[0], x[1], x[2]] + x.skip(3));
                assert(y =~= seq![y[0], y[1], y[2]] + y.skip(3));
            }
        }
    } else {
        assert(x =~= y);
    }
}

/// How many characters bytes take.
proof fn lemma_base64_len(bytes: Seq<u8>)
    ensures
        base64_text(bytes).len() == bytes.len() / 3 * 4 + (if bytes.len() % 3 == 0 {
            0nat
        } else {
            bytes.len() % 3 + 1
        }),
    decreases bytes.len(),
{
    if bytes.len() >= 3 {
        lemma_base64_len(bytes.skip(3));
    }
}

/// The bytes of a text are those that it was written from.
pub proof fn law_tokens_read_back(bytes: Seq<u8>)
    ensures
        base64_bytes(base64_text(bytes)) == Some(bytes),
{
    let text = base64_text(bytes);
    let found = choose|b: Seq<u8>| #[trigger] base64_text(b) == text;
    law_tokens_differ(found, bytes);
}

/// A text with a character outside the alphabet stands for no bytes.
pub proof fn law_foreign_characters_are_no_token(text: Seq<char>, i: int)
    requires
        0 <= i < text.len(),
        !in_alphabet(text[i]),
    ensures
        base64_bytes(text) is None,
{
    if is_base64(text) {
        let bytes = choose|b: Seq<u8>| #[trigger] base64_text(b) == text;
        law_tokens_are_plain(bytes, i);
    }
}

} // verus!
