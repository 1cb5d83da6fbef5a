//! Operations on text, stated over sequences of characters.

use vstd::prelude::*;

verus! {

/// How two texts stand to each other in lexicographic order.
#[derive(Clone, Copy, Debug, PartialEq, Eq, Structural)]
pub enum Order {
    Before,
    Same,
    After,
}

/// `a` comes strictly before `b`, character by character.
pub open spec fn text_before(a: Seq<char>, b: Seq<char>) -> bool
    decreases a.len(),
{
    if b.len() == 0 {
        false
    } else if a.len() == 0 {
        true
    } else {
        a[0] < b[0] || (a[0] == b[0] && text_before(a.skip(1), b.skip(1)))
    }
}

/// The order of two texts.
pub open spec fn order_of(a: Seq<char>, b: Seq<char>) -> Order {
    if text_before(a, b) {
        Order::Before
    } else if a == b {
        Order::Same
    } else {
        Order::After
    }
}

/// The characters of a text.
pub fn characters(text: &str) -> (chars: Vec<char>)
    ensures
        chars@ == text@,
{
    let mut chars: Vec<char> = Vec::new();
    for c in it: text.chars()
        invariant
            it.seq() == text@,
            chars@ == text@.take(it.index() as int),
    {
        chars.push(c);
    }
    assert(chars@ =~= text@);
    chars
}

/// Compares two texts.
pub fn text_order(a: &str, b: &str) -> (order: Order)
    ensures
        order == order_of(a@, b@),
{
    let x = characters(a);
    let y = characters(b);
    let mut i: usize = 0;
    proof {
        assert(a@.skip(0) =~= a@);
        assert(b@.skip(0) =~= b@);
    }
    while i < x.len() && i < y.len()
        invariant
            x@ == a@,
            y@ == b@,
            i <= x.len(),
            i <= y.len(),
            order_of(a@, b@) == order_of(a@.skip(i as int), b@.skip(i as int)),
        decreases x.len() - i,
    {
        let ghost p = a@.skip(i as int);
        let ghost q = b@.skip(i as int);
        if x[i] < y[i] {
            return Order::Before;
        }
        if y[i] < x[i] {
            assert(p[0] != q[0]);
            return Order::After;
        }
        proof {
            assert(p.skip(1) =~= a@.skip(i + 1));
            assert(q.skip(1) =~= b@.skip(i + 1));
            assert(p =~= seq![p[0]] + p.skip(1));
            assert(q =~= seq![q[0]] + q.skip(1));
        }
        i = i + 1;
    }
    proof {
        if a@.skip(i as int).len() == 0 && b@.skip(i as int).len() == 0 {
            assert(a@.skip(i as int) =~= b@.skip(i as int));
        }
    }
    if i < y.len() {
        Order::Before
    } else if i < x.len() {
        Order::After
    } else {
        Order::Same
    }
}

/// Whether two texts hold the same characters.
pub fn same_text(a: &str, b: &str) -> (same: bool)
    ensures
        same == (a@ == b@),
{
    proof {
        lemma_before_irreflexive(a@);
    }
    match text_order(a, b) {
        Order::Same => true,
        _ => false,
    }
}

/// Of two different texts one comes before the other.
pub proof fn lemma_before_total(a: Seq<char>, b: Seq<char>)
    ensures
        text_before(a, b) || a == b || text_before(b, a),
    decreases a.len(),
{
    if a.len() == 0 && b.len() == 0 {
        assert(a =~= b);
    } else if a.len() > 0 && b.len() > 0 {
        lemma_before_total(a.skip(1), b.skip(1));
        assert(a =~= seq![a[0]] + a.skip(1));
        assert(b =~= seq![b[0]] + b.skip(1));
    }
}

/// Coming before carries over.
pub proof fn lemma_before_transitive(a: Seq<char>, b: Seq<char>, c: Seq<char>)
    requires
        text_before(a, b),
        text_before(b, c),
    ensures
        text_before(a, c),
    decreases a.len(),
{
    if a.len() > 0 && a[0] == b[0] && b[0] == c[0] {
        lemma_before_transitive(a.skip(1), b.skip(1), c.skip(1));
    }
}

/// No text comes before itself.
pub proof fn lemma_before_irreflexive(a: Seq<char>)
    ensures
        !text_before(a, a),
    decreases a.len(),
{
    if a.len() > 0 {
        lemma_before_irreflexive(a.skip(1));
    }
}

/// The characters that count as white space.
pub open spec fn white_space(c: char) -> bool {
    let n = c as u32;
    ||| 0x09 <= n <= 0x0d
    ||| n == 0x20
    ||| n == 0x85
    ||| n == 0xa0
    ||| n == 0x1680
    ||| 0x2000 <= n <= 0x200a
    ||| n == 0x2028
    ||| n == 0x2029
    ||| n == 0x202f
    ||| n == 0x205f
    ||| n == 0x3000
}

/// A text without the leading characters that `drop` picks.
pub open spec fn without_leading(s: Seq<char>, drop: spec_fn(char) -> bool) -> Seq<char>
    decreases s.len(),
{
    if s.len() > 0 && drop(s[0]) {
        without_leading(s.skip(1), drop)
    } else {
        s
    }
}

/// A text without the trailing characters that `drop` picks.
pub open spec fn without_trailing(s: Seq<char>, drop: spec_fn(char) -> bool) -> Seq<char>
    decreases s.len(),
{
    if s.len() > 0 && drop(s.last()) {
        without_trailing(s.drop_last(), drop)
    } else {
        s
    }
}

/// A text without the white space at its two ends.
pub open spec fn trimmed(s: Seq<char>) -> Seq<char> {
    let blank = |c: char| white_space(c);
    without_trailing(without_leading(s, blank), blank)
}

/// A text of which nothing is left once it is trimmed.
pub open spec fn is_blank(s: Seq<char>) -> bool {
    trimmed(s).len() == 0
}

/// What is left once trailing characters are dropped: a beginning of the text that does not end in
/// such a character.
pub proof fn lemma_without_trailing(s: Seq<char>, drop: spec_fn(char) -> bool)
    ensures
        without_trailing(s, drop).len() <= s.len(),
        without_trailing(s, drop) == s.take(without_trailing(s, drop).len() as int),
        without_trailing(s, drop).len() > 0 ==> !drop(without_trailing(s, drop).last()),
    decreases s.len(),
{
    if s.len() > 0 && drop(s.last()) {
        lemma_without_trailing(s.drop_last(), drop);
        let n = without_trailing(s, drop).len() as int;
        assert(s.drop_last().take(n) =~= s.take(n));
    } else {
        assert(s.take(s.len() as int) =~= s);
    }
}

/// What is left once leading characters are dropped does not start with such a character.
pub proof fn lemma_without_leading(s: Seq<char>, drop: spec_fn(char) -> bool)
    ensures
        without_leading(s, drop).len() <= s.len(),
        without_leading(s, drop).len() > 0 ==> !drop(without_leading(s, drop)[0]),
    decreases s.len(),
{
    if s.len() > 0 && drop(s[0]) {
        lemma_without_leading(s.skip(1), drop);
    }
}

/// A trimmed text has no white space at its ends, and trimming it again changes nothing.
pub proof fn law_trimming_is_final(s: Seq<char>)
    ensures
        trimmed(trimmed(s)) == trimmed(s),
        trimmed(s).len() > 0 ==> !white_space(trimmed(s)[0]) && !white_space(trimmed(s).last()),
{
    let blank = |c: char| white_space(c);
    let lead = without_leading(s, blank);
    lemma_without_leading(s, blank);
    lemma_without_trailing(lead, blank);
    let result = without_trailing(lead, blank);
    if result.len() > 0 {
        assert(result[0] == lead[0]);
        assert(without_leading(result, blank) == result);
    }
}

fn is_white_space(c: char) -> (yes: bool)
    ensures
        yes == white_space(c),
{
    let n: u32 = c as u32;
    (0x09 <= n && n <= 0x0d) || n == 0x20 || n == 0x85 || n == 0xa0 || n == 0x1680 || (0x2000 <= n
        && n <= 0x200a) || n == 0x2028 || n == 0x2029 || n == 0x202f || n == 0x205f || n == 0x3000
}

/// The text without the white space at its two ends.
pub fn trim(text: &str) -> (rest: &str)
    ensures
        rest@ == trimmed(text@),
{
    let chars = characters(text);
    let ghost blank = |c: char| white_space(c);
    let ghost lead = without_leading(text@, blank);
    let mut from: usize = 0;
    assert(text@.skip(0) =~= text@);
    while from < chars.len() && is_white_space(chars[from])
        invariant
            chars@ == text@,
            from <= chars.len(),
            blank == |c: char| white_space(c),
            without_leading(text@.skip(from as int), blank) == lead,
        decreases chars.len() - from,
    {
        assert(text@.skip(from as int).skip(1) =~= text@.skip(from + 1));
        from = from + 1;
    }
    assert(lead == text@.skip(from as int));
    let ghost whole = without_trailing(lead, blank);
    let mut to: usize = chars.len();
    assert(lead =~= text@.subrange(from as int, to as int));
    while from < to && is_white_space(chars[to - 1])
        invariant
            chars@ == text@,
            from <= to <= chars.len(),
            blank == |c: char| white_space(c),
            without_trailing(text@.subrange(from as int, to as int), blank) == whole,
        decreases to,
    {
        assert(text@.subrange(from as int, to as int).drop_last() =~= text@.subrange(
            from as int,
            to - 1,
        ));
        to = to - 1;
    }
    text.substring_char(from, to)
}

/// The text without the given character at its end, however often it stands there.
pub fn trim_end(text: &str, edge: char) -> (rest: &str)
    ensures
        rest@ == without_trailing(text@, |c: char| c == edge),
{
    let chars = characters(text);
    let ghost drop = |c: char| c == edge;
    let mut to: usize = chars.len();
    assert(text@.take(to as int) =~= text@);
    while 0 < to && chars[to - 1] == edge
        invariant
            chars@ == text@,
            to <= chars.len(),
            drop == |c: char| c == edge,
            without_trailing(text@.take(to as int), drop) == without_trailing(text@, drop),
        decreases to,
    {
        assert(text@.take(to as int).drop_last() =~= text@.take(to - 1));
        to = to - 1;
    }
    text.substring_char(0, to)
}

/// The text without the given character at its start, however often it stands there.
pub fn trim_start(text: &str, edge: char) -> (rest: &str)
    ensures
        rest@ == without_leading(text@, |c: char| c == edge),
{
    let chars = characters(text);
    let ghost drop = |c: char| c == edge;
    let mut from: usize = 0;
    assert(text@.skip(0) =~= text@);
    while from < chars.len() && chars[from] == edge
        invariant
            chars@ == text@,
            from <= chars.len(),
            drop == |c: char| c == edge,
            without_leading(text@.skip(from as int), drop) == without_leading(text@, drop),
        decreases chars.len() - from,
    {
        assert(text@.skip(from as int).skip(1) =~= text@.skip(from + 1));
        from = from + 1;
    }
    assert(text@.skip(from as int) =~= text@.subrange(from as int, text@.len() as int));
    text.substring_char(from, chars.len())
}

/// The number of bytes that a character takes in UTF-8.
pub open spec fn utf8_width(c: char) -> nat {
    let n = c as u32;
    if n < 0x80 {
        1
    } else if n < 0x800 {
        2
    } else if n < 0x10000 {
        3
    } else {
        4
    }
}

/// The part of a text that its first `n` UTF-8 bytes hold, if they hold whole characters.
pub open spec fn byte_prefix(s: Seq<char>, n: nat) -> Option<Seq<char>>
    decreases s.len(),
{
    if n == 0 {
        Some(Seq::empty())
    } else if s.len() == 0 || utf8_width(s[0]) > n {
        None
    } else {
        match byte_prefix(s.skip(1), (n - utf8_width(s[0])) as nat) {
            Some(rest) => Some(seq![s[0]] + rest),
            None => None,
        }
    }
}

fn char_width(c: char) -> (width: usize)
    ensures
        width == utf8_width(c),
        1 <= width <= 4,
{
    let n: u32 = c as u32;
    if n < 0x80 {
        1
    } else if n < 0x800 {
        2
    } else if n < 0x10000 {
        3
    } else {
        4
    }
}

/// The part of a text that its first `n` bytes hold, if there are so many and they hold
/// whole characters.
pub fn first_bytes(text: &str, n: usize) -> (prefix: Option<&str>)
    ensures
        prefix is Some == byte_prefix(text@, n as nat) is Some,
        prefix matches Some(p) ==> byte_prefix(text@, n as nat) == Some(p@),
{
    let chars = characters(text);
    let mut i: usize = 0;
    let mut left: usize = n;
    assert(text@.skip(0) =~= text@);
    proof {
        if let Some(rest) = byte_prefix(text@, n as nat) {
            assert(text@.take(0) + rest =~= rest);
        }
    }
    while 0 < left
        invariant
            chars@ == text@,
            i <= chars.len(),
            byte_prefix(text@, n as nat) == (match byte_prefix(
                text@.skip(i as int),
                left as nat,
            ) {
                Some(rest) => Some(text@.take(i as int) + rest),
                None => None,
            }),
        decreases left,
    {
        if i == chars.len() {
            return None;
        }
        let width = char_width(chars[i]);
        if width > left {
            return None;
        }
        proof {
            assert(text@.skip(i as int).skip(1) =~= text@.skip(i + 1));
            if let Some(rest) = byte_prefix(text@.skip(i + 1), (left - width) as nat) {
                assert(text@.take(i as int) + (seq![chars[i as int]] + rest) =~= text@.take(i + 1)
                    + rest);
            }
        }
        left = left - width;
        i = i + 1;
    }
    assert(text@.take(i as int) + Seq::<char>::empty() =~= text@.take(i as int));
    assert(text@.take(i as int) =~= text@.subrange(0, i as int));
    Some(text.substring_char(0, i))
}

/// The rest of a text that starts with a prefix.
pub open spec fn after_prefix(s: Seq<char>, prefix: Seq<char>) -> Option<Seq<char>> {
    if prefix.is_prefix_of(s) {
        Some(s.skip(prefix.len() as int))
    } else {
        None
    }
}

/// Takes a prefix off a text that starts with it.
pub fn strip_prefix<'a>(text: &'a str, prefix: &str) -> (rest: Option<&'a str>)
    ensures
        rest is Some == after_prefix(text@, prefix@) is Some,
        rest matches Some(r) ==> after_prefix(text@, prefix@) == Some(r@),
{
    let chars = characters(text);
    let start = characters(prefix);
    if chars.len() < start.len() {
        return None;
    }
    let mut i: usize = 0;
    while i < start.len()
        invariant
            chars@ == text@,
            start@ == prefix@,
            i <= start.len() <= chars.len(),
            forall|j: int| 0 <= j < i ==> text@[j] == prefix@[j],
        decreases start.len() - i,
    {
        if chars[i] != start[i] {
            assert(text@.subrange(0, prefix@.len() as int)[i as int] != prefix@[i as int]);
            return None;
        }
        i = i + 1;
    }
    assert(prefix@ =~= text@.subrange(0, prefix@.len() as int));
    assert(text@.skip(i as int) =~= text@.subrange(i as int, text@.len() as int));
    Some(text.substring_char(i, chars.len()))
}

/// What the strings of a sequence hold.
pub open spec fn texts(strings: Seq<String>) -> Seq<Seq<char>> {
    strings.map_values(|s: String| s@)
}

/// What an optional string holds.
pub open spec fn held(text: Option<String>) -> Option<Seq<char>> {
    match text {
        Some(text) => Some(text@),
        None => None,
    }
}

/// Whether some strings hold a text.
pub fn contains_text(strings: &Vec<String>, text: &str) -> (yes: bool)
    ensures
        yes == texts(strings@).contains(text@),
{
    let mut i: usize = 0;
    while i < strings.len()
        invariant
            i <= strings@.len(),
            forall|j: int| 0 <= j < i ==> (#[trigger] strings@[j])@ != text@,
        decreases strings@.len() - i,
    {
        if same_text(strings[i].as_str(), text) {
            assert(texts(strings@)[i as int] == text@);
            return true;
        }
        i = i + 1;
    }
    proof {
        if texts(strings@).contains(text@) {
            let j = choose|j: int| 0 <= j < texts(strings@).len() && texts(strings@)[j] == text@;
            assert(strings@[j]@ == text@);
        }
    }
    false
}

/// Appends strings to others.
pub(crate) fn append_strings(output: &mut Vec<String>, more: Vec<String>)
    ensures
        texts(final(output)@) == texts(old(output)@) + texts(more@),
{
    let ghost start = texts(output@);
    let mut i: usize = 0;
    assert(texts(output@) =~= start + texts(more@).take(0));
    while i < more.len()
        invariant
            i <= more@.len(),
            texts(output@) == start + texts(more@).take(i as int),
        decreases more@.len() - i,
    {
        let ghost before = output@;
        output.push(more[i].clone());
        proof {
            assert(texts(output@) =~= texts(before).push(more@[i as int]@));
            assert(texts(more@).take(i + 1) =~= texts(more@).take(i as int).push(
                more@[i as int]@,
            ));
            assert(texts(output@) =~= start + texts(more@).take(i + 1));
        }
        i = i + 1;
    }
    assert(texts(more@).take(i as int) =~= texts(more@));
}

/// Texts in one, with a separator between them.
pub open spec fn joined(parts: Seq<Seq<char>>, separator: Seq<char>) -> Seq<char>
    decreases parts.len(),
{
    if parts.len() == 0 {
        Seq::empty()
    } else if parts.len() == 1 {
        parts[0]
    } else {
        joined(parts.drop_last(), separator) + separator + parts.last()
    }
}

/// The pieces of a text between the occurrences of a separator.
pub open spec fn pieces(s: Seq<char>, separator: char) -> Seq<Seq<char>>
    decreases s.len(),
{
    if s.len() == 0 {
        seq![Seq::empty()]
    } else {
        let before = pieces(s.drop_last(), separator);
        if s.last() == separator {
            before.push(Seq::empty())
        } else {
            before.drop_last().push(before.last().push(s.last()))
        }
    }
}

/// Cuts a text at every occurrence of a separator.
pub fn split(text: &str, separator: char) -> (parts: Vec<String>)
    ensures
        texts(parts@) == pieces(text@, separator),
{
    let chars = characters(text);
    let mut parts: Vec<String> = Vec::new();
    let mut start: usize = 0;
    let mut i: usize = 0;
    assert(text@.subrange(0, 0) =~= Seq::<char>::empty());
    assert(texts(parts@).push(text@.subrange(0, 0)) =~= pieces(text@.take(0), separator));
    while i < chars.len()
        invariant
            chars@ == text@,
            start <= i <= chars.len(),
            texts(parts@).push(text@.subrange(start as int, i as int)) == pieces(
                text@.take(i as int),
                separator,
            ),
        decreases chars.len() - i,
    {
        let ghost before = pieces(text@.take(i as int), separator);
        assert(text@.take(i + 1).drop_last() =~= text@.take(i as int));
        if chars[i] == separator {
            let part = text.substring_char(start, i).to_owned();
            let ghost earlier = texts(parts@);
            parts.push(part);
            start = i + 1;
            proof {
                assert(texts(parts@) =~= earlier.push(part@));
                assert(text@.subrange(i + 1, i + 1) =~= Seq::<char>::empty());
            }
        } else {
            assert(before.drop_last() =~= texts(parts@));
            assert(before.last().push(chars[i as int]) =~= text@.subrange(start as int, i + 1));
        }
        i = i + 1;
    }
    assert(text@.take(i as int) =~= text@);
    let part = text.substring_char(start, i).to_owned();
    let ghost earlier = texts(parts@);
    parts.push(part);
    assert(texts(parts@) =~= earlier.push(part@));
    parts
}

/// A text with its letters in lower case.
pub uninterp spec fn lowercase(s: Seq<char>) -> Seq<char>;

/// A text of ASCII characters.
pub open spec fn is_ascii_text(s: Seq<char>) -> bool {
    forall|i: int| 0 <= i < s.len() ==> (#[trigger] s[i]) as u32 <= 0x7f
}

/// An ASCII character in lower case.
pub open spec fn ascii_lower(c: char) -> char {
    if 'A' <= c <= 'Z' {
        (c as u32 + 32) as char
    } else {
        c
    }
}

/// An ASCII text in lower case.
pub open spec fn ascii_lowered(s: Seq<char>) -> Seq<char> {
    s.map_values(|c: char| ascii_lower(c))
}

/// Calls `str::to_lowercase` of the standard library. The result depends on the text alone. It is
/// stated for texts of ASCII characters, whose letters from A to Z it turns into those from a to z;
/// for others it follows the Unicode tables and is left unsaid.
#[verifier::external_body]
pub(crate) fn to_lower(text: &str) -> (lower: String)
    ensures
        lower@ == lowercase(text@),
        is_ascii_text(text@) ==> lower@ == ascii_lowered(text@),
{
    text.to_lowercase()
}

/// A byte that stands for itself in the query of a URL.
pub open spec fn unreserved(b: u8) -> bool {
    ||| 0x30 <= b <= 0x39
    ||| 0x41 <= b <= 0x5a
    ||| 0x61 <= b <= 0x7a
    ||| b == 0x2d
    ||| b == 0x2e
    ||| b == 0x5f
    ||| b == 0x7e
}

/// One hexadecimal digit, in upper case.
pub open spec fn hex_digit(n: int) -> char {
    if n < 10 {
        (0x30 + n) as char
    } else {
        (0x37 + n) as char
    }
}

/// Bytes in percent encoding: unreserved bytes stand for themselves, any other is written as a
/// percent sign and two hexadecimal digits.
pub open spec fn percent_encoded(bytes: Seq<u8>) -> Seq<char>
    decreases bytes.len(),
{
    if bytes.len() == 0 {
        Seq::empty()
    } else {
        let b = bytes.last();
        percent_encoded(bytes.drop_last()) + if unreserved(b) {
            seq![b as char]
        } else {
            seq!['%', hex_digit(b as int / 16), hex_digit(b as int % 16)]
        }
    }
}

/// Calls `urlencoding::encode`, which writes the UTF-8 bytes of a text in percent encoding.
#[verifier::external_body]
pub(crate) fn url_encode(text: &str) -> (encoded: String)
    ensures
        encoded@ == percent_encoded(vstd::utf8::encode_utf8(text@)),
{
    urlencoding::encode(text).into_owned()
}

/// A trimmed text is a part of the text.
pub proof fn lemma_trimmed_is_inside(s: Seq<char>)
    ensures
        exists|k: int|
            0 <= k && k + trimmed(s).len() <= s.len() && trimmed(s) == #[trigger] s.subrange(
                k,
                k + trimmed(s).len(),
            ),
{
    let blank = |c: char| white_space(c);
    lemma_leading_is_end(s, blank);
    let lead = without_leading(s, blank);
    lemma_without_trailing(lead, blank);
    let k = s.len() - lead.len();
    let n = trimmed(s).len();
    assert(lead.take(n as int) =~= s.subrange(k, k + n));
}

proof fn lemma_leading_is_end(s: Seq<char>, drop: spec_fn(char) -> bool)
    ensures
        without_leading(s, drop).len() <= s.len(),
        without_leading(s, drop) == s.skip(s.len() - without_leading(s, drop).len()),
    decreases s.len(),
{
    if s.len() > 0 && drop(s[0]) {
        lemma_leading_is_end(s.skip(1), drop);
        let n = without_leading(s, drop).len();
        assert(s.skip(1).skip(s.len() - 1 - n) =~= s.skip(s.len() - n));
    } else {
        assert(s.skip(0) =~= s);
    }
}

/// The first bytes of a text that starts with as many ASCII characters hold these.
pub proof fn lemma_ascii_prefix(start: Seq<char>, rest: Seq<char>)
    requires
        is_ascii_text(start),
    ensures
        byte_prefix(start + rest, start.len()) == Some(start),
    decreases start.len(),
{
    if start.len() > 0 {
        let s = start + rest;
        assert(s[0] == start[0]);
        assert(start[0] as u32 <= 0x7f);
        assert(s.skip(1) =~= start.skip(1) + rest);
        assert forall|i: int| 0 <= i < start.skip(1).len() implies (
        #[trigger] start.skip(1)[i]) as u32 <= 0x7f by {
            assert(start[i + 1] as u32 <= 0x7f);
        }
        lemma_ascii_prefix(start.skip(1), rest);
        assert(seq![start[0]] + start.skip(1) =~= start);
    } else {
        assert(Seq::<char>::empty() =~= start);
    }
}

} // verus!
