//! Strings as sequences of characters: white space, trimming, replacing,
//! joining and decimal notation.

use vstd::prelude::*;

verus! {

/// The text that a displayable error shows.
pub fn error_string<E: std::fmt::Display>(error: E) -> (text: String)
    ensures
        vstd::string::to_string_from_display_ensures(&error, text),
{
    error.to_string()
}

/// `String::from_iter` on a vector of characters: the string holds exactly
/// those characters, in their order.
#[verifier::external_body]
pub(crate) fn string_of(chars: Vec<char>) -> (text: String)
    ensures
        text@ == chars@,
{
    String::from_iter(chars)
}

/// The name of what `str::to_lowercase` returns.
pub uninterp spec fn lowercase(text: Seq<char>) -> Seq<char>;

/// Whether every character is an ASCII character.
pub open spec fn all_ascii(text: Seq<char>) -> bool {
    forall|i: int| 0 <= i < text.len() ==> (#[trigger] text[i] as u32) < 128
}

/// An ASCII capital as its small letter, any other character as it is.
pub open spec fn ascii_small(c: char) -> char {
    if 'A' <= c <= 'Z' {
        (c as u32 + 32) as char
    } else {
        c
    }
}

/// `str::to_lowercase`. Its result is named; of an ASCII text it is also
/// stated: each capital becomes the small letter, all else stays.
#[verifier::external_body]
fn to_lowercase(text: &str) -> (lower: String)
    ensures
        lower@ == lowercase(text@),
        all_ascii(text@) ==> lower@ == text@.map_values(|c: char| ascii_small(c)),
{
    text.to_lowercase()
}

/// A text in small letters: of an ASCII text each capital becomes the small
/// letter, of any other text it is what `str::to_lowercase` returns.
pub open spec fn small_letters(text: Seq<char>) -> Seq<char> {
    if all_ascii(text) {
        text.map_values(|c: char| ascii_small(c))
    } else {
        lowercase(text)
    }
}

/// Writes a text in small letters.
pub fn in_small_letters(text: &str) -> (lower: String)
    ensures
        lower@ == small_letters(text@),
{
    to_lowercase(text)
}

/// The characters of a string, one by one.
pub fn chars_of(text: &str) -> (chars: Vec<char>)
    ensures
        chars@ == text@,
{
    let mut chars: Vec<char> = Vec::new();
    for c in it: text.chars()
        invariant
            it.seq() == text@,
            chars@ == text@.take(it.index() as int),
    {
        chars.push(c);
        assert(text@.take(it.index() + 1) == text@.take(it.index() as int).push(c));
    }
    assert(text@.take(text@.len() as int) == text@);
    chars
}

/// Whether two strings hold the same characters.
pub fn same_text(a: &str, b: &str) -> (same: bool)
    ensures
        same == (a@ == b@),
{
    a.to_owned().eq(&b.to_owned())
}

/// `a` followed by `b`.
pub fn glue(a: &str, b: &str) -> (text: String)
    ensures
        text@ == a@ + b@,
{
    let mut text = a.to_owned();
    text.append(b);
    text
}

/// The characters with the Unicode property White_Space.
pub open spec fn white_space(c: char) -> bool {
    let n = c as u32;
    ||| 0x9 <= n <= 0xd
    ||| n == 0x20
    ||| n == 0x85
    ||| n == 0xa0
    ||| n == 0x1680
    ||| 0x2000 <= n <= 0x200a
    ||| n == 0x2028
    ||| n == 0x2029
    ||| n == 0x202f
    ||| n == 0x205f
    ||| n == 0x3000
}

/// Whether a character has the Unicode property White_Space.
pub fn is_white_space(c: char) -> (yes: bool)
    ensures
        yes == white_space(c),
{
    let n: u32 = c as u32;
    (0x9 <= n && n <= 0xd) || n == 0x20 || n == 0x85 || n == 0xa0 || n == 0x1680 || (0x2000 <= n
        && n <= 0x200a) || n == 0x2028 || n == 0x2029 || n == 0x202f || n == 0x205f || n == 0x3000
}

/// The text without the white space it starts with.
pub open spec fn trimmed_start(text: Seq<char>) -> Seq<char>
    decreases text.len(),
{
    if text.len() > 0 && white_space(text[0]) {
        trimmed_start(text.drop_first())
    } else {
        text
    }
}

/// The text without the white space it ends with.
pub open spec fn trimmed_end(text: Seq<char>) -> Seq<char>
    decreases text.len(),
{
    if text.len() > 0 && white_space(text.last()) {
        trimmed_end(text.drop_last())
    } else {
        text
    }
}

/// The text without the white space around it.
pub open spec fn trimmed(text: Seq<char>) -> Seq<char> {
    trimmed_end(trimmed_start(text))
}

/// The text without the characters `c` that it starts with.
pub open spec fn without_leading(text: Seq<char>, c: char) -> Seq<char>
    decreases text.len(),
{
    if text.len() > 0 && text[0] == c {
        without_leading(text.drop_first(), c)
    } else {
        text
    }
}

/// A text that trimming leaves as it is ends in no white space.
pub proof fn lemma_trimmed_last(text: Seq<char>)
    requires
        trimmed(text) == text,
    ensures
        text.len() > 0 ==> !white_space(text.last()),
{
    lemma_trimmed_end_shrinks(trimmed_start(text));
    lemma_trimmed_start_shrinks(text);
    if text.len() > 0 && white_space(text.last()) {
        assert(trimmed_start(text) == text) by {
            lemma_trimmed_start_shrinks(text);
        }
        lemma_trimmed_end_shrinks(text.drop_last());
    }
}

proof fn lemma_trimmed_end_shrinks(text: Seq<char>)
    ensures
        trimmed_end(text).len() <= text.len(),
    decreases text.len(),
{
    if text.len() > 0 && white_space(text.last()) {
        lemma_trimmed_end_shrinks(text.drop_last());
    }
}

proof fn lemma_trimmed_start_shrinks(text: Seq<char>)
    ensures
        trimmed_start(text).len() <= text.len(),
        trimmed_start(text).len() == text.len() ==> trimmed_start(text)
            == text,
    decreases text.len(),
{
    if text.len() > 0 && white_space(text[0]) {
        lemma_trimmed_start_shrinks(text.drop_first());
    }
}

/// The part of `chars` from `from` up to `to`.
pub(crate) fn part(chars: &Vec<char>, from: usize, to: usize) -> (cut: Vec<char>)
    requires
        from <= to <= chars@.len(),
    ensures
        cut@ == chars@.subrange(from as int, to as int),
{
    let mut cut: Vec<char> = Vec::new();
    let mut i: usize = from;
    while i < to
        invariant
            from <= i <= to <= chars@.len(),
            cut@ == chars@.subrange(from as int, i as int),
        decreases to - i,
    {
        cut.push(chars[i]);
        assert(chars@.subrange(from as int, i + 1) == chars@.subrange(from as int, i as int).push(
            chars@[i as int],
        ));
        i = i + 1;
    }
    cut
}

/// Where the text starts once the white space before it is left out.
fn start_of(chars: &Vec<char>) -> (start: usize)
    ensures
        start <= chars@.len(),
        trimmed_start(chars@) == chars@.skip(start as int),
{
    let mut start: usize = 0;
    assert(chars@.skip(0) == chars@);
    while start < chars.len() && is_white_space(chars[start])
        invariant
            start <= chars@.len(),
            trimmed_start(chars@) == trimmed_start(chars@.skip(start as int)),
        decreases chars@.len() - start,
    {
        assert(chars@.skip(start as int).drop_first() == chars@.skip(start + 1));
        start = start + 1;
    }
    start
}

/// The text without the white space it starts with.
pub fn trim_start(chars: &Vec<char>) -> (cut: Vec<char>)
    ensures
        cut@ == trimmed_start(chars@),
{
    let start = start_of(chars);
    part(chars, start, chars.len())
}

/// The text without the white space around it.
pub fn trim(chars: &Vec<char>) -> (cut: Vec<char>)
    ensures
        cut@ == trimmed(chars@),
{
    let start = start_of(chars);
    let mut end: usize = chars.len();
    assert(chars@.skip(start as int) == chars@.subrange(start as int, end as int));
    while start < end && is_white_space(chars[end - 1])
        invariant
            start <= end <= chars@.len(),
            trimmed(chars@) == trimmed_end(chars@.subrange(start as int, end as int)),
        decreases end,
    {
        assert(chars@.subrange(start as int, end as int).drop_last() == chars@.subrange(
            start as int,
            end - 1,
        ));
        end = end - 1;
    }
    part(chars, start, end)
}

/// The text without the characters `c` that it starts with.
pub fn trim_leading(chars: &Vec<char>, c: char) -> (cut: Vec<char>)
    ensures
        cut@ == without_leading(chars@, c),
{
    let mut start: usize = 0;
    assert(chars@.skip(0) == chars@);
    while start < chars.len() && chars[start] == c
        invariant
            start <= chars@.len(),
            without_leading(chars@, c) == without_leading(chars@.skip(start as int), c),
        decreases chars@.len() - start,
    {
        assert(chars@.skip(start as int).drop_first() == chars@.skip(start + 1));
        start = start + 1;
    }
    part(chars, start, chars.len())
}

/// Whether `word` stands in `text` at position `at`.
pub open spec fn stands_at(text: Seq<char>, at: int, word: Seq<char>) -> bool {
    0 <= at && at + word.len() <= text.len() && text.subrange(at, at + word.len()) == word
}

/// Whether `word` stands in `chars` at position `at`.
pub(crate) fn word_at(chars: &Vec<char>, at: usize, word: &Vec<char>) -> (yes: bool)
    requires
        at <= chars@.len(),
    ensures
        yes == stands_at(chars@, at as int, word@),
{
    if chars.len() - at < word.len() {
        return false;
    }
    let mut i: usize = 0;
    while i < word.len()
        invariant
            i <= word@.len(),
            at + word@.len() <= chars.len(),
            forall|j: int| 0 <= j < i ==> chars@[at + j] == #[trigger] word@[j],
        decreases word@.len() - i,
    {
        if chars[at + i] != word[i] {
            assert(chars@.subrange(at as int, at + word@.len())[i as int] != word@[i as int]);
            return false;
        }
        i = i + 1;
    }
    assert(chars@.subrange(at as int, at + word@.len()) == word@);
    true
}

/// `text` with every occurrence of `from`, found from the left and without
/// overlap, replaced by `to`.
pub open spec fn replaced(text: Seq<char>, from: Seq<char>, to: Seq<char>) -> Seq<char>
    decreases text.len(),
{
    if from.len() == 0 || text.len() == 0 {
        text
    } else if stands_at(text, 0, from) {
        to + replaced(text.skip(from.len() as int), from, to)
    } else {
        seq![text[0]] + replaced(text.drop_first(), from, to)
    }
}

/// Replaces every occurrence of the word `from`, found from the left and
/// without overlap, by `to`.
pub fn replace_all(chars: &Vec<char>, from: &str, to: &str) -> (result: Vec<char>)
    requires
        from@.len() > 0,
    ensures
        result@ == replaced(chars@, from@, to@),
{
    let from = chars_of(from);
    let to = chars_of(to);
    let mut result: Vec<char> = Vec::new();
    let mut i: usize = 0;
    assert(chars@.skip(0) == chars@);
    while i < chars.len()
        invariant
            from@.len() > 0,
            i <= chars@.len(),
            replaced(chars@, from@, to@) == result@ + replaced(chars@.skip(i as int), from@, to@),
        decreases chars@.len() - i,
    {
        let ghost rest = chars@.skip(i as int);
        let ghost done = result@;
        if word_at(chars, i, &from) {
            assert(stands_at(rest, 0, from@)) by {
                assert(rest.subrange(0, from@.len() as int) == chars@.subrange(
                    i as int,
                    i + from@.len(),
                ));
            }
            let mut j: usize = 0;
            while j < to.len()
                invariant
                    j <= to@.len(),
                    result@ == done + to@.take(j as int),
                decreases to@.len() - j,
            {
                result.push(to[j]);
                assert(to@.take(j + 1) == to@.take(j as int).push(to@[j as int]));
                j = j + 1;
            }
            assert(to@.take(j as int) == to@);
            assert(rest.skip(from@.len() as int) == chars@.skip(i + from@.len()));
            assert(result@ + replaced(rest.skip(from@.len() as int), from@, to@) == done + (to@
                + replaced(rest.skip(from@.len() as int), from@, to@)));
            i = i + from.len();
        } else {
            assert(!stands_at(rest, 0, from@)) by {
                if stands_at(rest, 0, from@) {
                    assert(rest.subrange(0, from@.len() as int) == chars@.subrange(
                        i as int,
                        i + from@.len(),
                    ));
                }
            }
            result.push(chars[i]);
            assert(rest.drop_first() == chars@.skip(i + 1));
            assert(result@ + replaced(rest.drop_first(), from@, to@) == done + (seq![rest[0]]
                + replaced(rest.drop_first(), from@, to@)));
            i = i + 1;
        }
    }
    assert(result@ + replaced(chars@.skip(i as int), from@, to@) == result@);
    result
}

/// Whether a character occurs in the text.
pub fn has_char(chars: &Vec<char>, c: char) -> (yes: bool)
    ensures
        yes == chars@.contains(c),
{
    let mut i: usize = 0;
    while i < chars.len()
        invariant
            i <= chars@.len(),
            forall|j: int| 0 <= j < i ==> chars@[j] != c,
        decreases chars@.len() - i,
    {
        if chars[i] == c {
            return true;
        }
        i = i + 1;
    }
    false
}

/// The views of a sequence of strings.
pub open spec fn texts(strings: Seq<String>) -> Seq<Seq<char>> {
    strings.map_values(|s: String| s@)
}

/// The parts one after the other, with `separator` between them.
pub open spec fn joined(parts: Seq<Seq<char>>, separator: Seq<char>) -> Seq<char>
    decreases parts.len(),
{
    if parts.len() == 0 {
        Seq::empty()
    } else if parts.len() == 1 {
        parts[0]
    } else {
        joined(parts.drop_last(), separator) + separator + parts.last()
    }
}

/// Writes the parts one after the other, with `separator` between them.
pub fn join(parts: &Vec<String>, separator: &str) -> (text: String)
    ensures
        text@ == joined(texts(parts@), separator@),
{
    let mut text = String::new();
    let ghost all = texts(parts@);
    let mut i: usize = 0;
    while i < parts.len()
        invariant
            i <= parts@.len(),
            all == texts(parts@),
            text@ == joined(all.take(i as int), separator@),
        decreases parts@.len() - i,
    {
        if i > 0 {
            text.append(separator);
        }
        text.append(parts[i].as_str());
        assert(all.take(i + 1).drop_last() == all.take(i as int));
        assert(all.take(i + 1).last() == parts@[i as int]@);
        i = i + 1;
    }
    assert(all.take(i as int) == all);
    text
}

/// The decimal digit with the value `n`.
pub open spec fn digit(n: int) -> char {
    ('0' as u32 + n) as char
}

/// A natural number in decimal notation.
pub open spec fn decimal(n: nat) -> Seq<char>
    decreases n,
{
    if n < 10 {
        seq![digit(n as int)]
    } else {
        decimal(n / 10).push(digit((n % 10) as int))
    }
}

/// An integer in decimal notation, with `-` before a negative one.
pub open spec fn signed_decimal(n: int) -> Seq<char> {
    if n < 0 {
        seq!['-'] + decimal((-n) as nat)
    } else {
        decimal(n as nat)
    }
}

fn decimal_digits(n: u64) -> (digits: Vec<char>)
    ensures
        digits@ == decimal(n as nat),
    decreases n,
{
    let mut digits: Vec<char> = if n < 10 {
        Vec::new()
    } else {
        decimal_digits(n / 10)
    };
    let low: u8 = (n % 10) as u8;
    digits.push((48u8 + low) as char);
    digits
}

/// Writes a natural number in decimal notation.
pub fn decimal_text(n: u64) -> (text: String)
    ensures
        text@ == decimal(n as nat),
{
    string_of(decimal_digits(n))
}

/// Writes an integer in decimal notation.
pub fn signed_decimal_text(n: i64) -> (text: String)
    ensures
        text@ == signed_decimal(n as int),
{
    if n >= 0 {
        decimal_text(n as u64)
    } else {
        let magnitude: u64 = if n == i64::MIN {
            0x8000_0000_0000_0000
        } else {
            (-n) as u64
        };
        proof {
            reveal_strlit("-");
        }
        let text = glue("-", decimal_text(magnitude).as_str());
        assert("-"@ == seq!['-']);
        text
    }
}

/// Where a text starts once its first white space is left out.
proof fn lemma_trimmed_start(text: Seq<char>) -> (from: int)
    ensures
        0 <= from <= text.len(),
        trimmed_start(text) == text.skip(from),
        forall|i: int| 0 <= i < from ==> white_space(#[trigger] text[i]),
        from < text.len() ==> !white_space(text[from]),
    decreases text.len(),
{
    if text.len() > 0 && white_space(text[0]) {
        let rest = text.drop_first();
        let k = lemma_trimmed_start(rest);
        assert(rest.skip(k) == text.skip(k + 1));
        assert forall|i: int| 0 <= i < k + 1 implies white_space(#[trigger] text[i]) by {
            if i > 0 {
                assert(rest[i - 1] == text[i]);
            }
        }
        if k < rest.len() {
            assert(rest[k] == text[k + 1]);
        }
        k + 1
    } else {
        assert(text.skip(0) == text);
        0
    }
}

/// Where a text ends once its last white space is left out.
proof fn lemma_trimmed_end(text: Seq<char>) -> (to: int)
    ensures
        0 <= to <= text.len(),
        trimmed_end(text) == text.take(to),
        forall|i: int| to <= i < text.len() ==> white_space(#[trigger] text[i]),
        to > 0 ==> !white_space(text[to - 1]),
    decreases text.len(),
{
    if text.len() > 0 && white_space(text.last()) {
        let rest = text.drop_last();
        let k = lemma_trimmed_end(rest);
        assert(rest.take(k) == text.take(k));
        assert forall|i: int| k <= i < text.len() implies white_space(#[trigger] text[i]) by {
            if i < rest.len() {
                assert(rest[i] == text[i]);
            }
        }
        k
    } else {
        assert(text.take(text.len() as int) == text);
        text.len() as int
    }
}

/// Leaving out the white space at the start of a text leaves a later part of
/// it. Only white space goes, and what is left starts with none.
pub proof fn law_trimmed_start(text: Seq<char>)
    ensures
        exists|from: int|
            0 <= from <= text.len() && #[trigger] text.skip(from) == trimmed_start(text) && (
            forall|i: int| 0 <= i < from ==> white_space(#[trigger] text[i])) && (from < text.len()
                ==> !white_space(text[from])),
{
    let from = lemma_trimmed_start(text);
    assert(text.skip(from) == trimmed_start(text));
}

/// Leaving out the white space around a text leaves a part of it. Only white
/// space goes, and what is left neither starts nor ends with any.
pub proof fn law_trimmed(text: Seq<char>)
    ensures
        exists|from: int, to: int|
            0 <= from <= to <= text.len() && #[trigger] text.subrange(from, to) == trimmed(text)
                && (forall|i: int| 0 <= i < from ==> white_space(#[trigger] text[i])) && (forall|
                i: int,
            |
                to <= i < text.len() ==> white_space(#[trigger] text[i])) && (from < to
                ==> !white_space(text[from]) && !white_space(text[to - 1])),
{
    let from = lemma_trimmed_start(text);
    let rest = text.skip(from);
    let k = lemma_trimmed_end(rest);
    let to = from + k;
    assert(text.subrange(from, to) == rest.take(k));
    assert forall|i: int| to <= i < text.len() implies white_space(#[trigger] text[i]) by {
        assert(rest[i - from] == text[i]);
    }
    if from < to {
        assert(rest[k - 1] == text[to - 1]);
    }
}

/// Leaving out a character at the start of a text leaves a later part of it.
/// Only that character goes, and what is left does not start with it.
pub proof fn law_without_leading(text: Seq<char>, c: char)
    ensures
        exists|from: int|
            0 <= from <= text.len() && #[trigger] text.skip(from) == without_leading(text, c) && (
            forall|i: int| 0 <= i < from ==> #[trigger] text[i] == c) && (from < text.len()
                ==> text[from] != c),
    decreases text.len(),
{
    if text.len() > 0 && text[0] == c {
        let rest = text.drop_first();
        law_without_leading(rest, c);
        let k = choose|k: int|
            0 <= k <= rest.len() && #[trigger] rest.skip(k) == without_leading(rest, c) && (forall|
                i: int,
            |
                0 <= i < k ==> #[trigger] rest[i] == c) && (k < rest.len() ==> rest[k] != c);
        assert(text.skip(k + 1) == rest.skip(k));
        assert forall|i: int| 0 <= i < k + 1 implies #[trigger] text[i] == c by {
            if i > 0 {
                assert(rest[i - 1] == text[i]);
            }
        }
        if k < rest.len() {
            assert(rest[k] == text[k + 1]);
        }
    } else {
        assert(text.skip(0) == text);
    }
}

/// A word stands in a text where all its characters do, one after the other.
pub proof fn law_stands_at(text: Seq<char>, at: int, word: Seq<char>)
    ensures
        stands_at(text, at, word) <==> 0 <= at && at + word.len() <= text.len() && forall|k: int|
            0 <= k < word.len() ==> text[at + k] == #[trigger] word[k],
{
    if stands_at(text, at, word) {
        let cut = text.subrange(at, at + word.len());
        assert forall|k: int| 0 <= k < word.len() implies text[at + k] == #[trigger] word[k] by {
            assert(cut[k] == text[at + k]);
        }
    } else if 0 <= at && at + word.len() <= text.len() && forall|k: int|
        0 <= k < word.len() ==> text[at + k] == #[trigger] word[k] {
        assert(text.subrange(at, at + word.len()) == word);
    }
}

/// Nothing is replaced in a start in which the word stands nowhere.
pub proof fn lemma_replaced_past(
    start: Seq<char>,
    rest: Seq<char>,
    from: Seq<char>,
    to: Seq<char>,
)
    requires
        from.len() > 0,
        forall|i: int| 0 <= i < start.len() ==> !#[trigger] stands_at(start + rest, i, from),
    ensures
        replaced(start + rest, from, to) == start + replaced(rest, from, to),
    decreases start.len(),
{
    if start.len() == 0 {
        assert(start + rest == rest);
        assert(start + replaced(rest, from, to) == replaced(rest, from, to));
    } else {
        let all = start + rest;
        let shorter = start.drop_first();
        assert(!stands_at(all, 0, from));
        assert(all.drop_first() == shorter + rest);
        assert forall|i: int| 0 <= i < shorter.len() implies !#[trigger] stands_at(
            shorter + rest,
            i,
            from,
        ) by {
            assert(!stands_at(all, i + 1, from));
            if stands_at(shorter + rest, i, from) {
                assert(all.subrange(i + 1, i + 1 + from.len()) == (shorter + rest).subrange(
                    i,
                    i + from.len(),
                ));
            }
        }
        lemma_replaced_past(shorter, rest, from, to);
        assert(seq![all[0]] + (shorter + replaced(rest, from, to)) == start + replaced(
            rest,
            from,
            to,
        ));
    }
}

/// Replacing goes from the left: what stands before the first place of the
/// word stays as it is, the word there becomes the other one, and the rest is
/// gone through in the same way. Where the word stands nowhere, the text stays.
pub proof fn law_replaced(text: Seq<char>, from: Seq<char>, to: Seq<char>, at: int)
    requires
        from.len() > 0,
    ensures
        stands_at(text, at, from) && (forall|i: int|
            0 <= i < at ==> !#[trigger] stands_at(text, i, from)) ==> replaced(text, from, to)
            == text.take(at) + to + replaced(text.skip(at + from.len()), from, to),
        (forall|i: int| 0 <= i < text.len() ==> !#[trigger] stands_at(text, i, from))
            ==> replaced(text, from, to) == text,
{
    if stands_at(text, at, from) && forall|i: int|
        0 <= i < at ==> !#[trigger] stands_at(text, i, from) {
        let start = text.take(at);
        let rest = text.skip(at);
        assert(start + rest == text);
        lemma_replaced_past(start, rest, from, to);
        assert(rest.subrange(0, from.len() as int) == text.subrange(at, at + from.len()));
        assert(rest.skip(from.len() as int) == text.skip(at + from.len()));
        let tail = replaced(text.skip(at + from.len()), from, to);
        assert(start + (to + tail) == start + to + tail);
    }
    if forall|i: int| 0 <= i < text.len() ==> !#[trigger] stands_at(text, i, from) {
        let none = Seq::<char>::empty();
        assert(text + none == text);
        lemma_replaced_past(text, none, from, to);
        assert(text + replaced(none, from, to) == text);
    }
}

/// Joining the parts of two lists is joining each of them, with the separator
/// between the two. A single part is joined to itself, and no parts to
/// nothing.
pub proof fn law_joined(a: Seq<Seq<char>>, b: Seq<Seq<char>>, separator: Seq<char>)
    ensures
        a.len() > 0 && b.len() > 0 ==> joined(a + b, separator) == joined(a, separator) + separator
            + joined(b, separator),
        a.len() == 1 ==> joined(a, separator) == a[0],
        a.len() == 0 ==> joined(a, separator) == Seq::<char>::empty(),
    decreases b.len(),
{
    if a.len() > 0 && b.len() > 0 {
        let all = a + b;
        assert(all.last() == b.last());
        assert(all.drop_last() == a + b.drop_last());
        if b.len() == 1 {
            assert(a + b.drop_last() == a);
            assert(b.last() == b[0]);
        } else {
            law_joined(a, b.drop_last(), separator);
            assert(joined(a, separator) + separator + joined(b.drop_last(), separator) + separator
                + b.last() == joined(a, separator) + separator + (joined(
                b.drop_last(),
                separator,
            ) + separator + b.last()));
        }
    }
}

/// Decimal notation: one more digit is worth that digit, and ten times what
/// stood before it. Different numbers are written differently.
pub proof fn law_decimal(n: nat, low: nat, other: nat)
    requires
        low < 10,
    ensures
        n > 0 ==> decimal(10 * n + low) == decimal(n).push(('0' as u32 + low) as char),
        decimal(low) == seq![('0' as u32 + low) as char],
        decimal(n) == decimal(other) ==> n == other,
    decreases n,
{
    assert((10 * n + low) / 10 == n && (10 * n + low) % 10 == low);
    if decimal(n) == decimal(other) {
        assert(decimal(n).last() == digit((n % 10) as int));
        assert(decimal(other).last() == digit((other % 10) as int));
        assert(n % 10 == other % 10);
        lemma_decimal_is_not_empty(n / 10);
        lemma_decimal_is_not_empty(other / 10);
        if n >= 10 {
            assert(decimal(n).drop_last() == decimal(n / 10));
            if other >= 10 {
                assert(decimal(other).drop_last() == decimal(other / 10));
                law_decimal(n / 10, low, other / 10);
            } else {
                assert(decimal(other).len() == 1);
            }
        } else {
            assert(decimal(n).len() == 1);
        }
    }
}

proof fn lemma_decimal_is_not_empty(n: nat)
    ensures
        decimal(n).len() > 0,
{
}

/// A negative number is written like the positive one with a sign before it.
pub proof fn law_signed_decimal(n: nat)
    ensures
        signed_decimal(n as int) == decimal(n),
        n > 0 ==> signed_decimal(-(n as int)) == seq!['-'] + decimal(n),
{
}

/// Small letters: of an ASCII text every character stays in its place, and it
/// changes only where it is a capital, which becomes the letter 32 code points
/// further on. What is in small letters already stays as it is.
pub proof fn law_small_letters(text: Seq<char>, i: int)
    requires
        all_ascii(text),
        0 <= i < text.len(),
    ensures
        small_letters(text).len() == text.len(),
        'A' <= text[i] <= 'Z' ==> small_letters(text)[i] as u32 == text[i] as u32 + 32,
        !('A' <= text[i] <= 'Z') ==> small_letters(text)[i] == text[i],
        small_letters(small_letters(text)) == small_letters(text),
{
    let small = small_letters(text);
    assert forall|k: int| 0 <= k < small.len() implies (#[trigger] small[k] as u32) < 128 && !('A'
        <= small[k] <= 'Z') by {
        assert((text[k] as u32) < 128);
    }
    assert(small_letters(small) == small);
}

/// The views of strings are what the strings hold, one by one.
pub proof fn law_texts(strings: Seq<String>)
    ensures
        texts(strings).len() == strings.len(),
        forall|i: int| 0 <= i < strings.len() ==> #[trigger] texts(strings)[i] == strings[i]@,
{
}

/// An ASCII text holds nothing but characters below 128.
pub proof fn law_all_ascii(text: Seq<char>)
    ensures
        all_ascii(text) <==> forall|i: int| 0 <= i < text.len() ==> (#[trigger] text[i] as u32) < 128,
{
}

} // verus!
